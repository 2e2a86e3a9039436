use vstd::prelude::*;
use vstd::slice::{slice_subrange, slice_to_vec};
use crate::value::{CR, LF};

verus! {

/// True when the two-byte line terminator sits at position `i` of `s`.
pub open spec fn crlf_at(s: Seq<u8>, i: int) -> bool {
    0 <= i && i + 2 <= s.len() && s[i] == CR && s[i + 1] == LF
}

/// The position of the first line terminator in `s`, if any.
pub open spec fn spec_find_crlf(s: Seq<u8>) -> Option<nat>
    decreases s.len(),
{
    if s.len() < 2 {
        None
    } else if s[0] == CR && s[1] == LF {
        Some(0)
    } else {
        match spec_find_crlf(s.drop_first()) {
            Some(i) => Some((i + 1) as nat),
            None => None,
        }
    }
}

/// The logical lines of a buffer: the segments between consecutive line
/// terminators, leftmost first. A buffer without a terminator is one
/// segment; a terminator at the very end contributes an empty final
/// segment.
pub open spec fn spec_split(s: Seq<u8>) -> Seq<Seq<u8>>
    decreases s.len(),
{
    match spec_find_crlf(s) {
        None => seq![s],
        Some(i) => if i + 2 <= s.len() {
            seq![s.subrange(0, i as int)] + spec_split(s.skip(i as int + 2))
        } else {
            seq![s]
        },
    }
}

/// What [`spec_find_crlf`] returns: the first terminator position.
pub proof fn lemma_find_crlf(s: Seq<u8>)
    ensures
        match spec_find_crlf(s) {
            Some(i) => crlf_at(s, i as int) && (forall|j: int|
                0 <= j < i ==> !#[trigger] crlf_at(s, j)),
            None => forall|j: int| !#[trigger] crlf_at(s, j),
        },
    decreases s.len(),
{
    if s.len() < 2 {
    } else if s[0] == CR && s[1] == LF {
    } else {
        let t = s.drop_first();
        lemma_find_crlf(t);
        assert forall|j: int| 1 <= j implies crlf_at(s, j) == crlf_at(t, j - 1) by {
            if crlf_at(s, j) {
                assert(t[j - 1] == s[j] && t[j] == s[j + 1]);
            }
            if crlf_at(t, j - 1) {
                assert(s[j] == t[j - 1] && s[j + 1] == t[j]);
            }
        }
    }
}

/// When a terminator stands at `k` and none stands before it, `k` is
/// what [`spec_find_crlf`] finds.
pub proof fn lemma_find_crlf_at(s: Seq<u8>, k: int)
    requires
        crlf_at(s, k),
        forall|j: int| 0 <= j < k ==> !#[trigger] crlf_at(s, j),
    ensures
        spec_find_crlf(s) == Some(k as nat),
{
    lemma_find_crlf(s);
    match spec_find_crlf(s) {
        Some(i) => {
            if i < k {
                assert(crlf_at(s, i as int));
                assert(false);
            }
            if k < i {
                assert(!crlf_at(s, k));
                assert(false);
            }
        },
        None => {
            assert(!crlf_at(s, k));
            assert(false);
        },
    }
}

/// A buffer without a terminator splits into itself alone.
pub proof fn lemma_split_whole(s: Seq<u8>)
    requires
        forall|j: int| !#[trigger] crlf_at(s, j),
    ensures
        spec_split(s) == seq![s],
{
    lemma_find_crlf(s);
    match spec_find_crlf(s) {
        Some(i) => {
            assert(crlf_at(s, i as int));
            assert(false);
        },
        None => {},
    }
}

/// Splits a buffer on every two-byte line terminator.
pub fn split_crlf(wire: &[u8]) -> (r: Vec<Vec<u8>>)
    ensures
        r.deep_view() == spec_split(wire@),
{
    let ghost w = wire@;
    let mut segs: Vec<Vec<u8>> = Vec::new();
    let mut start: usize = 0;
    let mut i: usize = 0;
    proof {
        assert(segs.deep_view() =~~= Seq::<Seq<u8>>::empty());
        assert(w.skip(0) =~= w);
        assert(segs.deep_view() + spec_split(w) =~~= spec_split(w));
    }
    while wire.len() - i > 1
        invariant
            w == wire@,
            start <= i <= w.len(),
            forall|j: int| start <= j < i ==> !#[trigger] crlf_at(w, j),
            spec_split(w) == segs.deep_view() + spec_split(w.skip(start as int)),
        decreases w.len() - i,
    {
        if wire[i] == CR && wire[i + 1] == LF {
            let seg = slice_to_vec(slice_subrange(wire, start, i));
            proof {
                let rest = w.skip(start as int);
                let k = i - start;
                assert(crlf_at(rest, k)) by {
                    assert(rest[k] == w[i as int] && rest[k + 1] == w[i + 1]);
                }
                assert forall|j: int| 0 <= j < k implies !#[trigger] crlf_at(rest, j) by {
                    if crlf_at(rest, j) {
                        assert(w[start + j] == rest[j] && w[start + j + 1] == rest[j + 1]);
                        assert(crlf_at(w, start + j));
                    }
                }
                lemma_find_crlf_at(rest, k);
                assert(rest.subrange(0, k) =~= w.subrange(start as int, i as int));
                assert(rest.skip(k + 2) =~= w.skip(i as int + 2));
                assert(spec_split(rest) == seq![seg@] + spec_split(w.skip(i as int + 2)));
            }
            let ghost segs_before = segs.deep_view();
            segs.push(seg);
            proof {
                assert(segs.deep_view() =~~= segs_before.push(seg@));
                assert(segs_before.push(seg@) + spec_split(w.skip(i as int + 2)) =~~= segs_before
                    + spec_split(w.skip(start as int)));
            }
            start = i + 2;
            i = i + 2;
        } else {
            proof {
                assert(!crlf_at(w, i as int));
            }
            i = i + 1;
        }
    }
    let seg = slice_to_vec(slice_subrange(wire, start, wire.len()));
    proof {
        let rest = w.skip(start as int);
        assert forall|j: int| !#[trigger] crlf_at(rest, j) by {
            if crlf_at(rest, j) {
                assert(w[start + j] == rest[j] && w[start + j + 1] == rest[j + 1]);
                assert(crlf_at(w, start + j));
                assert(start + j < i);
            }
        }
        lemma_split_whole(rest);
        assert(rest =~= w.subrange(start as int, w.len() as int));
    }
    let ghost segs_before = segs.deep_view();
    segs.push(seg);
    proof {
        assert(segs.deep_view() =~~= segs_before.push(seg@));
        assert(segs_before.push(seg@) =~~= segs_before + seq![seg@]);
        assert(segs.deep_view() =~~= spec_split(w));
    }
    segs
}

} // verus!
