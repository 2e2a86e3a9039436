use vstd::prelude::*;
use vstd::utf8::{
    codepoint_width_1, codepoint_width_2, codepoint_width_3, codepoint_width_4, decode_utf8,
    is_continuation_byte, is_leading_byte_width_1, is_leading_byte_width_2,
    is_leading_byte_width_3, is_leading_byte_width_4, length_of_first_scalar,
    partial_valid_partial_invalid_utf8, partial_valid_utf8, partial_valid_utf8_extend,
    valid_first_scalar, valid_utf8,
};

verus! {

/// Relies on `String::from_utf8`: on bytes that are a valid UTF-8
/// encoding it returns the string holding exactly those bytes, so its
/// characters are the UTF-8 decoding of the input.
#[verifier::external_body]
pub(crate) fn string_from_utf8(bytes: Vec<u8>) -> (r: String)
    requires
        valid_utf8(bytes@),
    ensures
        r@ == decode_utf8(bytes@),
{
    match String::from_utf8(bytes) {
        Ok(s) => s,
        Err(_) => String::new(),
    }
}

/// Decides whether the bytes are a valid UTF-8 encoding: well-formed
/// leading and continuation bytes, no overlong encoding, no surrogate.
pub fn check_utf8(bytes: &[u8]) -> (r: bool)
    ensures
        r == valid_utf8(bytes@),
{
    let ghost w = bytes@;
    let n = bytes.len();
    let mut i: usize = 0;
    while i < n
        invariant
            w == bytes@,
            n == w.len(),
            0 <= i <= n,
            partial_valid_utf8(w, i as int),
        decreases n - i,
    {
        let ghost rest = w.skip(i as int);
        let b0 = bytes[i];
        proof {
            assert(rest[0] == w[i as int]);
        }
        let width: usize;
        let cp: u32;
        if b0 <= 0x7f {
            width = 1;
            cp = b0 as u32;
            proof {
                assert((b0 & 0x7f) == b0) by (bit_vector)
                    requires
                        b0 <= 0x7f,
                ;
                assert(cp == codepoint_width_1(b0));
            }
        } else if 0xc0 <= b0 && b0 <= 0xdf {
            if n - i < 2 {
                proof {
                    lemma_first_scalar_invalid(w, i as int);
                }
                return false;
            }
            let b1 = bytes[i + 1];
            proof {
                assert(rest[1] == w[i + 1]);
            }
            if !(0x80 <= b1 && b1 <= 0xbf) {
                proof {
                    lemma_first_scalar_invalid(w, i as int);
                }
                return false;
            }
            width = 2;
            cp = (((b0 & 0x1f) as u32) << 6u32) | ((b1 & 0x3f) as u32);
            proof {
                assert(cp == codepoint_width_2(b0, b1));
            }
        } else if 0xe0 <= b0 && b0 <= 0xef {
            if n - i < 3 {
                proof {
                    lemma_first_scalar_invalid(w, i as int);
                }
                return false;
            }
            let b1 = bytes[i + 1];
            let b2 = bytes[i + 2];
            proof {
                assert(rest[1] == w[i + 1] && rest[2] == w[i + 2]);
            }
            if !(0x80 <= b1 && b1 <= 0xbf) || !(0x80 <= b2 && b2 <= 0xbf) {
                proof {
                    lemma_first_scalar_invalid(w, i as int);
                }
                return false;
            }
            width = 3;
            cp = (((b0 & 0x0f) as u32) << 12u32) | (((b1 & 0x3f) as u32) << 6u32) | ((b2
                & 0x3f) as u32);
            proof {
                assert(cp == codepoint_width_3(b0, b1, b2));
            }
        } else if 0xf0 <= b0 && b0 <= 0xf7 {
            if n - i < 4 {
                proof {
                    lemma_first_scalar_invalid(w, i as int);
                }
                return false;
            }
            let b1 = bytes[i + 1];
            let b2 = bytes[i + 2];
            let b3 = bytes[i + 3];
            proof {
                assert(rest[1] == w[i + 1] && rest[2] == w[i + 2] && rest[3] == w[i + 3]);
            }
            if !(0x80 <= b1 && b1 <= 0xbf) || !(0x80 <= b2 && b2 <= 0xbf) || !(0x80 <= b3 && b3
                <= 0xbf) {
                proof {
                    lemma_first_scalar_invalid(w, i as int);
                }
                return false;
            }
            width = 4;
            cp = (((b0 & 0x07) as u32) << 18u32) | (((b1 & 0x3f) as u32) << 12u32) | (((b2
                & 0x3f) as u32) << 6u32) | ((b3 & 0x3f) as u32);
            proof {
                assert(cp == codepoint_width_4(b0, b1, b2, b3));
            }
        } else {
            proof {
                lemma_first_scalar_invalid(w, i as int);
            }
            return false;
        }
        let overlong_or_out_of_range = (width == 2 && cp < 0x80) || (width == 3 && cp < 0x800) || (
        width == 4 && !(0x10000 <= cp && cp <= 0x10ffff));
        let surrogate = 0xd800 <= cp && cp <= 0xdfff;
        if overlong_or_out_of_range || surrogate {
            proof {
                lemma_first_scalar_invalid(w, i as int);
            }
            return false;
        }
        proof {
            assert(valid_first_scalar(rest));
            assert(length_of_first_scalar(rest) == width);
            partial_valid_utf8_extend(w, i as int);
        }
        i += width;
    }
    proof {
        assert(w.subrange(0, w.len() as int) =~= w);
    }
    true
}

/// When the scalar starting at `i` is ill-formed, the whole tail from
/// `i` on, and with it the whole buffer, is not valid UTF-8.
proof fn lemma_first_scalar_invalid(w: Seq<u8>, i: int)
    requires
        partial_valid_utf8(w, i),
        i < w.len(),
        !valid_first_scalar(w.skip(i)),
    ensures
        !valid_utf8(w),
{
    let rest = w.skip(i);
    assert(rest.len() > 0);
    assert(!valid_utf8(rest));
    partial_valid_partial_invalid_utf8(w, i);
}

/// Maps an upper-case ASCII letter to its lower-case form; every other
/// byte is left alone.
pub open spec fn lower_byte(b: u8) -> u8 {
    if 65 <= b && b <= 90 {
        (b + 32) as u8
    } else {
        b
    }
}

/// Byte-wise ASCII lower-casing of a byte string.
pub open spec fn lower_bytes(s: Seq<u8>) -> Seq<u8> {
    s.map_values(|b: u8| lower_byte(b))
}

/// Compares a byte string, lower-cased, against a four-byte word.
pub fn lower_eq4(s: &[u8], c0: u8, c1: u8, c2: u8, c3: u8) -> (r: bool)
    ensures
        r == (lower_bytes(s@) == seq![c0, c1, c2, c3]),
{
    if s.len() != 4 {
        proof {
            assert(lower_bytes(s@).len() == s@.len());
        }
        return false;
    }
    let r = lower_one(s[0]) == c0 && lower_one(s[1]) == c1 && lower_one(s[2]) == c2 && lower_one(
        s[3],
    ) == c3;
    proof {
        if r {
            assert(lower_bytes(s@) =~= seq![c0, c1, c2, c3]);
        } else {
            assert(lower_bytes(s@) != seq![c0, c1, c2, c3]) by {
                if lower_bytes(s@) == seq![c0, c1, c2, c3] {
                    assert(lower_bytes(s@)[0] == c0 && lower_bytes(s@)[1] == c1 && lower_bytes(
                        s@,
                    )[2] == c2 && lower_bytes(s@)[3] == c3);
                }
            }
        }
    }
    r
}

/// Compares a byte string, lower-cased, against a three-byte word.
pub fn lower_eq3(s: &[u8], c0: u8, c1: u8, c2: u8) -> (r: bool)
    ensures
        r == (lower_bytes(s@) == seq![c0, c1, c2]),
{
    if s.len() != 3 {
        proof {
            assert(lower_bytes(s@).len() == s@.len());
        }
        return false;
    }
    let r = lower_one(s[0]) == c0 && lower_one(s[1]) == c1 && lower_one(s[2]) == c2;
    proof {
        if r {
            assert(lower_bytes(s@) =~= seq![c0, c1, c2]);
        } else {
            assert(lower_bytes(s@) != seq![c0, c1, c2]) by {
                if lower_bytes(s@) == seq![c0, c1, c2] {
                    assert(lower_bytes(s@)[0] == c0 && lower_bytes(s@)[1] == c1 && lower_bytes(
                        s@,
                    )[2] == c2);
                }
            }
        }
    }
    r
}

/// Compares a byte string, lower-cased, against a two-byte word.
pub fn lower_eq2(s: &[u8], c0: u8, c1: u8) -> (r: bool)
    ensures
        r == (lower_bytes(s@) == seq![c0, c1]),
{
    if s.len() != 2 {
        proof {
            assert(lower_bytes(s@).len() == s@.len());
        }
        return false;
    }
    let r = lower_one(s[0]) == c0 && lower_one(s[1]) == c1;
    proof {
        if r {
            assert(lower_bytes(s@) =~= seq![c0, c1]);
        } else {
            assert(lower_bytes(s@) != seq![c0, c1]) by {
                if lower_bytes(s@) == seq![c0, c1] {
                    assert(lower_bytes(s@)[0] == c0 && lower_bytes(s@)[1] == c1);
                }
            }
        }
    }
    r
}

/// Lower-cases one byte.
fn lower_one(b: u8) -> (r: u8)
    ensures
        r == lower_byte(b),
{
    if 65 <= b && b <= 90 {
        b + 32
    } else {
        b
    }
}

/// Compares two byte strings for equality.
pub fn bytes_eq(a: &[u8], b: &[u8]) -> (r: bool)
    ensures
        r == (a@ == b@),
{
    if a.len() != b.len() {
        proof {
            assert(a@.len() != b@.len());
        }
        return false;
    }
    let mut i: usize = 0;
    while i < a.len()
        invariant
            a@.len() == b@.len(),
            0 <= i <= a@.len(),
            forall|j: int| 0 <= j < i ==> a@[j] == #[trigger] b@[j],
        decreases a@.len() - i,
    {
        if a[i] != b[i] {
            return false;
        }
        i += 1;
    }
    proof {
        assert(a@ =~= b@);
    }
    true
}

/// Copies the bytes of `v` from position `from` on into a new vector.
pub fn bytes_from(v: &Vec<u8>, from: usize) -> (r: Vec<u8>)
    requires
        from <= v@.len(),
    ensures
        r@ == v@.skip(from as int),
{
    let r = vstd::slice::slice_to_vec(vstd::slice::slice_subrange(v.as_slice(), from, v.len()));
    proof {
        assert(v@.subrange(from as int, v@.len() as int) =~= v@.skip(from as int));
    }
    r
}

} // verus!
