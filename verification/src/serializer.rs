use vstd::prelude::*;
use vstd::slice::slice_to_vec;
use crate::num::decimal_of;
use crate::value::{
    crlf, spec_decimal, spec_encode, spec_encode_items, RespValue, ValueModel, CR, LF, TAG_ARRAY,
    TAG_BULK, TAG_SIMPLE,
};

verus! {

/// Serializing a concatenation of value lists concatenates their
/// serializations.
pub proof fn lemma_encode_items_concat(a: Seq<ValueModel>, b: Seq<ValueModel>)
    ensures
        spec_encode_items(a + b) == spec_encode_items(a) + spec_encode_items(b),
    decreases a.len(),
{
    if a.len() == 0 {
        assert(a + b =~= b);
        assert(spec_encode_items(a) =~= Seq::<u8>::empty());
        assert(spec_encode_items(a) + spec_encode_items(b) =~= spec_encode_items(b));
    } else {
        assert((a + b).drop_first() =~= a.drop_first() + b);
        assert((a + b)[0] == a[0]);
        lemma_encode_items_concat(a.drop_first(), b);
        assert(spec_encode(a[0]) + (spec_encode_items(a.drop_first()) + spec_encode_items(b))
            =~= (spec_encode(a[0]) + spec_encode_items(a.drop_first())) + spec_encode_items(b));
    }
}

/// Serializing one more item appends that item's serialization.
pub proof fn lemma_encode_items_step(items: Seq<ValueModel>, k: int)
    requires
        0 <= k < items.len(),
    ensures
        spec_encode_items(items.take(k + 1)) == spec_encode_items(items.take(k)) + spec_encode(
            items[k],
        ),
{
    assert(items.take(k + 1) =~= items.take(k) + seq![items[k]]);
    lemma_encode_items_concat(items.take(k), seq![items[k]]);
    assert(seq![items[k]].drop_first() =~= Seq::<ValueModel>::empty());
    assert(spec_encode_items(Seq::<ValueModel>::empty()) == Seq::<u8>::empty());
    assert(spec_encode_items(seq![items[k]]) =~= spec_encode(items[k]));
}

/// Writes the line-oriented serialization of values.
pub struct RespSerializer;

impl RespSerializer {
    /// Appends the serialization of `value` to `out`.
    #[verifier::loop_isolation(false)]
    pub fn serialize(out: &mut Vec<u8>, value: &RespValue)
        ensures
            final(out)@ == old(out)@ + spec_encode(value@),
        decreases value,
    {
        let ghost base = out@;
        match value {
            RespValue::SimpleString(s) => {
                out.push(TAG_SIMPLE);
                let mut text = s.as_str().as_bytes_vec();
                out.append(&mut text);
                out.push(CR);
                out.push(LF);
                proof {
                    assert(out@ =~= base + spec_encode(value@));
                }
            },
            RespValue::BulkString(b) => {
                out.push(TAG_BULK);
                let mut digits = decimal_of(b.len());
                out.append(&mut digits);
                out.push(CR);
                out.push(LF);
                let mut payload = slice_to_vec(b.as_slice());
                out.append(&mut payload);
                out.push(CR);
                out.push(LF);
                proof {
                    assert(out@ =~= base + spec_encode(value@));
                }
            },
            RespValue::Array(items) => {
                out.push(TAG_ARRAY);
                let mut digits = decimal_of(items.len());
                out.append(&mut digits);
                out.push(CR);
                out.push(LF);
                let ghost ms = match value@ {
                    ValueModel::Array(ms) => ms,
                    _ => Seq::empty(),
                };
                let ghost header = out@;
                proof {
                    assert(header =~= base + seq![TAG_ARRAY] + spec_decimal(items@.len() as nat)
                        + crlf());
                    assert(spec_encode_items(ms.take(0)) =~= Seq::<u8>::empty());
                    assert(out@ =~= header + spec_encode_items(ms.take(0)));
                }
                let count = items.len();
                let mut idx: usize = 0;
                while idx < count
                    invariant
                        0 <= idx <= count,
                        count == items@.len(),
                        ms.len() == count,
                        forall|i: int| 0 <= i < count ==> ms[i] == #[trigger] items@[i]@,
                        out@ == header + spec_encode_items(ms.take(idx as int)),
                    decreases count - idx,
                {
                    proof {
                        broadcast use vstd::std_specs::vec::group_vec_axioms;

                        assert(*value == RespValue::Array(*items));
                        assert(decreases_to!(RespValue::Array(*items) => *items));
                        assert(decreases_to!(*items => items@[idx as int]));
                    }
                    Self::serialize(out, &items[idx]);
                    proof {
                        lemma_encode_items_step(ms, idx as int);
                    }
                    idx += 1;
                }
                proof {
                    assert(ms.take(count as int) =~= ms);
                    assert(out@ =~= base + spec_encode(value@));
                }
            },
            RespValue::Nil => {
                out.push(TAG_BULK);
                out.push(45);
                out.push(49);
                out.push(CR);
                out.push(LF);
                proof {
                    assert(out@ =~= base + spec_encode(value@));
                }
            },
        }
    }
}

} // verus!
