use vstd::prelude::*;
use vstd::utf8::encode_utf8;

verus! {

/// Carriage return, the first byte of the line terminator.
pub const CR: u8 = 13;

/// Line feed, the second byte of the line terminator.
pub const LF: u8 = 10;

/// Tag byte of a simple string line (`+`).
pub const TAG_SIMPLE: u8 = 43;

/// Tag byte of a bulk string length line (`$`).
pub const TAG_BULK: u8 = 36;

/// Tag byte of an array length line (`*`).
pub const TAG_ARRAY: u8 = 42;

/// The two-byte line terminator as a sequence.
pub open spec fn crlf() -> Seq<u8> {
    seq![CR, LF]
}

/// Mathematical model of a wire value: the view of [`RespValue`].
pub enum ValueModel {
    SimpleString(Seq<char>),
    BulkString(Seq<u8>),
    Array(Seq<ValueModel>),
    Nil,
}

/// A wire-level datum of the line-oriented protocol.
///
/// `SimpleString` carries UTF-8 text that holds no line terminator byte;
/// `BulkString` carries arbitrary bytes with an explicit length;
/// `Array` carries an ordered sequence of nested values;
/// `Nil` is the absence of a value, used for "key not found".
#[derive(Debug, PartialEq, Eq)]
pub enum RespValue {
    SimpleString(String),
    BulkString(Vec<u8>),
    Array(Vec<RespValue>),
    Nil,
}

impl View for RespValue {
    type V = ValueModel;

    open spec fn view(&self) -> ValueModel
        decreases self,
    {
        match self {
            RespValue::SimpleString(s) => ValueModel::SimpleString(s@),
            RespValue::BulkString(b) => ValueModel::BulkString(b@),
            RespValue::Array(items) => ValueModel::Array(
                Seq::new(
                    items.len() as nat,
                    |i: int|
                        if 0 <= i < items.len() {
                            items[i].view()
                        } else {
                            ValueModel::Nil
                        },
                ),
            ),
            RespValue::Nil => ValueModel::Nil,
        }
    }
}

impl DeepView for RespValue {
    type V = ValueModel;

    open spec fn deep_view(&self) -> ValueModel {
        self.view()
    }
}

/// An array's view is the array of the item views.
pub proof fn lemma_array_view(items: Vec<RespValue>)
    ensures
        RespValue::Array(items)@ == ValueModel::Array(items.deep_view()),
{
    match RespValue::Array(items)@ {
        ValueModel::Array(s) => {
            assert(s =~= items.deep_view());
        },
        _ => {
            assert(false);
        },
    }
}

/// The decimal digits of `n`, most significant first, as ASCII bytes.
pub open spec fn spec_decimal(n: nat) -> Seq<u8>
    decreases n,
{
    if n < 10 {
        seq![(48 + n) as u8]
    } else {
        spec_decimal(n / 10).push((48 + n % 10) as u8)
    }
}

/// True when the text is free of both line-terminator characters, the
/// invariant every well-formed simple string obeys.
pub open spec fn simple_text_ok(s: Seq<char>) -> bool {
    forall|i: int| 0 <= i < s.len() ==> s[i] != '\r' && s[i] != '\n'
}

/// True when the bytes contain no two-byte line terminator.
pub open spec fn no_crlf(b: Seq<u8>) -> bool {
    forall|i: int| 0 <= i && i + 1 < b.len() ==> !(#[trigger] b[i] == CR && b[i + 1] == LF)
}

/// The serialization of a value: tag byte, decimal lengths, terminators.
/// `Nil` serializes as the negative-length bulk-string sentinel `$-1`.
pub open spec fn spec_encode(v: ValueModel) -> Seq<u8>
    decreases v,
{
    match v {
        ValueModel::SimpleString(s) => seq![TAG_SIMPLE] + encode_utf8(s) + crlf(),
        ValueModel::BulkString(b) => seq![TAG_BULK] + spec_decimal(b.len()) + crlf() + b + crlf(),
        ValueModel::Array(items) => seq![TAG_ARRAY] + spec_decimal(items.len()) + crlf()
            + spec_encode_items(items),
        ValueModel::Nil => seq![TAG_BULK, 45u8, 49u8] + crlf(),
    }
}

/// The concatenation of the serializations of `items`, in order.
pub open spec fn spec_encode_items(items: Seq<ValueModel>) -> Seq<u8>
    decreases items,
{
    if items.len() == 0 {
        Seq::empty()
    } else {
        spec_encode(items[0]) + spec_encode_items(items.drop_first())
    }
}

impl RespValue {
    /// Decodes a buffer holding exactly one value.
    pub fn from_resp(wire: &[u8]) -> (r: Result<RespValue, crate::error::Error>)
        ensures
            r matches Ok(v) ==> crate::parser::spec_decode(wire@) == Ok::<
                ValueModel,
                crate::error::Error,
            >(v@),
            r matches Err(e) ==> crate::parser::spec_decode(wire@) == Err::<
                ValueModel,
                crate::error::Error,
            >(e),
    {
        crate::parser::RespParser::parse_single(wire)
    }

    /// Decodes a buffer holding a pipelined run of values.
    pub fn from_resp_all(wire: &[u8]) -> (r: Result<Vec<RespValue>, crate::error::Error>)
        ensures
            r matches Ok(vs) ==> crate::parser::spec_decode_all(wire@) == Ok::<
                Seq<ValueModel>,
                crate::error::Error,
            >(vs.deep_view()),
            r matches Err(e) ==> crate::parser::spec_decode_all(wire@) == Err::<
                Seq<ValueModel>,
                crate::error::Error,
            >(e),
    {
        crate::parser::RespParser::parse(wire)
    }

    /// Appends the serialization of the value to a byte sink.
    /// Serialization never fails.
    pub fn write_resp(&self, out: &mut Vec<u8>)
        ensures
            final(out)@ == old(out)@ + spec_encode(self@),
    {
        crate::serializer::RespSerializer::serialize(out, self);
    }

    /// Serializes the value into a fresh buffer. Serialization never
    /// fails.
    pub fn to_resp(&self) -> (r: Vec<u8>)
        ensures
            r@ == spec_encode(self@),
    {
        let mut buf: Vec<u8> = Vec::new();
        crate::serializer::RespSerializer::serialize(&mut buf, self);
        proof {
            assert(buf@ =~= spec_encode(self@));
        }
        buf
    }
}

/// True of the value trees whose serialization parses back to the same
/// tree: simple strings hold no line terminator (their invariant), bulk
/// payloads contain no embedded two-byte terminator (the line-splitting
/// framing cannot carry one), and lengths fit the 32-bit length prefix.
pub open spec fn encodable(v: ValueModel) -> bool
    decreases v,
{
    match v {
        ValueModel::SimpleString(s) => simple_text_ok(s),
        ValueModel::BulkString(b) => no_crlf(b) && b.len() <= u32::MAX,
        ValueModel::Array(items) => items.len() <= u32::MAX && (forall|i: int|
            0 <= i < items.len() ==> encodable(#[trigger] items[i])),
        ValueModel::Nil => true,
    }
}

} // verus!
