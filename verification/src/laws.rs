use vstd::prelude::*;
use vstd::utf8::{
    char_is_scalar, char_u32_cast, encode_scalar, encode_utf8, encode_utf8_decode_utf8,
    encode_utf8_valid_utf8,
};
use crate::command::{spec_execute, CommandModel};
use crate::database::{spec_live, EntryModel};
use crate::error::Error;
use crate::lines::{crlf_at, lemma_find_crlf_at, spec_find_crlf, spec_split};
use crate::num::{lemma_decimal_digits, spec_parse_u32, spec_parse_uint};
use crate::parser::{
    all_empty_from, line_clean, nil_token, spec_decode, spec_parse_items, spec_parse_value,
};
use crate::value::{
    crlf, encodable, no_crlf, simple_text_ok, spec_decimal, spec_encode, spec_encode_items,
    ValueModel, CR, LF, TAG_ARRAY, TAG_BULK, TAG_SIMPLE,
};

verus! {

/// The logical lines the serialization of a value occupies.
spec fn lines_of(v: ValueModel) -> Seq<Seq<u8>>
    decreases v,
{
    match v {
        ValueModel::SimpleString(s) => seq![seq![TAG_SIMPLE] + encode_utf8(s)],
        ValueModel::BulkString(b) => seq![seq![TAG_BULK] + spec_decimal(b.len()), b],
        ValueModel::Array(items) => seq![seq![TAG_ARRAY] + spec_decimal(items.len())]
            + lines_of_items(items),
        ValueModel::Nil => seq![seq![TAG_BULK] + nil_token()],
    }
}

/// The logical lines the serializations of the items occupy, in order.
spec fn lines_of_items(items: Seq<ValueModel>) -> Seq<Seq<u8>>
    decreases items,
{
    if items.len() == 0 {
        Seq::empty()
    } else {
        lines_of(items[0]) + lines_of_items(items.drop_first())
    }
}

/// Every value's serialization occupies at least one line.
proof fn lemma_lines_of_nonempty(v: ValueModel)
    ensures
        lines_of(v).len() >= 1,
{
}

/// No byte of the encoding of terminator-free text is a terminator
/// byte: the one-byte encodings are the characters themselves and the
/// longer encodings use only bytes of the high half.
proof fn lemma_utf8_clean(s: Seq<char>)
    requires
        simple_text_ok(s),
    ensures
        forall|i: int|
            0 <= i < encode_utf8(s).len() ==> #[trigger] encode_utf8(s)[i] != CR && encode_utf8(
                s,
            )[i] != LF,
    decreases s.len(),
{
    if s.len() == 0 {
    } else {
        let c = s[0];
        let u = c as u32;
        char_is_scalar(c);
        lemma_scalar_clean(c);
        lemma_utf8_clean(s.drop_first());
        let head = encode_scalar(u);
        let tail = encode_utf8(s.drop_first());
        assert(encode_utf8(s) =~= head + tail);
        assert forall|i: int|
            0 <= i < encode_utf8(s).len() implies #[trigger] encode_utf8(s)[i] != CR && encode_utf8(
            s,
        )[i] != LF by {
            if i < head.len() {
                assert(encode_utf8(s)[i] == head[i]);
            } else {
                assert(encode_utf8(s)[i] == tail[i - head.len()]);
            }
        }
    }
}

/// No byte of the encoding of a character other than the terminator
/// characters is a terminator byte.
proof fn lemma_scalar_clean(c: char)
    requires
        c != '\r',
        c != '\n',
    ensures
        forall|i: int|
            0 <= i < encode_scalar(c as u32).len() ==> #[trigger] encode_scalar(c as u32)[i] != CR
                && encode_scalar(c as u32)[i] != LF,
{
    char_is_scalar(c);
    let u = c as u32;
    if u <= 0x7f {
        assert((u & 0x7f) == u) by (bit_vector)
            requires
                u <= 0x7f,
        ;
        assert(u != 13 && u != 10) by {
            char_u32_cast(c, u);
            char_u32_cast('\r', '\r' as u32);
            char_u32_cast('\n', '\n' as u32);
            assert('\r' as u32 == 13);
            assert('\n' as u32 == 10);
        }
        assert(encode_scalar(u) =~= seq![(u & 0x7F) as u8]);
        assert(((u & 0x7F) as u8) != CR && ((u & 0x7F) as u8) != LF);
    } else {
        assert((0xC0u8 | (((u >> 6u32) & 0x1F) as u8)) >= 0x80 && (0xE0u8 | (((u >> 12u32)
            & 0x0F) as u8)) >= 0x80 && (0xF0u8 | (((u >> 18u32) & 0x7) as u8)) >= 0x80 && (0x80u8
            | ((u & 0x3F) as u8)) >= 0x80 && (0x80u8 | (((u >> 6u32) & 0x3F) as u8)) >= 0x80 && (
        0x80u8 | (((u >> 12u32) & 0x3F) as u8)) >= 0x80) by (bit_vector);
    }
}

/// Splitting a terminator-free segment, a terminator, and a remainder
/// yields the segment and then the remainder's split.
proof fn lemma_split_segment(a: Seq<u8>, rest: Seq<u8>)
    requires
        no_crlf(a),
    ensures
        spec_split(a + crlf() + rest) == seq![a] + spec_split(rest),
{
    let s = a + crlf() + rest;
    let n = a.len() as int;
    assert(s[n] == CR && s[n + 1] == LF);
    assert(crlf_at(s, n));
    assert forall|j: int| 0 <= j < n implies !#[trigger] crlf_at(s, j) by {
        if crlf_at(s, j) {
            if j + 1 < n {
                assert(a[j] == s[j] && a[j + 1] == s[j + 1]);
            } else {
                assert(s[j + 1] == CR);
            }
        }
    }
    lemma_find_crlf_at(s, n);
    assert(s.subrange(0, n) =~= a);
    assert(s.skip(n + 2) =~= rest);
}

/// The split of a value's serialization followed by anything: the
/// value's lines, then the split of the rest.
proof fn lemma_split_encode(v: ValueModel, rest: Seq<u8>)
    requires
        encodable(v),
    ensures
        spec_split(spec_encode(v) + rest) == lines_of(v) + spec_split(rest),
    decreases v,
{
    match v {
        ValueModel::SimpleString(s) => {
            lemma_utf8_clean(s);
            let a = seq![TAG_SIMPLE] + encode_utf8(s);
            assert(no_crlf(a)) by {
                assert forall|i: int| 0 <= i < a.len() implies #[trigger] a[i] != CR by {
                    if i >= 1 {
                        assert(a[i] == encode_utf8(s)[i - 1]);
                    }
                }
            }
            assert(spec_encode(v) + rest =~= a + crlf() + rest);
            lemma_split_segment(a, rest);
            assert(lines_of(v) + spec_split(rest) =~= seq![a] + spec_split(rest));
        },
        ValueModel::BulkString(b) => {
            lemma_decimal_digits(b.len());
            let h = seq![TAG_BULK] + spec_decimal(b.len());
            assert(no_crlf(h)) by {
                assert forall|i: int| 0 <= i < h.len() implies #[trigger] h[i] != CR by {
                    if i >= 1 {
                        assert(h[i] == spec_decimal(b.len())[i - 1]);
                    }
                }
            }
            assert(spec_encode(v) + rest =~= h + crlf() + (b + crlf() + rest));
            lemma_split_segment(h, b + crlf() + rest);
            lemma_split_segment(b, rest);
            assert(lines_of(v) + spec_split(rest) =~= seq![h] + (seq![b] + spec_split(rest)));
        },
        ValueModel::Array(items) => {
            lemma_decimal_digits(items.len());
            let h = seq![TAG_ARRAY] + spec_decimal(items.len());
            assert(no_crlf(h)) by {
                assert forall|i: int| 0 <= i < h.len() implies #[trigger] h[i] != CR by {
                    if i >= 1 {
                        assert(h[i] == spec_decimal(items.len())[i - 1]);
                    }
                }
            }
            assert(spec_encode(v) + rest =~= h + crlf() + (spec_encode_items(items) + rest));
            lemma_split_segment(h, spec_encode_items(items) + rest);
            lemma_split_encode_items(items, rest);
            assert(lines_of(v) + spec_split(rest) =~= seq![h] + (lines_of_items(items)
                + spec_split(rest)));
        },
        ValueModel::Nil => {
            let h = seq![TAG_BULK] + nil_token();
            assert(no_crlf(h));
            assert(spec_encode(v) + rest =~= h + crlf() + rest);
            lemma_split_segment(h, rest);
            assert(lines_of(v) + spec_split(rest) =~= seq![h] + spec_split(rest));
        },
    }
}

/// The split of an item list's serialization followed by anything: the
/// items' lines, then the split of the rest.
proof fn lemma_split_encode_items(items: Seq<ValueModel>, rest: Seq<u8>)
    requires
        forall|i: int| 0 <= i < items.len() ==> encodable(#[trigger] items[i]),
    ensures
        spec_split(spec_encode_items(items) + rest) == lines_of_items(items) + spec_split(rest),
    decreases items,
{
    if items.len() == 0 {
        assert(spec_encode_items(items) + rest =~= rest);
        assert(lines_of_items(items) + spec_split(rest) =~= spec_split(rest));
    } else {
        assert(encodable(items[0]));
        assert(spec_encode_items(items) + rest =~= spec_encode(items[0]) + (spec_encode_items(
            items.drop_first(),
        ) + rest));
        lemma_split_encode(items[0], spec_encode_items(items.drop_first()) + rest);
        assert forall|i: int|
            0 <= i < items.drop_first().len() implies encodable(
            #[trigger] items.drop_first()[i],
        ) by {
            assert(items.drop_first()[i] == items[i + 1]);
        }
        lemma_split_encode_items(items.drop_first(), rest);
        assert(lines_of_items(items) + spec_split(rest) =~= lines_of(items[0]) + (lines_of_items(
            items.drop_first(),
        ) + spec_split(rest)));
    }
}

/// Parsing at the start of a value's lines yields that value and stops
/// right after them.
proof fn lemma_parse_encoded(v: ValueModel, lines: Seq<Seq<u8>>, pos: int)
    requires
        encodable(v),
        0 <= pos,
        pos + lines_of(v).len() <= lines.len(),
        forall|k: int| 0 <= k < lines_of(v).len() ==> lines[pos + k] == #[trigger] lines_of(v)[k],
    ensures
        spec_parse_value(lines, pos) == Ok::<(ValueModel, int), Error>(
            (v, pos + lines_of(v).len()),
        ),
    decreases v,
{
    match v {
        ValueModel::SimpleString(s) => {
            let line = seq![TAG_SIMPLE] + encode_utf8(s);
            assert(lines_of(v)[0] == line);
            assert(lines[pos + 0] == line);
            assert(lines[pos] == line);
            assert(line[0] == TAG_SIMPLE);
            assert(line.drop_first() =~= encode_utf8(s));
            lemma_utf8_clean(s);
            assert(line_clean(encode_utf8(s)));
            encode_utf8_valid_utf8(s);
            encode_utf8_decode_utf8(s);
        },
        ValueModel::BulkString(b) => {
            let line = seq![TAG_BULK] + spec_decimal(b.len());
            assert(lines_of(v)[0] == line && lines_of(v)[1] == b);
            assert(lines[pos + 0] == line && lines[pos + 1] == b);
            assert(lines[pos] == line);
            assert(line[0] == TAG_BULK);
            let digits = spec_decimal(b.len());
            assert(line.drop_first() =~= digits);
            lemma_decimal_digits(b.len());
            assert(digits != nil_token()) by {
                if digits == nil_token() {
                    assert(digits[0] == 45u8);
                    assert(48 <= digits[0] <= 57);
                }
            }
            assert(spec_parse_u32(digits) == Some(b.len() as u32)) by {
                assert(spec_parse_uint(digits) == Some(b.len()));
            }
        },
        ValueModel::Array(items) => {
            let line = seq![TAG_ARRAY] + spec_decimal(items.len());
            assert(lines_of(v)[0] == line);
            assert(lines[pos + 0] == line);
            assert(lines[pos] == line);
            assert(line[0] == TAG_ARRAY);
            let digits = spec_decimal(items.len());
            assert(line.drop_first() =~= digits);
            lemma_decimal_digits(items.len());
            assert(spec_parse_u32(digits) == Some(items.len() as u32)) by {
                assert(spec_parse_uint(digits) == Some(items.len()));
            }
            assert forall|k: int|
                0 <= k < lines_of_items(items).len() implies lines[pos + 1 + k]
                == #[trigger] lines_of_items(items)[k] by {
                assert(lines_of(v)[k + 1] == lines_of_items(items)[k]);
                assert(lines[pos + (k + 1)] == lines_of(v)[k + 1]);
            }
            lemma_parse_encoded_items(items, lines, pos + 1);
            assert((items.len() as u32) as int == items.len() as int);
        },
        ValueModel::Nil => {
            let line = seq![TAG_BULK] + nil_token();
            assert(lines_of(v)[0] == line);
            assert(lines[pos + 0] == line);
            assert(lines[pos] == line);
            assert(line[0] == TAG_BULK);
            assert(line.drop_first() =~= nil_token());
        },
    }
}

/// Parsing at the start of an item list's lines yields those items and
/// stops right after them.
proof fn lemma_parse_encoded_items(items: Seq<ValueModel>, lines: Seq<Seq<u8>>, pos: int)
    requires
        forall|i: int| 0 <= i < items.len() ==> encodable(#[trigger] items[i]),
        0 <= pos,
        pos + lines_of_items(items).len() <= lines.len(),
        forall|k: int|
            0 <= k < lines_of_items(items).len() ==> lines[pos + k] == #[trigger] lines_of_items(
                items,
            )[k],
    ensures
        spec_parse_items(lines, pos, items.len() as int) == Ok::<(Seq<ValueModel>, int), Error>(
            (items, pos + lines_of_items(items).len()),
        ),
    decreases items,
{
    if items.len() == 0 {
        assert(items =~= Seq::<ValueModel>::empty());
    } else {
        let first = items[0];
        let rest = items.drop_first();
        let l0 = lines_of(first).len();
        assert(encodable(first));
        assert forall|k: int| 0 <= k < l0 implies lines[pos + k] == #[trigger] lines_of(first)[k] by {
            assert(lines_of_items(items)[k] == lines_of(first)[k]);
            assert(lines[pos + k] == lines_of_items(items)[k]);
        }
        assert(lines_of_items(items).len() == l0 + lines_of_items(rest).len());
        lemma_parse_encoded(first, lines, pos);
        lemma_lines_of_nonempty(first);
        assert forall|i: int| 0 <= i < rest.len() implies encodable(#[trigger] rest[i]) by {
            assert(rest[i] == items[i + 1]);
        }
        assert forall|k: int|
            0 <= k < lines_of_items(rest).len() implies lines[pos + l0 + k]
            == #[trigger] lines_of_items(rest)[k] by {
            assert(lines_of_items(items)[l0 + k] == lines_of_items(rest)[k]);
            assert(lines[pos + (l0 + k)] == lines_of_items(items)[l0 + k]);
        }
        lemma_parse_encoded_items(rest, lines, pos + l0);
        assert(rest.len() as int == items.len() as int - 1);
        assert(seq![first] + rest =~= items);
    }
}

/// Round trip: decoding the serialization of a value yields exactly
/// that value, for every value tree whose simple strings hold no line
/// terminator (their invariant), whose bulk payloads hold no embedded
/// two-byte terminator, and whose lengths fit the 32-bit length prefix.
pub proof fn lemma_decode_encode(v: ValueModel)
    requires
        encodable(v),
    ensures
        spec_decode(spec_encode(v)) == Ok::<ValueModel, Error>(v),
{
    let enc = spec_encode(v);
    assert(enc.len() > 0);
    lemma_split_encode(v, Seq::empty());
    assert(enc + Seq::<u8>::empty() =~= enc);
    assert(spec_find_crlf(Seq::<u8>::empty()) is None);
    assert(spec_split(Seq::<u8>::empty()) =~= seq![Seq::<u8>::empty()]);
    let lines = spec_split(enc);
    let l = lines_of(v).len() as int;
    assert(lines =~= lines_of(v) + seq![Seq::<u8>::empty()]);
    assert forall|k: int| 0 <= k < l implies lines[k] == #[trigger] lines_of(v)[k] by {}
    lemma_parse_encoded(v, lines, 0);
    assert(all_empty_from(lines, l)) by {
        assert forall|j: int| l <= j < lines.len() implies #[trigger] lines[j].len() == 0 by {
            assert(lines[j] =~= Seq::<u8>::empty());
        }
    }
}

/// Idempotence of reads: looking an unmodified, unexpired key up leaves
/// the store alone and returns the same bulk string every time.
pub proof fn lemma_get_idempotent(
    db: Map<Seq<u8>, EntryModel>,
    key: Seq<u8>,
    now1: u64,
    now2: u64,
)
    requires
        db.contains_key(key),
        spec_live(db[key], now1),
        spec_live(db[key], now2),
    ensures
        spec_execute(CommandModel::Get { key }, db, now1).1 == db,
        spec_execute(CommandModel::Get { key }, db, now1).0 == ValueModel::BulkString(
            db[key].value,
        ),
        spec_execute(CommandModel::Get { key }, db, now1).0 == spec_execute(
            CommandModel::Get { key },
            db,
            now2,
        ).0,
{
}

/// Writes are last-writer-wins: after two sets of the same key, a get
/// that finds the entry live returns the second value.
pub proof fn lemma_set_last_writer_wins(
    db: Map<Seq<u8>, EntryModel>,
    key: Seq<u8>,
    v1: Seq<u8>,
    e1: Option<u64>,
    t1: u64,
    v2: Seq<u8>,
    e2: Option<u64>,
    t2: u64,
    t3: u64,
)
    requires
        spec_live(EntryModel { value: v2, created_at_ms: t2, expiry_ms: e2 }, t3),
    ensures
        ({
            let db1 = spec_execute(
                CommandModel::SetValue { key, value: v1, expiry_ms: e1 },
                db,
                t1,
            ).1;
            let db2 = spec_execute(
                CommandModel::SetValue { key, value: v2, expiry_ms: e2 },
                db1,
                t2,
            ).1;
            spec_execute(CommandModel::Get { key }, db2, t3).0 == ValueModel::BulkString(v2)
        }),
{
}

/// The expiry boundary: after a set with a time-to-live, a get strictly
/// before creation time plus time-to-live returns the value, and a get
/// at or after that moment returns the nil sentinel.
pub proof fn lemma_expiry_boundary(
    db: Map<Seq<u8>, EntryModel>,
    key: Seq<u8>,
    value: Seq<u8>,
    ttl: u64,
    t0: u64,
    t: u64,
)
    ensures
        ({
            let db1 = spec_execute(
                CommandModel::SetValue { key, value, expiry_ms: Some(ttl) },
                db,
                t0,
            ).1;
            &&& (t < t0 + ttl ==> spec_execute(CommandModel::Get { key }, db1, t).0
                == ValueModel::BulkString(value))
            &&& (t >= t0 + ttl ==> spec_execute(CommandModel::Get { key }, db1, t).0
                == ValueModel::Nil)
        }),
{
}

/// An unknown key: a get of a key the store does not hold returns the
/// nil sentinel, never an error, and leaves the store alone.
pub proof fn lemma_get_missing(db: Map<Seq<u8>, EntryModel>, key: Seq<u8>, now_ms: u64)
    requires
        !db.contains_key(key),
    ensures
        spec_execute(CommandModel::Get { key }, db, now_ms).0 == ValueModel::Nil,
        spec_execute(CommandModel::Get { key }, db, now_ms).1 == db,
{
}

} // verus!
