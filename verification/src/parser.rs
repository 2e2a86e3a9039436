use vstd::prelude::*;
use vstd::slice::{slice_subrange, slice_to_vec};
use vstd::utf8::{decode_utf8, valid_utf8};
use crate::error::Error;
use crate::lines::{spec_split, split_crlf};
use crate::num::{parse_u32_token, spec_parse_u32};
use crate::text::{bytes_from, check_utf8, string_from_utf8};
use crate::value::{RespValue, ValueModel, CR, LF, TAG_ARRAY, TAG_BULK, TAG_SIMPLE};

verus! {

/// True when the line holds neither terminator byte. A line produced by
/// splitting can still hold a stray one from partial framing.
pub open spec fn line_clean(s: Seq<u8>) -> bool {
    forall|i: int| 0 <= i < s.len() ==> #[trigger] s[i] != CR && s[i] != LF
}

/// The negative-length token `-1` that marks the nil sentinel.
pub open spec fn nil_token() -> Seq<u8> {
    seq![45u8, 49u8]
}

/// True when every line from `pos` on is empty.
pub open spec fn all_empty_from(lines: Seq<Seq<u8>>, pos: int) -> bool {
    forall|j: int| pos <= j < lines.len() ==> #[trigger] lines[j].len() == 0
}

/// What parsing one value out of `lines` at `pos` yields: the value and
/// the position of the first line after it, or the error. A simple
/// string line must be clean, valid UTF-8; an array length line is
/// followed by that many recursively parsed values; a bulk length line
/// is followed by one line of exactly that many bytes, or is the nil
/// sentinel; anything else is malformed.
pub open spec fn spec_parse_value(lines: Seq<Seq<u8>>, pos: int) -> Result<
    (ValueModel, int),
    Error,
>
    decreases lines.len() - pos, 0int,
{
    if pos < 0 || pos >= lines.len() {
        Err(Error::ProtocolError)
    } else {
        let line = lines[pos];
        if line.len() == 0 {
            Err(Error::ProtocolError)
        } else if line[0] == TAG_SIMPLE {
            let content = line.drop_first();
            if line_clean(content) && valid_utf8(content) {
                Ok((ValueModel::SimpleString(decode_utf8(content)), pos + 1))
            } else {
                Err(Error::ProtocolError)
            }
        } else if line[0] == TAG_ARRAY {
            match spec_parse_u32(line.drop_first()) {
                Some(n) => match spec_parse_items(lines, pos + 1, n as int) {
                    Ok((items, end)) => Ok((ValueModel::Array(items), end)),
                    Err(e) => Err(e),
                },
                None => Err(Error::ProtocolError),
            }
        } else if line[0] == TAG_BULK {
            if line.drop_first() == nil_token() {
                Ok((ValueModel::Nil, pos + 1))
            } else {
                match spec_parse_u32(line.drop_first()) {
                    Some(n) => if pos + 1 < lines.len() && lines[pos + 1].len() == n {
                        Ok((ValueModel::BulkString(lines[pos + 1]), pos + 2))
                    } else {
                        Err(Error::ProtocolError)
                    },
                    None => Err(Error::ProtocolError),
                }
            }
        } else {
            Err(Error::ProtocolError)
        }
    }
}

/// What parsing `n` consecutive values at `pos` yields.
pub open spec fn spec_parse_items(lines: Seq<Seq<u8>>, pos: int, n: int) -> Result<
    (Seq<ValueModel>, int),
    Error,
>
    decreases lines.len() - pos, n + 1,
{
    if n <= 0 {
        Ok((Seq::empty(), pos))
    } else {
        match spec_parse_value(lines, pos) {
            Err(e) => Err(e),
            Ok((v, pos2)) => if pos < pos2 <= lines.len() {
                match spec_parse_items(lines, pos2, n - 1) {
                    Err(e) => Err(e),
                    Ok((vs, end)) => Ok((seq![v] + vs, end)),
                }
            } else {
                Err(Error::ProtocolError)
            },
        }
    }
}

/// What decoding a buffer as exactly one value yields: the single value
/// parsed from the front, provided nothing but empty lines follow it.
pub open spec fn spec_decode(input: Seq<u8>) -> Result<ValueModel, Error> {
    if input.len() == 0 {
        Err(Error::EmptyInput)
    } else {
        let lines = spec_split(input);
        match spec_parse_value(lines, 0) {
            Err(e) => Err(e),
            Ok((v, end)) => if all_empty_from(lines, end) {
                Ok(v)
            } else {
                Err(Error::ProtocolError)
            },
        }
    }
}

/// What parsing values until only empty lines remain yields.
pub open spec fn spec_parse_run(lines: Seq<Seq<u8>>, pos: int) -> Result<Seq<ValueModel>, Error>
    decreases lines.len() - pos + 1, 0int,
{
    if all_empty_from(lines, pos) {
        Ok(Seq::empty())
    } else {
        match spec_parse_value(lines, pos) {
            Err(e) => Err(e),
            Ok((v, pos2)) => if pos < pos2 <= lines.len() {
                match spec_parse_run(lines, pos2) {
                    Err(e) => Err(e),
                    Ok(vs) => Ok(seq![v] + vs),
                }
            } else {
                Err(Error::ProtocolError)
            },
        }
    }
}

/// What decoding a buffer as a pipelined run of values yields.
pub open spec fn spec_decode_all(input: Seq<u8>) -> Result<Seq<ValueModel>, Error> {
    if input.len() == 0 {
        Err(Error::EmptyInput)
    } else {
        spec_parse_run(spec_split(input), 0)
    }
}

/// The view of one line of the split buffer is the deep view's entry.
proof fn lemma_line_view(lines: &Vec<Vec<u8>>, j: int)
    requires
        0 <= j < lines@.len(),
    ensures
        lines.deep_view().len() == lines@.len(),
        lines.deep_view()[j] == lines@[j]@,
{
    assert(lines@[j].deep_view() =~= lines@[j]@);
}

/// Reads the line-oriented wire format back into values.
pub struct RespParser;

impl RespParser {
    /// Reads a 32-bit length token: optional `+`, then decimal digits.
    pub fn parse_u32(value: &[u8]) -> (r: Result<u32, Error>)
        ensures
            r == match spec_parse_u32(value@) {
                Some(n) => Ok::<u32, Error>(n),
                None => Err::<u32, Error>(Error::ProtocolError),
            },
    {
        match parse_u32_token(value) {
            Some(n) => Ok(n),
            None => Err(Error::ProtocolError),
        }
    }

    /// Decodes exactly one value; trailing non-empty content is refused.
    pub fn parse_single(wire: &[u8]) -> (r: Result<RespValue, Error>)
        ensures
            r matches Ok(v) ==> spec_decode(wire@) == Ok::<ValueModel, Error>(v@),
            r matches Err(e) ==> spec_decode(wire@) == Err::<ValueModel, Error>(e),
    {
        if wire.len() == 0 {
            return Err(Error::EmptyInput);
        }
        let lines = split_crlf(wire);
        match Self::parse_resp(&lines, 0) {
            Err(e) => Err(e),
            Ok((value, end)) => {
                if Self::rest_is_empty(&lines, end) {
                    Ok(value)
                } else {
                    Err(Error::ProtocolError)
                }
            },
        }
    }

    /// Decodes a pipelined run of values until the buffer is exhausted,
    /// that is, until nothing but empty lines remains.
    #[verifier::loop_isolation(false)]
    pub fn parse(wire: &[u8]) -> (r: Result<Vec<RespValue>, Error>)
        ensures
            r matches Ok(vs) ==> spec_decode_all(wire@) == Ok::<Seq<ValueModel>, Error>(
                vs.deep_view(),
            ),
            r matches Err(e) ==> spec_decode_all(wire@) == Err::<Seq<ValueModel>, Error>(e),
    {
        if wire.len() == 0 {
            return Err(Error::EmptyInput);
        }
        let lines = split_crlf(wire);
        let ghost ls = lines.deep_view();
        let mut out: Vec<RespValue> = Vec::new();
        let mut pos: usize = 0;
        proof {
            assert(out.deep_view() =~= Seq::<ValueModel>::empty());
        }
        let mut done = Self::rest_is_empty(&lines, pos);
        while !done
            invariant
                ls == lines.deep_view(),
                ls.len() == lines@.len(),
                pos <= lines@.len(),
                done == all_empty_from(ls, pos as int),
                spec_parse_run(ls, 0) == match spec_parse_run(ls, pos as int) {
                    Ok(vs) => Ok::<Seq<ValueModel>, Error>(out.deep_view() + vs),
                    Err(e) => Err::<Seq<ValueModel>, Error>(e),
                },
            decreases lines@.len() - pos,
        {
            match Self::parse_resp(&lines, pos) {
                Err(e) => {
                    return Err(e);
                },
                Ok((v, p)) => {
                    let ghost out_before = out.deep_view();
                    out.push(v);
                    proof {
                        assert(out.deep_view() =~= out_before.push(v@));
                        assert(out_before + (seq![v@] + spec_parse_run_tail(ls, p as int))
                            =~= (out_before.push(v@)) + spec_parse_run_tail(ls, p as int));
                    }
                    pos = p;
                    done = Self::rest_is_empty(&lines, pos);
                },
            }
        }
        proof {
            assert(out.deep_view() + Seq::<ValueModel>::empty() =~= out.deep_view());
        }
        Ok(out)
    }

    /// True when every line from `pos` on is empty.
    fn rest_is_empty(lines: &Vec<Vec<u8>>, pos: usize) -> (r: bool)
        requires
            pos <= lines@.len(),
        ensures
            r == all_empty_from(lines.deep_view(), pos as int),
    {
        let mut j = pos;
        while j < lines.len()
            invariant
                pos <= j <= lines@.len(),
                forall|k: int|
                    pos <= k < j ==> #[trigger] lines.deep_view()[k].len() == 0,
            decreases lines@.len() - j,
        {
            proof {
                lemma_line_view(lines, j as int);
            }
            if lines[j].len() != 0 {
                return false;
            }
            j += 1;
        }
        true
    }

    /// Parses one value beginning at line `pos`.
    fn parse_resp(lines: &Vec<Vec<u8>>, pos: usize) -> (r: Result<(RespValue, usize), Error>)
        ensures
            r matches Ok(p) ==> spec_parse_value(lines.deep_view(), pos as int) == Ok::<
                (ValueModel, int),
                Error,
            >((p.0@, p.1 as int)) && pos < p.1 <= lines@.len(),
            r matches Err(e) ==> spec_parse_value(lines.deep_view(), pos as int) == Err::<
                (ValueModel, int),
                Error,
            >(e),
        decreases lines@.len() - pos, 0int,
    {
        let ghost ls = lines.deep_view();
        if pos >= lines.len() {
            return Err(Error::ProtocolError);
        }
        proof {
            lemma_line_view(lines, pos as int);
        }
        let line: &Vec<u8> = &lines[pos];
        if line.len() == 0 {
            return Err(Error::ProtocolError);
        }
        let tag = line[0];
        let rest = slice_subrange(line.as_slice(), 1, line.len());
        proof {
            assert(rest@ =~= ls[pos as int].drop_first());
        }
        if tag == TAG_SIMPLE {
            if !line_clean_exec(rest) {
                return Err(Error::ProtocolError);
            }
            if !check_utf8(rest) {
                return Err(Error::ProtocolError);
            }
            let content = bytes_from(line, 1);
            proof {
                assert(content@ =~= rest@);
            }
            let text = string_from_utf8(content);
            Ok((RespValue::SimpleString(text), pos + 1))
        } else if tag == TAG_ARRAY {
            let n = match parse_u32_token(rest) {
                Some(n) => n,
                None => {
                    return Err(Error::ProtocolError);
                },
            };
            match Self::parse_array(lines, pos + 1, n) {
                Err(e) => Err(e),
                Ok((items, end)) => {
                    proof {
                        crate::value::lemma_array_view(items);
                    }
                    Ok((RespValue::Array(items), end))
                },
            }
        } else if tag == TAG_BULK {
            if rest.len() == 2 && rest[0] == 45 && rest[1] == 49 {
                proof {
                    assert(rest@ =~= nil_token());
                }
                return Ok((RespValue::Nil, pos + 1));
            }
            proof {
                if rest@ == nil_token() {
                    assert(rest@[0] == 45u8 && rest@[1] == 49u8);
                    assert(false);
                }
            }
            let n = match parse_u32_token(rest) {
                Some(n) => n,
                None => {
                    return Err(Error::ProtocolError);
                },
            };
            if pos + 1 >= lines.len() {
                return Err(Error::ProtocolError);
            }
            proof {
                lemma_line_view(lines, pos as int + 1);
            }
            let payload: &Vec<u8> = &lines[pos + 1];
            if payload.len() == n as usize {
                Ok((RespValue::BulkString(slice_to_vec(payload.as_slice())), pos + 2))
            } else {
                Err(Error::ProtocolError)
            }
        } else {
            Err(Error::ProtocolError)
        }
    }

    /// Parses `n` consecutive values beginning at line `pos`.
    fn parse_array(lines: &Vec<Vec<u8>>, pos: usize, n: u32) -> (r: Result<
        (Vec<RespValue>, usize),
        Error,
    >)
        requires
            pos <= lines@.len(),
        ensures
            r matches Ok(p) ==> spec_parse_items(lines.deep_view(), pos as int, n as int) == Ok::<
                (Seq<ValueModel>, int),
                Error,
            >((p.0.deep_view(), p.1 as int)) && pos <= p.1 <= lines@.len(),
            r matches Err(e) ==> spec_parse_items(lines.deep_view(), pos as int, n as int) == Err::<
                (Seq<ValueModel>, int),
                Error,
            >(e),
        decreases lines@.len() - pos, n as int + 1,
    {
        let ghost ls = lines.deep_view();
        let mut out: Vec<RespValue> = Vec::new();
        let mut cur = pos;
        let mut i: u32 = 0;
        proof {
            assert(out.deep_view() =~= Seq::<ValueModel>::empty());
        }
        while i < n
            invariant
                ls == lines.deep_view(),
                0 <= i <= n,
                pos <= cur <= lines@.len(),
                spec_parse_items(ls, pos as int, n as int) == match spec_parse_items(
                    ls,
                    cur as int,
                    n as int - i as int,
                ) {
                    Ok((vs, end)) => Ok::<(Seq<ValueModel>, int), Error>(
                        (out.deep_view() + vs, end),
                    ),
                    Err(e) => Err::<(Seq<ValueModel>, int), Error>(e),
                },
            decreases n - i,
        {
            match Self::parse_resp(lines, cur) {
                Err(e) => {
                    return Err(e);
                },
                Ok((v, p)) => {
                    let ghost out_before = out.deep_view();
                    out.push(v);
                    proof {
                        assert(out.deep_view() =~= out_before.push(v@));
                        let tail = spec_items_tail(ls, p as int, n as int - i as int - 1);
                        assert(out_before + (seq![v@] + tail) =~= out_before.push(v@) + tail);
                    }
                    cur = p;
                    i += 1;
                },
            }
        }
        proof {
            assert(out.deep_view() + Seq::<ValueModel>::empty() =~= out.deep_view());
        }
        Ok((out, cur))
    }
}

/// The value list of an ok items-parse, used to name the tail while a
/// loop invariant is re-established.
spec fn spec_items_tail(lines: Seq<Seq<u8>>, pos: int, n: int) -> Seq<ValueModel> {
    match spec_parse_items(lines, pos, n) {
        Ok((vs, _)) => vs,
        Err(_) => Seq::empty(),
    }
}

/// The value list of an ok run-parse, used to name the tail while a
/// loop invariant is re-established.
spec fn spec_parse_run_tail(lines: Seq<Seq<u8>>, pos: int) -> Seq<ValueModel> {
    match spec_parse_run(lines, pos) {
        Ok(vs) => vs,
        Err(_) => Seq::empty(),
    }
}

/// True when the line holds neither terminator byte.
fn line_clean_exec(s: &[u8]) -> (r: bool)
    ensures
        r == line_clean(s@),
{
    let mut i: usize = 0;
    while i < s.len()
        invariant
            0 <= i <= s@.len(),
            forall|j: int| 0 <= j < i ==> #[trigger] s@[j] != CR && s@[j] != LF,
        decreases s@.len() - i,
    {
        if s[i] == CR || s[i] == LF {
            return false;
        }
        i += 1;
    }
    true
}

} // verus!
