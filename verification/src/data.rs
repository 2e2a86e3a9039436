use vstd::prelude::*;
use vstd::string::StrSliceExecFns;
use vstd::utf8::encode_utf8;
use crate::error::Error;

verus! {

/// True when the two-character line terminator stands at position `i`.
pub open spec fn term_at(s: Seq<char>, i: int) -> bool {
    0 <= i && i + 2 <= s.len() && s[i] == '\r' && s[i + 1] == '\n'
}

/// The position of the first line terminator in the text, if any.
pub open spec fn spec_find_term(s: Seq<char>) -> Option<nat>
    decreases s.len(),
{
    if s.len() < 2 {
        None
    } else if s[0] == '\r' && s[1] == '\n' {
        Some(0)
    } else {
        match spec_find_term(s.drop_first()) {
            Some(i) => Some((i + 1) as nat),
            None => None,
        }
    }
}

/// The logical lines of a text: the segments between consecutive line
/// terminators, leftmost first.
pub open spec fn spec_split_text(s: Seq<char>) -> Seq<Seq<char>>
    decreases s.len(),
{
    match spec_find_term(s) {
        None => seq![s],
        Some(i) => if i + 2 <= s.len() {
            seq![s.subrange(0, i as int)] + spec_split_text(s.skip(i as int + 2))
        } else {
            seq![s]
        },
    }
}

/// What [`spec_find_term`] returns: the first terminator position.
proof fn lemma_find_term(s: Seq<char>)
    ensures
        match spec_find_term(s) {
            Some(i) => term_at(s, i as int) && (forall|j: int|
                0 <= j < i ==> !#[trigger] term_at(s, j)),
            None => forall|j: int| !#[trigger] term_at(s, j),
        },
    decreases s.len(),
{
    if s.len() < 2 {
    } else if s[0] == '\r' && s[1] == '\n' {
    } else {
        let t = s.drop_first();
        lemma_find_term(t);
        assert forall|j: int| 1 <= j implies term_at(s, j) == term_at(t, j - 1) by {
            if term_at(s, j) {
                assert(t[j - 1] == s[j] && t[j] == s[j + 1]);
            }
            if term_at(t, j - 1) {
                assert(s[j] == t[j - 1] && s[j + 1] == t[j]);
            }
        }
    }
}

/// When a terminator stands at `k` and none stands before it, `k` is
/// what [`spec_find_term`] finds.
proof fn lemma_find_term_at(s: Seq<char>, k: int)
    requires
        term_at(s, k),
        forall|j: int| 0 <= j < k ==> !#[trigger] term_at(s, j),
    ensures
        spec_find_term(s) == Some(k as nat),
{
    lemma_find_term(s);
    match spec_find_term(s) {
        Some(i) => {
            if i < k {
                assert(term_at(s, i as int));
                assert(false);
            }
            if k < i {
                assert(!term_at(s, k));
                assert(false);
            }
        },
        None => {
            assert(!term_at(s, k));
            assert(false);
        },
    }
}

/// A text without a terminator splits into itself alone.
proof fn lemma_split_text_whole(s: Seq<char>)
    requires
        forall|j: int| !#[trigger] term_at(s, j),
    ensures
        spec_split_text(s) == seq![s],
{
    lemma_find_term(s);
    match spec_find_term(s) {
        Some(i) => {
            assert(term_at(s, i as int));
            assert(false);
        },
        None => {},
    }
}

/// Splits a text on every two-character line terminator.
fn split_text(s: &str) -> (r: Vec<String>)
    ensures
        r.deep_view() == spec_split_text(s@),
{
    let ghost w = s@;
    let n = s.unicode_len();
    let mut segs: Vec<String> = Vec::new();
    let mut start: usize = 0;
    let mut i: usize = 0;
    proof {
        assert(segs.deep_view() =~~= Seq::<Seq<char>>::empty());
        assert(w.skip(0) =~= w);
        assert(segs.deep_view() + spec_split_text(w) =~~= spec_split_text(w));
    }
    while n - i > 1
        invariant
            w == s@,
            n == w.len(),
            start <= i <= n,
            forall|j: int| start <= j < i ==> !#[trigger] term_at(w, j),
            spec_split_text(w) == segs.deep_view() + spec_split_text(w.skip(start as int)),
        decreases n - i,
    {
        if s.get_char(i) == '\r' && s.get_char(i + 1) == '\n' {
            let seg = s.substring_char(start, i).to_owned();
            proof {
                let rest = w.skip(start as int);
                let k = i - start;
                assert(term_at(rest, k)) by {
                    assert(rest[k] == w[i as int] && rest[k + 1] == w[i + 1]);
                }
                assert forall|j: int| 0 <= j < k implies !#[trigger] term_at(rest, j) by {
                    if term_at(rest, j) {
                        assert(w[start + j] == rest[j] && w[start + j + 1] == rest[j + 1]);
                        assert(term_at(w, start + j));
                    }
                }
                lemma_find_term_at(rest, k);
                assert(rest.subrange(0, k) =~= w.subrange(start as int, i as int));
                assert(rest.skip(k + 2) =~= w.skip(i as int + 2));
                assert(spec_split_text(rest) == seq![seg@] + spec_split_text(w.skip(i as int + 2)));
            }
            let ghost segs_before = segs.deep_view();
            segs.push(seg);
            proof {
                assert(segs.deep_view() =~~= segs_before.push(seg@));
                assert(segs_before.push(seg@) + spec_split_text(w.skip(i as int + 2))
                    =~~= segs_before + spec_split_text(w.skip(start as int)));
            }
            start = i + 2;
            i = i + 2;
        } else {
            proof {
                assert(!term_at(w, i as int));
            }
            i = i + 1;
        }
    }
    let seg = s.substring_char(start, n).to_owned();
    proof {
        let rest = w.skip(start as int);
        assert forall|j: int| !#[trigger] term_at(rest, j) by {
            if term_at(rest, j) {
                assert(w[start + j] == rest[j] && w[start + j + 1] == rest[j + 1]);
                assert(term_at(w, start + j));
                assert(start + j < i);
            }
        }
        lemma_split_text_whole(rest);
        assert(rest =~= w.subrange(start as int, w.len() as int));
    }
    let ghost segs_before = segs.deep_view();
    segs.push(seg);
    proof {
        assert(segs.deep_view() =~~= segs_before.push(seg@));
        assert(segs_before.push(seg@) =~~= segs_before + seq![seg@]);
        assert(segs.deep_view() =~~= spec_split_text(w));
    }
    segs
}

/// True when every character is an ASCII decimal digit.
pub open spec fn all_digit_chars(s: Seq<char>) -> bool {
    forall|i: int| 0 <= i < s.len() ==> 48 <= #[trigger] s[i] as u32 <= 57
}

/// Numeric value of a digit text, most significant digit first.
pub open spec fn dec_value_chars(s: Seq<char>) -> nat
    decreases s.len(),
{
    if s.len() == 0 {
        0
    } else {
        (dec_value_chars(s.drop_last()) * 10 + (s.last() as u32 - 48)) as nat
    }
}

/// The number an integer text denotes: an optional leading `+` followed
/// by one or more decimal digits, read in base ten and fitting 32 bits.
pub open spec fn spec_parse_u32_text(s: Seq<char>) -> Option<u32> {
    let digits = if s.len() > 0 && s[0] == '+' {
        s.drop_first()
    } else {
        s
    };
    if digits.len() > 0 && all_digit_chars(digits) && dec_value_chars(digits) <= u32::MAX {
        Some(dec_value_chars(digits) as u32)
    } else {
        None
    }
}

/// True when the text holds neither line-terminator character.
pub open spec fn text_clean(s: Seq<char>) -> bool {
    forall|i: int| 0 <= i < s.len() ==> #[trigger] s[i] != '\r' && s[i] != '\n'
}

/// Mathematical model of a datum of the character-level reader: the
/// view of [`DataType`].
pub enum DataModel {
    SimpleString(Seq<char>),
    BulkString(Seq<u8>),
    Array(Seq<DataModel>),
}

/// A protocol datum read from text rather than raw bytes: the
/// character-level variant of the codec. It knows no nil sentinel, and
/// a bulk string carries the UTF-8 bytes of its line.
#[derive(Debug, PartialEq, Eq)]
pub enum DataType {
    SimpleString(String),
    BulkString(Vec<u8>),
    Array(Vec<DataType>),
}

impl View for DataType {
    type V = DataModel;

    open spec fn view(&self) -> DataModel
        decreases self,
    {
        match self {
            DataType::SimpleString(s) => DataModel::SimpleString(s@),
            DataType::BulkString(b) => DataModel::BulkString(b@),
            DataType::Array(items) => DataModel::Array(
                Seq::new(
                    items.len() as nat,
                    |i: int|
                        if 0 <= i < items.len() {
                            items[i].view()
                        } else {
                            DataModel::BulkString(Seq::empty())
                        },
                ),
            ),
        }
    }
}

impl DeepView for DataType {
    type V = DataModel;

    open spec fn deep_view(&self) -> DataModel {
        self.view()
    }
}

/// An array's view is the array of the item views.
proof fn lemma_data_array_view(items: Vec<DataType>)
    ensures
        DataType::Array(items)@ == DataModel::Array(items.deep_view()),
{
    match DataType::Array(items)@ {
        DataModel::Array(s) => {
            assert(s =~= items.deep_view());
        },
        _ => {
            assert(false);
        },
    }
}

/// What parsing one datum out of the text lines at `pos` yields.
pub open spec fn spec_data_parse_value(lines: Seq<Seq<char>>, pos: int) -> Result<
    (DataModel, int),
    Error,
>
    decreases lines.len() - pos, 0int,
{
    if pos < 0 || pos >= lines.len() {
        Err(Error::ProtocolError)
    } else {
        let line = lines[pos];
        if line.len() == 0 {
            Err(Error::ProtocolError)
        } else if line[0] == '+' {
            let content = line.drop_first();
            if text_clean(content) {
                Ok((DataModel::SimpleString(content), pos + 1))
            } else {
                Err(Error::ProtocolError)
            }
        } else if line[0] == '*' {
            match spec_parse_u32_text(line.drop_first()) {
                Some(n) => match spec_data_parse_items(lines, pos + 1, n as int) {
                    Ok((items, end)) => Ok((DataModel::Array(items), end)),
                    Err(e) => Err(e),
                },
                None => Err(Error::ProtocolError),
            }
        } else if line[0] == '$' {
            match spec_parse_u32_text(line.drop_first()) {
                Some(n) => if pos + 1 < lines.len() && encode_utf8(lines[pos + 1]).len() == n {
                    Ok((DataModel::BulkString(encode_utf8(lines[pos + 1])), pos + 2))
                } else {
                    Err(Error::ProtocolError)
                },
                None => Err(Error::ProtocolError),
            }
        } else {
            Err(Error::ProtocolError)
        }
    }
}

/// What parsing `n` consecutive data at `pos` yields.
pub open spec fn spec_data_parse_items(lines: Seq<Seq<char>>, pos: int, n: int) -> Result<
    (Seq<DataModel>, int),
    Error,
>
    decreases lines.len() - pos, n + 1,
{
    if n <= 0 {
        Ok((Seq::empty(), pos))
    } else {
        match spec_data_parse_value(lines, pos) {
            Err(e) => Err(e),
            Ok((v, pos2)) => if pos < pos2 <= lines.len() {
                match spec_data_parse_items(lines, pos2, n - 1) {
                    Err(e) => Err(e),
                    Ok((vs, end)) => Ok((seq![v] + vs, end)),
                }
            } else {
                Err(Error::ProtocolError)
            },
        }
    }
}

/// True when every text line from `pos` on is empty.
pub open spec fn all_empty_text_from(lines: Seq<Seq<char>>, pos: int) -> bool {
    forall|j: int| pos <= j < lines.len() ==> #[trigger] lines[j].len() == 0
}

/// What reading a text as exactly one datum yields.
pub open spec fn spec_data_from_resp(input: Seq<char>) -> Result<DataModel, Error> {
    if input.len() == 0 {
        Err(Error::EmptyInput)
    } else {
        let lines = spec_split_text(input);
        match spec_data_parse_value(lines, 0) {
            Err(e) => Err(e),
            Ok((v, end)) => if all_empty_text_from(lines, end) {
                Ok(v)
            } else {
                Err(Error::ProtocolError)
            },
        }
    }
}

/// The view of one text line is the deep view's entry.
proof fn lemma_text_line_view(lines: &Vec<String>, j: int)
    requires
        0 <= j < lines@.len(),
    ensures
        lines.deep_view().len() == lines@.len(),
        lines.deep_view()[j] == lines@[j]@,
{
}

impl DataType {
    /// Reads a text holding exactly one datum; trailing non-empty
    /// content is refused.
    pub fn from_resp(value: &str) -> (r: Result<DataType, Error>)
        ensures
            r matches Ok(v) ==> spec_data_from_resp(value@) == Ok::<DataModel, Error>(v@),
            r matches Err(e) ==> spec_data_from_resp(value@) == Err::<DataModel, Error>(e),
    {
        if value.unicode_len() == 0 {
            return Err(Error::EmptyInput);
        }
        let lines = split_text(value);
        match Self::from_resp_iter(&lines, 0) {
            Err(e) => Err(e),
            Ok((v, end)) => {
                if Self::rest_is_empty(&lines, end) {
                    Ok(v)
                } else {
                    Err(Error::ProtocolError)
                }
            },
        }
    }

    /// True when every line from `pos` on is empty.
    fn rest_is_empty(lines: &Vec<String>, pos: usize) -> (r: bool)
        requires
            pos <= lines@.len(),
        ensures
            r == all_empty_text_from(lines.deep_view(), pos as int),
    {
        let mut j = pos;
        while j < lines.len()
            invariant
                pos <= j <= lines@.len(),
                forall|k: int| pos <= k < j ==> #[trigger] lines.deep_view()[k].len() == 0,
            decreases lines@.len() - j,
        {
            proof {
                lemma_text_line_view(lines, j as int);
            }
            if lines[j].as_str().unicode_len() != 0 {
                return false;
            }
            j += 1;
        }
        true
    }

    /// Parses one datum beginning at line `pos`.
    pub fn from_resp_iter(lines: &Vec<String>, pos: usize) -> (r: Result<(DataType, usize), Error>)
        ensures
            r matches Ok(p) ==> spec_data_parse_value(lines.deep_view(), pos as int) == Ok::<
                (DataModel, int),
                Error,
            >((p.0@, p.1 as int)) && pos < p.1 <= lines@.len(),
            r matches Err(e) ==> spec_data_parse_value(lines.deep_view(), pos as int) == Err::<
                (DataModel, int),
                Error,
            >(e),
        decreases lines@.len() - pos, 0int,
    {
        if pos >= lines.len() {
            return Err(Error::ProtocolError);
        }
        proof {
            lemma_text_line_view(lines, pos as int);
        }
        let line: &str = lines[pos].as_str();
        let len = line.unicode_len();
        if len == 0 {
            return Err(Error::ProtocolError);
        }
        let tag = line.get_char(0);
        let rest = line.substring_char(1, len);
        proof {
            assert(rest@ =~= lines.deep_view()[pos as int].drop_first());
        }
        if tag == '+' {
            match Self::parse_as_simple_string(rest) {
                Err(e) => Err(e),
                Ok(v) => Ok((v, pos + 1)),
            }
        } else if tag == '*' {
            match Self::parse_as_u32(rest) {
                Err(e) => Err(e),
                Ok(n) => Self::parse_as_array(n, lines, pos + 1),
            }
        } else if tag == '$' {
            match Self::parse_as_u32(rest) {
                Err(e) => Err(e),
                Ok(n) => {
                    if pos + 1 >= lines.len() {
                        return Err(Error::ProtocolError);
                    }
                    proof {
                        lemma_text_line_view(lines, pos as int + 1);
                    }
                    match Self::parse_as_bulk_string(n, lines[pos + 1].as_str()) {
                        Err(e) => Err(e),
                        Ok(v) => Ok((v, pos + 2)),
                    }
                },
            }
        } else {
            Err(Error::ProtocolError)
        }
    }

    /// Reads a 32-bit length text: optional `+`, then decimal digits.
    pub fn parse_as_u32(value: &str) -> (r: Result<u32, Error>)
        ensures
            r == match spec_parse_u32_text(value@) {
                Some(n) => Ok::<u32, Error>(n),
                None => Err::<u32, Error>(Error::ProtocolError),
            },
    {
        let len = value.unicode_len();
        let start: usize = if len > 0 && value.get_char(0) == '+' {
            1
        } else {
            0
        };
        let ghost digits = if value@.len() > 0 && value@[0] == '+' {
            value@.drop_first()
        } else {
            value@
        };
        proof {
            assert(digits =~= value@.skip(start as int));
        }
        if len == start {
            return Err(Error::ProtocolError);
        }
        let mut i: usize = start;
        let mut acc: u64 = 0;
        let mut over: bool = false;
        while i < len
            invariant
                len == value@.len(),
                start <= i <= len,
                digits == value@.skip(start as int),
                digits == (if value@.len() > 0 && value@[0] == '+' {
                    value@.drop_first()
                } else {
                    value@
                }),
                all_digit_chars(digits.take(i - start)),
                !over ==> acc == dec_value_chars(digits.take(i - start)) && acc <= u32::MAX,
                over ==> dec_value_chars(digits.take(i - start)) > u32::MAX,
            decreases len - i,
        {
            let c = value.get_char(i);
            let u = c as u32;
            if u < 48 || u > 57 {
                proof {
                    assert(digits[i - start] == c);
                    assert(!all_digit_chars(digits));
                }
                return Err(Error::ProtocolError);
            }
            proof {
                assert(digits.take(i - start + 1).drop_last() =~= digits.take(i - start));
                assert(digits.take(i - start + 1).last() == digits[i - start]);
                assert(dec_value_chars(digits.take(i - start + 1)) == dec_value_chars(
                    digits.take(i - start),
                ) * 10 + (u - 48));
            }
            if !over {
                acc = acc * 10 + ((u - 48) as u64);
                if acc > (u32::MAX as u64) {
                    over = true;
                }
            } else {
                proof {
                    let prev = dec_value_chars(digits.take(i - start));
                    assert(prev * 10 + (u - 48) >= prev);
                }
            }
            i += 1;
        }
        proof {
            assert(digits.take(i - start) =~= digits);
        }
        if over {
            Err(Error::ProtocolError)
        } else {
            Ok(acc as u32)
        }
    }

    /// Accepts a line as a simple string: it must hold no stray line
    /// terminator character.
    pub fn parse_as_simple_string(value: &str) -> (r: Result<DataType, Error>)
        ensures
            r matches Ok(v) ==> text_clean(value@) && v@ == DataModel::SimpleString(value@),
            r matches Err(e) ==> !text_clean(value@) && e == Error::ProtocolError,
    {
        let len = value.unicode_len();
        let mut i: usize = 0;
        while i < len
            invariant
                len == value@.len(),
                0 <= i <= len,
                forall|j: int| 0 <= j < i ==> #[trigger] value@[j] != '\r' && value@[j] != '\n',
            decreases len - i,
        {
            let c = value.get_char(i);
            if c == '\r' || c == '\n' {
                return Err(Error::ProtocolError);
            }
            i += 1;
        }
        Ok(DataType::SimpleString(value.to_owned()))
    }

    /// Parses `length` consecutive data beginning at line `pos` into an
    /// array.
    pub fn parse_as_array(length: u32, lines: &Vec<String>, pos: usize) -> (r: Result<
        (DataType, usize),
        Error,
    >)
        ensures
            r matches Ok(p) ==> (spec_data_parse_items(lines.deep_view(), pos as int, length as int)
                matches Ok(x) && p.0@ == DataModel::Array(x.0) && p.1 as int == x.1),
            r matches Ok(p) ==> (pos <= lines@.len() ==> pos <= p.1 <= lines@.len()),
            r matches Err(e) ==> spec_data_parse_items(lines.deep_view(), pos as int, length as int)
                == Err::<(Seq<DataModel>, int), Error>(e),
        decreases lines@.len() - pos, length as int + 1,
    {
        let ghost ls = lines.deep_view();
        proof {
            assert(ls.len() == lines@.len());
        }
        if pos > lines.len() {
            if length == 0 {
                let empty: Vec<DataType> = Vec::new();
                proof {
                    lemma_data_array_view(empty);
                    assert(empty.deep_view() =~= Seq::<DataModel>::empty());
                }
                return Ok((DataType::Array(empty), pos));
            } else {
                proof {
                    assert(pos as int >= ls.len());
                    assert(spec_data_parse_value(ls, pos as int) == Err::<(DataModel, int), Error>(
                        Error::ProtocolError,
                    ));
                    assert(spec_data_parse_items(ls, pos as int, length as int) == Err::<
                        (Seq<DataModel>, int),
                        Error,
                    >(Error::ProtocolError));
                }
                return Err(Error::ProtocolError);
            }
        }
        let mut out: Vec<DataType> = Vec::new();
        let mut cur = pos;
        let mut i: u32 = 0;
        proof {
            assert(out.deep_view() =~= Seq::<DataModel>::empty());
        }
        while i < length
            invariant
                ls == lines.deep_view(),
                0 <= i <= length,
                pos <= cur <= lines@.len(),
                spec_data_parse_items(ls, pos as int, length as int) == match spec_data_parse_items(
                    ls,
                    cur as int,
                    length as int - i as int,
                ) {
                    Ok((vs, end)) => Ok::<(Seq<DataModel>, int), Error>(
                        (out.deep_view() + vs, end),
                    ),
                    Err(e) => Err::<(Seq<DataModel>, int), Error>(e),
                },
            decreases length - i,
        {
            match Self::from_resp_iter(lines, cur) {
                Err(e) => {
                    return Err(e);
                },
                Ok((v, p)) => {
                    let ghost out_before = out.deep_view();
                    out.push(v);
                    proof {
                        assert(out.deep_view() =~= out_before.push(v@));
                        let tail = spec_data_items_tail(ls, p as int, length as int - i as int - 1);
                        assert(out_before + (seq![v@] + tail) =~= out_before.push(v@) + tail);
                    }
                    cur = p;
                    i += 1;
                },
            }
        }
        proof {
            assert(out.deep_view() + Seq::<DataModel>::empty() =~= out.deep_view());
            lemma_data_array_view(out);
        }
        Ok((DataType::Array(out), cur))
    }

    /// Accepts a line as a bulk string when its byte length is exactly
    /// the declared one; the datum carries the line's UTF-8 bytes.
    pub fn parse_as_bulk_string(length: u32, value: &str) -> (r: Result<DataType, Error>)
        ensures
            r matches Ok(v) ==> encode_utf8(value@).len() == length && v@ == DataModel::BulkString(
                encode_utf8(value@),
            ),
            r matches Err(e) ==> encode_utf8(value@).len() != length && e == Error::ProtocolError,
    {
        let bytes = value.as_bytes_vec();
        if bytes.len() == length as usize {
            Ok(DataType::BulkString(bytes))
        } else {
            Err(Error::ProtocolError)
        }
    }
}

/// The datum list of an ok items-parse, used to name the tail while a
/// loop invariant is re-established.
spec fn spec_data_items_tail(lines: Seq<Seq<char>>, pos: int, n: int) -> Seq<DataModel> {
    match spec_data_parse_items(lines, pos, n) {
        Ok((vs, _)) => vs,
        Err(_) => Seq::empty(),
    }
}

} // verus!
