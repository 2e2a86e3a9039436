use vstd::prelude::*;
use vstd::slice::slice_to_vec;
use vstd::string::StrSliceExecFns;
use vstd::string::StringExecFns;
use vstd::utf8::encode_utf8;
use crate::database::{now_millis, spec_live, Database, EntryModel};
use crate::error::Error;
use crate::num::{parse_u64_token, spec_parse_u64};
use crate::parser::spec_decode;
use crate::text::{lower_bytes, lower_eq2, lower_eq3, lower_eq4};
use crate::value::{lemma_array_view, RespValue, ValueModel};

verus! {

/// The lower-cased name of the ping command.
pub open spec fn name_ping() -> Seq<u8> {
    seq![112u8, 105u8, 110u8, 103u8]
}

/// The lower-cased name of the echo command.
pub open spec fn name_echo() -> Seq<u8> {
    seq![101u8, 99u8, 104u8, 111u8]
}

/// The lower-cased name of the get command.
pub open spec fn name_get() -> Seq<u8> {
    seq![103u8, 101u8, 116u8]
}

/// The lower-cased name of the set command.
pub open spec fn name_set() -> Seq<u8> {
    seq![115u8, 101u8, 116u8]
}

/// The lower-cased name of the expiry option of set.
pub open spec fn name_px() -> Seq<u8> {
    seq![112u8, 120u8]
}

/// The options a set command carries: an optional time-to-live in
/// milliseconds.
#[derive(Debug, PartialEq, Eq)]
pub struct SetOptions {
    pub expiry_ms: Option<u64>,
}

impl Default for SetOptions {
    /// No expiry.
    fn default() -> (r: Self)
        ensures
            r.expiry_ms is None,
    {
        SetOptions { expiry_ms: None }
    }
}

/// Mathematical model of a decoded command: the view of [`Command`].
pub enum CommandModel {
    Ping,
    Echo { value: Seq<u8> },
    SetValue { key: Seq<u8>, value: Seq<u8>, expiry_ms: Option<u64> },
    Get { key: Seq<u8> },
}

/// A decoded request: one of the four supported commands with its
/// arguments. A command is consumed exactly once by the executor.
#[derive(Debug, PartialEq, Eq)]
pub enum Command {
    Ping,
    Echo { value: Vec<u8> },
    SetValue { key: Vec<u8>, value: Vec<u8>, opts: SetOptions },
    Get { key: Vec<u8> },
}

impl View for Command {
    type V = CommandModel;

    open spec fn view(&self) -> CommandModel {
        match self {
            Command::Ping => CommandModel::Ping,
            Command::Echo { value } => CommandModel::Echo { value: value@ },
            Command::SetValue { key, value, opts } => CommandModel::SetValue {
                key: key@,
                value: value@,
                expiry_ms: opts.expiry_ms,
            },
            Command::Get { key } => CommandModel::Get { key: key@ },
        }
    }
}

/// The bytes a value contributes when a string is expected: the UTF-8
/// bytes of a simple string, the payload of a bulk string, nothing for
/// the others.
pub open spec fn arg_bytes(v: ValueModel) -> Option<Seq<u8>> {
    match v {
        ValueModel::SimpleString(s) => Some(encode_utf8(s)),
        ValueModel::BulkString(b) => Some(b),
        _ => None,
    }
}

/// What interpreting a decoded value as a command yields. A bare string
/// may only name ping; an array names the command in its first element
/// (case-insensitively) and carries the arguments after it.
pub open spec fn spec_parse_command(v: ValueModel) -> Result<CommandModel, Error> {
    match v {
        ValueModel::SimpleString(s) => if lower_bytes(encode_utf8(s)) == name_ping() {
            Ok(CommandModel::Ping)
        } else {
            Err(Error::UnknownCommand)
        },
        ValueModel::BulkString(b) => if lower_bytes(b) == name_ping() {
            Ok(CommandModel::Ping)
        } else {
            Err(Error::UnknownCommand)
        },
        ValueModel::Array(items) => spec_parse_array_command(items),
        ValueModel::Nil => Err(Error::UnexpectedType),
    }
}

/// What interpreting an array of values as a command yields.
pub open spec fn spec_parse_array_command(items: Seq<ValueModel>) -> Result<CommandModel, Error> {
    if items.len() == 0 {
        Err(Error::MissingArgument)
    } else {
        match arg_bytes(items[0]) {
            None => Err(Error::UnexpectedType),
            Some(name) => {
                let lname = lower_bytes(name);
                if lname == name_ping() {
                    Ok(CommandModel::Ping)
                } else if lname == name_echo() {
                    match spec_string_argument(items, 1) {
                        Ok(value) => Ok(CommandModel::Echo { value }),
                        Err(e) => Err(e),
                    }
                } else if lname == name_get() {
                    match spec_string_argument(items, 1) {
                        Ok(key) => Ok(CommandModel::Get { key }),
                        Err(e) => Err(e),
                    }
                } else if lname == name_set() {
                    spec_parse_set_command(items)
                } else {
                    Err(Error::UnknownCommand)
                }
            },
        }
    }
}

/// The byte-string argument at position `i`, or why there is none.
pub open spec fn spec_string_argument(items: Seq<ValueModel>, i: int) -> Result<Seq<u8>, Error> {
    if i >= items.len() {
        Err(Error::MissingArgument)
    } else {
        match arg_bytes(items[i]) {
            None => Err(Error::UnexpectedType),
            Some(b) => Ok(b),
        }
    }
}

/// What interpreting an array as a set command yields: key, value, then
/// option pairs; `px <milliseconds>` is the only recognized option, and
/// a later `px` overrides an earlier one.
pub open spec fn spec_parse_set_command(items: Seq<ValueModel>) -> Result<CommandModel, Error> {
    match spec_string_argument(items, 1) {
        Err(e) => Err(e),
        Ok(key) => match spec_string_argument(items, 2) {
            Err(e) => Err(e),
            Ok(value) => match spec_parse_set_options(items, 3) {
                Err(e) => Err(e),
                Ok(expiry_ms) => Ok(CommandModel::SetValue { key, value, expiry_ms }),
            },
        },
    }
}

/// What reading the option pairs from position `i` on yields.
pub open spec fn spec_parse_set_options(items: Seq<ValueModel>, i: int) -> Result<
    Option<u64>,
    Error,
>
    decreases items.len() - i,
{
    if i >= items.len() {
        Ok(None)
    } else {
        match arg_bytes(items[i]) {
            None => Err(Error::UnexpectedType),
            Some(name) => if lower_bytes(name) == name_px() {
                match spec_string_argument(items, i + 1) {
                    Err(e) => Err(e),
                    Ok(ms_token) => match spec_parse_u64(ms_token) {
                        None => Err(Error::InvalidArgument),
                        Some(ms) => match spec_parse_set_options(items, i + 2) {
                            Err(e) => Err(e),
                            Ok(None) => Ok(Some(ms)),
                            Ok(Some(later)) => Ok(Some(later)),
                        },
                    },
                }
            } else {
                Err(Error::UnsupportedOption)
            },
        }
    }
}

/// What decoding a wire buffer into a command yields: the codec's
/// verdict, then the command parser's.
pub open spec fn spec_from_wire(wire: Seq<u8>) -> Result<CommandModel, Error> {
    match spec_decode(wire) {
        Err(e) => Err(e),
        Ok(v) => spec_parse_command(v),
    }
}

/// The reply a command produces and the store it leaves behind, at time
/// `now_ms`. Ping and echo leave the store alone; set is an
/// unconditional upsert stamped with `now_ms`; get reads under the
/// lazy-expiry filter and never errs.
pub open spec fn spec_execute(
    c: CommandModel,
    db: Map<Seq<u8>, EntryModel>,
    now_ms: u64,
) -> (ValueModel, Map<Seq<u8>, EntryModel>) {
    match c {
        CommandModel::Ping => (ValueModel::SimpleString(seq!['P', 'O', 'N', 'G']), db),
        CommandModel::Echo { value } => (ValueModel::BulkString(value), db),
        CommandModel::SetValue { key, value, expiry_ms } => (
            ValueModel::SimpleString(seq!['O', 'K']),
            db.insert(key, EntryModel { value, created_at_ms: now_ms, expiry_ms }),
        ),
        CommandModel::Get { key } => (spec_get_reply(db, key, now_ms), db),
    }
}

/// The reply of a get: the bound value as a bulk string when the key is
/// bound and still live, the nil sentinel otherwise — never an error.
pub open spec fn spec_get_reply(
    db: Map<Seq<u8>, EntryModel>,
    key: Seq<u8>,
    now_ms: u64,
) -> ValueModel {
    if db.contains_key(key) && spec_live(db[key], now_ms) {
        ValueModel::BulkString(db[key].value)
    } else {
        ValueModel::Nil
    }
}

impl Command {
    /// Decodes one wire request into a command.
    pub fn from_wire(wire: &[u8]) -> (r: Result<Command, Error>)
        ensures
            r matches Ok(c) ==> spec_from_wire(wire@) == Ok::<CommandModel, Error>(c@),
            r matches Err(e) ==> spec_from_wire(wire@) == Err::<CommandModel, Error>(e),
    {
        match RespValue::from_resp(wire) {
            Err(e) => Err(e),
            Ok(v) => CommandParser::parse_single_command(v),
        }
    }

    /// Applies the command to the store, taking `now_ms` as the current
    /// time, and returns the reply.
    pub fn execute_at(self, db: &mut Database, now_ms: u64) -> (r: RespValue)
        requires
            old(db).wf(),
        ensures
            final(db).wf(),
            r@ == spec_execute(self@, old(db)@, now_ms).0,
            final(db)@ == spec_execute(self@, old(db)@, now_ms).1,
    {
        match self {
            Command::Ping => {
                proof {
                    reveal_strlit("PONG");
                    assert("PONG"@ =~= seq!['P', 'O', 'N', 'G']);
                }
                RespValue::SimpleString(String::from_str("PONG"))
            },
            Command::Echo { value } => RespValue::BulkString(value),
            Command::SetValue { key, value, opts } => {
                db.set(key, value, opts.expiry_ms, now_ms);
                proof {
                    reveal_strlit("OK");
                    assert("OK"@ =~= seq!['O', 'K']);
                }
                RespValue::SimpleString(String::from_str("OK"))
            },
            Command::Get { key } => match db.get(key.as_slice(), now_ms) {
                Some(v) => RespValue::BulkString(v),
                None => RespValue::Nil,
            },
        }
    }

    /// Applies the command at the wall-clock time of the call.
    pub fn execute(self, db: &mut Database) -> (r: RespValue)
        requires
            old(db).wf(),
        ensures
            final(db).wf(),
            exists|now_ms: u64|
                (#[trigger] spec_execute(self@, old(db)@, now_ms)) == (r@, final(db)@),
    {
        let now_ms = now_millis();
        let ghost n = now_ms;
        let ghost c = self@;
        let r = self.execute_at(db, now_ms);
        proof {
            assert(spec_execute(c, old(db)@, n) == (r@, db@));
        }
        r
    }
}

/// Interprets decoded values as commands.
pub struct CommandParser;

impl CommandParser {
    /// Interprets one decoded value as a command.
    pub fn parse_single_command(value: RespValue) -> (r: Result<Command, Error>)
        ensures
            r matches Ok(c) ==> spec_parse_command(value@) == Ok::<CommandModel, Error>(c@),
            r matches Err(e) ==> spec_parse_command(value@) == Err::<CommandModel, Error>(e),
    {
        let ghost v0 = value@;
        match value {
            RespValue::SimpleString(s) => {
                proof {
                    assert(v0 == ValueModel::SimpleString(s@));
                }
                if lower_eq4(s.as_str().as_bytes(), 112, 105, 110, 103) {
                    Ok(Command::Ping)
                } else {
                    Err(Error::UnknownCommand)
                }
            },
            RespValue::BulkString(b) => {
                if lower_eq4(b.as_slice(), 112, 105, 110, 103) {
                    Ok(Command::Ping)
                } else {
                    Err(Error::UnknownCommand)
                }
            },
            RespValue::Array(items) => {
                proof {
                    lemma_array_view(items);
                    assert(v0 == ValueModel::Array(items.deep_view()));
                }
                Self::from_array(items)
            },
            RespValue::Nil => Err(Error::UnexpectedType),
        }
    }

    /// Interprets an array of values as a command.
    fn from_array(items: Vec<RespValue>) -> (r: Result<Command, Error>)
        ensures
            r matches Ok(c) ==> spec_parse_array_command(items.deep_view()) == Ok::<
                CommandModel,
                Error,
            >(c@),
            r matches Err(e) ==> spec_parse_array_command(items.deep_view()) == Err::<
                CommandModel,
                Error,
            >(e),
    {
        let ghost ms = items.deep_view();
        if items.len() == 0 {
            return Err(Error::MissingArgument);
        }
        proof {
            assert(ms[0] == items@[0]@);
        }
        let name = match Self::byte_string_of(&items[0]) {
            None => {
                return Err(Error::UnexpectedType);
            },
            Some(b) => b,
        };
        if lower_eq4(name.as_slice(), 112, 105, 110, 103) {
            Ok(Command::Ping)
        } else if lower_eq4(name.as_slice(), 101, 99, 104, 111) {
            match Self::string_argument(&items, 1) {
                Err(e) => Err(e),
                Ok(value) => Ok(Command::Echo { value }),
            }
        } else if lower_eq3(name.as_slice(), 103, 101, 116) {
            match Self::string_argument(&items, 1) {
                Err(e) => Err(e),
                Ok(key) => Ok(Command::Get { key }),
            }
        } else if lower_eq3(name.as_slice(), 115, 101, 116) {
            Self::take_as_set_args(&items)
        } else {
            Err(Error::UnknownCommand)
        }
    }

    /// Reads key, value and the option pairs of a set command.
    #[verifier::loop_isolation(false)]
    fn take_as_set_args(items: &Vec<RespValue>) -> (r: Result<Command, Error>)
        ensures
            r matches Ok(c) ==> spec_parse_set_command(items.deep_view()) == Ok::<
                CommandModel,
                Error,
            >(c@),
            r matches Err(e) ==> spec_parse_set_command(items.deep_view()) == Err::<
                CommandModel,
                Error,
            >(e),
    {
        let ghost ms = items.deep_view();
        let key = match Self::string_argument(items, 1) {
            Err(e) => {
                return Err(e);
            },
            Ok(b) => b,
        };
        let value = match Self::string_argument(items, 2) {
            Err(e) => {
                return Err(e);
            },
            Ok(b) => b,
        };
        let mut expiry_ms: Option<u64> = None;
        let mut i: usize = 3;
        while i < items.len()
            invariant
                ms == items.deep_view(),
                3 <= i,
                i <= items@.len() || i <= 4,
                ms.len() == items@.len(),
                spec_parse_set_options(ms, 3) == match spec_parse_set_options(ms, i as int) {
                    Err(e) => Err::<Option<u64>, Error>(e),
                    Ok(None) => Ok::<Option<u64>, Error>(expiry_ms),
                    Ok(Some(later)) => Ok::<Option<u64>, Error>(Some(later)),
                },
            decreases items@.len() - i,
        {
            proof {
                assert(ms[i as int] == items@[i as int]@);
            }
            let opt_name = match Self::byte_string_of(&items[i]) {
                None => {
                    return Err(Error::UnexpectedType);
                },
                Some(b) => b,
            };
            if lower_eq2(opt_name.as_slice(), 112, 120) {
                let token = match Self::string_argument(items, i + 1) {
                    Err(e) => {
                        return Err(e);
                    },
                    Ok(b) => b,
                };
                match parse_u64_token(token.as_slice()) {
                    None => {
                        return Err(Error::InvalidArgument);
                    },
                    Some(px) => {
                        expiry_ms = Some(px);
                        i = i + 2;
                    },
                }
            } else {
                return Err(Error::UnsupportedOption);
            }
        }
        Ok(Command::SetValue { key, value, opts: SetOptions { expiry_ms } })
    }

    /// The byte-string argument at position `i`, or the error naming
    /// what is wrong with it.
    fn string_argument(items: &Vec<RespValue>, i: usize) -> (r: Result<Vec<u8>, Error>)
        ensures
            r matches Ok(b) ==> spec_string_argument(items.deep_view(), i as int) == Ok::<
                Seq<u8>,
                Error,
            >(b@),
            r matches Err(e) ==> spec_string_argument(items.deep_view(), i as int) == Err::<
                Seq<u8>,
                Error,
            >(e),
    {
        if i >= items.len() {
            return Err(Error::MissingArgument);
        }
        proof {
            assert(items.deep_view()[i as int] == items@[i as int]@);
        }
        match Self::byte_string_of(&items[i]) {
            None => Err(Error::UnexpectedType),
            Some(b) => Ok(b),
        }
    }

    /// The bytes of a simple or bulk string value.
    fn byte_string_of(v: &RespValue) -> (r: Option<Vec<u8>>)
        ensures
            r matches Some(b) ==> arg_bytes(v@) == Some(b@),
            r is None ==> arg_bytes(v@) is None,
    {
        match v {
            RespValue::SimpleString(s) => Some(s.as_str().as_bytes_vec()),
            RespValue::BulkString(b) => Some(slice_to_vec(b.as_slice())),
            _ => None,
        }
    }
}

} // verus!
