use vstd::prelude::*;

verus! {

/// Everything that can go wrong while decoding a wire buffer or
/// interpreting a decoded value as a command.
///
/// The first two variants are produced by the codec, the rest by the
/// command parser; an executed command never fails.
#[derive(Debug, Clone, Copy, PartialEq, Eq)]
pub enum Error {
    /// A zero-length buffer was handed to the codec.
    EmptyInput,
    /// Malformed framing: bad length prefix, length/content mismatch,
    /// invalid UTF-8 in a simple string, a stray line terminator, or
    /// trailing content after a single-value parse.
    ProtocolError,
    /// The command name is not in the recognized set.
    UnknownCommand,
    /// A command did not receive a required argument.
    MissingArgument,
    /// An argument was present but unusable (a `px` value that is not
    /// a decimal integer).
    InvalidArgument,
    /// A `SET` option other than `px` was supplied.
    UnsupportedOption,
    /// A value other than a simple or bulk string stood where a string
    /// was required.
    UnexpectedType,
}

impl Error {
    /// A short human-readable description of the error.
    pub fn describe(&self) -> (r: &'static str)
        ensures
            r@ == match self {
                Error::EmptyInput => "cannot parse empty input"@,
                Error::ProtocolError => "malformed wire framing"@,
                Error::UnknownCommand => "unknown command"@,
                Error::MissingArgument => "missing command argument"@,
                Error::InvalidArgument => "invalid command argument"@,
                Error::UnsupportedOption => "unsupported set option"@,
                Error::UnexpectedType => "unexpected value type for argument"@,
            },
    {
        proof {
            reveal_strlit("cannot parse empty input");
            reveal_strlit("malformed wire framing");
            reveal_strlit("unknown command");
            reveal_strlit("missing command argument");
            reveal_strlit("invalid command argument");
            reveal_strlit("unsupported set option");
            reveal_strlit("unexpected value type for argument");
        }
        match self {
            Error::EmptyInput => "cannot parse empty input",
            Error::ProtocolError => "malformed wire framing",
            Error::UnknownCommand => "unknown command",
            Error::MissingArgument => "missing command argument",
            Error::InvalidArgument => "invalid command argument",
            Error::UnsupportedOption => "unsupported set option",
            Error::UnexpectedType => "unexpected value type for argument",
        }
    }
}

} // verus!
