use redis_core::command::{Command, SetOptions};
use redis_core::error::Error;

#[test]
fn parse_ping_command() {
    let command = Command::from_wire(b"+PING\r\n").unwrap();
    assert_eq!(command, Command::Ping);
}

#[test]
fn parse_echo_simple_string() {
    let command = Command::from_wire(b"*2\r\n+ECHO\r\n+Hello, World!\r\n").unwrap();
    assert_eq!(
        command,
        Command::Echo {
            value: b"Hello, World!".to_vec()
        }
    )
}

#[test]
fn parse_echo_bulk_string() {
    let command = Command::from_wire(b"*2\r\n$4\r\nECHO\r\n$3\r\nhey\r\n").unwrap();
    assert_eq!(
        command,
        Command::Echo {
            value: b"hey".to_vec()
        }
    )
}

#[test]
fn parse_get_bulk_string() {
    let command = Command::from_wire(b"*2\r\n$3\r\nGET\r\n$3\r\nfoo\r\n").unwrap();
    assert_eq!(
        command,
        Command::Get {
            key: b"foo".to_vec()
        }
    )
}

#[test]
fn parse_set_bulk_string() {
    let command = Command::from_wire(b"*3\r\n$3\r\nSET\r\n$3\r\nfoo\r\n$3\r\nbar\r\n").unwrap();
    assert_eq!(
        command,
        Command::SetValue {
            key: b"foo".to_vec(),
            value: b"bar".to_vec(),
            opts: SetOptions::default(),
        }
    )
}

#[test]
fn parse_set_with_expiry() {
    let command = Command::from_wire(
        b"*5\r\n$3\r\nset\r\n$9\r\nelephants\r\n$6\r\nhorses\r\n$2\r\npx\r\n$3\r\n100\r\n",
    )
    .unwrap();
    assert_eq!(
        command,
        Command::SetValue {
            key: b"elephants".to_vec(),
            value: b"horses".to_vec(),
            opts: SetOptions {
                expiry_ms: Some(100)
            }
        }
    )
}

#[test]
fn parse_ping_case_insensitive_bulk_name() {
    let command = Command::from_wire(b"*1\r\n$4\r\npInG\r\n").unwrap();
    assert_eq!(command, Command::Ping);
}

#[test]
fn parse_set_with_uppercase_px() {
    let command =
        Command::from_wire(b"*5\r\n$3\r\nSET\r\n$1\r\nk\r\n$1\r\nv\r\n$2\r\nPX\r\n$2\r\n70\r\n")
            .unwrap();
    assert_eq!(
        command,
        Command::SetValue {
            key: b"k".to_vec(),
            value: b"v".to_vec(),
            opts: SetOptions {
                expiry_ms: Some(70)
            }
        }
    )
}

#[test]
fn unknown_command_name_is_refused() {
    assert_eq!(
        Command::from_wire(b"*1\r\n$4\r\nQUIT\r\n"),
        Err(Error::UnknownCommand)
    );
    assert_eq!(Command::from_wire(b"+HELLO\r\n"), Err(Error::UnknownCommand));
}

#[test]
fn echo_without_argument_is_missing_argument() {
    assert_eq!(
        Command::from_wire(b"*1\r\n$4\r\nECHO\r\n"),
        Err(Error::MissingArgument)
    );
}

#[test]
fn empty_array_is_missing_argument() {
    assert_eq!(Command::from_wire(b"*0\r\n"), Err(Error::MissingArgument));
}

#[test]
fn set_with_non_integer_px_is_invalid_argument() {
    assert_eq!(
        Command::from_wire(b"*5\r\n$3\r\nSET\r\n$1\r\nk\r\n$1\r\nv\r\n$2\r\npx\r\n$3\r\nabc\r\n"),
        Err(Error::InvalidArgument)
    );
}

#[test]
fn set_with_unknown_option_is_unsupported() {
    assert_eq!(
        Command::from_wire(b"*5\r\n$3\r\nSET\r\n$1\r\nk\r\n$1\r\nv\r\n$2\r\nex\r\n$2\r\n10\r\n"),
        Err(Error::UnsupportedOption)
    );
}

#[test]
fn nested_array_argument_is_unexpected_type() {
    assert_eq!(
        Command::from_wire(b"*2\r\n$4\r\nECHO\r\n*0\r\n"),
        Err(Error::UnexpectedType)
    );
}

#[test]
fn nil_request_is_unexpected_type() {
    assert_eq!(Command::from_wire(b"$-1\r\n"), Err(Error::UnexpectedType));
}
