use redis_core::error::Error;
use redis_core::parser::RespParser;
use redis_core::value::RespValue;

#[test]
fn parser_parse_simple_string() {
    let simple_string = RespParser::parse_single(b"+PONG\r\n").unwrap();
    assert_eq!(simple_string, RespValue::SimpleString("PONG".to_string()));
}

#[test]
fn parser_parse_array() {
    let array = RespParser::parse_single(b"*2\r\n+hello\r\n+world\r\n").unwrap();
    assert_eq!(
        array,
        RespValue::Array(vec![
            RespValue::SimpleString("hello".to_string()),
            RespValue::SimpleString("world".to_string())
        ])
    );
}

#[test]
fn parser_parse_bulk_string() {
    let bulk_string = RespParser::parse_single(b"$4\r\nECHO\r\n").unwrap();
    assert_eq!(bulk_string, RespValue::BulkString(b"ECHO".to_vec()));
}

#[test]
fn parser_parse_array_of_bulk_string_and_array_of_simple_string() {
    let array = RespParser::parse_single(b"*2\r\n$4\r\nquux\r\n*2\r\n+FOO\r\n$3\r\nbar\r\n").unwrap();
    assert_eq!(
        array,
        RespValue::Array(vec![
            RespValue::BulkString(b"quux".to_vec()),
            RespValue::Array(vec![
                RespValue::SimpleString("FOO".to_string()),
                RespValue::BulkString(b"bar".to_vec())
            ])
        ])
    );
}

#[test]
fn parse_nil_sentinel() {
    assert_eq!(RespParser::parse_single(b"$-1\r\n").unwrap(), RespValue::Nil);
}

#[test]
fn parse_non_utf8_simple_string_fails() {
    assert_eq!(
        RespParser::parse_single(b"+a\xff\r\n"),
        Err(Error::ProtocolError)
    );
}

#[test]
fn parse_non_ascii_simple_string_decodes_utf8() {
    let v = RespParser::parse_single(b"+caf\xc3\xa9\r\n").unwrap();
    assert_eq!(v, RespValue::SimpleString("café".to_string()));
}

#[test]
fn empty_input_is_empty_input_error() {
    assert_eq!(RespParser::parse_single(b""), Err(Error::EmptyInput));
    assert_eq!(RespParser::parse(b""), Err(Error::EmptyInput));
}

#[test]
fn malformed_array_length_is_protocol_error() {
    assert_eq!(
        RespParser::parse_single(b"*2\r\n+only-one\r\n"),
        Err(Error::ProtocolError)
    );
    assert_eq!(
        RespParser::parse_single(b"*x\r\n+a\r\n"),
        Err(Error::ProtocolError)
    );
}

#[test]
fn bulk_length_mismatch_is_protocol_error() {
    assert_eq!(
        RespParser::parse_single(b"$5\r\nabcd\r\n"),
        Err(Error::ProtocolError)
    );
}

#[test]
fn trailing_content_after_single_value_is_protocol_error() {
    assert_eq!(
        RespParser::parse_single(b"+a\r\n+b\r\n"),
        Err(Error::ProtocolError)
    );
}

#[test]
fn unknown_tag_is_protocol_error() {
    assert_eq!(RespParser::parse_single(b"-oops\r\n"), Err(Error::ProtocolError));
}

#[test]
fn parse_pipelined_run() {
    let run = RespParser::parse(b"+a\r\n$1\r\nb\r\n").unwrap();
    assert_eq!(
        run,
        vec![
            RespValue::SimpleString("a".to_string()),
            RespValue::BulkString(b"b".to_vec())
        ]
    );
}

#[test]
fn parse_u32_accepts_plain_and_signed_tokens() {
    assert_eq!(RespParser::parse_u32(b"4294967295"), Ok(4294967295));
    assert_eq!(RespParser::parse_u32(b"+5"), Ok(5));
    assert_eq!(RespParser::parse_u32(b"007"), Ok(7));
    assert_eq!(RespParser::parse_u32(b"4294967296"), Err(Error::ProtocolError));
    assert_eq!(RespParser::parse_u32(b""), Err(Error::ProtocolError));
    assert_eq!(RespParser::parse_u32(b"+"), Err(Error::ProtocolError));
    assert_eq!(RespParser::parse_u32(b"12a"), Err(Error::ProtocolError));
}

#[test]
fn round_trip_concrete_values() {
    let values = vec![
        RespValue::SimpleString("PONG".to_string()),
        RespValue::SimpleString(String::new()),
        RespValue::SimpleString("héllo wörld".to_string()),
        RespValue::BulkString(b"hey".to_vec()),
        RespValue::BulkString(Vec::new()),
        RespValue::BulkString(vec![0u8, 255u8, 1u8, 13u8, 2u8, 10u8]),
        RespValue::Nil,
        RespValue::Array(vec![]),
        RespValue::Array(vec![
            RespValue::BulkString(b"quux".to_vec()),
            RespValue::Nil,
            RespValue::Array(vec![RespValue::SimpleString("FOO".to_string())]),
        ]),
    ];
    for v in values {
        let wire = v.to_resp();
        let back = RespValue::from_resp(&wire).unwrap();
        assert_eq!(back, v);
    }
}

#[test]
fn encode_concrete_bytes() {
    assert_eq!(
        RespValue::SimpleString("OK".to_string()).to_resp(),
        b"+OK\r\n".to_vec()
    );
    assert_eq!(
        RespValue::BulkString(b"hey".to_vec()).to_resp(),
        b"$3\r\nhey\r\n".to_vec()
    );
    assert_eq!(RespValue::Nil.to_resp(), b"$-1\r\n".to_vec());
    assert_eq!(
        RespValue::Array(vec![RespValue::BulkString(b"PING".to_vec())]).to_resp(),
        b"*1\r\n$4\r\nPING\r\n".to_vec()
    );
}

#[test]
fn write_resp_appends_to_buffer() {
    let mut buf = b"x".to_vec();
    RespValue::SimpleString("OK".to_string()).write_resp(&mut buf);
    assert_eq!(buf, b"x+OK\r\n".to_vec());
}
