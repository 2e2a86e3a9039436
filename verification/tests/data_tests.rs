use redis_core::data::DataType;
use redis_core::error::Error;

#[test]
fn data_parse_simple_string() {
    let simple_string = DataType::from_resp("+PONG\r\n").unwrap();
    assert_eq!(simple_string, DataType::SimpleString("PONG".to_string()));
}

#[test]
fn data_parse_array() {
    let array = DataType::from_resp("*2\r\n+hello\r\n+world\r\n").unwrap();
    assert_eq!(
        array,
        DataType::Array(vec![
            DataType::SimpleString("hello".to_string()),
            DataType::SimpleString("world".to_string())
        ])
    );
}

#[test]
fn data_parse_bulk_string() {
    let bulk_string = DataType::from_resp("$4\r\nECHO\r\n").unwrap();
    assert_eq!(bulk_string, DataType::BulkString(b"ECHO".to_vec()));
}

#[test]
fn data_parse_array_of_bulk_string_and_array_of_simple_string() {
    let array = DataType::from_resp("*2\r\n$4\r\nquux\r\n*2\r\n+FOO\r\n$3\r\nbar\r\n").unwrap();
    assert_eq!(
        array,
        DataType::Array(vec![
            DataType::BulkString(b"quux".to_vec()),
            DataType::Array(vec![
                DataType::SimpleString("FOO".to_string()),
                DataType::BulkString(b"bar".to_vec())
            ])
        ])
    );
}

#[test]
fn data_bulk_length_counts_bytes_not_chars() {
    // 'é' is one character but two bytes on the wire
    let bulk = DataType::from_resp("$3\r\naé\r\n").unwrap();
    assert_eq!(bulk, DataType::BulkString("aé".as_bytes().to_vec()));
    assert_eq!(
        DataType::from_resp("$2\r\naé\r\n"),
        Err(Error::ProtocolError)
    );
}

#[test]
fn data_empty_input_is_empty_input_error() {
    assert_eq!(DataType::from_resp(""), Err(Error::EmptyInput));
}

#[test]
fn data_parse_as_u32_reads_decimal_tokens() {
    assert_eq!(DataType::parse_as_u32("42"), Ok(42));
    assert_eq!(DataType::parse_as_u32("+1"), Ok(1));
    assert_eq!(DataType::parse_as_u32("-1"), Err(Error::ProtocolError));
    assert_eq!(DataType::parse_as_u32(""), Err(Error::ProtocolError));
    assert_eq!(DataType::parse_as_u32("4294967296"), Err(Error::ProtocolError));
}

#[test]
fn data_malformed_array_length_is_protocol_error() {
    assert_eq!(
        DataType::from_resp("*2\r\n+only-one\r\n"),
        Err(Error::ProtocolError)
    );
}
