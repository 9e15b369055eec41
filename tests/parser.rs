use bader_db::{ParseError, Parser, Value};
use bytes::{BufMut, BytesMut};

fn buffer(b: &[u8]) -> BytesMut {
    let mut bytes = BytesMut::new();
    bytes.put_slice(b);
    bytes
}

#[test]
fn test_parse_simple_string() {
    let bytes = buffer(b"+OK\r\n");
    let (v, s) = Parser::parse_message(&bytes).unwrap();
    assert_eq!(s, 5);
    assert_eq!(v, Value::SimpleString("OK".to_string()));
}

#[test]
fn test_parse_integer() {
    let bytes = buffer(b":5\r\n");
    let (v, s) = Parser::parse_message(&bytes).unwrap();
    assert_eq!(s, 4);
    assert_eq!(v, Value::Integer("5".to_string()));
}

#[test]
fn test_parse_bulk_string() {
    let bytes = buffer(b"$11\r\nbulk_string\r\n");
    let (v, s) = Parser::parse_message(&bytes).unwrap();
    assert_eq!(s, 18);
    assert_eq!(v, Value::BulkString("bulk_string".to_string()));
}

#[test]
fn test_parse_array() {
    let bytes = buffer(b"*2\r\n$5\r\nhello\r\n$5\r\nworld\r\n");
    let (v, s) = Parser::parse_message(&bytes).unwrap();
    assert_eq!(s, 26);
    assert_eq!(
        v,
        Value::Array(vec![
            Value::BulkString("hello".to_string()),
            Value::BulkString("world".to_string())
        ])
    );
}

#[test]
fn test_parse_unknown_input() {
    let bytes = buffer(b"hello world");
    assert_eq!(Parser::parse_message(&bytes).is_err(), true);
}

#[test]
fn unknown_prefix_reports_unrecognized_type() {
    let r = Parser::parse(b"hello world");
    assert_eq!(r, Err(ParseError::UnrecognizedType));
    assert_eq!(ParseError::UnrecognizedType.message(), "unrecognized message type");
}

#[test]
fn null_bulk_string_decodes() {
    assert_eq!(Parser::parse(b"$-1\r\n"), Ok((Value::Null, 5)));
}

#[test]
fn empty_line_is_empty_text() {
    assert_eq!(Parser::parse(b"+\r\n"), Ok((Value::SimpleString(String::new()), 3)));
    assert_eq!(Parser::parse(b"$0\r\n\r\n"), Ok((Value::BulkString(String::new()), 6)));
}

#[test]
fn lone_cr_or_lf_is_not_a_terminator() {
    assert_eq!(
        Parser::parse(b"+a\rb\nc\r\n"),
        Ok((Value::SimpleString("a\rb\nc".to_string()), 8))
    );
}

#[test]
fn trailing_bytes_are_left() {
    assert_eq!(Parser::parse(b"+OK\r\n:1\r\n"), Ok((Value::SimpleString("OK".to_string()), 5)));
}

#[test]
fn short_buffers_are_incomplete() {
    assert_eq!(Parser::parse(b""), Err(ParseError::Incomplete));
    assert_eq!(Parser::parse(b"+OK"), Err(ParseError::Incomplete));
    assert_eq!(Parser::parse(b"$5\r\nhel"), Err(ParseError::Incomplete));
    assert_eq!(Parser::parse(b"*2\r\n$1\r\na\r\n"), Err(ParseError::Incomplete));
}

#[test]
fn bad_lengths_are_malformed() {
    assert_eq!(Parser::parse(b"$abc\r\nxyz\r\n"), Err(ParseError::MalformedLength));
    assert_eq!(Parser::parse(b"*x\r\n"), Err(ParseError::MalformedLength));
    assert_eq!(Parser::parse(b"$-2\r\n"), Err(ParseError::MalformedLength));
    assert_eq!(Parser::parse(b"$\r\n"), Err(ParseError::MalformedLength));
    assert_eq!(Parser::parse(b"*99999999999999999999\r\n"), Err(ParseError::MalformedLength));
}

#[test]
fn invalid_utf8_is_reported() {
    assert_eq!(Parser::parse(b"+\xff\r\n"), Err(ParseError::InvalidText));
    assert_eq!(Parser::parse(b"$1\r\n\xff\r\n"), Err(ParseError::InvalidText));
}

#[test]
fn nested_arrays_decode() {
    let r = Parser::parse(b"*2\r\n*1\r\n:1\r\n+x\r\n");
    assert_eq!(
        r,
        Ok((
            Value::Array(vec![
                Value::Array(vec![Value::Integer("1".to_string())]),
                Value::SimpleString("x".to_string()),
            ]),
            16
        ))
    );
    assert_eq!(Parser::parse(b"*0\r\n"), Ok((Value::Array(vec![]), 4)));
}

#[test]
fn encoded_values_decode_back() {
    let values = vec![
        Value::SimpleString("OK".to_string()),
        Value::Integer("5".to_string()),
        Value::BulkString("bulk_string".to_string()),
        Value::BulkString(String::new()),
        Value::SimpleString("héllo wörld".to_string()),
        Value::Integer("-42".to_string()),
        Value::SimpleString("a\rb".to_string()),
        Value::Null,
    ];
    for v in values {
        let wire = v.clone().encode();
        assert_eq!(Parser::parse(wire.as_bytes()), Ok((v, wire.len())));
    }
}

#[test]
fn non_ascii_text_decodes() {
    let wire = "+héllo\r\n";
    assert_eq!(
        Parser::parse(wire.as_bytes()),
        Ok((Value::SimpleString("héllo".to_string()), wire.len()))
    );
}

#[test]
fn non_ascii_bulk_string_does_not_decode_back() {
    let wire = Value::BulkString("é".to_string()).encode();
    assert_eq!(wire, "$1\r\né\r\n");
    assert_eq!(Parser::parse(wire.as_bytes()), Err(ParseError::InvalidText));
}
