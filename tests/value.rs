use bader_db::{CommandError, Value};

#[test]
fn test_unwrap_bulk_string() {
    let bulk_string = "this is a bulk string";
    let value = Value::BulkString(bulk_string.to_string());
    assert_eq!(bulk_string.to_string(), value.unwrap_bulk());
}

#[test]
fn test_to_command() {
    let v = vec![
        Value::BulkString("set".to_string()),
        Value::BulkString("country egypt".to_string()),
    ];
    let v = Value::Array(v);
    let command = v.to_command().unwrap();
    assert_eq!(command.0, "set".to_string());
    assert_eq!(
        command.1.first().unwrap().unwrap_bulk(),
        "country egypt".to_string()
    );
}

#[test]
fn test_to_command_error() {
    let v = Value::BulkString("set".to_string());
    assert_eq!(v.to_command().is_err(), true);
}

#[test]
fn test_to_command_one_entry() {
    let v = vec![Value::BulkString("set".to_string())];
    let v = Value::Array(v);
    let command = v.to_command().unwrap();
    assert_eq!(command.1.len(), 0);
}

#[test]
fn test_encode_null_value() {
    let value = Value::Null;
    assert_eq!("$-1\r\n".to_string(), value.encode());
}

#[test]
fn test_encode_simple_string_value() {
    let value = Value::SimpleString("m".to_string());
    assert_eq!("+m\r\n".to_string(), value.encode());
}

#[test]
fn test_encode_integer_value() {
    let value = Value::Integer("5".to_string());
    assert_eq!(":5\r\n".to_string(), value.encode());
}

#[test]
fn test_encode_error_value() {
    let value = Value::Error("error".to_string());
    assert_eq!("-error\r\n".to_string(), value.encode());
}

#[test]
fn test_encode_bulk_string_value() {
    let value = Value::BulkString("bulk_string".to_string());
    assert_eq!("$11\r\nbulk_string\r\n".to_string(), value.encode());
}

#[test]
fn encode_ok_simple_string() {
    assert_eq!(Value::SimpleString("OK".to_string()).encode(), "+OK\r\n");
}

#[test]
fn encode_empty_and_long_bulk_strings() {
    assert_eq!(Value::BulkString(String::new()).encode(), "$0\r\n\r\n");
    let long = "x".repeat(1234);
    assert_eq!(Value::BulkString(long.clone()).encode(), format!("$1234\r\n{}\r\n", long));
}

#[test]
fn encode_bulk_length_counts_characters() {
    assert_eq!(Value::BulkString("héllo".to_string()).encode(), "$5\r\nhéllo\r\n");
}

#[test]
fn to_command_needs_a_leading_bulk_string() {
    let empty = Value::Array(vec![]);
    assert_eq!(empty.to_command(), Err(CommandError::NoCommandName));
    let wrong = Value::Array(vec![Value::Integer("1".to_string())]);
    assert_eq!(wrong.to_command(), Err(CommandError::NoCommandName));
    assert_eq!(Value::Null.to_command(), Err(CommandError::NotAnArray));
}

#[test]
fn clone_copies_nested_arrays() {
    let v = Value::Array(vec![
        Value::BulkString("a".to_string()),
        Value::Array(vec![Value::Integer("7".to_string()), Value::Null]),
    ]);
    assert_eq!(v.clone(), v);
    assert_eq!(v.duplicate(), v);
}
