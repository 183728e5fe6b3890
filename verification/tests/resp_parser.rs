//! Decoder acceptance tests: each feeds one wire message to a handler
//! and checks that it decodes.

use respkv::resp::RespHandler;

#[test]
fn test_parse_echo() {
    let input = b"*2\r\n$4\r\necho\r\n$3\r\nhey\r\n";
    let mut parser = RespHandler::new(input.to_vec());
    let r = parser.decode();
    assert!(r.is_ok());
}

#[test]
fn test_parse_ping() {
    let input = b"*1\r\n$4\r\nping\r\n";
    let mut parser = RespHandler::new(input.to_vec());
    let r = parser.decode();
    assert!(r.is_ok());
}

#[test]
fn test_parse_simple_string() {
    let input = b"+OK\r\n";
    let mut parser = RespHandler::new(input.to_vec());
    let r = parser.decode();
    assert!(r.is_ok());
}

#[test]
fn test_parse_simple_error() {
    let input = b"-ERR unknown command 'asdf'\r\n";
    let mut parser = RespHandler::new(input.to_vec());
    let r = parser.decode();
    assert!(r.is_ok());
}

#[test]
fn test_parse_simple_error_with_wrongtype() {
    let input = b"-WRONGTYPE Operation against a key holding the wrong kind of value\r\n";
    let mut parser = RespHandler::new(input.to_vec());
    let r = parser.decode();
    assert!(r.is_ok());
}

#[test]
fn test_parse_integer() {
    let input = b":42\r\n";
    let mut parser = RespHandler::new(input.to_vec());
    let r = parser.decode();
    assert!(r.is_ok());
}

#[test]
fn test_parse_intege_negative() {
    let input = b":-6742\r\n";
    let mut parser = RespHandler::new(input.to_vec());
    let r = parser.decode();
    assert!(r.is_ok());
}

#[test]
fn test_parse_bulk_string() {
    let input = b"$5\r\nHello\r\n";
    let mut parser = RespHandler::new(input.to_vec());
    let r = parser.decode();
    assert!(r.is_ok());
}

#[test]
fn test_parse_bulk_string_empty() {
    let input = b"$0\r\n\r\n";
    let mut parser = RespHandler::new(input.to_vec());
    let r = parser.decode();
    assert!(r.is_ok());
}

#[test]
fn test_parse_buf_bulk_string() {
    let input = b"$5\r\nHello\r\n";
    let mut parser = RespHandler::with_buf_bulk(input.to_vec());
    let r = parser.decode();
    assert!(r.is_ok());
}

#[test]
fn test_parse_buf_bulk_string_empty() {
    let input = b"$0\r\n\r\n";
    let mut parser = RespHandler::with_buf_bulk(input.to_vec());
    let r = parser.decode();
    assert!(r.is_ok());
}

#[test]
fn test_parse_null_array() {
    let input = b"*-1\r\n";
    let mut parser = RespHandler::new(input.to_vec());
    let r = parser.decode();
    assert!(r.is_ok());
}

#[test]
fn test_parse_array_empty() {
    let input = b"*0\r\n";
    let mut parser = RespHandler::new(input.to_vec());
    let r = parser.decode();
    assert!(r.is_ok());
}

#[test]
fn test_parse_array_two_strs() {
    let input = b"*2\r\n$5\r\nhello\r\n$5\r\nworld\r\n";
    let mut parser = RespHandler::new(input.to_vec());
    let r = parser.decode();
    assert!(r.is_ok());
}

#[test]
fn test_parse_array_three_ints() {
    let input = b"*3\r\n:1\r\n:2\r\n:3\r\n";
    let mut parser = RespHandler::new(input.to_vec());
    let r = parser.decode();
    assert!(r.is_ok());
}

#[test]
fn test_parse_array_mix() {
    let input = b"*5\r\n:1\r\n:2\r\n:3\r\n:4\r\n$5\r\nhello\r\n";
    let mut parser = RespHandler::new(input.to_vec());
    let r = parser.decode();
    assert!(r.is_ok());
}

#[test]
fn test_parse_array_nested() {
    let input = b"*2\r\n*3\r\n:1\r\n:2\r\n:3\r\n*2\r\n+Hello\r\n-World\r\n";
    let mut parser = RespHandler::new(input.to_vec());
    let r = parser.decode();
    assert!(r.is_ok());
}

#[test]
fn test_parse_array_command() {
    let input = b"*2\r\n$4\r\nLLEN\r\n$6\r\nmylist\r\n";
    let mut parser = RespHandler::new(input.to_vec());
    let r = parser.decode();
    assert!(r.is_ok());
}
