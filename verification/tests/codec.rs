//! Codec behaviour pinned to exact values: what each message decodes
//! to, what each value encodes to, the round trip both ways, and the
//! error each kind of malformed input earns.

use respkv::resp::{DecodeError, RespDT, RespHandler};

fn decode_one(input: &[u8]) -> RespDT {
    let mut parser = RespHandler::new(input.to_vec());
    parser.decode().unwrap().unwrap()
}

fn decode_err(input: &[u8]) -> DecodeError {
    let mut parser = RespHandler::new(input.to_vec());
    parser.decode().unwrap_err()
}

#[test]
fn decode_simple_string_value() {
    assert_eq!(decode_one(b"+OK\r\n"), RespDT::SimpleString(b"OK".to_vec()));
}

#[test]
fn decode_simple_error_value() {
    assert_eq!(
        decode_one(b"-ERR bad\r\n"),
        RespDT::SimpleError(b"ERR bad".to_vec())
    );
}

#[test]
fn decode_integer_values() {
    assert_eq!(decode_one(b":42\r\n"), RespDT::Integer(42));
    assert_eq!(decode_one(b":-6742\r\n"), RespDT::Integer(-6742));
    assert_eq!(decode_one(b":+7\r\n"), RespDT::Integer(7));
    assert_eq!(
        decode_one(b":-9223372036854775808\r\n"),
        RespDT::Integer(i64::MIN)
    );
    assert_eq!(
        decode_one(b":9223372036854775807\r\n"),
        RespDT::Integer(i64::MAX)
    );
}

#[test]
fn decode_bulk_and_null_values() {
    assert_eq!(decode_one(b"$5\r\nHello\r\n"), RespDT::Bulk(b"Hello".to_vec()));
    assert_eq!(decode_one(b"$0\r\n\r\n"), RespDT::Bulk(Vec::new()));
    assert_eq!(decode_one(b"$-1\r\n"), RespDT::Null);
    assert_eq!(decode_one(b"*-1\r\n"), RespDT::NullArray);
}

#[test]
fn decode_buf_bulk_keeps_raw_bytes() {
    let mut parser = RespHandler::with_buf_bulk(b"$3\r\n\xff\x00\x7f\r\n".to_vec());
    assert_eq!(
        parser.decode().unwrap().unwrap(),
        RespDT::BufBulk(vec![0xff, 0x00, 0x7f])
    );
}

#[test]
fn decode_nested_arrays() {
    // An array of two arrays: three integers, then a greeting and an error.
    let input = b"*2\r\n*3\r\n:1\r\n:2\r\n:3\r\n*2\r\n+Hello\r\n-World\r\n";
    let expected = RespDT::Array(vec![
        RespDT::Array(vec![
            RespDT::Integer(1),
            RespDT::Integer(2),
            RespDT::Integer(3),
        ]),
        RespDT::Array(vec![
            RespDT::SimpleString(b"Hello".to_vec()),
            RespDT::SimpleError(b"World".to_vec()),
        ]),
    ]);
    assert_eq!(decode_one(input), expected);
}

#[test]
fn decode_consecutive_values_then_clean_end() {
    let mut parser = RespHandler::new(b"+a\r\n:5\r\n".to_vec());
    assert_eq!(parser.decode().unwrap(), Some(RespDT::SimpleString(b"a".to_vec())));
    assert_eq!(parser.decode().unwrap(), Some(RespDT::Integer(5)));
    assert_eq!(parser.decode().unwrap(), None);
}

#[test]
fn decode_empty_buffer_is_clean_end() {
    let mut parser = RespHandler::new(Vec::new());
    assert_eq!(parser.decode().unwrap(), None);
}

#[test]
fn encode_simple_values() {
    assert_eq!(
        RespDT::SimpleString(b"PONG".to_vec()).encode_raw(),
        b"+PONG\r\n".to_vec()
    );
    assert_eq!(
        RespDT::SimpleError(b"ERR bad".to_vec()).encode_raw(),
        b"-ERR bad\r\n".to_vec()
    );
    assert_eq!(RespDT::Integer(-42).encode_raw(), b":-42\r\n".to_vec());
    assert_eq!(RespDT::Null.encode_raw(), b"$-1\r\n".to_vec());
    assert_eq!(RespDT::NullArray.encode_raw(), b"*-1\r\n".to_vec());
    assert_eq!(
        RespDT::Bulk(b"hey".to_vec()).encode_raw(),
        b"$3\r\nhey\r\n".to_vec()
    );
}

#[test]
fn encode_array_value() {
    let v = RespDT::Array(vec![
        RespDT::Bulk(b"ECHO".to_vec()),
        RespDT::Bulk(b"hey".to_vec()),
    ]);
    assert_eq!(v.encode_raw(), b"*2\r\n$4\r\nECHO\r\n$3\r\nhey\r\n".to_vec());
}

#[test]
fn round_trip_text_mode() {
    let values = vec![
        RespDT::SimpleString(b"hello".to_vec()),
        RespDT::SimpleError(b"ERR oops".to_vec()),
        RespDT::Integer(0),
        RespDT::Integer(i64::MIN),
        RespDT::Bulk(b"payload with \r inside".to_vec()),
        RespDT::Null,
        RespDT::NullArray,
        RespDT::Array(vec![
            RespDT::Integer(1),
            RespDT::Array(vec![RespDT::Bulk(b"x".to_vec())]),
            RespDT::SimpleString(Vec::new()),
        ]),
        RespDT::Array(Vec::new()),
    ];
    for v in values {
        let bytes = v.encode_raw();
        let mut parser = RespHandler::new(bytes.clone());
        let back = parser.decode().unwrap().unwrap();
        assert_eq!(back, v);
        assert_eq!(parser.pos, bytes.len());
    }
}

#[test]
fn round_trip_raw_bulk_mode() {
    let v = RespDT::Array(vec![
        RespDT::BufBulk(vec![0, 1, 2, 255, 13, 10, 7]),
        RespDT::BufBulk(Vec::new()),
        RespDT::Integer(-1),
    ]);
    let bytes = v.encode_raw();
    let mut parser = RespHandler::with_buf_bulk(bytes.clone());
    assert_eq!(parser.decode().unwrap().unwrap(), v);
    assert_eq!(parser.pos, bytes.len());
}

#[test]
fn oversized_bulk_length_is_rejected() {
    // Anything beyond 512 MiB is out of bounds, however it is written.
    assert_eq!(
        decode_err(b"$999999999999\r\nx\r\n"),
        DecodeError::LengthOutOfBounds
    );
    assert_eq!(decode_err(b"$536870913\r\n\r\n"), DecodeError::LengthOutOfBounds);
    assert_eq!(decode_err(b"*536870913\r\n"), DecodeError::LengthOutOfBounds);
}

#[test]
fn boundary_length_is_admissible() {
    // Exactly 512 MiB is within bounds: the decoder accepts the length
    // and asks for the payload rather than rejecting the header.
    assert_eq!(decode_err(b"$536870912\r\n\r\n"), DecodeError::Incomplete);
    assert_eq!(decode_err(b"*536870912\r\n"), DecodeError::Incomplete);
}

#[test]
fn unknown_tag_is_rejected() {
    assert_eq!(decode_err(b"?ab\r\n"), DecodeError::UnknownTag);
}

#[test]
fn malformed_lines_are_rejected() {
    // A line feed without its carriage return, and a line of two bytes.
    assert_eq!(decode_err(b"+ab\n"), DecodeError::MalformedLine);
    assert_eq!(decode_err(b"+\n"), DecodeError::MalformedLine);
}

#[test]
fn invalid_utf8_text_is_rejected() {
    assert_eq!(decode_err(b"+\xff\xfe\r\n"), DecodeError::InvalidUtf8);
    assert_eq!(decode_err(b"$2\r\n\xc0\xaf\r\n"), DecodeError::InvalidUtf8);
}

#[test]
fn invalid_integers_are_rejected() {
    assert_eq!(decode_err(b":abc\r\n"), DecodeError::InvalidInteger);
    assert_eq!(decode_err(b":\r\n"), DecodeError::InvalidInteger);
    assert_eq!(decode_err(b":9223372036854775808\r\n"), DecodeError::InvalidInteger);
    assert_eq!(decode_err(b"$x\r\n"), DecodeError::InvalidInteger);
}

#[test]
fn missing_bulk_terminator_is_rejected() {
    assert_eq!(decode_err(b"$2\r\nabcd\r\n"), DecodeError::MissingTerminator);
}

#[test]
fn truncated_input_is_incomplete() {
    assert_eq!(decode_err(b"+abc"), DecodeError::Incomplete);
    assert_eq!(decode_err(b"$5\r\nab"), DecodeError::Incomplete);
    assert_eq!(decode_err(b"*2\r\n:1\r\n"), DecodeError::Incomplete);
}

#[test]
fn incomplete_then_fed_more_bytes_succeeds() {
    let mut parser = RespHandler::new(b"$5\r\nab".to_vec());
    assert_eq!(parser.decode().unwrap_err(), DecodeError::Incomplete);
    parser.input.extend_from_slice(b"cde\r\n");
    assert_eq!(parser.decode().unwrap(), Some(RespDT::Bulk(b"abcde".to_vec())));
}

#[test]
fn nesting_beyond_the_depth_bound_is_rejected() {
    let mut input = Vec::new();
    for _ in 0..65 {
        input.extend_from_slice(b"*1\r\n");
    }
    input.extend_from_slice(b":1\r\n");
    assert_eq!(decode_err(&input), DecodeError::TooDeep);
}

#[test]
fn nesting_within_the_depth_bound_decodes() {
    let mut input = Vec::new();
    for _ in 0..64 {
        input.extend_from_slice(b"*1\r\n");
    }
    input.extend_from_slice(b":1\r\n");
    let mut expected = RespDT::Integer(1);
    for _ in 0..64 {
        expected = RespDT::Array(vec![expected]);
    }
    assert_eq!(decode_one(&input), expected);
}
