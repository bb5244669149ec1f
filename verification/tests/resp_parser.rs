//! The RESP parser.

use bytes::BytesMut;
use ember::resp::parser::ParseError;
use ember::resp::parser::Parser;
use ember::resp::types::RespType;

// A byte buffer holding `s`, as the server's read buffer does.
fn buf(s: &str) -> BytesMut {
    BytesMut::from(s.as_bytes())
}

// Parsing `input` succeeds and gives `expected`.
fn assert_parse_ok(input: &str, expected: RespType) {
    let (got, _) = Parser::parse(&buf(input)).unwrap_or_else(|e| panic!("parse({input:?}) failed: {e:?}"));
    assert_eq!(got, expected);
}

// Parsing `input` takes `expected_bytes` bytes.
fn assert_consumed(input: &str, expected_bytes: usize) {
    let (_, consumed) = Parser::parse(&buf(input)).unwrap_or_else(|e| panic!("parse({input:?}) failed: {e:?}"));
    assert_eq!(consumed, expected_bytes, "wrong byte count for {input:?}: got {consumed}, expected {expected_bytes}");
}

// Incomplete / empty input

#[test]
fn parse_returns_incomplete_for_empty_buffer() {
    let result = Parser::parse(&buf(""));
    assert!(
        matches!(result, Err(ParseError::Incomplete)),
        "empty buffer must be Incomplete, got {result:?}"
    );
}

#[test]
fn parse_returns_incomplete_when_crlf_missing() {
    // Each case has a valid type byte but no terminating \r\n
    for input in ["+OK", ":-42", "_"] {
        let result = Parser::parse(&buf(input));
        assert!(
            matches!(result, Err(ParseError::Incomplete)),
            "{input:?}: expected Incomplete, got {result:?}"
        );
    }
}

#[test]
fn parse_bulk_string_incomplete_body() {
    // Length header is present but body is truncated
    let result = Parser::parse(&buf("$5\r\nhel"));
    assert!(matches!(result, Err(ParseError::Incomplete)));
}

// Simple String

#[test]
fn parse_simple_string_variants() {
    assert_parse_ok("+OK\r\n", RespType::SimpleString("OK".into()));
    assert_parse_ok("+\r\n", RespType::SimpleString("".into()));
    assert_parse_ok("+hello world\r\n", RespType::SimpleString("hello world".into()));
}

#[test]
fn parse_simple_string_byte_count() {
    // '+' + "OK" + "\r\n" = 5 bytes
    assert_consumed("+OK\r\n", 5);
}

// Simple Error

#[test]
fn parse_simple_error() {
    // The parser currently returns a SimpleString for '-' — same branch
    assert_parse_ok(
        "-ERR unknown command\r\n",
        RespType::SimpleString("ERR unknown command".into()),
    );
}

// Integer

#[test]
fn parse_integer_variants() {
    assert_parse_ok(":0\r\n", RespType::Integer(0));
    assert_parse_ok(":42\r\n", RespType::Integer(42));
    assert_parse_ok(":-1\r\n", RespType::Integer(-1));
    assert_parse_ok(":1000000\r\n", RespType::Integer(1_000_000));
}

#[test]
fn parse_integer_byte_count() {
    // ':' + "1234" + "\r\n" = 7 bytes
    assert_consumed(":1234\r\n", 7);
}

// Bulk String

#[test]
fn parse_bulk_string_variants() {
    assert_parse_ok("$5\r\nhello\r\n", RespType::BulkString("hello".into()));
    assert_parse_ok("$0\r\n\r\n", RespType::BulkString("".into()));
}

#[test]
fn parse_bulk_string_byte_count() {
    // "$5\r\n" (4) + "hello" (5) + "\r\n" (2) = 11
    assert_consumed("$5\r\nhello\r\n", 11);
}

// Array

#[test]
fn parse_array_empty() {
    assert_parse_ok("*0\r\n", RespType::Array(vec![]));
}

#[test]
fn parse_array_of_bulk_strings() {
    let input = "*2\r\n$3\r\nfoo\r\n$3\r\nbar\r\n";
    assert_parse_ok(
        input,
        RespType::Array(vec![
            RespType::BulkString("foo".into()),
            RespType::BulkString("bar".into()),
        ]),
    );
    assert_consumed(input, input.len());
}

#[test]
fn parse_array_mixed_types() {
    let input = "*2\r\n:42\r\n+OK\r\n";
    assert_parse_ok(
        input,
        RespType::Array(vec![
            RespType::Integer(42),
            RespType::SimpleString("OK".into()),
        ]),
    );
}

// Null

#[test]
fn parse_null() {
    assert_parse_ok("_\r\n", RespType::Null);
}

// Boolean

#[test]
fn parse_boolean_variants() {
    assert_parse_ok("#t\r\n", RespType::Boolean(true));
    assert_parse_ok("#f\r\n", RespType::Boolean(false));
}

#[test]
fn parse_boolean_invalid_value_is_error() {
    let result = Parser::parse(&buf("#x\r\n"));
    assert!(
        matches!(result, Err(ParseError::Invalid(_))),
        "expected Invalid, got {result:?}"
    );
}

// Inline commands (legacy)

#[test]
fn parse_inline_single_word() {
    assert_parse_ok(
        "PING\r\n",
        RespType::Array(vec![RespType::BulkString("PING".into())]),
    );
}

#[test]
fn parse_inline_multi_word() {
    let input = "SET foo bar\r\n";
    assert_parse_ok(
        input,
        RespType::Array(vec![
            RespType::BulkString("SET".into()),
            RespType::BulkString("foo".into()),
            RespType::BulkString("bar".into()),
        ]),
    );
    assert_consumed(input, input.len());
}

// Further cases.

#[test]
fn parse_takes_only_the_first_of_pipelined_values() {
    let input = "+OK\r\n:1\r\n";
    assert_parse_ok(input, RespType::SimpleString("OK".into()));
    assert_consumed(input, 5);
}

#[test]
fn parse_nested_array() {
    let input = "*2\r\n*1\r\n:1\r\n$2\r\nhi\r\n";
    assert_parse_ok(
        input,
        RespType::Array(vec![RespType::Array(vec![RespType::Integer(1)]), RespType::BulkString("hi".into())]),
    );
    assert_consumed(input, input.len());
}

#[test]
fn parse_bulk_string_counts_bytes() {
    // "é" is two bytes.
    assert_parse_ok("$2\r\n\u{e9}\r\n", RespType::BulkString("\u{e9}".into()));
}

#[test]
fn parse_bulk_string_may_hold_crlf() {
    assert_parse_ok("$4\r\na\r\nb\r\n", RespType::BulkString("a\r\nb".into()));
}

#[test]
fn parse_bulk_string_without_trailing_crlf_is_invalid() {
    let result = Parser::parse(&buf("$2\r\nabcd\r\n"));
    assert!(matches!(result, Err(ParseError::Invalid(ref m)) if m == "Missing CRLF after bulk string"));
}

#[test]
fn parse_bad_lengths_are_invalid() {
    let result = Parser::parse(&buf("$x\r\n"));
    assert!(matches!(result, Err(ParseError::Invalid(ref m)) if m == "Invalid value for an integer."));
    let result = Parser::parse(&buf("*-1\r\n"));
    assert!(matches!(result, Err(ParseError::Invalid(_))));
}

#[test]
fn parse_bad_integer_is_invalid() {
    let result = Parser::parse(&buf(":12a\r\n"));
    assert!(matches!(result, Err(ParseError::Invalid(ref m)) if m == "Invalid integer value."));
}

#[test]
fn parse_array_with_missing_items_is_incomplete() {
    let result = Parser::parse(&buf("*2\r\n:1\r\n"));
    assert!(matches!(result, Err(ParseError::Incomplete)));
}

#[test]
fn parse_inline_splits_on_runs_of_white_space() {
    assert_parse_ok(
        "  GET\t key  \r\n",
        RespType::Array(vec![RespType::BulkString("GET".into()), RespType::BulkString("key".into())]),
    );
    assert_parse_ok("\r\n", RespType::Array(vec![]));
}

#[test]
fn parse_inline_without_crlf_is_incomplete() {
    assert!(matches!(Parser::parse(&buf("PING")), Err(ParseError::Incomplete)));
}

#[test]
fn parse_invalid_utf8_in_simple_string() {
    let result = Parser::parse(&[b'+', 0xff, b'\r', b'\n']);
    assert!(matches!(result, Err(ParseError::Invalid(ref m)) if m == "Simple string value is not a valid utf8 string."));
}

#[test]
fn parse_error_messages() {
    assert_eq!(ParseError::Incomplete.message(), "Incomplete data");
    assert_eq!(ParseError::Invalid("bad".into()).message(), "bad");
}
