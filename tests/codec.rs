use minikv::parser::{parse_resp, ParseError, Parser};
use minikv::value::Value;

fn text(s: &str) -> String {
    s.to_string()
}

fn sample() -> Value {
    Value::Array(vec![
        Value::BulkString(text("SET")),
        Value::SimpleString(text("héllo")),
        Value::SimpleError(text("ERR bad\r")),
        Value::Null,
        Value::Array(vec![]),
        Value::BulkString(text("")),
    ])
}

#[test]
fn encodes_each_variant() {
    assert_eq!(Value::SimpleString(text("OK")).encode(), b"+OK\r\n".to_vec());
    assert_eq!(Value::BulkString(text("hello")).encode(), b"$5\r\nhello\r\n".to_vec());
    assert_eq!(Value::SimpleError(text("ERR x")).encode(), b"-ERR x\r\n".to_vec());
    assert_eq!(Value::Null.encode(), b"$-1\r\n".to_vec());
    assert_eq!(
        Value::Array(vec![Value::BulkString(text("GET")), Value::BulkString(text("k"))]).encode(),
        b"*2\r\n$3\r\nGET\r\n$1\r\nk\r\n".to_vec()
    );
}

#[test]
fn bulk_length_counts_bytes() {
    assert_eq!(Value::BulkString(text("é")).encode(), b"$2\r\n\xc3\xa9\r\n".to_vec());
    let long = "x".repeat(12);
    assert_eq!(Value::BulkString(long.clone()).encode()[..5].to_vec(), b"$12\r\n".to_vec());
}

#[test]
fn round_trip_of_nested_value() {
    let v = sample();
    let bytes = v.encode();
    let (back, used) = parse_resp(&bytes).unwrap();
    assert_eq!(back, sample());
    assert_eq!(used, bytes.len());
}

#[test]
fn every_strict_prefix_is_incomplete() {
    let bytes = sample().encode();
    for k in 0..bytes.len() {
        assert_eq!(parse_resp(&bytes[..k]), Err(ParseError::UnexpectedEOF), "prefix {}", k);
    }
    let mut grown = bytes[..7].to_vec();
    grown.extend_from_slice(&bytes[7..]);
    assert_eq!(parse_resp(&grown).unwrap().0, sample());
}

#[test]
fn pipelined_frames_decode_in_order() {
    let first = Value::BulkString(text("one"));
    let second = Value::SimpleString(text("two"));
    let mut bytes = first.encode();
    bytes.extend_from_slice(&second.encode());
    let (a, used) = parse_resp(&bytes).unwrap();
    assert_eq!(a, Value::BulkString(text("one")));
    assert_eq!(used, 9);
    let (b, used2) = parse_resp(&bytes[used..]).unwrap();
    assert_eq!(b, Value::SimpleString(text("two")));
    assert_eq!(used2, 6);
}

#[test]
fn negative_bulk_length_is_malformed() {
    let r = parse_resp(b"*2\r\n$3\r\nfoo\r\n$-5\r\n");
    assert_eq!(r, Err(ParseError::ParseIntError));
    assert!(!r.unwrap_err().is_incomplete());
}

#[test]
fn decodes_null_and_plus_sign_lengths() {
    assert_eq!(parse_resp(b"$-1\r\n"), Ok((Value::Null, 5)));
    assert_eq!(parse_resp(b"$+2\r\nab\r\n"), Ok((Value::BulkString(text("ab")), 9)));
}

#[test]
fn rejects_unknown_tag() {
    assert_eq!(parse_resp(b"!x\r\n"), Err(ParseError::UnexpectedByte(b'!')));
}

#[test]
fn rejects_missing_terminator_after_bulk() {
    assert_eq!(
        parse_resp(b"$3\r\nfooXY"),
        Err(ParseError::ExpectedByte { actual: b'X', expected: b'\r' })
    );
    assert_eq!(
        parse_resp(b"$3\r\nfoo\rY"),
        Err(ParseError::ExpectedByte { actual: b'Y', expected: b'\n' })
    );
}

#[test]
fn rejects_invalid_utf8() {
    assert_eq!(parse_resp(b"+\xff\r\n"), Err(ParseError::InvalidUtf8));
    assert_eq!(parse_resp(b"$1\r\n\xff\r\n"), Err(ParseError::InvalidUtf8));
}

#[test]
fn rejects_bad_count() {
    assert_eq!(parse_resp(b"*x\r\n"), Err(ParseError::ParseIntError));
    assert_eq!(parse_resp(b"$\r\n"), Err(ParseError::ParseIntError));
    assert_eq!(parse_resp(b"$99999999999999999999999\r\n"), Err(ParseError::ParseIntError));
}

#[test]
fn huge_array_count_waits_for_data() {
    assert_eq!(parse_resp(b"*1000\r\n+a\r\n"), Err(ParseError::UnexpectedEOF));
    assert_eq!(parse_resp(b""), Err(ParseError::UnexpectedEOF));
}

#[test]
fn parser_reports_bytes_consumed() {
    let bytes = b"+a\r\n:rest";
    let mut p = Parser::new(bytes);
    assert_eq!(p.bytes_consumed(), 0);
    assert_eq!(p.parse(), Ok(Value::SimpleString(text("a"))));
    assert_eq!(p.bytes_consumed(), 4);
}

#[test]
fn parse_error_messages() {
    assert_eq!(ParseError::UnexpectedEOF.message(), "Unexpected EOF");
    assert_eq!(ParseError::ParseIntError.message(), "Error parsing integer");
}

#[test]
fn byte_error_messages_name_the_bytes() {
    assert_eq!(ParseError::UnexpectedByte(b'!').message(), "Unexpected byte 33");
    assert_eq!(
        ParseError::ExpectedByte { actual: b'X', expected: b'\r' }.message(),
        "Expected byte 13, got 88"
    );
    assert_eq!(ParseError::UnexpectedByte(0).message(), "Unexpected byte 0");
    assert_eq!(ParseError::UnexpectedByte(255).message(), "Unexpected byte 255");
}
