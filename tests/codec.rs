use bytes::BytesMut;
use redis_starter_rust::{
    encode, parse_i64, parse_u64, push_int, BufSplit, RESPError, RedisBufSplit, RedisParser,
    RedisValueRef,
};

fn bulk(s: &str) -> RedisValueRef {
    RedisValueRef::BulkString(s.as_bytes().to_vec())
}

fn decode_all(bytes: &[u8]) -> (Result<Option<RedisValueRef>, RESPError>, Vec<u8>) {
    let mut parser = RedisParser::new();
    let mut buffer = BytesMut::from(bytes);
    let r = parser.decode(&mut buffer);
    (r, buffer.to_vec())
}

fn sample_values() -> Vec<RedisValueRef> {
    vec![
        RedisValueRef::SimpleString(b"OK".to_vec()),
        RedisValueRef::SimpleString(b"".to_vec()),
        RedisValueRef::SimpleString(b"a\rb".to_vec()),
        RedisValueRef::Error(b"ERR bad".to_vec()),
        RedisValueRef::Int(0),
        RedisValueRef::Int(-42),
        RedisValueRef::Int(i64::MAX),
        RedisValueRef::Int(i64::MIN),
        bulk("hello"),
        bulk(""),
        RedisValueRef::BulkString(b"with\r\ninside".to_vec()),
        RedisValueRef::NullBulkString,
        RedisValueRef::NullArray,
        RedisValueRef::Array(vec![]),
        RedisValueRef::Array(vec![
            bulk("SET"),
            RedisValueRef::Int(7),
            RedisValueRef::Array(vec![RedisValueRef::NullBulkString, bulk("x")]),
        ]),
    ]
}

#[test]
fn encodes_each_kind() {
    assert_eq!(encode(&RedisValueRef::SimpleString(b"OK".to_vec())), b"+OK\r\n".to_vec());
    assert_eq!(encode(&RedisValueRef::Error(b"ERR x".to_vec())), b"-ERR x\r\n".to_vec());
    assert_eq!(encode(&RedisValueRef::Int(-12)), b":-12\r\n".to_vec());
    assert_eq!(encode(&RedisValueRef::Int(i64::MIN)), b":-9223372036854775808\r\n".to_vec());
    assert_eq!(encode(&bulk("bar")), b"$3\r\nbar\r\n".to_vec());
    assert_eq!(encode(&RedisValueRef::NullBulkString), b"$-1\r\n".to_vec());
    assert_eq!(encode(&RedisValueRef::NullArray), b"*-1\r\n".to_vec());
    assert_eq!(
        encode(&RedisValueRef::Array(vec![bulk("GET"), bulk("foo")])),
        b"*2\r\n$3\r\nGET\r\n$3\r\nfoo\r\n".to_vec()
    );
}

#[test]
fn decode_of_encode_gives_the_value_back() {
    for v in sample_values() {
        let bytes = encode(&v);
        let (r, rest) = decode_all(&bytes);
        assert_eq!(r.unwrap(), Some(v));
        assert!(rest.is_empty());
    }
}

#[test]
fn every_proper_prefix_asks_for_more() {
    let v = RedisValueRef::Array(vec![bulk("ECHO"), bulk("hey"), RedisValueRef::Int(-3)]);
    let bytes = encode(&v);
    for k in 0..bytes.len() {
        let (r, rest) = decode_all(&bytes[..k]);
        assert_eq!(r.unwrap(), None, "prefix of length {}", k);
        assert_eq!(rest, bytes[..k].to_vec());
    }
    let (r, _) = decode_all(&bytes);
    assert_eq!(r.unwrap(), Some(v));
}

#[test]
fn byte_at_a_time_feeding() {
    let v = RedisValueRef::Array(vec![bulk("SET"), bulk("k"), bulk("v")]);
    let bytes = encode(&v);
    let mut parser = RedisParser::new();
    let mut buffer = BytesMut::new();
    let mut decoded = Vec::new();
    for b in bytes.iter() {
        buffer.extend_from_slice(&[*b]);
        if let Some(x) = parser.decode(&mut buffer).unwrap() {
            decoded.push(x);
        }
    }
    assert_eq!(decoded, vec![v]);
    assert!(buffer.is_empty());
}

#[test]
fn decode_takes_one_frame_and_keeps_the_rest() {
    let (r, rest) = decode_all(b"+PONG\r\n:5\r\n$2\r\nab");
    assert_eq!(r.unwrap(), Some(RedisValueRef::SimpleString(b"PONG".to_vec())));
    assert_eq!(rest, b":5\r\n$2\r\nab".to_vec());
}

#[test]
fn decode_errors() {
    assert!(matches!(decode_all(b"?x\r\n").0, Err(RESPError::UnknownStartingByte)));
    assert!(matches!(decode_all(b":12a\r\n").0, Err(RESPError::IntParseFailure)));
    assert!(matches!(decode_all(b":99999999999999999999\r\n").0, Err(RESPError::IntParseFailure)));
    assert!(matches!(decode_all(b"$-2\r\n").0, Err(RESPError::BadBulkStringSize(-2))));
    assert!(matches!(decode_all(b"*-5\r\n").0, Err(RESPError::BadArraySize(-5))));
    let (r, rest) = decode_all(b"*1\r\n!\r\n");
    assert!(matches!(r, Err(RESPError::UnknownStartingByte)));
    assert_eq!(rest, b"*1\r\n!\r\n".to_vec());
}

#[test]
fn decode_nulls_and_empty() {
    assert_eq!(decode_all(b"$-1\r\n").0.unwrap(), Some(RedisValueRef::NullBulkString));
    assert_eq!(decode_all(b"*-1\r\n").0.unwrap(), Some(RedisValueRef::NullArray));
    assert_eq!(decode_all(b"*0\r\n").0.unwrap(), Some(RedisValueRef::Array(vec![])));
    assert_eq!(decode_all(b"").0.unwrap(), None);
}

#[test]
fn word_ends_at_the_first_crlf() {
    let parser = RedisParser::new();
    let r = parser.word(b"ab\rc\r\nrest", 0).unwrap();
    assert_eq!(r.0, 6);
    assert_eq!(r.1.as_slice(b"ab\rc\r\nrest"), b"ab\rc");
    assert!(parser.word(b"abc\r", 0).is_none());
    assert!(parser.word(b"abc", 0).is_none());
    assert!(parser.word(b"abc", 5).is_none());
    let r = parser.word(b"xx\r\nyy\r\n", 4).unwrap();
    assert_eq!(r.0, 8);
    assert_eq!(r.1.as_bytes(b"xx\r\nyy\r\n"), b"yy".to_vec());
}

#[test]
fn parse_reports_spans() {
    let parser = RedisParser::new();
    let buffer = b"*2\r\n+hi\r\n:-1\r\n";
    let (end, split) = parser.parse(buffer, 0).unwrap().unwrap();
    assert_eq!(end, buffer.len());
    assert_eq!(
        split.redis_value(buffer),
        RedisValueRef::Array(vec![RedisValueRef::SimpleString(b"hi".to_vec()), RedisValueRef::Int(-1)])
    );
    let direct = BufSplit(5, 7);
    assert_eq!(direct.as_slice(buffer), b"hi");
}

#[test]
fn parses_integers_like_std() {
    for text in ["0", "-0", "+7", "42", "-9223372036854775808", "9223372036854775807"] {
        assert_eq!(parse_i64(text.as_bytes()), text.parse::<i64>().ok(), "{}", text);
    }
    for text in ["", "-", "+", "1 ", " 1", "9223372036854775808", "-9223372036854775809", "1-2", "--1"] {
        assert_eq!(parse_i64(text.as_bytes()), None, "{}", text);
    }
    assert_eq!(parse_u64(b"18446744073709551615"), Some(u64::MAX));
    assert_eq!(parse_u64(b"18446744073709551616"), None);
    assert_eq!(parse_u64(b"+100"), Some(100));
    assert_eq!(parse_u64(b"-1"), None);
    assert_eq!(parse_u64(b"-0"), None);
}

#[test]
fn formats_integers() {
    let mut out = b"x".to_vec();
    push_int(&mut out, -305);
    assert_eq!(out, b"x-305".to_vec());
    let mut out = Vec::new();
    push_int(&mut out, i64::MAX);
    assert_eq!(out, b"9223372036854775807".to_vec());
}

#[test]
fn spans_are_the_frame_pieces() {
    let parser = RedisParser::new();
    match parser.simple_string(b"+OK\r\n", 1).unwrap() {
        Some((5, RedisBufSplit::SimpleString(BufSplit(1, 3)))) => {}
        _ => panic!("wrong simple string span"),
    }
    match parser.bulk_string(b"$3\r\nbar\r\nzz", 1).unwrap() {
        Some((9, RedisBufSplit::BulkString(BufSplit(4, 7)))) => {}
        _ => panic!("wrong bulk string span"),
    }
    match parser.bulk_string(b"$0\r\n\r\n", 1).unwrap() {
        Some((6, RedisBufSplit::BulkString(BufSplit(4, 4)))) => {}
        _ => panic!("wrong empty bulk string span"),
    }
}

#[test]
fn trailing_bytes_do_not_change_a_complete_frame() {
    let parser = RedisParser::new();
    let frame = b"*2\r\n$3\r\nGET\r\n$1\r\nk\r\n".to_vec();
    let mut longer = frame.clone();
    longer.extend_from_slice(b"*1\r\n$4\r\nPI");
    let (end_a, a) = parser.parse(&frame, 0).unwrap().unwrap();
    let (end_b, b) = parser.parse(&longer, 0).unwrap().unwrap();
    assert_eq!(end_a, frame.len());
    assert_eq!(end_b, frame.len());
    assert_eq!(a.redis_value(&frame), b.redis_value(&longer));
}
