use kv_rs::resp::{convert_bulk_string_to_string, DecodeError, RespCodec, RespValue};

fn decode_all(bytes: &[u8]) -> Result<(RespValue, usize), DecodeError> {
    let mut codec = RespCodec::new();
    let buf: Vec<u8> = bytes.to_vec();
    codec.decode(&buf, 0)
}

fn encode_one(v: &RespValue) -> Vec<u8> {
    let mut codec = RespCodec::new();
    let mut out: Vec<u8> = Vec::new();
    codec.encode(&mut out, v);
    out
}

#[test]
fn encode_simple_string() {
    let v = RespValue::SimpleString(b"OK".to_vec());
    assert_eq!(encode_one(&v), b"+OK\r\n".to_vec());
}

#[test]
fn encode_error_frame() {
    let v = RespValue::Error(b"Err boom".to_vec());
    assert_eq!(encode_one(&v), b"-Err boom\r\n".to_vec());
}

#[test]
fn encode_integers() {
    assert_eq!(encode_one(&RespValue::Integer(0)), b":0\r\n".to_vec());
    assert_eq!(encode_one(&RespValue::Integer(1234)), b":1234\r\n".to_vec());
    assert_eq!(encode_one(&RespValue::Integer(-42)), b":-42\r\n".to_vec());
    assert_eq!(
        encode_one(&RespValue::Integer(i64::MIN)),
        b":-9223372036854775808\r\n".to_vec()
    );
}

#[test]
fn encode_bulk_strings() {
    assert_eq!(
        encode_one(&RespValue::BulkString(Some(b"bar".to_vec()))),
        b"$3\r\nbar\r\n".to_vec()
    );
    assert_eq!(
        encode_one(&RespValue::BulkString(Some(Vec::new()))),
        b"$0\r\n\r\n".to_vec()
    );
    assert_eq!(encode_one(&RespValue::BulkString(None)), b"$-1\r\n".to_vec());
}

#[test]
fn encode_array() {
    let v = RespValue::Array(vec![
        RespValue::BulkString(Some(b"GET".to_vec())),
        RespValue::BulkString(Some(b"foo".to_vec())),
    ]);
    assert_eq!(encode_one(&v), b"*2\r\n$3\r\nGET\r\n$3\r\nfoo\r\n".to_vec());
}

#[test]
fn decode_simple_string() {
    let (v, n) = decode_all(b"+PONG\r\n").unwrap();
    assert_eq!(v, RespValue::SimpleString(b"PONG".to_vec()));
    assert_eq!(n, 7);
}

#[test]
fn decode_error_frame() {
    let (v, _) = decode_all(b"-Err x\r\n").unwrap();
    assert_eq!(v, RespValue::Error(b"Err x".to_vec()));
}

#[test]
fn decode_integer_bounds() {
    let (v, _) = decode_all(b":9223372036854775807\r\n").unwrap();
    assert_eq!(v, RespValue::Integer(i64::MAX));
    let (v, _) = decode_all(b":-9223372036854775808\r\n").unwrap();
    assert_eq!(v, RespValue::Integer(i64::MIN));
    let (v, _) = decode_all(b":+7\r\n").unwrap();
    assert_eq!(v, RespValue::Integer(7));
    let (v, _) = decode_all(b":007\r\n").unwrap();
    assert_eq!(v, RespValue::Integer(7));
    assert_eq!(
        decode_all(b":9223372036854775808\r\n"),
        Err(DecodeError::ParseIntError)
    );
}

#[test]
fn decode_null_bulk_string() {
    let (v, n) = decode_all(b"$-1\r\n").unwrap();
    assert_eq!(v, RespValue::BulkString(None));
    assert_eq!(n, 5);
}

#[test]
fn decode_bulk_string_binary_body() {
    let (v, _) = decode_all(b"$4\r\na\xffb\x00\r\n").unwrap();
    assert_eq!(v, RespValue::BulkString(Some(vec![b'a', 0xff, b'b', 0x00])));
}

#[test]
fn decode_nested_array() {
    let bytes = b"*2\r\n*1\r\n:5\r\n$2\r\nhi\r\n";
    let (v, n) = decode_all(bytes).unwrap();
    assert_eq!(
        v,
        RespValue::Array(vec![
            RespValue::Array(vec![RespValue::Integer(5)]),
            RespValue::BulkString(Some(b"hi".to_vec())),
        ])
    );
    assert_eq!(n, bytes.len());
}

#[test]
fn decode_empty_array() {
    let (v, _) = decode_all(b"*0\r\n").unwrap();
    assert_eq!(v, RespValue::Array(Vec::new()));
}

#[test]
fn decode_unrecognized_type() {
    assert_eq!(decode_all(b"!x\r\n"), Err(DecodeError::UnrecognizedType));
}

#[test]
fn decode_lone_line_feed_is_incomplete() {
    assert_eq!(decode_all(b"+ab\n"), Err(DecodeError::IncompleteData));
}

#[test]
fn decode_bad_integer() {
    assert_eq!(decode_all(b":12a\r\n"), Err(DecodeError::ParseIntError));
    assert_eq!(decode_all(b":\r\n"), Err(DecodeError::ParseIntError));
}

#[test]
fn decode_negative_bulk_length() {
    assert_eq!(decode_all(b"$-2\r\n"), Err(DecodeError::ParseIntError));
}

#[test]
fn decode_invalid_utf8_line() {
    assert_eq!(decode_all(b"+\xff\r\n"), Err(DecodeError::Utf8Error));
}

#[test]
fn decode_accepts_multibyte_utf8_line() {
    let (v, _) = decode_all(b"+h\xc3\xa9\r\n").unwrap();
    assert_eq!(v, RespValue::SimpleString(vec![b'h', 0xc3, 0xa9]));
}

#[test]
fn decode_needs_more_bytes() {
    assert_eq!(decode_all(b""), Err(DecodeError::NeedMore));
    assert_eq!(decode_all(b"+PON"), Err(DecodeError::NeedMore));
    assert_eq!(decode_all(b"$5\r\nab"), Err(DecodeError::NeedMore));
    assert_eq!(decode_all(b"*2\r\n:1\r\n"), Err(DecodeError::NeedMore));
}

#[test]
fn decode_reports_consumed_prefix() {
    let bytes = b"+OK\r\n:1\r\n";
    let mut codec = RespCodec::new();
    let buf: Vec<u8> = bytes.to_vec();
    let (v1, n1) = codec.decode(&buf, 0).unwrap();
    assert_eq!(v1, RespValue::SimpleString(b"OK".to_vec()));
    let (v2, n2) = codec.decode(&buf, n1).unwrap();
    assert_eq!(v2, RespValue::Integer(1));
    assert_eq!(n2, bytes.len());
}

#[test]
fn round_trip_every_variant() {
    let values = vec![
        RespValue::SimpleString(b"hello world".to_vec()),
        RespValue::Error(b"Err deep".to_vec()),
        RespValue::Integer(-77),
        RespValue::BulkString(None),
        RespValue::BulkString(Some(b"\x00\x01\x02\r\n".to_vec())),
        RespValue::Array(vec![
            RespValue::Integer(1),
            RespValue::Array(vec![RespValue::BulkString(Some(b"x".to_vec()))]),
            RespValue::SimpleString(Vec::new()),
        ]),
    ];
    for v in values {
        let bytes = encode_one(&v);
        let (back, n) = decode_all(&bytes).unwrap();
        assert_eq!(back, v);
        assert_eq!(n, bytes.len());
    }
}

#[test]
fn carriage_return_inside_simple_string_round_trips() {
    let v = RespValue::SimpleString(b"a\rb".to_vec());
    let bytes = encode_one(&v);
    assert_eq!(bytes, b"+a\rb\r\n".to_vec());
    let (back, _) = decode_all(&bytes).unwrap();
    assert_eq!(back, v);
}

#[test]
fn decode_rejects_overlong_and_surrogate_utf8() {
    // Overlong encoding of '/' and a UTF-16 surrogate are not well-formed.
    assert_eq!(decode_all(b"+\xc0\xaf\r\n"), Err(DecodeError::Utf8Error));
    assert_eq!(decode_all(b"+\xed\xa0\x80\r\n"), Err(DecodeError::Utf8Error));
    // A four-byte sequence at the top of the range is well-formed.
    let (v, _) = decode_all(b"+\xf4\x8f\xbf\xbf\r\n").unwrap();
    assert_eq!(v, RespValue::SimpleString(vec![0xf4, 0x8f, 0xbf, 0xbf]));
}

#[test]
fn bulk_string_text_conversion() {
    assert_eq!(convert_bulk_string_to_string(Some(b"SET".to_vec())), "SET");
    assert_eq!(
        convert_bulk_string_to_string(Some(vec![b'h', 0xc3, 0xa9])),
        "h\u{e9}"
    );
    assert_eq!(convert_bulk_string_to_string(Some(vec![0xff])), "");
    assert_eq!(convert_bulk_string_to_string(None), "");
}
