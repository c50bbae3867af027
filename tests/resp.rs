use bytes::BytesMut;
use kvkv::resp::{RespCodec, RespValue};

fn encode(v: RespValue) -> Vec<u8> {
    let mut buf = BytesMut::new();
    RespCodec.encode(v, &mut buf);
    buf.to_vec()
}

fn decode_all(bytes: &[u8]) -> (Option<RespValue>, usize) {
    let mut buf = BytesMut::from(bytes);
    let v = RespCodec.decode(&mut buf);
    (v, buf.len())
}

fn sample() -> RespValue {
    RespValue::Array(vec![
        RespValue::SimpleString(b"OK".to_vec()),
        RespValue::Error(b"ERR bad".to_vec()),
        RespValue::Integer(-9223372036854775808),
        RespValue::Integer(42),
        RespValue::BulkString(b"a\r\nb".to_vec()),
        RespValue::BulkString(Vec::new()),
        RespValue::Array(vec![]),
        RespValue::Array(vec![RespValue::Integer(0)]),
    ])
}

#[test]
fn encodes_each_kind() {
    assert_eq!(encode(RespValue::SimpleString(b"OK".to_vec())), b"+OK\r\n".to_vec());
    assert_eq!(encode(RespValue::Error(b"ERROR".to_vec())), b"-ERROR\r\n".to_vec());
    assert_eq!(encode(RespValue::Integer(-12)), b":-12\r\n".to_vec());
    assert_eq!(encode(RespValue::Integer(0)), b":0\r\n".to_vec());
    assert_eq!(
        encode(RespValue::BulkString(b"Cloud Computing".to_vec())),
        b"$15\r\nCloud Computing\r\n".to_vec()
    );
    assert_eq!(
        encode(RespValue::array(&["GET", "CS"])),
        b"*2\r\n$3\r\nGET\r\n$2\r\nCS\r\n".to_vec()
    );
}

#[test]
fn round_trip_consumes_exactly_the_encoding() {
    let bytes = encode(sample());
    let mut with_tail = bytes.clone();
    with_tail.extend_from_slice(b"+next\r\n");
    let (v, left) = decode_all(&with_tail);
    assert_eq!(v, Some(sample()));
    assert_eq!(left, 7);
}

#[test]
fn every_strict_prefix_is_not_ready() {
    let bytes = encode(sample());
    for i in 0..bytes.len() {
        let mut buf = BytesMut::from(&bytes[..i]);
        assert_eq!(RespCodec.decode(&mut buf), None);
        assert_eq!(buf.len(), i);
        buf.extend_from_slice(&bytes[i..]);
        assert_eq!(RespCodec.decode(&mut buf), Some(sample()));
        assert_eq!(buf.len(), 0);
    }
}

#[test]
fn decodes_client_request() {
    let (v, left) = decode_all(b"*3\r\n$3\r\nSET\r\n$2\r\nCS\r\n$15\r\nCloud Computing\r\n");
    assert_eq!(v, Some(RespValue::array(&["SET", "CS", "Cloud Computing"])));
    assert_eq!(left, 0);
}

#[test]
fn unknown_leading_byte_is_not_ready() {
    assert_eq!(decode_all(b"?junk\r\n"), (None, 7));
}

#[test]
fn malformed_numbers_are_not_values() {
    assert_eq!(decode_all(b":12a\r\n").0, None);
    assert_eq!(decode_all(b":\r\n").0, None);
    assert_eq!(decode_all(b":-\r\n").0, None);
    assert_eq!(decode_all(b":9223372036854775808\r\n").0, None);
    assert_eq!(decode_all(b":+7\r\n").0, Some(RespValue::Integer(7)));
    assert_eq!(decode_all(b"$-1\r\n").0, None);
    assert_eq!(decode_all(b"$3\r\nabcd\r\n").0, None);
    assert_eq!(decode_all(b"+a\rb\r\n").0, None);
}

#[test]
fn negative_count_is_empty_array() {
    assert_eq!(decode_all(b"*-1\r\n"), (Some(RespValue::Array(vec![])), 0));
}

#[test]
fn write_classification() {
    assert!(RespValue::array(&["SET", "k", "v"]).is_write());
    assert!(RespValue::array(&["DEL", "k"]).is_write());
    assert!(RespValue::array(&["DEL"]).is_write());
    assert!(!RespValue::array(&["GET", "k"]).is_write());
    assert!(!RespValue::array(&["set", "k", "v"]).is_write());
    assert!(!RespValue::Array(vec![]).is_write());
    assert!(!RespValue::Array(vec![RespValue::SimpleString(b"SET".to_vec())]).is_write());
    assert!(!RespValue::BulkString(b"SET".to_vec()).is_write());
}

#[test]
fn constructors() {
    assert_eq!(RespValue::ok("OK"), RespValue::SimpleString(b"OK".to_vec()));
    assert_eq!(RespValue::err("ERROR"), RespValue::Error(b"ERROR".to_vec()));
    assert_eq!(
        RespValue::from_strs(vec!["DEL", "a"]),
        RespValue::Array(vec![
            RespValue::BulkString(b"DEL".to_vec()),
            RespValue::BulkString(b"a".to_vec())
        ])
    );
    assert_eq!(sample().duplicate(), sample());
}

#[test]
fn decoded_values_are_well_formed() {
    let (v, _) = decode_all(&encode(sample()));
    assert!(v.unwrap().is_well_formed());
    assert!(!RespValue::SimpleString(b"a\rb".to_vec()).is_well_formed());
    assert!(RespValue::BulkString(b"a\rb".to_vec()).is_well_formed());
}
