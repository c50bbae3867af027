use bytes::BytesMut;
use kvkv::proto::{ProtoCodec, ProtoValue};
use kvkv::resp::RespValue;

fn encode(p: ProtoValue) -> Vec<u8> {
    let mut buf = BytesMut::new();
    ProtoCodec.encode(p, &mut buf);
    buf.to_vec()
}

fn messages() -> Vec<ProtoValue> {
    vec![
        ProtoValue::Handshake(4294967295),
        ProtoValue::Handshake(1),
        ProtoValue::Resp(RespValue::array(&["SET", "k", "v"])),
        ProtoValue::Vote(true),
        ProtoValue::Vote(false),
        ProtoValue::Decision(true),
        ProtoValue::Decision(false),
        ProtoValue::Replicate(vec![(b"a".to_vec(), b"1".to_vec()), (b"b".to_vec(), Vec::new())]),
    ]
}

#[test]
fn encodes_tag_then_payload() {
    assert_eq!(encode(ProtoValue::Handshake(7)), b"H:7\r\n".to_vec());
    assert_eq!(encode(ProtoValue::Vote(true)), b"V:1\r\n".to_vec());
    assert_eq!(encode(ProtoValue::Decision(false)), b"D:0\r\n".to_vec());
    assert_eq!(
        encode(ProtoValue::Resp(RespValue::SimpleString(b"OK".to_vec()))),
        b"R+OK\r\n".to_vec()
    );
}

#[test]
fn frames_concatenate_and_split_back() {
    let mut buf = BytesMut::new();
    for m in messages() {
        ProtoCodec.encode(m, &mut buf);
    }
    let mut out = Vec::new();
    while let Some(m) = ProtoCodec.decode(&mut buf) {
        out.push(m);
    }
    assert_eq!(out, messages());
    assert_eq!(buf.len(), 0);
}

#[test]
fn partial_frame_waits() {
    let bytes = encode(ProtoValue::Replicate(vec![(b"key".to_vec(), b"value".to_vec())]));
    for i in 0..bytes.len() {
        let mut buf = BytesMut::from(&bytes[..i]);
        assert_eq!(ProtoCodec.decode(&mut buf), None);
        assert_eq!(buf.len(), i);
    }
}

#[test]
fn ill_shaped_frames_are_not_messages() {
    let mut buf = BytesMut::from(&b"V:2\r\n"[..]);
    assert_eq!(ProtoCodec.decode(&mut buf), None);
    let mut buf = BytesMut::from(&b"H:-1\r\n"[..]);
    assert_eq!(ProtoCodec.decode(&mut buf), None);
    let mut buf = BytesMut::from(&b"M*1\r\n$1\r\na\r\n"[..]);
    assert_eq!(ProtoCodec.decode(&mut buf), None);
    let mut buf = BytesMut::from(&b"X:1\r\n"[..]);
    assert_eq!(ProtoCodec.decode(&mut buf), None);
}

#[test]
fn well_formedness_of_messages() {
    for m in messages() {
        assert!(m.is_well_formed());
    }
    let bad = ProtoValue::Resp(RespValue::SimpleString(b"a\rb".to_vec()));
    assert!(!bad.is_well_formed());
    let bad = ProtoValue::Resp(RespValue::Array(vec![RespValue::Error(b"x\r".to_vec())]));
    assert!(!bad.is_well_formed());
    let ok = ProtoValue::Resp(RespValue::SimpleString(b"a\nb".to_vec()));
    assert!(ok.is_well_formed());
    let mut buf = BytesMut::new();
    ProtoCodec.encode(ok, &mut buf);
    assert_eq!(ProtoCodec.decode(&mut buf), Some(ProtoValue::Resp(RespValue::SimpleString(b"a\nb".to_vec()))));
}

#[test]
fn buffered_len_counts_bytes() {
    let buf = BytesMut::from(&b"R+OK\r\n"[..]);
    assert_eq!(kvkv::buffer::buffered_len(&buf), 6);
}
