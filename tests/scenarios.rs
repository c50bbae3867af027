use bytes::BytesMut;
use kvkv::map::{KvStore, MemStore};
use kvkv::master::{Action, HandshakeError, Master, Status};
use kvkv::proto::{ProtoCodec, ProtoValue};
use kvkv::replica::{Outcome, Participant};
use kvkv::resp::{RespCodec, RespValue};

/// Sends a frame over the internal codec and reads it back.
fn wire(p: ProtoValue) -> ProtoValue {
    let mut buf = BytesMut::new();
    ProtoCodec.encode(p, &mut buf);
    let out = ProtoCodec.decode(&mut buf).unwrap();
    assert_eq!(buf.len(), 0);
    out
}

fn cluster(n: usize) -> (Master, Vec<Participant<MemStore>>) {
    let mut master = Master::new(n);
    let mut replicas = Vec::new();
    for i in 0..n {
        let mut r = Participant::new(MemStore::new());
        let hello = wire(master.handshake(i));
        match r.on_frame(hello) {
            Outcome::Reply(p) => assert_eq!(master.on_handshake(i, wire(p)), Ok(())),
            Outcome::Close => panic!("handshake refused"),
        }
        replicas.push(r);
    }
    (master, replicas)
}

/// Serves one client request; returns the reply bytes and the replicas that
/// were sent a message, in order.
fn serve(master: &mut Master, replicas: &mut [Participant<MemStore>], request: &[u8]) -> (Vec<u8>, Vec<usize>) {
    let mut buf = BytesMut::from(request);
    let value = RespCodec.decode(&mut buf).unwrap();
    let mut sent = Vec::new();
    let mut action = master.on_request(value);
    loop {
        match action {
            Action::Send(i, msg) => {
                sent.push(i);
                action = match replicas[i].on_frame(wire(msg)) {
                    Outcome::Reply(p) => master.on_reply(i, wire(p)),
                    Outcome::Close => master.on_lost(i),
                };
            }
            Action::Reply(v) => {
                let mut out = BytesMut::new();
                RespCodec.encode(v, &mut out);
                return (out.to_vec(), sent);
            }
        }
    }
}

#[test]
fn set_then_get_on_single_replica() {
    let (mut m, mut rs) = cluster(1);
    let (reply, _) = serve(&mut m, &mut rs, b"*3\r\n$3\r\nSET\r\n$2\r\nCS\r\n$15\r\nCloud Computing\r\n");
    assert_eq!(reply, b"+OK\r\n".to_vec());
    let (reply, _) = serve(&mut m, &mut rs, b"*2\r\n$3\r\nGET\r\n$2\r\nCS\r\n");
    assert_eq!(reply, b"*1\r\n$15\r\nCloud Computing\r\n".to_vec());
}

#[test]
fn get_miss_on_fresh_store() {
    let (mut m, mut rs) = cluster(1);
    let (reply, _) = serve(&mut m, &mut rs, b"*2\r\n$3\r\nGET\r\n$1\r\nX\r\n");
    assert_eq!(reply, b"*1\r\n$3\r\nnil\r\n".to_vec());
}

#[test]
fn del_counts_deletions() {
    let (mut m, mut rs) = cluster(1);
    serve(&mut m, &mut rs, b"*3\r\n$3\r\nSET\r\n$1\r\na\r\n$1\r\n1\r\n");
    serve(&mut m, &mut rs, b"*3\r\n$3\r\nSET\r\n$1\r\nb\r\n$1\r\n2\r\n");
    let (reply, _) = serve(&mut m, &mut rs, b"*4\r\n$3\r\nDEL\r\n$1\r\na\r\n$1\r\nb\r\n$1\r\nc\r\n");
    assert_eq!(reply, b":2\r\n".to_vec());
}

#[test]
fn invalid_verb() {
    let (mut m, mut rs) = cluster(1);
    let (reply, _) = serve(&mut m, &mut rs, b"*2\r\n$4\r\nPING\r\n$0\r\n\r\n");
    assert_eq!(reply, b"-Invalid Command\r\n".to_vec());
}

#[test]
fn two_phase_commit_on_two_replicas() {
    let (mut m, mut rs) = cluster(2);
    assert_eq!(m.status(0), Status::Online);
    assert_eq!(m.status(1), Status::Online);
    let (reply, sent) = serve(&mut m, &mut rs, b"*3\r\n$3\r\nSET\r\n$1\r\nk\r\n$1\r\nv\r\n");
    assert_eq!(reply, b"+OK\r\n".to_vec());
    assert_eq!(sent, vec![0, 1, 0, 1]);
    assert_eq!(rs[0].backend.store.kv_get(b"k"), Some(&b"v"[..]));
    assert_eq!(rs[1].backend.store.kv_get(b"k"), Some(&b"v"[..]));
    assert!(m.written());
    assert!(m.is_idle());
}

#[test]
fn round_robin_across_two_replicas() {
    let (mut m, mut rs) = cluster(2);
    let mut routes = Vec::new();
    for _ in 0..4 {
        let (_, sent) = serve(&mut m, &mut rs, b"*2\r\n$3\r\nGET\r\n$1\r\nk\r\n");
        routes.extend(sent);
    }
    assert_eq!(routes, vec![0, 1, 0, 1]);
}

#[test]
fn fair_over_many_reads() {
    let (mut m, mut rs) = cluster(3);
    let mut counts = [0usize; 3];
    for _ in 0..10 {
        let (_, sent) = serve(&mut m, &mut rs, b"*2\r\n$3\r\nGET\r\n$1\r\nk\r\n");
        counts[sent[0]] += 1;
    }
    assert!(counts.iter().all(|c| *c >= 10 / 3));
}

#[test]
fn no_live_replica_is_error() {
    let mut m = Master::new(2);
    let mut rs = vec![Participant::new(MemStore::new()), Participant::new(MemStore::new())];
    let (reply, sent) = serve(&mut m, &mut rs, b"*2\r\n$3\r\nGET\r\n$1\r\nk\r\n");
    assert_eq!(reply, b"-ERROR\r\n".to_vec());
    assert!(sent.is_empty());
}

#[test]
fn lost_voter_aborts_everywhere() {
    let (mut m, mut rs) = cluster(2);
    let mut buf = BytesMut::from(&b"*3\r\n$3\r\nSET\r\n$1\r\nk\r\n$1\r\nv\r\n"[..]);
    let value = RespCodec.decode(&mut buf).unwrap();
    let a = m.on_request(value);
    let vote = match a {
        Action::Send(0, msg) => match rs[0].on_frame(msg) {
            Outcome::Reply(p) => p,
            Outcome::Close => panic!(),
        },
        _ => panic!("write goes to replica 0 first"),
    };
    assert_eq!(vote, ProtoValue::Vote(true));
    let a = m.on_reply(0, vote);
    assert!(matches!(a, Action::Send(1, ProtoValue::Resp(_))));
    let a = m.on_lost(1);
    assert!(matches!(a, Action::Send(0, ProtoValue::Decision(false))));
    let ack = match rs[0].on_frame(ProtoValue::Decision(false)) {
        Outcome::Reply(p) => p,
        Outcome::Close => panic!(),
    };
    assert_eq!(ack, ProtoValue::Decision(false));
    match m.on_reply(0, ack) {
        Action::Reply(v) => assert_eq!(v, RespValue::Error(b"ERROR".to_vec())),
        _ => panic!("abort answers the client"),
    }
    assert_eq!(rs[0].backend.store.kv_get(b"k"), None);
    assert_eq!(m.status(1), Status::Offline);
    assert!(!m.written());
}

#[test]
fn handshake_outcomes() {
    let mut m = Master::new(2);
    assert_eq!(m.on_handshake(1, ProtoValue::Handshake(0)), Err(HandshakeError::WrongId));
    assert_eq!(m.status(1), Status::Offline);
    assert_eq!(m.on_handshake(1, ProtoValue::Vote(true)), Err(HandshakeError::NotHandshake));
    assert_eq!(m.on_handshake(1, ProtoValue::Handshake(1)), Ok(()));
    assert_eq!(m.status(1), Status::Online);
}

#[test]
fn replica_reports_old_identity() {
    let mut r = Participant::new(MemStore::new());
    match r.on_frame(ProtoValue::Handshake(3)) {
        Outcome::Reply(p) => assert_eq!(p, ProtoValue::Handshake(4294967295)),
        Outcome::Close => panic!(),
    }
    assert_eq!(r.backend.id, 3);
    match r.on_frame(ProtoValue::Handshake(3)) {
        Outcome::Reply(p) => assert_eq!(p, ProtoValue::Handshake(3)),
        Outcome::Close => panic!(),
    }
}

#[test]
fn replica_closes_on_protocol_violation() {
    let mut r = Participant::new(MemStore::new());
    match r.on_frame(ProtoValue::Resp(RespValue::array(&["DEL", "k"]))) {
        Outcome::Reply(p) => assert_eq!(p, ProtoValue::Vote(true)),
        Outcome::Close => panic!(),
    }
    assert!(matches!(r.on_frame(ProtoValue::Vote(true)), Outcome::Close));
    match r.on_frame(ProtoValue::Decision(true)) {
        Outcome::Reply(p) => assert_eq!(p, ProtoValue::Resp(RespValue::Error(b"ERROR".to_vec()))),
        Outcome::Close => panic!(),
    }
}

#[test]
fn recovering_replica_after_writes() {
    let (mut m, mut rs) = cluster(1);
    serve(&mut m, &mut rs, b"*3\r\n$3\r\nSET\r\n$1\r\na\r\n$1\r\n1\r\n");
    assert_eq!(m.on_handshake(0, ProtoValue::Handshake(4294967295)), Ok(()));
    assert_eq!(m.status(0), Status::Recover);
}
