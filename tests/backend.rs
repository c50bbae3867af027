use kvkv::backend::Backend;
use kvkv::command::{Command, CommandError};
use kvkv::map::{KvStore, MemStore};
use kvkv::proto::ProtoValue;
use kvkv::replica::process_resp;
use kvkv::resp::RespValue;

fn fresh() -> Backend<MemStore> {
    Backend { id: 0, store: MemStore::new() }
}

fn bulk_array(items: &[&str]) -> RespValue {
    RespValue::array(items)
}

#[test]
fn get_after_set() {
    let mut b = fresh();
    assert_eq!(
        b.process_command(Command::Put("k".into(), "v".into())),
        RespValue::SimpleString(b"OK".to_vec())
    );
    assert_eq!(b.process_command(Command::Get("k".into())), bulk_array(&["v"]));
}

#[test]
fn get_miss_is_nil() {
    let mut b = fresh();
    assert_eq!(b.process_command(Command::Get("X".into())), bulk_array(&["nil"]));
}

#[test]
fn del_counts_present_keys_once() {
    let mut b = fresh();
    b.process_command(Command::Put("a".into(), "1".into()));
    b.process_command(Command::Put("b".into(), "2".into()));
    let r = b.process_command(Command::Del(vec!["a".into(), "a".into(), "c".into(), "b".into()]));
    assert_eq!(r, RespValue::Integer(2));
    assert_eq!(b.process_command(Command::Get("a".into())), bulk_array(&["nil"]));
    assert_eq!(b.store.kv_get(b"b"), None);
}

#[test]
fn process_resp_rejects_invalid() {
    let mut b = fresh();
    let r = process_resp(bulk_array(&["PING", ""]), &mut b);
    assert_eq!(r, ProtoValue::Resp(RespValue::Error(b"Invalid Command".to_vec())));
    let r = process_resp(bulk_array(&["SET", "k", "v"]), &mut b);
    assert_eq!(r, ProtoValue::Resp(RespValue::SimpleString(b"OK".to_vec())));
    assert_eq!(b.store.kv_get(b"k"), Some(&b"v"[..]));
}

#[test]
fn command_shapes() {
    let invalid = Err(CommandError::InvalidCommand);
    assert_eq!(Command::from_resp(bulk_array(&["GET"])), invalid);
    assert_eq!(Command::from_resp(bulk_array(&["GET", "a", "b"])), invalid);
    assert_eq!(Command::from_resp(bulk_array(&["SET", "a"])), invalid);
    assert_eq!(Command::from_resp(bulk_array(&["DEL"])), invalid);
    assert_eq!(Command::from_resp(bulk_array(&["get", "a"])), invalid);
    assert_eq!(Command::from_resp(RespValue::Array(vec![])), invalid);
    assert_eq!(Command::from_resp(RespValue::Integer(1)), invalid);
    assert_eq!(
        Command::from_resp(RespValue::Array(vec![
            RespValue::BulkString(b"DEL".to_vec()),
            RespValue::Integer(1)
        ])),
        invalid
    );
}
