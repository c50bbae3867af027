use kvkv::map::{KvStore, MemStore};

#[test]
fn test_kv_trait() {
    let mut hm = MemStore::new();
    assert_eq!(hm.kv_get(b"Changsha"), None);
    hm.kv_put(b"Changsha", b"Rainy");
    assert_eq!(hm.kv_get(b"Changsha"), Some(&b"Rainy"[..]));
    hm.kv_put(b"Changsha", b"Sunny");
    assert_eq!(hm.kv_get(b"Changsha"), Some(&b"Sunny"[..]));
    hm.kv_del(b"Changsha");
    assert_eq!(hm.kv_get(b"Changsha"), None);
}
