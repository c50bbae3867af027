use vstd::prelude::*;

use crate::command::{countable, Command, CommandTerm};
use crate::map::KvStore;
use crate::resp::{lemma_terms_of, RespTerm, RespValue};
use vstd::slice::slice_to_vec;

verus! {

/// The text that a read of a missing key returns: `nil`.
pub open spec fn nil_text() -> Seq<u8> {
    seq![110u8, 105u8, 108u8]
}

/// The store after deleting `keys` one after another.
pub open spec fn after_del(m: Map<Seq<u8>, Seq<u8>>, keys: Seq<Seq<u8>>) -> Map<Seq<u8>, Seq<u8>>
    decreases keys.len(),
{
    if keys.len() == 0 {
        m
    } else {
        after_del(m, keys.drop_last()).remove(keys.last())
    }
}

/// How many of the deletions of `keys`, one after another, found their key.
pub open spec fn del_count(m: Map<Seq<u8>, Seq<u8>>, keys: Seq<Seq<u8>>) -> nat
    decreases keys.len(),
{
    if keys.len() == 0 {
        0
    } else {
        del_count(m, keys.drop_last()) + if after_del(m, keys.drop_last()).contains_key(keys.last()) {
            1nat
        } else {
            0nat
        }
    }
}

/// The store after a command.
pub open spec fn apply(m: Map<Seq<u8>, Seq<u8>>, c: CommandTerm) -> Map<Seq<u8>, Seq<u8>> {
    match c {
        CommandTerm::Get(_) => m,
        CommandTerm::Put(k, v) => m.insert(k, v),
        CommandTerm::Del(keys) => after_del(m, keys),
    }
}

/// The reply to a command on a store.
pub open spec fn reply(m: Map<Seq<u8>, Seq<u8>>, c: CommandTerm) -> RespTerm {
    match c {
        CommandTerm::Get(k) => if m.contains_key(k) {
            RespTerm::Array(seq![RespTerm::BulkString(m[k])])
        } else {
            RespTerm::Array(seq![RespTerm::BulkString(nil_text())])
        },
        CommandTerm::Put(_, _) => RespTerm::SimpleString(seq![79u8, 75u8]),
        CommandTerm::Del(keys) => RespTerm::Integer(del_count(m, keys) as i64),
    }
}

proof fn lemma_del_count_bound(m: Map<Seq<u8>, Seq<u8>>, keys: Seq<Seq<u8>>)
    ensures
        del_count(m, keys) <= keys.len(),
    decreases keys.len(),
{
    if keys.len() > 0 {
        lemma_del_count_bound(m, keys.drop_last());
    }
}

proof fn lemma_after_del_dom(m: Map<Seq<u8>, Seq<u8>>, keys: Seq<Seq<u8>>, k: Seq<u8>)
    ensures
        after_del(m, keys).contains_key(k) <==> m.contains_key(k) && !keys.contains(k),
        after_del(m, keys).contains_key(k) ==> after_del(m, keys)[k] == m[k],
    decreases keys.len(),
{
    if keys.len() > 0 {
        let ks = keys.drop_last();
        lemma_after_del_dom(m, ks, k);
        if keys.contains(k) && k != keys.last() {
            let i = choose|i: int| 0 <= i < keys.len() && keys[i] == k;
            assert(ks[i] == k);
        }
        if ks.contains(k) {
            let i = choose|i: int| 0 <= i < ks.len() && ks[i] == k;
            assert(keys[i] == k);
        }
        if k == keys.last() {
            assert(keys[keys.len() - 1] == k);
        }
    }
}

/// After `k` is stored with `v`, a read of `k` returns `v`.
pub proof fn lemma_get_after_set(m: Map<Seq<u8>, Seq<u8>>, k: Seq<u8>, v: Seq<u8>)
    ensures
        reply(apply(m, CommandTerm::Put(k, v)), CommandTerm::Get(k)) == RespTerm::Array(
            seq![RespTerm::BulkString(v)],
        ),
{
}

/// After a deletion whose keys include `k`, a read of `k` returns `nil`.
pub proof fn lemma_get_after_del(m: Map<Seq<u8>, Seq<u8>>, keys: Seq<Seq<u8>>, k: Seq<u8>)
    requires
        keys.contains(k),
    ensures
        reply(apply(m, CommandTerm::Del(keys)), CommandTerm::Get(k)) == RespTerm::Array(
            seq![RespTerm::BulkString(nil_text())],
        ),
{
    lemma_after_del_dom(m, keys, k);
}

/// The keys named in `keys` that the store holds.
pub open spec fn present_keys(m: Map<Seq<u8>, Seq<u8>>, keys: Seq<Seq<u8>>) -> Set<Seq<u8>> {
    keys.to_set().filter(|k: Seq<u8>| m.contains_key(k))
}

proof fn lemma_del_count_present(m: Map<Seq<u8>, Seq<u8>>, keys: Seq<Seq<u8>>)
    ensures
        present_keys(m, keys).finite(),
        del_count(m, keys) == present_keys(m, keys).len(),
    decreases keys.len(),
{
    if keys.len() == 0 {
        assert(present_keys(m, keys) =~= Set::<Seq<u8>>::empty());
    } else {
        let ks = keys.drop_last();
        let x = keys.last();
        lemma_del_count_present(m, ks);
        lemma_after_del_dom(m, ks, x);
        assert(keys.to_set() =~= ks.to_set().insert(x)) by {
            assert forall|a: Seq<u8>| keys.to_set().contains(a) implies ks.to_set().insert(x).contains(a) by {
                let i = choose|i: int| 0 <= i < keys.len() && keys[i] == a;
                if i < ks.len() {
                    assert(ks[i] == a);
                }
            }
            assert forall|a: Seq<u8>| ks.to_set().insert(x).contains(a) implies keys.to_set().contains(a) by {
                if a == x {
                    assert(keys[keys.len() - 1] == a);
                } else {
                    let i = choose|i: int| 0 <= i < ks.len() && ks[i] == a;
                    assert(keys[i] == a);
                }
            }
        }
        if m.contains_key(x) {
            assert(present_keys(m, keys) =~= present_keys(m, ks).insert(x));
        } else {
            assert(present_keys(m, keys) =~= present_keys(m, ks));
        }
    }
}

/// A deletion replies with the number of distinct keys it names that were
/// present before it.
pub proof fn lemma_del_reply_counts(m: Map<Seq<u8>, Seq<u8>>, keys: Seq<Seq<u8>>)
    requires
        keys.len() <= i64::MAX,
    ensures
        reply(m, CommandTerm::Del(keys)) == RespTerm::Integer(present_keys(m, keys).len() as i64),
{
    lemma_del_count_present(m, keys);
}

/// A replica's executor: its identity and its store.
pub struct Backend<T: KvStore> {
    pub id: u32,
    pub store: T,
}

impl<T: KvStore> Backend<T> {
    /// Applies `cmd` to the store and returns the reply.
    pub fn process_command(&mut self, cmd: Command) -> (r: RespValue)
        requires
            old(self).store.well_formed(),
            countable(cmd@),
        ensures
            final(self).store.well_formed(),
            final(self).id == old(self).id,
            final(self).store.contents() == apply(old(self).store.contents(), cmd@),
            r@ == reply(old(self).store.contents(), cmd@),
    {
        match cmd {
            Command::Get(k) => self.process_get(k),
            Command::Put(k, v) => self.process_set(k, v),
            Command::Del(keys) => self.process_del(keys),
        }
    }

    fn process_get(&mut self, k: Vec<u8>) -> (r: RespValue)
        requires
            old(self).store.well_formed(),
        ensures
            *final(self) == *old(self),
            r@ == reply(old(self).store.contents(), CommandTerm::Get(k@)),
    {
        let value = match self.store.kv_get(k.as_slice()) {
            Some(v) => slice_to_vec(v),
            None => vec![110u8, 105u8, 108u8],
        };
        let ghost text = value@;
        let items = vec![RespValue::BulkString(value)];
        proof {
            lemma_terms_of(items@, items@.len());
            assert(RespValue::Array(items)@ matches RespTerm::Array(a) && a =~= seq![RespTerm::BulkString(text)]);
        }
        RespValue::Array(items)
    }

    fn process_set(&mut self, k: Vec<u8>, v: Vec<u8>) -> (r: RespValue)
        requires
            old(self).store.well_formed(),
        ensures
            final(self).store.well_formed(),
            final(self).id == old(self).id,
            final(self).store.contents() == old(self).store.contents().insert(k@, v@),
            r@ == RespTerm::SimpleString(seq![79u8, 75u8]),
    {
        self.store.kv_put(k.as_slice(), v.as_slice());
        let r = RespValue::SimpleString(vec![79u8, 75u8]);
        assert(r@ matches RespTerm::SimpleString(s) && s =~= seq![79u8, 75u8]);
        r
    }

    fn process_del(&mut self, keys: Vec<Vec<u8>>) -> (r: RespValue)
        requires
            old(self).store.well_formed(),
            keys@.len() <= i64::MAX,
        ensures
            final(self).store.well_formed(),
            final(self).id == old(self).id,
            final(self).store.contents() == after_del(old(self).store.contents(), keys@.map_values(|k: Vec<u8>| k@)),
            r@ == RespTerm::Integer(del_count(old(self).store.contents(), keys@.map_values(|k: Vec<u8>| k@)) as i64),
    {
        let ghost m = self.store.contents();
        let ghost ks = keys@.map_values(|k: Vec<u8>| k@);
        let mut num_deleted: i64 = 0;
        let mut i: usize = 0;
        while i < keys.len()
            invariant
                0 <= i <= keys@.len() <= i64::MAX,
                ks == keys@.map_values(|k: Vec<u8>| k@),
                self.store.well_formed(),
                self.id == old(self).id,
                m == old(self).store.contents(),
                self.store.contents() == after_del(m, ks.subrange(0, i as int)),
                num_deleted == del_count(m, ks.subrange(0, i as int)),
            decreases keys@.len() - i,
        {
            proof {
                assert(ks.subrange(0, i + 1).drop_last() =~= ks.subrange(0, i as int));
                lemma_del_count_bound(m, ks.subrange(0, i as int));
            }
            if self.store.kv_del(keys[i].as_slice()) {
                num_deleted = num_deleted + 1;
            }
            i = i + 1;
        }
        assert(ks.subrange(0, i as int) =~= ks);
        RespValue::Integer(num_deleted)
    }
}

} // verus!
