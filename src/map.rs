use vstd::prelude::*;

use crate::resp::bytes_eq;
use vstd::slice::slice_to_vec;

verus! {

/// A mapping from byte strings to byte strings.
pub trait KvStore {
    /// The mapping that the store holds.
    spec fn contents(&self) -> Map<Seq<u8>, Seq<u8>>;

    /// The store's internal invariant.
    spec fn well_formed(&self) -> bool;

    /// The value stored under `key`, if any.
    fn kv_get(&self, key: &[u8]) -> (r: Option<&[u8]>)
        requires
            self.well_formed(),
        ensures
            match r {
                Some(v) => self.contents().contains_key(key@) && self.contents()[key@] == v@,
                None => !self.contents().contains_key(key@),
            },
    ;

    /// Stores `value` under `key`, replacing what was there.
    fn kv_put(&mut self, key: &[u8], value: &[u8])
        requires
            old(self).well_formed(),
        ensures
            final(self).well_formed(),
            final(self).contents() == old(self).contents().insert(key@, value@),
    ;

    /// Removes `key`; returns true if the key was in the map.
    fn kv_del(&mut self, key: &[u8]) -> (r: bool)
        requires
            old(self).well_formed(),
        ensures
            final(self).well_formed(),
            r == old(self).contents().contains_key(key@),
            final(self).contents() == old(self).contents().remove(key@),
    ;
}

/// The mapping that a list of entries describes, later entries winning.
pub open spec fn map_of(ps: Seq<(Seq<u8>, Seq<u8>)>) -> Map<Seq<u8>, Seq<u8>>
    decreases ps.len(),
{
    if ps.len() == 0 {
        Map::empty()
    } else {
        map_of(ps.drop_last()).insert(ps.last().0, ps.last().1)
    }
}

pub open spec fn keys_distinct(ps: Seq<(Seq<u8>, Seq<u8>)>) -> bool {
    forall|i: int, j: int| 0 <= i < j < ps.len() ==> ps[i].0 != ps[j].0
}

proof fn lemma_map_of_dom(ps: Seq<(Seq<u8>, Seq<u8>)>, k: Seq<u8>)
    ensures
        map_of(ps).contains_key(k) <==> exists|i: int| 0 <= i < ps.len() && ps[i].0 == k,
    decreases ps.len(),
{
    if ps.len() > 0 {
        lemma_map_of_dom(ps.drop_last(), k);
        if map_of(ps.drop_last()).contains_key(k) {
            let i = choose|i: int| 0 <= i < ps.len() - 1 && ps.drop_last()[i].0 == k;
            assert(ps[i].0 == k);
        }
        if exists|i: int| 0 <= i < ps.len() && ps[i].0 == k {
            let i = choose|i: int| 0 <= i < ps.len() && ps[i].0 == k;
            if i < ps.len() - 1 {
                assert(ps.drop_last()[i].0 == k);
            }
        }
    }
}

proof fn lemma_map_of_at(ps: Seq<(Seq<u8>, Seq<u8>)>, i: int)
    requires
        keys_distinct(ps),
        0 <= i < ps.len(),
    ensures
        map_of(ps).contains_key(ps[i].0),
        map_of(ps)[ps[i].0] == ps[i].1,
    decreases ps.len(),
{
    if i < ps.len() - 1 {
        lemma_map_of_at(ps.drop_last(), i);
    }
}

proof fn lemma_map_of_update(ps: Seq<(Seq<u8>, Seq<u8>)>, i: int, v: Seq<u8>)
    requires
        keys_distinct(ps),
        0 <= i < ps.len(),
    ensures
        map_of(ps.update(i, (ps[i].0, v))) == map_of(ps).insert(ps[i].0, v),
    decreases ps.len(),
{
    let qs = ps.update(i, (ps[i].0, v));
    if i == ps.len() - 1 {
        assert(qs.drop_last() =~= ps.drop_last());
        assert(map_of(qs) =~= map_of(ps).insert(ps[i].0, v));
    } else {
        assert(qs.drop_last() =~= ps.drop_last().update(i, (ps[i].0, v)));
        lemma_map_of_update(ps.drop_last(), i, v);
        assert(map_of(qs) =~= map_of(ps).insert(ps[i].0, v));
    }
}

proof fn lemma_map_of_remove(ps: Seq<(Seq<u8>, Seq<u8>)>, i: int)
    requires
        keys_distinct(ps),
        0 <= i < ps.len(),
    ensures
        map_of(ps.remove(i)) == map_of(ps).remove(ps[i].0),
    decreases ps.len(),
{
    let qs = ps.remove(i);
    if i == ps.len() - 1 {
        assert(qs =~= ps.drop_last());
        lemma_map_of_dom(ps.drop_last(), ps[i].0);
        if map_of(ps.drop_last()).contains_key(ps[i].0) {
            let j = choose|j: int| 0 <= j < ps.len() - 1 && ps.drop_last()[j].0 == ps[i].0;
            assert(ps[j].0 == ps[i].0);
        }
        assert(map_of(qs) =~= map_of(ps).remove(ps[i].0));
    } else {
        assert(qs.drop_last() =~= ps.drop_last().remove(i));
        assert(qs.last() == ps.last());
        lemma_map_of_remove(ps.drop_last(), i);
        assert(map_of(qs) =~= map_of(ps).remove(ps[i].0));
    }
}

// Not std's `HashMap<Vec<u8>, Vec<u8>>`: vstd states what its `get`,
// `insert` and `remove` do only under `obeys_key_model::<Key>()`, which it
// establishes for integer, bool and boxed keys but not for `Vec<u8>`, so an
// impl of `KvStore` for it is accepted yet none of its contracts can be proved.
/// A store held in memory as a list of entries with distinct keys.
pub struct MemStore {
    entries: Vec<(Vec<u8>, Vec<u8>)>,
}

impl MemStore {
    /// The entries, over their models.
    pub closed spec fn entries_view(&self) -> Seq<(Seq<u8>, Seq<u8>)> {
        self.entries@.map_values(|e: (Vec<u8>, Vec<u8>)| (e.0@, e.1@))
    }

    /// An empty store.
    pub fn new() -> (r: MemStore)
        ensures
            r.well_formed(),
            r.contents() == Map::<Seq<u8>, Seq<u8>>::empty(),
    {
        let r = MemStore { entries: Vec::new() };
        assert(r.entries_view() =~= Seq::<(Seq<u8>, Seq<u8>)>::empty());
        r
    }

    /// The index of the entry that holds `key`.
    fn find(&self, key: &[u8]) -> (r: Option<usize>)
        ensures
            match r {
                Some(i) => i < self.entries_view().len() && self.entries_view()[i as int].0 == key@,
                None => forall|j: int| 0 <= j < self.entries_view().len() ==> self.entries_view()[j].0 != key@,
            },
    {
        let mut i: usize = 0;
        while i < self.entries.len()
            invariant
                0 <= i <= self.entries@.len(),
                forall|j: int| 0 <= j < i ==> self.entries_view()[j].0 != key@,
            decreases self.entries@.len() - i,
        {
            if bytes_eq(self.entries[i].0.as_slice(), key) {
                return Some(i);
            }
            i = i + 1;
        }
        None
    }
}

impl KvStore for MemStore {
    open spec fn contents(&self) -> Map<Seq<u8>, Seq<u8>> {
        map_of(self.entries_view())
    }

    open spec fn well_formed(&self) -> bool {
        keys_distinct(self.entries_view())
    }

    fn kv_get(&self, key: &[u8]) -> (r: Option<&[u8]>) {
        proof {
            lemma_map_of_dom(self.entries_view(), key@);
        }
        match self.find(key) {
            Some(i) => {
                proof {
                    lemma_map_of_at(self.entries_view(), i as int);
                }
                Some(self.entries[i].1.as_slice())
            },
            None => None,
        }
    }

    fn kv_put(&mut self, key: &[u8], value: &[u8]) {
        let ghost before = self.entries_view();
        let entry = (slice_to_vec(key), slice_to_vec(value));
        match self.find(key) {
            Some(i) => {
                self.entries.remove(i);
                self.entries.insert(i, entry);
                proof {
                    assert(self.entries_view() =~= before.update(i as int, (key@, value@)));
                    lemma_map_of_update(before, i as int, value@);
                }
            },
            None => {
                self.entries.push(entry);
                proof {
                    assert(self.entries_view() =~= before.push((key@, value@)));
                    assert(self.entries_view().drop_last() =~= before);
                }
            },
        }
    }

    fn kv_del(&mut self, key: &[u8]) -> (r: bool) {
        let ghost before = self.entries_view();
        proof {
            lemma_map_of_dom(before, key@);
        }
        match self.find(key) {
            Some(i) => {
                self.entries.remove(i);
                proof {
                    assert(self.entries_view() =~= before.remove(i as int));
                    lemma_map_of_remove(before, i as int);
                }
                true
            },
            None => {
                assert(map_of(before).remove(key@) =~= map_of(before));
                false
            },
        }
    }
}

} // verus!
