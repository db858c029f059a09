//! An in-memory metadata store: the persisted map as a plain vector of
//! keys, one entry per object id. Operations never fail.

use vstd::prelude::*;

use crate::keystore::keystore::KeyStore;
use crate::object::ObjKey;
use crate::object::ObjKeyV;
use crate::object::ObjectId;
use crate::RResult;

verus! {

/// The map a sequence of entries denotes: later entries win, though under
/// the store's invariant every id appears at most once.
pub open spec fn entries_map(s: Seq<ObjKey>) -> Map<ObjectId, ObjKeyV>
    decreases s.len(),
{
    if s.len() == 0 {
        Map::empty()
    } else {
        entries_map(s.drop_last()).insert(s.last().uuid, s.last()@)
    }
}

/// No two entries share an id.
pub open spec fn distinct_ids(s: Seq<ObjKey>) -> bool {
    forall|i: int, j: int| #![trigger s[i], s[j]] 0 <= i < j < s.len() ==> s[i].uuid != s[j].uuid
}

/// With distinct ids, the denoted map holds exactly the entries.
pub proof fn lemma_entries_map(s: Seq<ObjKey>)
    requires
        distinct_ids(s),
    ensures
        entries_map(s).dom().finite(),
        entries_map(s).dom().len() == s.len(),
        forall|i: int|
            0 <= i < s.len() ==> entries_map(s).dom().contains((#[trigger] s[i]).uuid)
                && entries_map(s)[s[i].uuid] == s[i]@,
        forall|id: ObjectId|
            #[trigger] entries_map(s).dom().contains(id) ==> exists|i: int|
                0 <= i < s.len() && (#[trigger] s[i]).uuid == id,
    decreases s.len(),
{
    if s.len() > 0 {
        let dl = s.drop_last();
        assert(distinct_ids(dl)) by {
            assert forall|i: int, j: int|
                #![trigger dl[i], dl[j]]
                0 <= i < j < dl.len() implies dl[i].uuid != dl[j].uuid by {
                assert(s[i].uuid != s[j].uuid);
            }
        }
        lemma_entries_map(dl);
        assert(!entries_map(dl).dom().contains(s.last().uuid)) by {
            if entries_map(dl).dom().contains(s.last().uuid) {
                let i = choose|i: int|
                    0 <= i < dl.len() && (#[trigger] dl[i]).uuid == s.last().uuid;
                assert(s[i].uuid != s[s.len() - 1].uuid);
                assert(false);
            }
        }
        assert forall|i: int| 0 <= i < s.len() implies entries_map(s).dom().contains(
            (#[trigger] s[i]).uuid,
        ) && entries_map(s)[s[i].uuid] == s[i]@ by {
            if i < s.len() - 1 {
                assert(dl[i] == s[i]);
                assert(s[i].uuid != s.last().uuid);
            }
        }
        assert forall|id: ObjectId| #[trigger] entries_map(s).dom().contains(id) implies exists|
            i: int,
        | 0 <= i < s.len() && (#[trigger] s[i]).uuid == id by {
            if id == s.last().uuid {
                assert(s[s.len() - 1].uuid == id);
            } else {
                let i = choose|i: int| 0 <= i < dl.len() && (#[trigger] dl[i]).uuid == id;
                assert(s[i].uuid == id);
            }
        }
    }
}

/// Replacing the entry at one position, keeping its id, rewrites exactly
/// that id's value in the denoted map.
pub proof fn lemma_entries_map_update(s: Seq<ObjKey>, i: int, k: ObjKey)
    requires
        distinct_ids(s),
        0 <= i < s.len(),
        k.uuid == s[i].uuid,
    ensures
        entries_map(s.update(i, k)) == entries_map(s).insert(k.uuid, k@),
    decreases s.len(),
{
    let t = s.update(i, k);
    if i == s.len() - 1 {
        assert(t.drop_last() =~= s.drop_last());
        assert(t.last() == k);
        assert(entries_map(t) =~= entries_map(s).insert(k.uuid, k@));
    } else {
        assert(t.drop_last() =~= s.drop_last().update(i, k));
        assert(distinct_ids(s.drop_last())) by {
            assert forall|a: int, b: int|
                #![trigger s.drop_last()[a], s.drop_last()[b]]
                0 <= a < b < s.drop_last().len() implies s.drop_last()[a].uuid != s.drop_last()[b].uuid by {
                assert(s[a].uuid != s[b].uuid);
            }
        }
        lemma_entries_map_update(s.drop_last(), i, k);
        assert(t.last() == s.last());
        assert(s[i].uuid != s.last().uuid) by {
            assert(s[i].uuid != s[s.len() - 1].uuid);
        }
        assert(entries_map(t) =~= entries_map(s).insert(k.uuid, k@));
    }
}

/// Removing the entry at one position removes exactly its id from the
/// denoted map.
pub proof fn lemma_entries_map_remove(s: Seq<ObjKey>, i: int)
    requires
        distinct_ids(s),
        0 <= i < s.len(),
    ensures
        entries_map(s.remove(i)) == entries_map(s).remove(s[i].uuid),
    decreases s.len(),
{
    assert(distinct_ids(s.drop_last())) by {
        assert forall|a: int, b: int|
            #![trigger s.drop_last()[a], s.drop_last()[b]]
            0 <= a < b < s.drop_last().len() implies s.drop_last()[a].uuid
            != s.drop_last()[b].uuid by {
            assert(s[a].uuid != s[b].uuid);
        }
    }
    lemma_entries_map(s);
    lemma_entries_map(s.drop_last());
    let t = s.remove(i);
    if i == s.len() - 1 {
        assert(t =~= s.drop_last());
        assert(!entries_map(s.drop_last()).dom().contains(s.last().uuid)) by {
            if entries_map(s.drop_last()).dom().contains(s.last().uuid) {
                let a = choose|a: int|
                    0 <= a < s.drop_last().len() && (#[trigger] s.drop_last()[a]).uuid
                        == s.last().uuid;
                assert(s[a].uuid != s[s.len() - 1].uuid);
            }
        }
        assert(entries_map(t) =~= entries_map(s).remove(s[i].uuid));
    } else {
        assert(t.drop_last() =~= s.drop_last().remove(i));
        lemma_entries_map_remove(s.drop_last(), i);
        assert(t.last() == s.last());
        assert(s[i].uuid != s.last().uuid) by {
            assert(s[i].uuid != s[s.len() - 1].uuid);
        }
        assert(s.drop_last()[i] == s[i]);
        assert(entries_map(t) =~= entries_map(s).remove(s[i].uuid));
    }
}

/// The in-memory metadata store.
#[derive(Debug)]
pub struct MemKeyStore {
    entries: Vec<ObjKey>,
}

impl MemKeyStore {
    /// An empty store.
    pub fn new() -> (s: MemKeyStore)
        ensures
            s.inv(),
            s.kmap() == Map::<ObjectId, ObjKeyV>::empty(),
    {
        MemKeyStore { entries: Vec::new() }
    }

    /// The position of the entry with the given id, if any.
    fn position_of(&self, uuid: &ObjectId) -> (r: Option<usize>)
        ensures
            r matches Some(i) ==> i < self.entries@.len() && self.entries@[i as int].uuid == *uuid,
            r is None ==> forall|i: int|
                0 <= i < self.entries@.len() ==> (#[trigger] self.entries@[i]).uuid != *uuid,
    {
        let n = self.entries.len();
        let mut i: usize = 0;
        while i < n
            invariant
                n == self.entries@.len(),
                i <= n,
                forall|j: int| 0 <= j < i ==> (#[trigger] self.entries@[j]).uuid != *uuid,
            decreases n - i,
        {
            if self.entries[i].uuid == *uuid {
                return Some(i);
            }
            i = i + 1;
        }
        None
    }
}

impl KeyStore for MemKeyStore {
    /// Ids are unique and every stored key is well-formed under its own id.
    closed spec fn inv(&self) -> bool {
        &&& distinct_ids(self.entries@)
        &&& forall|i: int| 0 <= i < self.entries@.len() ==> (#[trigger] self.entries@[i])@.wf()
    }

    closed spec fn kmap(&self) -> Map<ObjectId, ObjKeyV> {
        entries_map(self.entries@)
    }

    /// Always succeeds.
    fn set(&mut self, uuid: ObjectId, key: ObjKey) -> (r: RResult<Option<ObjKey>>)
        ensures
            r is Ok,
    {
        proof {
            lemma_entries_map(self.entries@);
        }
        match self.position_of(&uuid) {
            Some(i) => {
                let prev = self.entries[i].clone();
                proof {
                    lemma_entries_map_update(self.entries@, i as int, key);
                }
                self.entries[i] = key;
                proof {
                    assert(self.entries@ == old(self).entries@.update(i as int, key));
                    assert(self.kmap() == old(self).kmap().insert(uuid, key@));
                    assert(prev@ == old(self).entries@[i as int]@);
                    assert(prev@ == old(self).kmap()[uuid]);
                    assert forall|a: int, b: int|
                        #![trigger self.entries@[a], self.entries@[b]]
                        0 <= a < b < self.entries@.len() implies self.entries@[a].uuid
                        != self.entries@[b].uuid by {
                        assert(old(self).entries@[a].uuid != old(self).entries@[b].uuid);
                    }
                    assert forall|j: int|
                        0 <= j < self.entries@.len() implies (#[trigger] self.entries@[j])@.wf() by {
                        if j != i {
                            assert(self.entries@[j] == old(self).entries@[j]);
                            assert(old(self).entries@[j]@.wf());
                        }
                    }
                }
                Ok(Some(prev))
            },
            None => {
                proof {
                    assert(self.entries@.push(key).drop_last() =~= self.entries@);
                    assert forall|a: int, b: int|
                        #![trigger self.entries@.push(key)[a], self.entries@.push(key)[b]]
                        0 <= a < b < self.entries@.push(key).len() implies self.entries@.push(
                        key,
                    )[a].uuid != self.entries@.push(key)[b].uuid by {
                        if b < self.entries@.len() {
                            assert(self.entries@[a].uuid != self.entries@[b].uuid);
                        } else {
                            assert(self.entries@[a].uuid != uuid);
                        }
                    }
                }
                self.entries.push(key);
                Ok(None)
            },
        }
    }

    /// Always succeeds.
    fn get(&self, uuid: &ObjectId) -> (r: RResult<Option<&ObjKey>>)
        ensures
            r is Ok,
    {
        proof {
            lemma_entries_map(self.entries@);
        }
        match self.position_of(uuid) {
            Some(i) => {
                proof {
                    if !self.kmap().dom().contains(*uuid) {
                        assert(self.entries@[i as int].uuid == *uuid);
                    }
                }
                Ok(Some(&self.entries[i]))
            },
            None => {
                proof {
                    if self.kmap().dom().contains(*uuid) {
                        let j = choose|j: int|
                            0 <= j < self.entries@.len() && (#[trigger] self.entries@[j]).uuid
                                == *uuid;
                        assert(false);
                    }
                }
                Ok(None)
            },
        }
    }

    /// Always succeeds.
    fn delete(&mut self, uuid: &ObjectId) -> (r: RResult<Option<ObjKey>>)
        ensures
            r is Ok,
    {
        proof {
            lemma_entries_map(self.entries@);
        }
        match self.position_of(uuid) {
            Some(i) => {
                proof {
                    lemma_entries_map_remove(self.entries@, i as int);
                    self.entries@.remove_ensures(i as int);
                    assert forall|a: int, b: int|
                        #![trigger self.entries@.remove(i as int)[a], self.entries@.remove(i as int)[b]]
                        0 <= a < b < self.entries@.remove(i as int).len() implies self.entries@.remove(
                        i as int,
                    )[a].uuid != self.entries@.remove(i as int)[b].uuid by {
                        let s0 = self.entries@;
                        let oa = if a < i {
                            a
                        } else {
                            a + 1
                        };
                        let ob = if b < i {
                            b
                        } else {
                            b + 1
                        };
                        assert(s0.remove(i as int)[a] == s0[oa]);
                        assert(s0.remove(i as int)[b] == s0[ob]);
                        assert(s0[oa].uuid != s0[ob].uuid);
                    }
                }
                let k = self.entries.remove(i);
                Ok(Some(k))
            },
            None => {
                proof {
                    if self.kmap().dom().contains(*uuid) {
                        let j = choose|j: int|
                            0 <= j < self.entries@.len() && (#[trigger] self.entries@[j]).uuid
                                == *uuid;
                        assert(false);
                    }
                    assert(self.kmap() =~= self.kmap().remove(*uuid));
                }
                Ok(None)
            },
        }
    }

    /// Always succeeds.
    fn get_objects(&self) -> (r: RResult<Vec<ObjKey>>)
        ensures
            r is Ok,
    {
        proof {
            lemma_entries_map(self.entries@);
        }
        let n = self.entries.len();
        let mut out: Vec<ObjKey> = Vec::new();
        let mut i: usize = 0;
        while i < n
            invariant
                n == self.entries@.len(),
                i <= n,
                out@.len() == i,
                forall|j: int| 0 <= j < i ==> (#[trigger] out@[j])@ == self.entries@[j]@,
            decreases n - i,
        {
            let k = self.entries[i].clone();
            out.push(k);
            i = i + 1;
        }
        proof {
            assert forall|id: ObjectId| self.kmap().dom().contains(id) implies exists|j: int|
                0 <= j < out@.len() && (#[trigger] out@[j])@.uuid == id by {
                let j = choose|j: int|
                    0 <= j < self.entries@.len() && (#[trigger] self.entries@[j]).uuid == id;
                assert(out@[j]@ == self.entries@[j]@);
                assert(out@[j]@.uuid == id);
            }
            assert forall|j: int| 0 <= j < out@.len() implies self.kmap().dom().contains(
                (#[trigger] out@[j])@.uuid,
            ) && self.kmap()[out@[j]@.uuid] == out@[j]@ by {
                assert(out@[j]@ == self.entries@[j]@);
                assert(self.kmap().dom().contains(self.entries@[j].uuid));
                assert(self.kmap()[self.entries@[j].uuid] == self.entries@[j]@);
            }
        }
        Ok(out)
    }
}

} // verus!
