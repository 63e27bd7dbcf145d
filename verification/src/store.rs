//! The keyed entity store: an in-memory mapping from a name to a record,
//! loaded once from persisted entries and mutated only through `upsert`.
//! Reading the backing file and writing it back atomically is the
//! caller's edge work; this module owns every decision about the
//! mapping itself, so a later upsert of a key replaces the earlier
//! record wholesale and distinct keys never disturb each other.

use vstd::prelude::*;
use crate::kv::{map_of, unique_keys, lemma_map_at, lemma_map_contains, lemma_map_remove};
use crate::text::bytes_eq;

verus! {

/// Why a store operation at the persistence edge failed.
#[derive(Clone, Copy, Debug, PartialEq, Eq, Structural)]
pub enum StoreError {
    /// The backing file could not be read or written.
    Io,
    /// The backing file is present but not decodable; fatal for the
    /// store, never silently treated as empty.
    CorruptData,
}

/// A persisted record: its unique name, the user owning it, and named
/// attributes.
#[derive(Clone, Debug)]
pub struct Entity {
    pub name: Vec<u8>,
    pub owner: u64,
    pub attributes: Vec<(Vec<u8>, Vec<u8>)>,
}

/// An entity as the contracts see it.
#[verifier::ext_equal]
pub ghost struct EntityView {
    pub name: Seq<u8>,
    pub owner: u64,
    pub attributes: Seq<(Seq<u8>, Seq<u8>)>,
}

impl View for Entity {
    type V = EntityView;

    open spec fn view(&self) -> EntityView {
        EntityView {
            name: self.name@,
            owner: self.owner,
            attributes: Seq::new(
                self.attributes@.len(),
                |i: int| (self.attributes@[i].0@, self.attributes@[i].1@),
            ),
        }
    }
}

/// One entity kind's mapping from key to record.
pub struct EntityStore {
    entries: Vec<(Vec<u8>, Entity)>,
    loaded: bool,
}

impl EntityStore {
    /// The mapping the store holds.
    pub closed spec fn view(&self) -> Map<Seq<u8>, EntityView> {
        map_of(self.entries@)
    }

    pub closed spec fn wf(&self) -> bool {
        unique_keys(self.entries@)
    }

    /// Whether the persisted entries have been installed.
    pub closed spec fn is_loaded(&self) -> bool {
        self.loaded
    }

    /// A store that has not seen its backing file yet.
    pub fn new() -> (r: EntityStore)
        ensures
            r.wf(),
            !r.is_loaded(),
            r@ == Map::<Seq<u8>, EntityView>::empty(),
    {
        EntityStore { entries: Vec::new(), loaded: false }
    }

    fn find(&self, key: &Vec<u8>) -> (r: Option<usize>)
        ensures
            r is Some ==> r->0 < self.entries@.len() && self.entries@[r->0 as int].0@ == key@,
            r is None ==> forall|i: int| 0 <= i < self.entries@.len()
                ==> (#[trigger] self.entries@[i]).0@ != key@,
    {
        let mut i: usize = 0;
        while i < self.entries.len()
            invariant
                0 <= i <= self.entries@.len(),
                forall|j: int| 0 <= j < i ==> (#[trigger] self.entries@[j]).0@ != key@,
            decreases self.entries@.len() - i,
        {
            if bytes_eq(&self.entries[i].0, key) {
                return Some(i);
            }
            i = i + 1;
        }
        None
    }

    /// Insert `entity` under `key`, replacing any earlier record with
    /// that key wholesale; every other key is untouched.
    pub fn upsert(&mut self, key: Vec<u8>, entity: Entity)
        requires
            old(self).wf(),
            old(self).is_loaded(),
        ensures
            final(self).wf(),
            final(self).is_loaded(),
            final(self)@ == old(self)@.insert(key@, entity@),
    {
        self.put(key, entity);
    }

    /// The insertion itself, shared by `upsert` and `load`.
    fn put(&mut self, key: Vec<u8>, entity: Entity)
        requires
            old(self).wf(),
        ensures
            final(self).wf(),
            final(self).is_loaded() == old(self).is_loaded(),
            final(self)@ == old(self)@.insert(key@, entity@),
    {
        let ghost prior_map = self@;
        match self.find(&key) {
            Some(i) => {
                proof {
                    lemma_map_remove(self.entries@, i as int);
                }
                let _ = self.entries.remove(i);
            },
            None => {},
        }
        let ghost pre_push = self.entries@;
        proof {
            lemma_map_contains(pre_push, key@);
        }
        self.entries.push((key, entity));
        proof {
            assert(self.entries@.drop_last() =~= pre_push);
            assert forall|a: int, b: int| 0 <= a < b < self.entries@.len()
                implies (#[trigger] self.entries@[a]).0@ != (#[trigger] self.entries@[b]).0@ by {
                if b < self.entries@.len() - 1 {
                    assert(self.entries@[a] == pre_push[a]);
                    assert(self.entries@[b] == pre_push[b]);
                } else {
                    assert(self.entries@[a] == pre_push[a]);
                }
            }
            assert(self@ =~= prior_map.insert(self.entries@.last().0@, self.entries@.last().1@));
        }
    }

    /// Install the persisted entries, first to last, a later entry for a
    /// key replacing an earlier one. The store then holds exactly the
    /// mapping those entries denote.
    pub fn load(&mut self, entries: Vec<(Vec<u8>, Entity)>)
        ensures
            final(self).wf(),
            final(self).is_loaded(),
            final(self)@ == map_of(entries@),
    {
        self.entries = Vec::new();
        self.loaded = true;
        let ghost orig = entries@;
        let mut rest = entries;
        let ghost j: int = 0;
        while rest.len() > 0
            invariant
                0 <= j <= orig.len(),
                rest@ =~= orig.skip(j),
                self@ == map_of(orig.take(j)),
                self.wf(),
                self.loaded,
            decreases rest@.len(),
        {
            let (k, e) = rest.remove(0);
            proof {
                assert(orig[j] == (k, e));
            }
            self.put(k, e);
            proof {
                j = j + 1;
                assert(orig.take(j).drop_last() =~= orig.take(j - 1));
                assert(rest@ =~= orig.skip(j));
            }
        }
        proof {
            assert(orig.take(j) =~= orig);
        }
    }

    /// Look up the record under `key`, if one was ever written.
    pub fn get(&self, key: &Vec<u8>) -> (r: Option<&Entity>)
        requires
            self.wf(),
            self.is_loaded(),
        ensures
            r is Some <==> self@.contains_key(key@),
            r is Some ==> r->0@ == self@[key@],
    {
        proof {
            lemma_map_contains(self.entries@, key@);
        }
        match self.find(key) {
            Some(i) => {
                proof {
                    lemma_map_at(self.entries@, i as int);
                }
                Some(&self.entries[i].1)
            },
            None => None,
        }
    }

    /// The entries to persist: exactly the held mapping, keys unique.
    pub fn entries(&self) -> (r: &Vec<(Vec<u8>, Entity)>)
        ensures
            map_of(r@) == self@,
            unique_keys(r@) == self.wf(),
    {
        &self.entries
    }
}

/// What upserts do to the mapping: the last write to a key wins
/// wholesale, writes to distinct keys both persist, and a key never
/// written reads back as absent.
pub proof fn lemma_store_semantics(
    m: Map<Seq<u8>, EntityView>,
    k1: Seq<u8>,
    k2: Seq<u8>,
    e1: EntityView,
    e2: EntityView,
)
    requires
        k1 != k2,
    ensures
        m.insert(k1, e1).insert(k1, e2)[k1] == e2,
        m.insert(k1, e1).insert(k2, e2)[k1] == e1,
        m.insert(k1, e1).insert(k2, e2)[k2] == e2,
        !Map::<Seq<u8>, EntityView>::empty().contains_key(k1),
{
}

} // verus!
