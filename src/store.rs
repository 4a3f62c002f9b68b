//! Content-addressed node store: a map from a node's digest to the ordered
//! pair of child digests that produced it.
use crate::digest::Digest;
use vstd::prelude::*;

verus! {

/// The mathematical model of a node store.
pub type StoreMap = Map<Seq<u8>, (Seq<u8>, Seq<u8>)>;

struct NodeEntry {
    key: Digest,
    left: Digest,
    right: Digest,
}

pub struct NodeStore {
    entries: Vec<NodeEntry>,
    model: Ghost<StoreMap>,
}

impl View for NodeStore {
    type V = StoreMap;

    closed spec fn view(&self) -> StoreMap {
        self.model@
    }
}

impl NodeStore {
    /// Keys are unique, each entry is in the model, and the model holds
    /// nothing but the entries.
    pub closed spec fn wf(&self) -> bool {
        &&& forall|i: int, j: int|
            0 <= i < j < self.entries@.len() ==> self.entries@[i].key@ != self.entries@[j].key@
        &&& forall|i: int|
            0 <= i < self.entries@.len() ==> {
                &&& #[trigger] self.model@.contains_key(self.entries@[i].key@)
                &&& self.model@[self.entries@[i].key@] == (
                    self.entries@[i].left@,
                    self.entries@[i].right@,
                )
            }
        &&& forall|k: Seq<u8>|
            #[trigger] self.model@.contains_key(k) ==> exists|i: int|
                0 <= i < self.entries@.len() && self.entries@[i].key@ == k
    }

    pub fn new() -> (r: NodeStore)
        ensures
            r.wf(),
            r@ == StoreMap::empty(),
    {
        NodeStore { entries: Vec::new(), model: Ghost(StoreMap::empty()) }
    }

    fn position(&self, key: &Digest) -> (r: Option<usize>)
        requires
            self.wf(),
        ensures
            match r {
                Some(i) => i < self.entries@.len() && self.entries@[i as int].key@ == key@,
                None => !self@.contains_key(key@),
            },
    {
        let mut i: usize = 0;
        while i < self.entries.len()
            invariant
                0 <= i <= self.entries@.len(),
                forall|j: int| 0 <= j < i ==> self.entries@[j].key@ != key@,
            decreases self.entries@.len() - i,
        {
            if self.entries[i].key.same_as(key) {
                return Some(i);
            }
            i = i + 1;
        }
        proof {
            if self@.contains_key(key@) {
                let w = choose|j: int| 0 <= j < self.entries@.len() && self.entries@[j].key@ == key@;
                assert(self.entries@[w].key@ != key@);
            }
        }
        None
    }

    /// The child pair stored under `key`, if any.
    pub fn lookup(&self, key: &Digest) -> (r: Option<(Digest, Digest)>)
        requires
            self.wf(),
        ensures
            match r {
                Some(p) => self@.contains_key(key@) && self@[key@] == (p.0@, p.1@),
                None => !self@.contains_key(key@),
            },
    {
        match self.position(key) {
            Some(i) => {
                assert(self@.contains_key(self.entries@[i as int].key@));
                Some((self.entries[i].left, self.entries[i].right))
            },
            None => None,
        }
    }

    /// Records `key -> (left, right)`, replacing what was stored under `key`.
    pub fn insert(&mut self, key: Digest, left: Digest, right: Digest)
        requires
            old(self).wf(),
        ensures
            final(self).wf(),
            final(self)@ == old(self)@.insert(key@, (left@, right@)),
    {
        let ghost m = self.model@.insert(key@, (left@, right@));
        let entry = NodeEntry { key, left, right };
        match self.position(&key) {
            Some(i) => {
                self.entries.set(i, entry);
                self.model = Ghost(m);
                assert forall|a: int| 0 <= a < self.entries@.len() implies
                    #[trigger] self.entries@[a].key@ == old(self).entries@[a].key@ by {}
                assert forall|a: int| 0 <= a < self.entries@.len() && a != i implies
                    #[trigger] self.entries@[a].key@ != key@ by {
                    if a < i {} else {}
                }
                assert forall|k: Seq<u8>| #[trigger] m.contains_key(k) implies exists|j: int|
                    0 <= j < self.entries@.len() && self.entries@[j].key@ == k by {
                    if k != key@ {
                        let w = choose|j: int|
                            0 <= j < old(self).entries@.len() && old(self).entries@[j].key@ == k;
                        assert(self.entries@[w].key@ == k);
                    } else {
                        assert(self.entries@[i as int].key@ == k);
                    }
                }
            },
            None => {
                self.entries.push(entry);
                self.model = Ghost(m);
                let ghost n: int = self.entries@.len() - 1;
                assert forall|a: int| 0 <= a < n implies #[trigger] self.entries@[a].key@ != key@ by {
                    assert(old(self)@.contains_key(old(self).entries@[a].key@));
                }
                assert forall|k: Seq<u8>| #[trigger] m.contains_key(k) implies exists|j: int|
                    0 <= j < self.entries@.len() && self.entries@[j].key@ == k by {
                    if k != key@ {
                        let w = choose|j: int|
                            0 <= j < old(self).entries@.len() && old(self).entries@[j].key@ == k;
                        assert(self.entries@[w].key@ == k);
                    } else {
                        assert(self.entries@[n].key@ == k);
                    }
                }
                assert forall|a: int, b: int|
                    0 <= a < b < self.entries@.len() implies self.entries@[a].key@
                    != self.entries@[b].key@ by {
                    if b == n {
                        assert(old(self)@.contains_key(old(self).entries@[a].key@));
                    }
                }
            },
        }
    }
}

} // verus!
