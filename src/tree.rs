//! The sparse Merkle tree: read with an optional proof, write, and check a
//! proof against a root.
use crate::digest::{empty_leaf, node_hash, Digest, HashParams};
use crate::store::{NodeStore, StoreMap};
use vstd::prelude::*;

verus! {

/// Depth of a freshly constructed tree.
pub const TREE_DEPTH: usize = 32;

/// Bit `i` (counted from the least significant end) of an index.
pub open spec fn bit_at(idx: u32, i: nat) -> bool {
    (idx >> (i as u32)) & 1u32 == 1u32
}

/// The views of a sequence of digests.
pub open spec fn digests_view(s: Seq<Digest>) -> Seq<Seq<u8>> {
    s.map_values(|d: Digest| d@)
}

/// `x` hashed with itself `n` times: the root of an empty subtree of height `n`.
pub open spec fn self_fold(domain: Seq<u8>, x: Seq<u8>, n: nat) -> Seq<u8>
    decreases n,
{
    if n == 0 {
        x
    } else {
        let p = self_fold(domain, x, (n - 1) as nat);
        node_hash(domain, p, p)
    }
}

/// The store of a fresh tree: one entry for each level of the empty tree.
pub open spec fn default_store(domain: Seq<u8>, n: nat) -> StoreMap
    decreases n,
{
    if n == 0 {
        Map::empty()
    } else {
        let p = self_fold(domain, empty_leaf(), (n - 1) as nat);
        default_store(domain, (n - 1) as nat).insert(node_hash(domain, p, p), (p, p))
    }
}

/// Every entry is keyed by the hash of its own pair.
pub open spec fn content_addressed(domain: Seq<u8>, store: StoreMap) -> bool {
    forall|k: Seq<u8>| #[trigger]
        store.contains_key(k) ==> k == node_hash(domain, store[k].0, store[k].1)
}

/// Walking `steps` levels down from `root` along `idx`, most significant bit
/// first: the node reached and the siblings passed, root first; `None` where a
/// node on the way has no entry in the store.
pub open spec fn descend(store: StoreMap, root: Seq<u8>, idx: u32, depth: nat, steps: nat) -> Option<
    (Seq<u8>, Seq<Seq<u8>>),
>
    decreases steps,
{
    if steps == 0 {
        Some((root, Seq::empty()))
    } else {
        match descend(store, root, idx, depth, (steps - 1) as nat) {
            None => None,
            Some((node, sibs)) => {
                if store.contains_key(node) {
                    let (l, r) = store[node];
                    if bit_at(idx, (depth - steps) as nat) {
                        Some((r, sibs.push(l)))
                    } else {
                        Some((l, sibs.push(r)))
                    }
                } else {
                    None
                }
            },
        }
    }
}

/// The ordered pair formed at fold level `i` from the running value `x` and
/// the sibling `proof[depth - 1 - i]` of a root-first proof.
pub open spec fn level_pair(idx: u32, proof: Seq<Seq<u8>>, depth: nat, x: Seq<u8>, i: nat) -> (
    Seq<u8>,
    Seq<u8>,
) {
    let s = proof[depth - 1 - i];
    if bit_at(idx, i) {
        (s, x)
    } else {
        (x, s)
    }
}

pub open spec fn level_hash(
    domain: Seq<u8>,
    idx: u32,
    proof: Seq<Seq<u8>>,
    depth: nat,
    x: Seq<u8>,
    i: nat,
) -> Seq<u8> {
    let p = level_pair(idx, proof, depth, x, i);
    node_hash(domain, p.0, p.1)
}

/// Folding `x`, standing at level `lo`, up through levels `lo .. hi`.
pub open spec fn fold_levels(
    domain: Seq<u8>,
    idx: u32,
    proof: Seq<Seq<u8>>,
    depth: nat,
    x: Seq<u8>,
    lo: nat,
    hi: nat,
) -> Seq<u8>
    decreases hi - lo,
{
    if lo >= hi {
        x
    } else {
        fold_levels(
            domain,
            idx,
            proof,
            depth,
            level_hash(domain, idx, proof, depth, x, lo),
            lo + 1,
            hi,
        )
    }
}

/// The store after the fold of `fold_levels` records each pair it hashes.
pub open spec fn path_insert(
    store: StoreMap,
    domain: Seq<u8>,
    idx: u32,
    proof: Seq<Seq<u8>>,
    depth: nat,
    x: Seq<u8>,
    lo: nat,
    hi: nat,
) -> StoreMap
    decreases hi - lo,
{
    if lo >= hi {
        store
    } else {
        let h = level_hash(domain, idx, proof, depth, x, lo);
        path_insert(
            store.insert(h, level_pair(idx, proof, depth, x, lo)),
            domain,
            idx,
            proof,
            depth,
            h,
            lo + 1,
            hi,
        )
    }
}

/// A root-first sibling sequence read leaf first, and the other way round.
pub open spec fn leaf_first(proof: Seq<Seq<u8>>) -> Seq<Seq<u8>> {
    Seq::new(proof.len(), |i: int| proof[proof.len() - 1 - i])
}

/// The siblings of `proof` in the opposite order: leaf first for a root-first
/// proof as `get` produces it, root first for a leaf-first one.
pub fn leaf_first_order(proof: &[Digest]) -> (r: Vec<Digest>)
    ensures
        digests_view(r@) == leaf_first(digests_view(proof@)),
{
    let mut r: Vec<Digest> = Vec::new();
    let n = proof.len();
    let mut i: usize = 0;
    while i < n
        invariant
            0 <= i <= n,
            n == proof@.len(),
            r@.len() == i,
            forall|j: int| 0 <= j < i ==> #[trigger] r@[j] == proof@[n - 1 - j],
        decreases n - i,
    {
        r.push(proof[n - 1 - i]);
        i = i + 1;
    }
    assert(digests_view(r@) =~= leaf_first(digests_view(proof@)));
    r
}

/// A node store lookup missed: the store does not match the root or the
/// hash parameters.
#[derive(Clone, Copy, Debug, PartialEq, Eq)]
pub enum TreeError {
    MissingNode,
}

pub struct VanillaSparseMerkleTree {
    pub depth: usize,
    empty_tree_hashes: Vec<Digest>,
    db: NodeStore,
    hash_params: HashParams,
    pub root: Digest,
}

proof fn lemma_insert_content_addressed(domain: Seq<u8>, store: StoreMap, l: Seq<u8>, r: Seq<u8>)
    requires
        content_addressed(domain, store),
    ensures
        content_addressed(domain, store.insert(node_hash(domain, l, r), (l, r))),
{
}

proof fn lemma_descend_none_stays(store: StoreMap, root: Seq<u8>, idx: u32, depth: nat, n: nat, m: nat)
    requires
        n <= m,
        descend(store, root, idx, depth, n) is None,
    ensures
        descend(store, root, idx, depth, m) is None,
    decreases m - n,
{
    if n < m {
        lemma_descend_none_stays(store, root, idx, depth, n, (m - 1) as nat);
    }
}

impl VanillaSparseMerkleTree {
    /// The depth of the tree.
    pub closed spec fn spec_depth(&self) -> nat {
        self.depth as nat
    }

    /// The current root.
    pub closed spec fn spec_root(&self) -> Seq<u8> {
        self.root@
    }

    /// The node store's contents.
    pub closed spec fn store(&self) -> StoreMap {
        self.db@
    }

    /// The hash parameters' domain prefix.
    pub closed spec fn domain(&self) -> Seq<u8> {
        self.hash_params@
    }

    pub closed spec fn tables_wf(&self) -> bool {
        &&& self.db.wf()
        &&& self.empty_tree_hashes@.len() == self.depth + 1
        &&& forall|i: int|
            0 <= i <= self.depth ==> #[trigger] self.empty_tree_hashes@[i]@ == self_fold(
                self.domain(),
                empty_leaf(),
                i as nat,
            )
    }

    pub open spec fn wf(&self) -> bool {
        &&& self.spec_depth() <= 32
        &&& self.tables_wf()
        &&& content_addressed(self.domain(), self.store())
    }

    /// The leaf and the root-first siblings on the path of `idx`, if the
    /// store resolves it.
    pub open spec fn lookup(&self, idx: u32) -> Option<(Seq<u8>, Seq<Seq<u8>>)> {
        descend(self.store(), self.spec_root(), idx, self.spec_depth(), self.spec_depth())
    }

    /// A tree of depth `TREE_DEPTH` in which every leaf is the empty leaf.
    pub fn new(hash_params: HashParams) -> (t: VanillaSparseMerkleTree)
        ensures
            t.wf(),
            t.spec_depth() == TREE_DEPTH,
            t.domain() == hash_params@,
            t.spec_root() == self_fold(hash_params@, empty_leaf(), TREE_DEPTH as nat),
            t.store() == default_store(hash_params@, TREE_DEPTH as nat),
    {
        Self::with_depth(hash_params, TREE_DEPTH)
    }

    /// A tree of the given depth in which every leaf is the empty leaf.
    pub fn with_depth(hash_params: HashParams, depth: usize) -> (t: VanillaSparseMerkleTree)
        requires
            depth <= 32,
        ensures
            t.wf(),
            t.spec_depth() == depth,
            t.domain() == hash_params@,
            t.spec_root() == self_fold(hash_params@, empty_leaf(), depth as nat),
            t.store() == default_store(hash_params@, depth as nat),
    {
        let ghost domain = hash_params@;
        let mut db = NodeStore::new();
        let mut empty_tree_hashes: Vec<Digest> = Vec::new();
        empty_tree_hashes.push(Digest::zero());
        let mut i: usize = 1;
        while i <= depth
            invariant
                1 <= i <= depth + 1,
                depth <= 32,
                domain == hash_params@,
                db.wf(),
                db@ == default_store(domain, (i - 1) as nat),
                content_addressed(domain, db@),
                empty_tree_hashes@.len() == i,
                forall|j: int|
                    0 <= j < i ==> #[trigger] empty_tree_hashes@[j]@ == self_fold(
                        domain,
                        empty_leaf(),
                        j as nat,
                    ),
            decreases depth + 1 - i,
        {
            let prev = empty_tree_hashes[i - 1];
            assert(prev@ == empty_tree_hashes@[i - 1]@);
            assert(prev@ == self_fold(domain, empty_leaf(), (i - 1) as nat));
            let new = hash_params.hash_pair(&prev, &prev);
            proof {
                lemma_insert_content_addressed(domain, db@, prev@, prev@);
            }
            db.insert(new, prev, prev);
            empty_tree_hashes.push(new);
            assert(empty_tree_hashes@[i as int]@ == self_fold(domain, empty_leaf(), i as nat));
            i = i + 1;
        }
        let root = empty_tree_hashes[depth];
        VanillaSparseMerkleTree { depth, empty_tree_hashes, db, hash_params, root }
    }

    /// The root of an empty subtree of height `level`.
    pub fn default_hash(&self, level: usize) -> (r: Digest)
        requires
            self.wf(),
            level <= self.spec_depth(),
        ensures
            r@ == self_fold(self.domain(), empty_leaf(), level as nat),
    {
        self.empty_tree_hashes[level]
    }

    /// The leaf at `idx`. Where `siblings` holds a vector, the siblings on the
    /// path are appended to it, root first.
    ///
    /// A digest on the path with no entry in the store means the store does
    /// not belong to this root or these hash parameters. That is fatal for the
    /// read; instead of panicking, `get` returns `Err(MissingNode)` and leaves
    /// `siblings` as it was, and the caller should not go on with this tree.
    pub fn get(&self, idx: u32, siblings: &mut Option<Vec<Digest>>) -> (r: Result<Digest, TreeError>)
        requires
            self.wf(),
        ensures
            match self.lookup(idx) {
                None => r == Err::<Digest, TreeError>(TreeError::MissingNode) && *final(siblings)
                    == *old(siblings),
                Some((leaf, sibs)) => {
                    &&& r is Ok
                    &&& r->Ok_0@ == leaf
                    &&& sibs.len() == self.spec_depth()
                    &&& match *old(siblings) {
                        None => *final(siblings) is None,
                        Some(p) => {
                            &&& *final(siblings) is Some
                            &&& digests_view(final(siblings)->Some_0@) == digests_view(p@) + sibs
                        },
                    }
                },
            },
    {
        let ghost store = self.store();
        let ghost depth = self.depth as nat;
        let mut cur_node = self.root;
        let mut proof_vec: Vec<Digest> = Vec::new();
        let mut i: usize = 0;
        while i < self.depth
            invariant
                0 <= i <= self.depth <= 32,
                self.db.wf(),
                store == self.db@,
                depth == self.depth,
                descend(store, self.root@, idx, depth, i as nat) == Some(
                    (cur_node@, digests_view(proof_vec@)),
                ),
                digests_view(proof_vec@).len() == i,
            decreases self.depth - i,
        {
            match self.db.lookup(&cur_node) {
                None => {
                    proof {
                        lemma_descend_none_stays(store, self.root@, idx, depth, (i + 1) as nat, depth);
                    }
                    return Err(TreeError::MissingNode);
                },
                Some((left, right)) => {
                    let ghost before = proof_vec@;
                    let shift: u32 = (self.depth - 1 - i) as u32;
                    assert(shift == ((depth - (i + 1)) as nat) as u32);
                    if (idx >> shift) & 1u32 == 1u32 {
                        cur_node = right;
                        proof_vec.push(left);
                    } else {
                        cur_node = left;
                        proof_vec.push(right);
                    }
                    assert(digests_view(proof_vec@) =~= digests_view(before).push(
                        proof_vec@[i as int]@,
                    ));
                },
            }
            i = i + 1;
        }
        let ghost sibs = digests_view(proof_vec@);
        match siblings {
            Some(v) => {
                let ghost start = v@;
                v.append(&mut proof_vec);
                assert(digests_view(v@) =~= digests_view(start) + sibs);
            },
            None => {},
        }
        Ok(cur_node)
    }

    /// Whether folding `val` up with the root-first `proof` along `idx` gives
    /// `root`, or the tree's own root where `root` is `None`.
    pub fn verify_proof(&self, idx: u32, val: &Digest, proof: &[Digest], root: Option<&Digest>) -> (r:
        bool)
        requires
            self.wf(),
            proof@.len() >= self.spec_depth(),
        ensures
            r == (fold_levels(
                self.domain(),
                idx,
                digests_view(proof@),
                self.spec_depth(),
                val@,
                0,
                self.spec_depth(),
            ) == match root {
                Some(x) => x@,
                None => self.spec_root(),
            }),
    {
        let ghost domain = self.domain();
        let ghost p = digests_view(proof@);
        let ghost depth = self.depth as nat;
        let mut cur_val = *val;
        let mut i: usize = 0;
        while i < self.depth
            invariant
                0 <= i <= self.depth <= 32,
                depth == self.depth,
                domain == self.hash_params@,
                p == digests_view(proof@),
                proof@.len() >= depth,
                fold_levels(domain, idx, p, depth, cur_val@, i as nat, depth) == fold_levels(
                    domain,
                    idx,
                    p,
                    depth,
                    val@,
                    0,
                    depth,
                ),
            decreases self.depth - i,
        {
            let side = proof[self.depth - 1 - i];
            assert(side@ == p[depth - 1 - i]);
            if (idx >> (i as u32)) & 1u32 == 1u32 {
                cur_val = self.hash_params.hash_pair(&side, &cur_val);
            } else {
                cur_val = self.hash_params.hash_pair(&cur_val, &side);
            }
            i = i + 1;
        }
        match root {
            Some(x) => cur_val.same_as(x),
            None => cur_val.same_as(&self.root),
        }
    }

    fn update_db_with_key_val(&mut self, key: Digest, left: Digest, right: Digest)
        requires
            old(self).wf(),
            key@ == node_hash(old(self).domain(), left@, right@),
        ensures
            final(self).wf(),
            final(self).depth == old(self).depth,
            final(self).root == old(self).root,
            final(self).domain() == old(self).domain(),
            final(self).store() == old(self).store().insert(key@, (left@, right@)),
    {
        proof {
            lemma_insert_content_addressed(self.domain(), self.store(), left@, right@);
        }
        self.db.insert(key, left, right);
    }

    /// Writes `val` at `idx`: the pairs along the path are recorded bottom
    /// up and the new root replaces the old one, which is also returned.
    ///
    /// Where the walk down `idx` misses a store entry (a store that does not
    /// belong to this root or these hash parameters), the write is fatal:
    /// instead of panicking, `update` returns `Err(MissingNode)` before
    /// recording anything, with the root and the store unchanged.
    pub fn update(&mut self, idx: u32, val: Digest) -> (r: Result<Digest, TreeError>)
        requires
            old(self).wf(),
        ensures
            final(self).wf(),
            final(self).spec_depth() == old(self).spec_depth(),
            final(self).domain() == old(self).domain(),
            match old(self).lookup(idx) {
                None => {
                    &&& r == Err::<Digest, TreeError>(TreeError::MissingNode)
                    &&& final(self).spec_root() == old(self).spec_root()
                    &&& final(self).store() == old(self).store()
                },
                Some((_, sibs)) => {
                    &&& r is Ok
                    &&& r->Ok_0@ == fold_levels(
                        old(self).domain(),
                        idx,
                        sibs,
                        old(self).spec_depth(),
                        val@,
                        0,
                        old(self).spec_depth(),
                    )
                    &&& final(self).spec_root() == r->Ok_0@
                    &&& final(self).store() == path_insert(
                        old(self).store(),
                        old(self).domain(),
                        idx,
                        sibs,
                        old(self).spec_depth(),
                        val@,
                        0,
                        old(self).spec_depth(),
                    )
                },
            },
    {
        let mut sidenodes_wrap: Option<Vec<Digest>> = Some(Vec::new());
        match self.get(idx, &mut sidenodes_wrap) {
            Err(e) => {
                return Err(e);
            },
            Ok(_) => {},
        }
        let sidenodes = match sidenodes_wrap {
            Some(v) => v,
            None => Vec::new(),
        };
        let ghost domain = self.domain();
        let ghost depth = self.depth as nat;
        let ghost p = digests_view(sidenodes@);
        let ghost store0 = self.store();
        assert(p == old(self).lookup(idx)->Some_0.1) by {
            assert(digests_view(Seq::<Digest>::empty()) =~= Seq::<Seq<u8>>::empty());
            assert(Seq::<Seq<u8>>::empty() + old(self).lookup(idx)->Some_0.1 =~= old(self).lookup(
                idx,
            )->Some_0.1);
        }
        let mut cur_val = val;
        let mut i: usize = 0;
        while i < self.depth
            invariant
                0 <= i <= self.depth <= 32,
                self.wf(),
                depth == self.depth,
                domain == self.domain(),
                p == digests_view(sidenodes@),
                sidenodes@.len() == depth,
                fold_levels(domain, idx, p, depth, cur_val@, i as nat, depth) == fold_levels(
                    domain,
                    idx,
                    p,
                    depth,
                    val@,
                    0,
                    depth,
                ),
                path_insert(self.store(), domain, idx, p, depth, cur_val@, i as nat, depth)
                    == path_insert(store0, domain, idx, p, depth, val@, 0, depth),
            decreases self.depth - i,
        {
            let side_elem = sidenodes[self.depth - 1 - i];
            assert(side_elem@ == p[depth - 1 - i]);
            let new_val;
            if (idx >> (i as u32)) & 1u32 == 1u32 {
                new_val = self.hash_params.hash_pair(&side_elem, &cur_val);
                self.update_db_with_key_val(new_val, side_elem, cur_val);
            } else {
                new_val = self.hash_params.hash_pair(&cur_val, &side_elem);
                self.update_db_with_key_val(new_val, cur_val, side_elem);
            }
            cur_val = new_val;
            i = i + 1;
        }
        self.root = cur_val;
        Ok(cur_val)
    }
}

} // verus!
