//! Laws relating the tree's operations to one another.
use crate::digest::{empty_leaf, node_hash};
use crate::store::StoreMap;
use crate::tree::{
    bit_at,
    content_addressed,
    default_store,
    self_fold,
    descend,
    fold_levels,
    leaf_first,
    level_hash,
    level_pair,
    path_insert,
    VanillaSparseMerkleTree,
};
use vstd::prelude::*;

verus! {

/// The digests on the path written by folding `val` up with `proof` are
/// pairwise distinct (no two levels of the new path hash to the same node).
pub open spec fn path_distinct(
    domain: Seq<u8>,
    idx: u32,
    proof: Seq<Seq<u8>>,
    depth: nat,
    val: Seq<u8>,
) -> bool {
    forall|i: nat, j: nat|
        1 <= i < j <= depth ==> #[trigger] fold_levels(domain, idx, proof, depth, val, 0, i)
            != #[trigger] fold_levels(domain, idx, proof, depth, val, 0, j)
}

proof fn lemma_descend_fold(
    domain: Seq<u8>,
    store: StoreMap,
    root: Seq<u8>,
    idx: u32,
    depth: nat,
    proof: Seq<Seq<u8>>,
    node: Seq<u8>,
    n: nat,
)
    requires
        content_addressed(domain, store),
        n <= depth,
        proof.len() == depth,
        descend(store, root, idx, depth, n) == Some((node, proof.subrange(0, n as int))),
    ensures
        fold_levels(domain, idx, proof, depth, node, (depth - n) as nat, depth) == root,
    decreases n,
{
    if n > 0 {
        let prev = descend(store, root, idx, depth, (n - 1) as nat);
        let (pn, sibs) = prev->Some_0;
        assert(store.contains_key(pn));
        let (l, r) = store[pn];
        assert(pn == node_hash(domain, l, r));
        let i = (depth - n) as nat;
        let last = proof[n - 1];
        lemma_descend_len(store, root, idx, depth, (n - 1) as nat);
        assert(sibs.len() == n - 1);
        if bit_at(idx, i) {
            assert(node == r && sibs.push(l) == proof.subrange(0, n as int));
            assert(sibs.push(l)[n - 1] == l);
            assert(l == last);
        } else {
            assert(node == l && sibs.push(r) == proof.subrange(0, n as int));
            assert(sibs.push(r)[n - 1] == r);
            assert(r == last);
        }
        assert(sibs.push(last) == proof.subrange(0, n as int));
        assert(sibs =~= proof.subrange(0, n - 1)) by {
            assert(sibs.push(last).subrange(0, n - 1) =~= sibs);
            assert(proof.subrange(0, n as int).subrange(0, n - 1) =~= proof.subrange(0, n - 1));
        }
        lemma_descend_fold(domain, store, root, idx, depth, proof, pn, (n - 1) as nat);
        assert(proof[depth - 1 - i] == last);
        assert(level_hash(domain, idx, proof, depth, node, i) == pn);
    }
}

proof fn lemma_descend_len(store: StoreMap, root: Seq<u8>, idx: u32, depth: nat, n: nat)
    requires
        descend(store, root, idx, depth, n) is Some,
    ensures
        descend(store, root, idx, depth, n)->Some_0.1.len() == n,
    decreases n,
{
    if n > 0 {
        lemma_descend_len(store, root, idx, depth, (n - 1) as nat);
    }
}

/// A proof read from a content-addressed store checks out: folding the leaf
/// that the walk down `idx` reaches, with the siblings it passed, gives back
/// the root the walk started from.
pub proof fn lemma_descend_then_fold(
    domain: Seq<u8>,
    store: StoreMap,
    root: Seq<u8>,
    idx: u32,
    depth: nat,
)
    requires
        content_addressed(domain, store),
        descend(store, root, idx, depth, depth) is Some,
    ensures
        ({
            let (leaf, sibs) = descend(store, root, idx, depth, depth)->Some_0;
            fold_levels(domain, idx, sibs, depth, leaf, 0, depth) == root
        }),
{
    let (leaf, sibs) = descend(store, root, idx, depth, depth)->Some_0;
    lemma_descend_len(store, root, idx, depth, depth);
    assert(sibs.subrange(0, depth as int) =~= sibs);
    lemma_descend_fold(domain, store, root, idx, depth, sibs, leaf, depth);
}

/// What `get` reads from a well-formed tree, `verify_proof` accepts against
/// the tree's root.
pub proof fn lemma_get_then_verify(t: &VanillaSparseMerkleTree, idx: u32)
    requires
        t.wf(),
        t.lookup(idx) is Some,
    ensures
        fold_levels(
            t.domain(),
            idx,
            t.lookup(idx)->Some_0.1,
            t.spec_depth(),
            t.lookup(idx)->Some_0.0,
            0,
            t.spec_depth(),
        ) == t.spec_root(),
{
    lemma_descend_then_fold(t.domain(), t.store(), t.spec_root(), idx, t.spec_depth());
}

proof fn lemma_fold_top(
    domain: Seq<u8>,
    idx: u32,
    proof: Seq<Seq<u8>>,
    depth: nat,
    x: Seq<u8>,
    lo: nat,
    hi: nat,
)
    requires
        lo <= hi,
    ensures
        fold_levels(domain, idx, proof, depth, x, lo, hi + 1) == level_hash(
            domain,
            idx,
            proof,
            depth,
            fold_levels(domain, idx, proof, depth, x, lo, hi),
            hi,
        ),
    decreases hi - lo,
{
    let h = level_hash(domain, idx, proof, depth, x, lo);
    assert(fold_levels(domain, idx, proof, depth, x, lo, hi + 1) == fold_levels(
        domain,
        idx,
        proof,
        depth,
        h,
        lo + 1,
        hi + 1,
    ));
    if lo < hi {
        lemma_fold_top(domain, idx, proof, depth, h, lo + 1, hi);
    } else {
        assert(fold_levels(domain, idx, proof, depth, h, lo + 1, hi + 1) == h);
    }
}

proof fn lemma_path_top(
    store: StoreMap,
    domain: Seq<u8>,
    idx: u32,
    proof: Seq<Seq<u8>>,
    depth: nat,
    x: Seq<u8>,
    lo: nat,
    hi: nat,
)
    requires
        lo <= hi,
    ensures
        ({
            let top = fold_levels(domain, idx, proof, depth, x, lo, hi);
            path_insert(store, domain, idx, proof, depth, x, lo, hi + 1) == path_insert(
                store,
                domain,
                idx,
                proof,
                depth,
                x,
                lo,
                hi,
            ).insert(
                level_hash(domain, idx, proof, depth, top, hi),
                level_pair(idx, proof, depth, top, hi),
            )
        }),
    decreases hi - lo,
{
    let h = level_hash(domain, idx, proof, depth, x, lo);
    let s1 = store.insert(h, level_pair(idx, proof, depth, x, lo));
    assert(path_insert(store, domain, idx, proof, depth, x, lo, hi + 1) == path_insert(
        s1,
        domain,
        idx,
        proof,
        depth,
        h,
        lo + 1,
        hi + 1,
    ));
    if lo < hi {
        lemma_path_top(s1, domain, idx, proof, depth, h, lo + 1, hi);
    } else {
        assert(path_insert(s1, domain, idx, proof, depth, h, lo + 1, hi + 1) == s1);
    }
}

proof fn lemma_path_entries(
    store: StoreMap,
    domain: Seq<u8>,
    idx: u32,
    proof: Seq<Seq<u8>>,
    depth: nat,
    val: Seq<u8>,
    hi: nat,
)
    requires
        hi <= depth,
        path_distinct(domain, idx, proof, depth, val),
    ensures
        forall|i: nat|
            i < hi ==> {
                let m = path_insert(store, domain, idx, proof, depth, val, 0, hi);
                let below = fold_levels(domain, idx, proof, depth, val, 0, i);
                let k = #[trigger] fold_levels(domain, idx, proof, depth, val, 0, i + 1);
                m.contains_key(k) && m[k] == level_pair(idx, proof, depth, below, i)
            },
    decreases hi,
{
    if hi > 0 {
        let h1 = (hi - 1) as nat;
        lemma_path_entries(store, domain, idx, proof, depth, val, h1);
        lemma_path_top(store, domain, idx, proof, depth, val, 0, h1);
        lemma_fold_top(domain, idx, proof, depth, val, 0, h1);
        assert forall|i: nat| i < hi implies {
            let m = path_insert(store, domain, idx, proof, depth, val, 0, hi);
            let below = fold_levels(domain, idx, proof, depth, val, 0, i);
            let k = #[trigger] fold_levels(domain, idx, proof, depth, val, 0, i + 1);
            m.contains_key(k) && m[k] == level_pair(idx, proof, depth, below, i)
        } by {
            if i < h1 {
                assert(fold_levels(domain, idx, proof, depth, val, 0, i + 1) != fold_levels(
                    domain,
                    idx,
                    proof,
                    depth,
                    val,
                    0,
                    hi,
                ));
            }
        }
    }
}

proof fn lemma_descend_new_path(
    store: StoreMap,
    domain: Seq<u8>,
    idx: u32,
    proof: Seq<Seq<u8>>,
    depth: nat,
    val: Seq<u8>,
    n: nat,
)
    requires
        n <= depth,
        proof.len() == depth,
        path_distinct(domain, idx, proof, depth, val),
    ensures
        descend(
            path_insert(store, domain, idx, proof, depth, val, 0, depth),
            fold_levels(domain, idx, proof, depth, val, 0, depth),
            idx,
            depth,
            n,
        ) == Some(
            (
                fold_levels(domain, idx, proof, depth, val, 0, (depth - n) as nat),
                proof.subrange(0, n as int),
            ),
        ),
    decreases n,
{
    if n == 0 {
        assert(proof.subrange(0, 0) =~= Seq::<Seq<u8>>::empty());
    } else {
        lemma_descend_new_path(store, domain, idx, proof, depth, val, (n - 1) as nat);
        lemma_path_entries(store, domain, idx, proof, depth, val, depth);
        let i = (depth - n) as nat;
        assert((i + 1) as nat == (depth - (n - 1)) as nat);
        assert(proof.subrange(0, n - 1).push(proof[n - 1]) =~= proof.subrange(0, n as int));
    }
}

/// Round trip: once `update(idx, val)` has written its path, `get(idx)`
/// returns `val` with the same siblings, provided the digests along the new
/// path are pairwise distinct.
pub proof fn lemma_update_then_get(
    before: &VanillaSparseMerkleTree,
    after: &VanillaSparseMerkleTree,
    idx: u32,
    val: Seq<u8>,
)
    requires
        before.lookup(idx) is Some,
        after.spec_depth() == before.spec_depth(),
        after.store() == path_insert(
            before.store(),
            before.domain(),
            idx,
            before.lookup(idx)->Some_0.1,
            before.spec_depth(),
            val,
            0,
            before.spec_depth(),
        ),
        after.spec_root() == fold_levels(
            before.domain(),
            idx,
            before.lookup(idx)->Some_0.1,
            before.spec_depth(),
            val,
            0,
            before.spec_depth(),
        ),
        path_distinct(
            before.domain(),
            idx,
            before.lookup(idx)->Some_0.1,
            before.spec_depth(),
            val,
        ),
    ensures
        after.lookup(idx) == Some((val, before.lookup(idx)->Some_0.1)),
{
    let depth = before.spec_depth();
    let sibs = before.lookup(idx)->Some_0.1;
    lemma_descend_len(before.store(), before.spec_root(), idx, depth, depth);
    lemma_descend_new_path(before.store(), before.domain(), idx, sibs, depth, val, depth);
    assert(sibs.subrange(0, depth as int) =~= sibs);
}

/// The root-first order of `get` and the leaf-first order of the fold are
/// exact reverses: reversing twice gives the sequence back, and fold level `i`
/// of a proof as long as the tree is deep takes the `i`-th leaf-first sibling.
pub proof fn lemma_orders_reverse(proof: Seq<Seq<u8>>)
    ensures
        leaf_first(leaf_first(proof)) == proof,
        forall|i: int|
            0 <= i < proof.len() ==> #[trigger] leaf_first(proof)[i] == proof[proof.len() - 1 - i],
        forall|i: int|
            0 <= i < proof.len() ==> #[trigger] proof[i] == leaf_first(proof)[proof.len() - 1 - i],
        forall|idx: u32, x: Seq<u8>, i: nat|
            i < proof.len() ==> #[trigger] level_pair(idx, proof, proof.len(), x, i) == (if bit_at(
                idx,
                i,
            ) {
                (leaf_first(proof)[i as int], x)
            } else {
                (x, leaf_first(proof)[i as int])
            }),
{
    assert(leaf_first(leaf_first(proof)) =~= proof);
}

/// The node hash is a function of the parameters and the two children.
pub proof fn lemma_node_hash_deterministic(
    domain1: Seq<u8>,
    left1: Seq<u8>,
    right1: Seq<u8>,
    domain2: Seq<u8>,
    left2: Seq<u8>,
    right2: Seq<u8>,
)
    requires
        domain1 == domain2,
        left1 == left2,
        right1 == right2,
    ensures
        node_hash(domain1, left1, right1) == node_hash(domain2, left2, right2),
{
}

proof fn lemma_path_noop(
    store: StoreMap,
    domain: Seq<u8>,
    idx: u32,
    proof: Seq<Seq<u8>>,
    depth: nat,
    val: Seq<u8>,
    lo: nat,
    hi: nat,
)
    requires
        lo <= hi,
        forall|i: nat|
            lo <= i < hi ==> {
                let below = fold_levels(domain, idx, proof, depth, val, 0, i);
                let k = #[trigger] fold_levels(domain, idx, proof, depth, val, 0, i + 1);
                store.contains_key(k) && store[k] == level_pair(idx, proof, depth, below, i)
            },
    ensures
        path_insert(
            store,
            domain,
            idx,
            proof,
            depth,
            fold_levels(domain, idx, proof, depth, val, 0, lo),
            lo,
            hi,
        ) == store,
    decreases hi - lo,
{
    if lo < hi {
        let x = fold_levels(domain, idx, proof, depth, val, 0, lo);
        lemma_fold_top(domain, idx, proof, depth, val, 0, lo);
        let h = fold_levels(domain, idx, proof, depth, val, 0, lo + 1);
        assert(store.insert(h, level_pair(idx, proof, depth, x, lo)) =~= store);
        lemma_path_noop(store, domain, idx, proof, depth, val, lo + 1, hi);
    }
}

/// Repeating an update changes nothing: over the tree that `update(idx, val)`
/// produced, a second `update(idx, val)` finds the same siblings, computes the
/// same root and records only pairs that are already stored, provided the
/// digests along the new path are pairwise distinct.
pub proof fn lemma_update_twice(
    before: &VanillaSparseMerkleTree,
    after: &VanillaSparseMerkleTree,
    idx: u32,
    val: Seq<u8>,
)
    requires
        before.lookup(idx) is Some,
        after.spec_depth() == before.spec_depth(),
        after.domain() == before.domain(),
        after.store() == path_insert(
            before.store(),
            before.domain(),
            idx,
            before.lookup(idx)->Some_0.1,
            before.spec_depth(),
            val,
            0,
            before.spec_depth(),
        ),
        after.spec_root() == fold_levels(
            before.domain(),
            idx,
            before.lookup(idx)->Some_0.1,
            before.spec_depth(),
            val,
            0,
            before.spec_depth(),
        ),
        path_distinct(
            before.domain(),
            idx,
            before.lookup(idx)->Some_0.1,
            before.spec_depth(),
            val,
        ),
    ensures
        after.lookup(idx) is Some,
        after.lookup(idx)->Some_0.1 == before.lookup(idx)->Some_0.1,
        fold_levels(
            after.domain(),
            idx,
            after.lookup(idx)->Some_0.1,
            after.spec_depth(),
            val,
            0,
            after.spec_depth(),
        ) == after.spec_root(),
        path_insert(
            after.store(),
            after.domain(),
            idx,
            after.lookup(idx)->Some_0.1,
            after.spec_depth(),
            val,
            0,
            after.spec_depth(),
        ) == after.store(),
{
    let depth = before.spec_depth();
    let sibs = before.lookup(idx)->Some_0.1;
    lemma_update_then_get(before, after, idx, val);
    lemma_path_entries(before.store(), before.domain(), idx, sibs, depth, val, depth);
    lemma_path_noop(after.store(), before.domain(), idx, sibs, depth, val, 0, depth);
}

/// Each digest of the new path is either new to the store or already stands
/// there for the very pair that the path records under it.
pub open spec fn path_fresh(
    store: StoreMap,
    domain: Seq<u8>,
    idx: u32,
    proof: Seq<Seq<u8>>,
    depth: nat,
    val: Seq<u8>,
) -> bool {
    forall|i: nat|
        i < depth && store.contains_key(
            #[trigger] fold_levels(domain, idx, proof, depth, val, 0, i + 1),
        ) ==> store[fold_levels(domain, idx, proof, depth, val, 0, i + 1)] == level_pair(
            idx,
            proof,
            depth,
            fold_levels(domain, idx, proof, depth, val, 0, i),
            i,
        )
}

proof fn lemma_path_other(
    store: StoreMap,
    domain: Seq<u8>,
    idx: u32,
    proof: Seq<Seq<u8>>,
    depth: nat,
    val: Seq<u8>,
    hi: nat,
    k: Seq<u8>,
)
    requires
        forall|i: nat| i < hi ==> k != #[trigger] fold_levels(domain, idx, proof, depth, val, 0, i + 1),
    ensures
        path_insert(store, domain, idx, proof, depth, val, 0, hi).contains_key(k)
            == store.contains_key(k),
        store.contains_key(k) ==> path_insert(store, domain, idx, proof, depth, val, 0, hi)[k]
            == store[k],
    decreases hi,
{
    if hi > 0 {
        let h1 = (hi - 1) as nat;
        lemma_path_other(store, domain, idx, proof, depth, val, h1, k);
        lemma_path_top(store, domain, idx, proof, depth, val, 0, h1);
        lemma_fold_top(domain, idx, proof, depth, val, 0, h1);
        assert(k != fold_levels(domain, idx, proof, depth, val, 0, h1 + 1));
    }
}

proof fn lemma_store_kept(
    store: StoreMap,
    domain: Seq<u8>,
    idx: u32,
    proof: Seq<Seq<u8>>,
    depth: nat,
    val: Seq<u8>,
)
    requires
        path_distinct(domain, idx, proof, depth, val),
        path_fresh(store, domain, idx, proof, depth, val),
    ensures
        forall|k: Seq<u8>|
            #[trigger] store.contains_key(k) ==> path_insert(
                store,
                domain,
                idx,
                proof,
                depth,
                val,
                0,
                depth,
            ).contains_key(k) && path_insert(store, domain, idx, proof, depth, val, 0, depth)[k]
                == store[k],
{
    lemma_path_entries(store, domain, idx, proof, depth, val, depth);
    assert forall|k: Seq<u8>| #[trigger] store.contains_key(k) implies path_insert(
        store,
        domain,
        idx,
        proof,
        depth,
        val,
        0,
        depth,
    ).contains_key(k) && path_insert(store, domain, idx, proof, depth, val, 0, depth)[k]
        == store[k] by {
        if exists|i: nat| i < depth && k == #[trigger] fold_levels(domain, idx, proof, depth, val, 0, i + 1) {
            let i = choose|i: nat| i < depth && k == #[trigger] fold_levels(domain, idx, proof, depth, val, 0, i + 1);
            assert(store.contains_key(fold_levels(domain, idx, proof, depth, val, 0, i + 1)));
        } else {
            lemma_path_other(store, domain, idx, proof, depth, val, depth, k);
        }
    }
}

proof fn lemma_descend_some_prefix(
    store: StoreMap,
    root: Seq<u8>,
    idx: u32,
    depth: nat,
    a: nat,
    b: nat,
)
    requires
        a <= b,
        descend(store, root, idx, depth, b) is Some,
    ensures
        descend(store, root, idx, depth, a) is Some,
        descend(store, root, idx, depth, a)->Some_0.1 == descend(
            store,
            root,
            idx,
            depth,
            b,
        )->Some_0.1.subrange(0, a as int),
    decreases b,
{
    lemma_descend_len(store, root, idx, depth, b);
    if a == b {
        assert(descend(store, root, idx, depth, b)->Some_0.1.subrange(0, b as int) =~= descend(
            store,
            root,
            idx,
            depth,
            b,
        )->Some_0.1);
    } else {
        let b1 = (b - 1) as nat;
        lemma_descend_some_prefix(store, root, idx, depth, a, b1);
        lemma_descend_len(store, root, idx, depth, b1);
        let s1 = descend(store, root, idx, depth, b1)->Some_0.1;
        let s2 = descend(store, root, idx, depth, b)->Some_0.1;
        assert(s1 =~= s2.subrange(0, b1 as int));
        assert(s1.subrange(0, a as int) =~= s2.subrange(0, a as int));
    }
}

proof fn lemma_descend_same_bits(
    store: StoreMap,
    root: Seq<u8>,
    idx: u32,
    j: u32,
    depth: nat,
    s: nat,
)
    requires
        s <= depth,
        forall|t: nat| t < s ==> #[trigger] bit_at(idx, (depth - 1 - t) as nat) == bit_at(
            j,
            (depth - 1 - t) as nat,
        ),
    ensures
        descend(store, root, idx, depth, s) == descend(store, root, j, depth, s),
    decreases s,
{
    if s > 0 {
        lemma_descend_same_bits(store, root, idx, j, depth, (s - 1) as nat);
        assert(bit_at(idx, (depth - 1 - (s - 1) as nat) as nat) == bit_at(
            j,
            (depth - 1 - (s - 1) as nat) as nat,
        ));
        assert((depth - s) as nat == (depth - 1 - (s - 1) as nat) as nat);
    }
}

proof fn lemma_descend_continue(
    s1: StoreMap,
    r1: Seq<u8>,
    s2: StoreMap,
    r2: Seq<u8>,
    j: u32,
    depth: nat,
    a: nat,
    b: nat,
)
    requires
        a <= b,
        descend(s1, r1, j, depth, b) is Some,
        descend(s2, r2, j, depth, a) is Some,
        descend(s1, r1, j, depth, a) is Some,
        descend(s1, r1, j, depth, a)->Some_0.0 == descend(s2, r2, j, depth, a)->Some_0.0,
        forall|k: Seq<u8>| #[trigger] s1.contains_key(k) ==> s2.contains_key(k) && s2[k] == s1[k],
    ensures
        descend(s2, r2, j, depth, b) is Some,
        descend(s1, r1, j, depth, b)->Some_0.0 == descend(s2, r2, j, depth, b)->Some_0.0,
    decreases b,
{
    if a < b {
        let b1 = (b - 1) as nat;
        lemma_descend_some_prefix(s1, r1, j, depth, b1, b);
        lemma_descend_continue(s1, r1, s2, r2, j, depth, a, b1);
        let node = descend(s1, r1, j, depth, b1)->Some_0.0;
        assert(s1.contains_key(node));
    }
}

proof fn lemma_top_diff(idx: u32, j: u32, depth: nat, s: nat) -> (m: nat)
    requires
        s <= depth,
        forall|t: nat| t < s ==> #[trigger] bit_at(idx, (depth - 1 - t) as nat) == bit_at(
            j,
            (depth - 1 - t) as nat,
        ),
        exists|l: nat| l < depth && #[trigger] bit_at(idx, l) != bit_at(j, l),
    ensures
        s <= m < depth,
        forall|t: nat| t < m ==> #[trigger] bit_at(idx, (depth - 1 - t) as nat) == bit_at(
            j,
            (depth - 1 - t) as nat,
        ),
        bit_at(idx, (depth - 1 - m) as nat) != bit_at(j, (depth - 1 - m) as nat),
    decreases depth - s,
{
    if s == depth {
        let l = choose|l: nat| l < depth && #[trigger] bit_at(idx, l) != bit_at(j, l);
        let t = (depth - 1 - l) as nat;
        assert((depth - 1 - t) as nat == l);
        assert(bit_at(idx, (depth - 1 - t) as nat) == bit_at(j, (depth - 1 - t) as nat));
        s
    } else if bit_at(idx, (depth - 1 - s) as nat) != bit_at(j, (depth - 1 - s) as nat) {
        s
    } else {
        lemma_top_diff(idx, j, depth, s + 1)
    }
}

proof fn lemma_keeps_other_store(
    store: StoreMap,
    root: Seq<u8>,
    domain: Seq<u8>,
    depth: nat,
    idx: u32,
    j: u32,
    val: Seq<u8>,
)
    requires
        descend(store, root, idx, depth, depth) is Some,
        descend(store, root, j, depth, depth) is Some,
        exists|l: nat| l < depth && #[trigger] bit_at(idx, l) != bit_at(j, l),
        path_distinct(domain, idx, descend(store, root, idx, depth, depth)->Some_0.1, depth, val),
        path_fresh(
            store,
            domain,
            idx,
            descend(store, root, idx, depth, depth)->Some_0.1,
            depth,
            val,
        ),
    ensures
        ({
            let p = descend(store, root, idx, depth, depth)->Some_0.1;
            let after = descend(
                path_insert(store, domain, idx, p, depth, val, 0, depth),
                fold_levels(domain, idx, p, depth, val, 0, depth),
                j,
                depth,
                depth,
            );
            after is Some && after->Some_0.0 == descend(store, root, j, depth, depth)->Some_0.0
        }),
{
    let p = descend(store, root, idx, depth, depth)->Some_0.1;
    let store2 = path_insert(store, domain, idx, p, depth, val, 0, depth);
    let root2 = fold_levels(domain, idx, p, depth, val, 0, depth);
    lemma_descend_len(store, root, idx, depth, depth);
    let m = lemma_top_diff(idx, j, depth, 0);
    let lv = (depth - 1 - m) as nat;
    // The old walks of `idx` and `j` agree for `m` steps, then part at one node.
    lemma_descend_same_bits(store, root, idx, j, depth, m);
    lemma_descend_some_prefix(store, root, idx, depth, (m + 1) as nat, depth);
    lemma_descend_some_prefix(store, root, idx, depth, m, depth);
    lemma_descend_some_prefix(store, root, j, depth, (m + 1) as nat, depth);
    let o = descend(store, root, idx, depth, m)->Some_0.0;
    assert(store.contains_key(o));
    assert((depth - (m + 1) as nat) as nat == lv);
    let old_sibs = descend(store, root, idx, depth, (m + 1) as nat)->Some_0.1;
    assert(old_sibs == p.subrange(0, (m + 1) as int));
    assert(old_sibs[m as int] == p[m as int]);
    assert(descend(store, root, j, depth, (m + 1) as nat)->Some_0.0 == p[m as int]);
    // The new walks of `idx` and `j` agree for `m` steps, then `j` steps to the
    // same sibling.
    lemma_descend_same_bits(store2, root2, idx, j, depth, m);
    lemma_descend_new_path(store, domain, idx, p, depth, val, m);
    lemma_path_entries(store, domain, idx, p, depth, val, depth);
    assert((depth - m) as nat == lv + 1);
    assert(store2.contains_key(fold_levels(domain, idx, p, depth, val, 0, lv + 1)));
    assert(depth - 1 - lv == m);
    assert(descend(store2, root2, j, depth, (m + 1) as nat)->Some_0.0 == p[m as int]);
    lemma_store_kept(store, domain, idx, p, depth, val);
    lemma_descend_continue(store, root, store2, root2, j, depth, (m + 1) as nat, depth);
}

/// Writing at one index keeps what another reads: after `update(idx, val)`,
/// `get(j)` for an index `j` that differs from `idx` below the tree's depth
/// returns the leaf it returned before, provided the digests along the new
/// path are pairwise distinct and each is new to the store or already stands
/// there for the pair the path records.
pub proof fn lemma_update_keeps_other(
    before: &VanillaSparseMerkleTree,
    after: &VanillaSparseMerkleTree,
    idx: u32,
    j: u32,
    val: Seq<u8>,
)
    requires
        before.lookup(idx) is Some,
        before.lookup(j) is Some,
        exists|l: nat| l < before.spec_depth() && #[trigger] bit_at(idx, l) != bit_at(j, l),
        after.spec_depth() == before.spec_depth(),
        after.store() == path_insert(
            before.store(),
            before.domain(),
            idx,
            before.lookup(idx)->Some_0.1,
            before.spec_depth(),
            val,
            0,
            before.spec_depth(),
        ),
        after.spec_root() == fold_levels(
            before.domain(),
            idx,
            before.lookup(idx)->Some_0.1,
            before.spec_depth(),
            val,
            0,
            before.spec_depth(),
        ),
        path_distinct(
            before.domain(),
            idx,
            before.lookup(idx)->Some_0.1,
            before.spec_depth(),
            val,
        ),
        path_fresh(
            before.store(),
            before.domain(),
            idx,
            before.lookup(idx)->Some_0.1,
            before.spec_depth(),
            val,
        ),
    ensures
        after.lookup(j) is Some,
        after.lookup(j)->Some_0.0 == before.lookup(j)->Some_0.0,
{
    lemma_keeps_other_store(
        before.store(),
        before.spec_root(),
        before.domain(),
        before.spec_depth(),
        idx,
        j,
        val,
    );
}

/// The store and root after `update(idx, val)` on the given store and root;
/// `None` where the walk down `idx` misses a node.
pub open spec fn update_model(
    store: StoreMap,
    root: Seq<u8>,
    domain: Seq<u8>,
    depth: nat,
    idx: u32,
    val: Seq<u8>,
) -> Option<(StoreMap, Seq<u8>)> {
    match descend(store, root, idx, depth, depth) {
        None => None,
        Some((_, sibs)) => Some(
            (
                path_insert(store, domain, idx, sibs, depth, val, 0, depth),
                fold_levels(domain, idx, sibs, depth, val, 0, depth),
            ),
        ),
    }
}

/// The update writes a path whose digests are pairwise distinct and new to
/// the store or already standing for the pairs it records.
pub open spec fn update_clean(
    store: StoreMap,
    root: Seq<u8>,
    domain: Seq<u8>,
    depth: nat,
    idx: u32,
    val: Seq<u8>,
) -> bool {
    match descend(store, root, idx, depth, depth) {
        None => true,
        Some((_, sibs)) => path_distinct(domain, idx, sibs, depth, val) && path_fresh(
            store,
            domain,
            idx,
            sibs,
            depth,
            val,
        ),
    }
}

/// The store and root after the updates `ups`, in order.
pub open spec fn apply_updates(
    store: StoreMap,
    root: Seq<u8>,
    domain: Seq<u8>,
    depth: nat,
    ups: Seq<(u32, Seq<u8>)>,
) -> Option<(StoreMap, Seq<u8>)>
    decreases ups.len(),
{
    if ups.len() == 0 {
        Some((store, root))
    } else {
        match apply_updates(store, root, domain, depth, ups.drop_last()) {
            None => None,
            Some((s, r)) => update_model(s, r, domain, depth, ups.last().0, ups.last().1),
        }
    }
}

/// Every update of `ups` is clean on the state it is applied to.
pub open spec fn updates_clean(
    store: StoreMap,
    root: Seq<u8>,
    domain: Seq<u8>,
    depth: nat,
    ups: Seq<(u32, Seq<u8>)>,
) -> bool
    decreases ups.len(),
{
    if ups.len() == 0 {
        true
    } else {
        &&& updates_clean(store, root, domain, depth, ups.drop_last())
        &&& match apply_updates(store, root, domain, depth, ups.drop_last()) {
            None => true,
            Some((s, r)) => update_clean(s, r, domain, depth, ups.last().0, ups.last().1),
        }
    }
}

/// Two indices select the same leaf of a tree of the given depth.
pub open spec fn same_leaf(a: u32, b: u32, depth: nat) -> bool {
    forall|l: nat| l < depth ==> #[trigger] bit_at(a, l) == bit_at(b, l)
}

proof fn lemma_same_leaf_descend(store: StoreMap, root: Seq<u8>, a: u32, b: u32, depth: nat)
    requires
        same_leaf(a, b, depth),
    ensures
        descend(store, root, a, depth, depth) == descend(store, root, b, depth, depth),
{
    assert forall|t: nat| t < depth implies #[trigger] bit_at(a, (depth - 1 - t) as nat) == bit_at(
        b,
        (depth - 1 - t) as nat,
    ) by {
        assert(bit_at(a, (depth - 1 - t) as nat) == bit_at(b, (depth - 1 - t) as nat));
    }
    lemma_descend_same_bits(store, root, a, b, depth, depth);
}

/// Round trip over a sequence of updates: after the updates `ups`, reading an
/// index returns the value of the latest update at that index's leaf, provided
/// each update is clean on the state it is applied to.
pub proof fn lemma_updates_then_get(
    store: StoreMap,
    root: Seq<u8>,
    domain: Seq<u8>,
    depth: nat,
    ups: Seq<(u32, Seq<u8>)>,
    idx: u32,
    latest: int,
)
    requires
        apply_updates(store, root, domain, depth, ups) is Some,
        updates_clean(store, root, domain, depth, ups),
        0 <= latest < ups.len(),
        same_leaf(ups[latest].0, idx, depth),
        forall|q: int| latest < q < ups.len() ==> !same_leaf(#[trigger] ups[q].0, idx, depth),
    ensures
        ({
            let (s, r) = apply_updates(store, root, domain, depth, ups)->Some_0;
            descend(s, r, idx, depth, depth) is Some && descend(s, r, idx, depth, depth)->Some_0.0
                == ups[latest].1
        }),
    decreases ups.len(),
{
    let prev = ups.drop_last();
    let (s0, r0) = apply_updates(store, root, domain, depth, prev)->Some_0;
    let (j, v) = ups.last();
    let sibs = descend(s0, r0, j, depth, depth)->Some_0.1;
    let s1 = path_insert(s0, domain, j, sibs, depth, v, 0, depth);
    let r1 = fold_levels(domain, j, sibs, depth, v, 0, depth);
    if latest == ups.len() - 1 {
        lemma_descend_len(s0, r0, j, depth, depth);
        lemma_descend_new_path(s0, domain, j, sibs, depth, v, depth);
        assert(sibs.subrange(0, depth as int) =~= sibs);
        assert(same_leaf(j, idx, depth));
        lemma_same_leaf_descend(s1, r1, j, idx, depth);
    } else {
        assert forall|q: int| latest < q < prev.len() implies !same_leaf(
            #[trigger] prev[q].0,
            idx,
            depth,
        ) by {
            assert(prev[q] == ups[q]);
        }
        assert(prev[latest] == ups[latest]);
        lemma_updates_then_get(store, root, domain, depth, prev, idx, latest);
        assert(!same_leaf(ups[ups.len() - 1].0, idx, depth));
        let l = choose|l: nat| l < depth && !(#[trigger] bit_at(j, l) == bit_at(idx, l));
        assert(bit_at(j, l) != bit_at(idx, l));
        lemma_keeps_other_store(s0, r0, domain, depth, j, idx, v);
    }
}

/// A proof stays valid against the root it was read under: whether
/// `verify_proof` accepts a leaf, siblings and a given root depends on the
/// tree only through its hash parameters and depth, which updates keep. So a
/// proof read while the root was `r0` is accepted against `Some(r0)` by any
/// later state of the tree, and against the current root exactly while the
/// root is still `r0`.
pub proof fn lemma_proof_stays_valid(
    then: &VanillaSparseMerkleTree,
    now: &VanillaSparseMerkleTree,
    idx: u32,
    leaf: Seq<u8>,
    proof: Seq<Seq<u8>>,
)
    requires
        now.domain() == then.domain(),
        now.spec_depth() == then.spec_depth(),
        fold_levels(then.domain(), idx, proof, then.spec_depth(), leaf, 0, then.spec_depth())
            == then.spec_root(),
    ensures
        fold_levels(now.domain(), idx, proof, now.spec_depth(), leaf, 0, now.spec_depth())
            == then.spec_root(),
        (fold_levels(now.domain(), idx, proof, now.spec_depth(), leaf, 0, now.spec_depth())
            == now.spec_root()) == (now.spec_root() == then.spec_root()),
{
}

/// The roots of the empty subtrees of heights 1 to `depth` are pairwise
/// distinct.
pub open spec fn defaults_distinct(domain: Seq<u8>, depth: nat) -> bool {
    forall|a: nat, b: nat|
        1 <= a < b <= depth ==> #[trigger] self_fold(domain, empty_leaf(), a) != #[trigger] self_fold(
            domain,
            empty_leaf(),
            b,
        )
}

/// The siblings, root first, on any path of a fresh tree of depth `depth`.
pub open spec fn default_siblings(domain: Seq<u8>, depth: nat) -> Seq<Seq<u8>> {
    Seq::new(depth, |t: int| self_fold(domain, empty_leaf(), (depth - 1 - t) as nat))
}

proof fn lemma_default_entries(domain: Seq<u8>, depth: nat, n: nat)
    requires
        n <= depth,
        defaults_distinct(domain, depth),
    ensures
        forall|k: nat|
            1 <= k <= n ==> default_store(domain, n).contains_key(
                #[trigger] self_fold(domain, empty_leaf(), k),
            ) && default_store(domain, n)[self_fold(domain, empty_leaf(), k)] == (
                self_fold(domain, empty_leaf(), (k - 1) as nat),
                self_fold(domain, empty_leaf(), (k - 1) as nat),
            ),
    decreases n,
{
    if n > 0 {
        lemma_default_entries(domain, depth, (n - 1) as nat);
        assert forall|k: nat| 1 <= k < n implies self_fold(domain, empty_leaf(), k) != self_fold(
            domain,
            empty_leaf(),
            n,
        ) by {}
    }
}

proof fn lemma_fresh_descend(domain: Seq<u8>, idx: u32, depth: nat, s: nat)
    requires
        s <= depth,
        defaults_distinct(domain, depth),
    ensures
        descend(
            default_store(domain, depth),
            self_fold(domain, empty_leaf(), depth),
            idx,
            depth,
            s,
        ) == Some(
            (
                self_fold(domain, empty_leaf(), (depth - s) as nat),
                default_siblings(domain, depth).subrange(0, s as int),
            ),
        ),
    decreases s,
{
    if s == 0 {
        assert(default_siblings(domain, depth).subrange(0, 0) =~= Seq::<Seq<u8>>::empty());
    } else {
        lemma_fresh_descend(domain, idx, depth, (s - 1) as nat);
        lemma_default_entries(domain, depth, depth);
        let k = (depth - (s - 1)) as nat;
        assert(self_fold(domain, empty_leaf(), k) == self_fold(domain, empty_leaf(), k));
        assert((k - 1) as nat == (depth - s) as nat);
        assert(default_siblings(domain, depth).subrange(0, s - 1).push(
            self_fold(domain, empty_leaf(), (depth - s) as nat),
        ) =~= default_siblings(domain, depth).subrange(0, s as int));
    }
}

/// Every never-written subtree resolves: on a fresh tree the walk down any
/// index reaches the empty leaf, passing the roots of the empty subtrees as
/// siblings, provided those roots are pairwise distinct.
pub proof fn lemma_fresh_tree_reads_empty(t: &VanillaSparseMerkleTree, idx: u32)
    requires
        t.spec_root() == self_fold(t.domain(), empty_leaf(), t.spec_depth()),
        t.store() == default_store(t.domain(), t.spec_depth()),
        defaults_distinct(t.domain(), t.spec_depth()),
    ensures
        t.lookup(idx) == Some((empty_leaf(), default_siblings(t.domain(), t.spec_depth()))),
{
    lemma_fresh_descend(t.domain(), idx, t.spec_depth(), t.spec_depth());
    assert(default_siblings(t.domain(), t.spec_depth()).subrange(0, t.spec_depth() as int)
        =~= default_siblings(t.domain(), t.spec_depth()));
}

/// An index that no update of `ups` writes keeps its leaf: after the updates,
/// reading it returns what it returned before them (on a fresh tree, the
/// empty leaf), provided each update is clean on the state it is applied to.
pub proof fn lemma_updates_keep_unwritten(
    store: StoreMap,
    root: Seq<u8>,
    domain: Seq<u8>,
    depth: nat,
    ups: Seq<(u32, Seq<u8>)>,
    idx: u32,
)
    requires
        descend(store, root, idx, depth, depth) is Some,
        apply_updates(store, root, domain, depth, ups) is Some,
        updates_clean(store, root, domain, depth, ups),
        forall|q: int| 0 <= q < ups.len() ==> !same_leaf(#[trigger] ups[q].0, idx, depth),
    ensures
        ({
            let (s, r) = apply_updates(store, root, domain, depth, ups)->Some_0;
            descend(s, r, idx, depth, depth) is Some && descend(s, r, idx, depth, depth)->Some_0.0
                == descend(store, root, idx, depth, depth)->Some_0.0
        }),
    decreases ups.len(),
{
    if ups.len() > 0 {
        let prev = ups.drop_last();
        let (s0, r0) = apply_updates(store, root, domain, depth, prev)->Some_0;
        let (j, v) = ups.last();
        assert forall|q: int| 0 <= q < prev.len() implies !same_leaf(
            #[trigger] prev[q].0,
            idx,
            depth,
        ) by {
            assert(prev[q] == ups[q]);
        }
        lemma_updates_keep_unwritten(store, root, domain, depth, prev, idx);
        assert(!same_leaf(ups[ups.len() - 1].0, idx, depth));
        let l = choose|l: nat| l < depth && !(#[trigger] bit_at(j, l) == bit_at(idx, l));
        assert(bit_at(j, l) != bit_at(idx, l));
        lemma_keeps_other_store(s0, r0, domain, depth, j, idx, v);
    }
}

} // verus!
