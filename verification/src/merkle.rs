//! Merkle trees and inclusion paths over 64-bit node hashes.
//!
//! A tree of depth `d` holds up to `2^d` leaves; missing leaves are padded
//! with a per-level chain of empty-node hashes, so every proof has exactly
//! `d` sibling entries. The global state tree of the ledger is a tree of
//! depth [`GLOBAL_DEPTH`] whose leaves are per-block local roots, each the
//! root of a depth-[`LOCAL_DEPTH`] tree over that block's commitments.
//!
//! The node combiner is a fixed word mix; the ledger logic relies only on
//! its determinism, never on collision behaviour.

use vstd::prelude::*;
use vstd::arithmetic::power2::pow2;

verus! {

/// Depth of each per-block tree over the block's record commitments.
pub const LOCAL_DEPTH: usize = 8;
/// Depth of the global tree over per-block local roots.
pub const GLOBAL_DEPTH: usize = 32;
/// Domain separator mixed into every inner node.
pub const NODE_DOMAIN: u64 = 0x9e37_79b9_7f4a_7c15;

/// One step of an authentication path: the sibling hash at this level, and
/// whether the node being proven is the *right* child at this level (so the
/// sibling stands on the left).
#[derive(Clone, Copy, Debug, PartialEq, Eq, Structural)]
pub struct Sib {
    pub hash: u64,
    pub right: bool,
}

/// A Merkle inclusion proof: sibling hashes from leaf to root, and the root
/// the path commits to.
#[derive(Clone, Debug, PartialEq, Eq)]
pub struct StatePath {
    pub siblings: Vec<Sib>,
    pub root: u64,
}

/// The parent hash of two child node hashes.
pub open spec fn node_hash(a: u64, b: u64) -> u64 {
    ((a << 9) | (a >> 55)) ^ ((b << 37) | (b >> 27)) ^ NODE_DOMAIN
}

/// The hash of an empty subtree of the given height.
pub open spec fn empty_hash(level: nat) -> u64
    decreases level,
{
    if level == 0 {
        0
    } else {
        node_hash(empty_hash((level - 1) as nat), empty_hash((level - 1) as nat))
    }
}

/// One level up: adjacent nodes paired, a missing right partner replaced by
/// the empty hash `e` of the current level.
pub open spec fn level_up(s: Seq<u64>, e: u64) -> Seq<u64> {
    Seq::new(((s.len() + 1) / 2) as nat, |i: int| node_hash(
        s[2 * i],
        if 2 * i + 1 < s.len() { s[2 * i + 1] } else { e },
    ))
}

/// The node sequence `k` levels above a sequence that sits at level `lvl`.
pub open spec fn levels_from(s: Seq<u64>, lvl: nat, k: nat) -> Seq<u64>
    decreases k,
{
    if k == 0 {
        s
    } else {
        level_up(levels_from(s, lvl, (k - 1) as nat), empty_hash((lvl + k - 1) as nat))
    }
}

/// The root of a depth-`depth` tree over the given leaves.
pub open spec fn merkle_root(leaves: Seq<u64>, depth: nat) -> u64 {
    if leaves.len() == 0 {
        empty_hash(depth)
    } else {
        levels_from(leaves, 0, depth)[0]
    }
}

/// The sibling entry for the node at position `idx` of a level-`lvl`
/// sequence `s`.
pub open spec fn sib_of(s: Seq<u64>, idx: nat, lvl: nat) -> Sib {
    let j = if idx % 2 == 0 { idx + 1 } else { (idx - 1) as nat };
    Sib {
        hash: if j < s.len() { s[j as int] } else { empty_hash(lvl) },
        right: idx % 2 == 1,
    }
}

/// The authentication path for position `idx` of the level-`lvl` sequence
/// `s`, up to level `depth`.
pub open spec fn path_spec(s: Seq<u64>, idx: nat, lvl: nat, depth: nat) -> Seq<Sib>
    decreases depth - lvl,
{
    if lvl >= depth {
        Seq::empty()
    } else {
        seq![sib_of(s, idx, lvl)] + path_spec(
            level_up(s, empty_hash(lvl)),
            idx / 2,
            lvl + 1,
            depth,
        )
    }
}

/// One fold step: hash the running node with its sibling, on the stated side.
pub open spec fn fold_step(cur: u64, s: Sib) -> u64 {
    if s.right {
        node_hash(s.hash, cur)
    } else {
        node_hash(cur, s.hash)
    }
}

/// Folding a leaf through a sibling path, leaf end first.
pub open spec fn path_fold(leaf: u64, sibs: Seq<Sib>) -> u64
    decreases sibs.len(),
{
    if sibs.len() == 0 {
        leaf
    } else {
        path_fold(fold_step(leaf, sibs[0]), sibs.drop_first())
    }
}

/// The position `k` levels above position `idx`.
pub open spec fn idx_at(idx: nat, k: nat) -> nat
    decreases k,
{
    if k == 0 {
        idx
    } else {
        idx_at(idx / 2, (k - 1) as nat)
    }
}

/// The parent hash of two child node hashes.
pub fn combine(a: u64, b: u64) -> (r: u64)
    ensures
        r == node_hash(a, b),
{
    ((a << 9u64) | (a >> 55u64)) ^ ((b << 37u64) | (b >> 27u64)) ^ NODE_DOMAIN
}

/// The hash of an empty subtree of the given height.
pub fn empty_hash_at(level: usize) -> (r: u64)
    ensures
        r == empty_hash(level as nat),
    decreases level,
{
    if level == 0 {
        0
    } else {
        let e = empty_hash_at(level - 1);
        combine(e, e)
    }
}

/// Builds the level above `cur`, padding a missing right partner with `e`.
pub fn build_level(cur: &Vec<u64>, e: u64) -> (r: Vec<u64>)
    ensures
        r@ == level_up(cur@, e),
{
    let n: usize = cur.len();
    let half: usize = n / 2 + n % 2;
    let mut r: Vec<u64> = Vec::new();
    let mut i: usize = 0;
    while i < half
        invariant
            0 <= i <= half,
            n == cur@.len(),
            half == (cur@.len() + 1) / 2,
            r@.len() == i,
            forall|k: int| 0 <= k < i ==> r@[k] == level_up(cur@, e)[k],
        decreases half - i,
    {
        assert(2 * (i as int) < cur@.len());
        let a = cur[2 * i];
        let b = if 2 * i + 1 < n { cur[2 * i + 1] } else { e };
        r.push(combine(a, b));
        i = i + 1;
    }
    assert(r@ =~= level_up(cur@, e));
    r
}

/// Builds every level of a depth-`depth` tree over the leaves: entry `d` of
/// the result is the node sequence at level `d`.
pub fn build_levels(leaves: &Vec<u64>, depth: usize) -> (r: Vec<Vec<u64>>)
    ensures
        r@.len() == depth + 1,
        forall|d: int| 0 <= d <= depth ==> #[trigger] r@[d]@ == levels_from(leaves@, 0, d as nat),
{
    let mut base: Vec<u64> = Vec::new();
    let mut i: usize = 0;
    while i < leaves.len()
        invariant
            0 <= i <= leaves.len(),
            base@ == leaves@.take(i as int),
        decreases leaves.len() - i,
    {
        base.push(leaves[i]);
        assert(base@ =~= leaves@.take(i + 1));
        i = i + 1;
    }
    assert(base@ =~= leaves@);
    let mut r: Vec<Vec<u64>> = Vec::new();
    r.push(base);
    let mut d: usize = 0;
    while d < depth
        invariant
            0 <= d <= depth,
            r@.len() == d + 1,
            forall|k: int| 0 <= k <= d ==> #[trigger] r@[k]@ == levels_from(leaves@, 0, k as nat),
        decreases depth - d,
    {
        let e = empty_hash_at(d);
        let next = build_level(&r[d], e);
        assert(next@ == levels_from(leaves@, 0, (d + 1) as nat));
        r.push(next);
        d = d + 1;
    }
    r
}

/// A nonempty sequence keeps a nonempty image at every level.
pub proof fn lemma_levels_from_pos(s: Seq<u64>, lvl: nat, k: nat)
    requires
        s.len() > 0,
    ensures
        levels_from(s, lvl, k).len() > 0,
    decreases k,
{
    if k > 0 {
        lemma_levels_from_pos(s, lvl, (k - 1) as nat);
    }
}

/// The root of a depth-`depth` tree over the given leaves.
pub fn compute_root(leaves: &Vec<u64>, depth: usize) -> (r: u64)
    ensures
        r == merkle_root(leaves@, depth as nat),
{
    if leaves.len() == 0 {
        empty_hash_at(depth)
    } else {
        let lvls = build_levels(leaves, depth);
        proof {
            lemma_levels_from_pos(leaves@, 0, depth as nat);
        }
        lvls[depth][0]
    }
}

/// Builds the authentication path for leaf position `index`.
pub fn merkle_path(leaves: &Vec<u64>, index: usize, depth: usize) -> (r: Vec<Sib>)
    requires
        index < leaves@.len(),
    ensures
        r@ == path_spec(leaves@, index as nat, 0, depth as nat),
{
    let lvls = build_levels(leaves, depth);
    let mut sibs: Vec<Sib> = Vec::new();
    let mut idx: usize = index;
    let mut lvl: usize = 0;
    while lvl < depth
        invariant
            0 <= lvl <= depth,
            lvls@.len() == depth + 1,
            forall|d: int| 0 <= d <= depth ==> #[trigger] lvls@[d]@ == levels_from(leaves@, 0, d as nat),
            idx < lvls@[lvl as int]@.len(),
            path_spec(leaves@, index as nat, 0, depth as nat)
                == sibs@ + path_spec(lvls@[lvl as int]@, idx as nat, lvl as nat, depth as nat),
        decreases depth - lvl,
    {
        let lv = &lvls[lvl];
        let m: usize = lv.len();
        let j: usize = if idx % 2 == 0 { idx + 1 } else { idx - 1 };
        let h: u64 = if j < m { lv[j] } else { empty_hash_at(lvl) };
        let entry = Sib { hash: h, right: idx % 2 == 1 };
        proof {
            let sv = lvls@[lvl as int]@;
            let e = empty_hash(lvl as nat);
            assert(entry == sib_of(sv, idx as nat, lvl as nat));
            assert(path_spec(sv, idx as nat, lvl as nat, depth as nat)
                == seq![sib_of(sv, idx as nat, lvl as nat)]
                    + path_spec(level_up(sv, e), (idx / 2) as nat, (lvl + 1) as nat, depth as nat));
            assert(levels_from(leaves@, 0, (lvl + 1) as nat)
                == level_up(levels_from(leaves@, 0, lvl as nat), e));
            assert(sibs@.push(entry)
                + path_spec(level_up(sv, e), (idx / 2) as nat, (lvl + 1) as nat, depth as nat)
                =~= sibs@ + (seq![entry]
                    + path_spec(level_up(sv, e), (idx / 2) as nat, (lvl + 1) as nat, depth as nat)));
            assert(((idx / 2) as int) < level_up(sv, e).len());
        }
        sibs.push(entry);
        idx = idx / 2;
        lvl = lvl + 1;
    }
    proof {
        assert(path_spec(lvls@[depth as int]@, idx as nat, depth as nat, depth as nat)
            == Seq::<Sib>::empty());
        assert(sibs@ + Seq::<Sib>::empty() =~= sibs@);
    }
    sibs
}

/// Folds a leaf through a sibling path, leaf end first.
pub fn eval_path(leaf: u64, sibs: &Vec<Sib>) -> (r: u64)
    ensures
        r == path_fold(leaf, sibs@),
{
    let mut cur = leaf;
    let mut i: usize = 0;
    proof {
        assert(sibs@.skip(0) =~= sibs@);
    }
    while i < sibs.len()
        invariant
            0 <= i <= sibs.len(),
            path_fold(leaf, sibs@) == path_fold(cur, sibs@.skip(i as int)),
        decreases sibs.len() - i,
    {
        let s = sibs[i];
        proof {
            assert(sibs@.skip(i as int)[0] == sibs@[i as int]);
            assert(sibs@.skip(i as int).drop_first() =~= sibs@.skip(i + 1));
        }
        cur = if s.right {
            combine(s.hash, cur)
        } else {
            combine(cur, s.hash)
        };
        i = i + 1;
    }
    proof {
        assert(sibs@.skip(sibs@.len() as int) =~= Seq::<Sib>::empty());
    }
    cur
}

impl StatePath {
    /// Checks that this path proves the given commitment under its root.
    pub fn verify(&self, commitment: u64) -> (r: bool)
        ensures
            r == (path_fold(commitment, self.siblings@) == self.root),
    {
        let top = eval_path(commitment, &self.siblings);
        top == self.root
    }
}

/// Folding distributes over path concatenation.
pub proof fn lemma_path_fold_add(leaf: u64, a: Seq<Sib>, b: Seq<Sib>)
    ensures
        path_fold(leaf, a + b) == path_fold(path_fold(leaf, a), b),
    decreases a.len(),
{
    if a.len() == 0 {
        assert(a + b =~= b);
    } else {
        assert((a + b)[0] == a[0]);
        assert((a + b).drop_first() =~= a.drop_first() + b);
        lemma_path_fold_add(fold_step(leaf, a[0]), a.drop_first(), b);
    }
}

/// Climbing one level and then `k` more is the same as climbing `k + 1`.
pub proof fn lemma_levels_shift(s: Seq<u64>, lvl: nat, k: nat)
    ensures
        levels_from(level_up(s, empty_hash(lvl)), lvl + 1, k) == levels_from(s, lvl, k + 1),
    decreases k,
{
    let s2 = level_up(s, empty_hash(lvl));
    if k == 0 {
        assert(levels_from(s, lvl, 0) == s);
        assert(levels_from(s2, lvl + 1, 0) == s2);
        assert(levels_from(s, lvl, 1) == level_up(levels_from(s, lvl, 0), empty_hash(lvl)));
    } else {
        lemma_levels_shift(s, lvl, (k - 1) as nat);
        assert(levels_from(s2, lvl + 1, k)
            == level_up(levels_from(s2, lvl + 1, (k - 1) as nat), empty_hash((lvl + k) as nat)));
        assert(levels_from(s, lvl, k + 1)
            == level_up(levels_from(s, lvl, k), empty_hash((lvl + k) as nat)));
    }
}

/// Folding a leaf through its authentication path lands on the node that
/// stands above it, `depth - lvl` levels up.
pub proof fn lemma_path_fold_levels(s: Seq<u64>, idx: nat, lvl: nat, depth: nat)
    requires
        lvl <= depth,
        idx < s.len(),
    ensures
        idx_at(idx, (depth - lvl) as nat) < levels_from(s, lvl, (depth - lvl) as nat).len(),
        path_fold(s[idx as int], path_spec(s, idx, lvl, depth))
            == levels_from(s, lvl, (depth - lvl) as nat)[idx_at(idx, (depth - lvl) as nat) as int],
    decreases depth - lvl,
{
    if lvl == depth {
    } else {
        let e = empty_hash(lvl);
        let s2 = level_up(s, e);
        let k = (depth - lvl) as nat;
        assert(idx / 2 < s2.len());
        if idx % 2 == 0 {
            assert(2 * ((idx / 2) as int) == idx);
            assert(fold_step(s[idx as int], sib_of(s, idx, lvl)) == s2[(idx / 2) as int]);
        } else {
            assert(2 * ((idx / 2) as int) == idx - 1);
            assert(fold_step(s[idx as int], sib_of(s, idx, lvl)) == s2[(idx / 2) as int]);
        }
        let rest = path_spec(s2, idx / 2, lvl + 1, depth);
        assert((seq![sib_of(s, idx, lvl)] + rest)[0] == sib_of(s, idx, lvl));
        assert((seq![sib_of(s, idx, lvl)] + rest).drop_first() =~= rest);
        lemma_path_fold_levels(s2, idx / 2, lvl + 1, depth);
        lemma_levels_shift(s, lvl, (k - 1) as nat);
    }
}

/// A position below the tree's capacity reaches position zero at the top.
pub proof fn lemma_idx_at_zero(idx: nat, k: nat)
    requires
        idx < pow2(k),
    ensures
        idx_at(idx, k) == 0,
    decreases k,
{
    if k == 0 {
        assert(pow2(0) == 1) by {
            vstd::arithmetic::power2::lemma2_to64();
        }
    } else {
        vstd::arithmetic::power2::lemma_pow2_unfold(k);
        assert(idx / 2 < pow2((k - 1) as nat));
        lemma_idx_at_zero(idx / 2, (k - 1) as nat);
        assert(idx_at(idx, k) == idx_at(idx / 2, (k - 1) as nat));
    }
}

/// Folding a leaf through its authentication path reproduces the tree root,
/// provided the leaf position is within the tree's capacity.
pub proof fn lemma_path_fold_root(s: Seq<u64>, idx: nat, depth: nat)
    requires
        idx < s.len(),
        idx < pow2(depth),
    ensures
        path_fold(s[idx as int], path_spec(s, idx, 0, depth)) == merkle_root(s, depth),
{
    lemma_path_fold_levels(s, idx, 0, depth);
    lemma_idx_at_zero(idx, depth);
}

} // verus!
