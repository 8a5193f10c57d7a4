//! The mathematical model of the tree: its flat layout, what it means for a
//! digest array to be the Merkle tree built over a leaf sequence, the sibling
//! path of an inclusion proof, and the digest chain that verification folds.
//!
//! The laws of the library are proved here: a leaf sequence determines the
//! level count and the root, every real leaf's sibling path hashes back to
//! the root, and a single-leaf tree degenerates to its one digest.

use vstd::prelude::*;
use crate::hashing::{leaf_digest, node_digest, padding_digest};

verus! {

/// Two to the given power.
pub open spec fn pow2(e: nat) -> nat
    decreases e,
{
    if e == 0 {
        1
    } else {
        2 * pow2((e - 1) as nat)
    }
}

pub proof fn lemma_pow2_pos(e: nat)
    ensures
        pow2(e) >= 1,
    decreases e,
{
    if e > 0 {
        lemma_pow2_pos((e - 1) as nat);
    }
}

pub proof fn lemma_pow2_mono(a: nat, b: nat)
    requires
        a <= b,
    ensures
        pow2(a) <= pow2(b),
    decreases b,
{
    if a < b {
        lemma_pow2_mono(a, (b - 1) as nat);
        lemma_pow2_pos((b - 1) as nat);
    }
}

pub proof fn lemma_pow2_gt(e: nat)
    ensures
        pow2(e) > e,
    decreases e,
{
    if e > 0 {
        lemma_pow2_gt((e - 1) as nat);
    }
}

/// Which side of the running digest a proof sibling sits on.
#[derive(Clone, Copy, PartialEq, Eq, Structural, Debug)]
pub enum Side {
    Left,
    Right,
}

/// The shape that a leaf count determines: `levels` is the smallest level
/// count whose leaf capacity `pow2(levels - 1)` holds all `n` leaves, that
/// is, `levels = ceil(log2(n)) + 1`.
pub open spec fn tree_shape(levels: nat, n: nat) -> bool {
    &&& 1 <= levels
    &&& 1 <= n
    &&& n <= pow2((levels - 1) as nat)
    &&& pow2((levels - 1) as nat) < 2 * n
}

/// The start of level `l` in the flat layout (level 0 is the leaf segment).
pub open spec fn level_offset(levels: nat, l: nat) -> int
    recommends
        l <= levels,
{
    pow2(levels) - pow2((levels - l) as nat)
}

/// The number of nodes on level `l`.
pub open spec fn level_width(levels: nat, l: nat) -> nat
    recommends
        l < levels,
{
    pow2((levels - 1 - l) as nat)
}

/// The digest stored for node `k` of level `l`.
pub open spec fn node_at(t: Seq<Seq<u8>>, levels: nat, l: nat, k: int) -> Seq<u8> {
    t[level_offset(levels, l) + k]
}

/// The root digest of a flat digest array: its last element.
pub open spec fn root_of(t: Seq<Seq<u8>>) -> Seq<u8> {
    t[t.len() - 1]
}

/// What it means for a flat digest array to be the Merkle tree built over
/// `leaves`: the shape the leaf count determines, one digest per node, the
/// real leaf digests first, padding digests up to the leaf capacity, and
/// every higher node the combined digest of its two children.
pub open spec fn merkle_built(t: Seq<Seq<u8>>, levels: nat, leaves: Seq<Seq<u8>>) -> bool {
    &&& tree_shape(levels, leaves.len())
    &&& t.len() == pow2(levels) - 1
    &&& (forall|i: int| 0 <= i < leaves.len() ==> #[trigger] t[i] == leaf_digest(leaves[i]))
    &&& (forall|i: int|
        leaves.len() <= i < pow2((levels - 1) as nat) ==> #[trigger] t[i] == padding_digest())
    &&& (forall|l: nat, k: int|
        1 <= l < levels && 0 <= k < level_width(levels, l) ==> #[trigger] node_at(t, levels, l, k)
            == node_digest(
            node_at(t, levels, (l - 1) as nat, 2 * k),
            node_at(t, levels, (l - 1) as nat, 2 * k + 1),
        ))
}

/// The sibling sequence of an inclusion proof, from the node at level `l`,
/// position `idx`, up to the root, ordered bottom-up: at each level the
/// sibling's digest and the side it sits on relative to the walked node.
pub open spec fn sibling_path(t: Seq<Seq<u8>>, levels: nat, l: nat, idx: nat) -> Seq<
    (Seq<u8>, Side),
>
    decreases levels - l,
{
    if l + 1 >= levels {
        Seq::empty()
    } else {
        let first = if idx % 2 == 0 {
            (node_at(t, levels, l, idx + 1 as int), Side::Right)
        } else {
            (node_at(t, levels, l, idx - 1 as int), Side::Left)
        };
        seq![first] + sibling_path(t, levels, (l + 1) as nat, idx / 2)
    }
}

/// The digest that verification computes: fold the sibling list onto the
/// claimed leaf's digest, combining on the recorded side at each step.
pub open spec fn chain_digest(start: Seq<u8>, sibs: Seq<(Seq<u8>, Side)>) -> Seq<u8>
    decreases sibs.len(),
{
    if sibs.len() == 0 {
        start
    } else {
        let next = if sibs[0].1 is Left {
            node_digest(sibs[0].0, start)
        } else {
            node_digest(start, sibs[0].0)
        };
        chain_digest(next, sibs.drop_first())
    }
}

/// A leaf count determines the level count: two shapes over the same count
/// agree.
pub proof fn lemma_shape_unique(l1: nat, l2: nat, n: nat)
    requires
        tree_shape(l1, n),
        tree_shape(l2, n),
    ensures
        l1 == l2,
{
    if l1 < l2 {
        lemma_pow2_mono(l1, (l2 - 1) as nat);
        assert(pow2(l1) == 2 * pow2((l1 - 1) as nat));
    }
    if l2 < l1 {
        lemma_pow2_mono(l2, (l1 - 1) as nat);
        assert(pow2(l2) == 2 * pow2((l2 - 1) as nat));
    }
}

/// The sibling path from any node of a built tree hashes back to the root.
proof fn lemma_path_to_root(t: Seq<Seq<u8>>, levels: nat, leaves: Seq<Seq<u8>>, l: nat, idx: nat)
    requires
        merkle_built(t, levels, leaves),
        l < levels,
        idx < level_width(levels, l),
    ensures
        chain_digest(node_at(t, levels, l, idx as int), sibling_path(t, levels, l, idx)) == root_of(
            t,
        ),
    decreases levels - l,
{
    if l + 1 == levels {
        assert(pow2((levels - 1 - l) as nat) == 1);
        assert(pow2((levels - l) as nat) == 2 * pow2((levels - l - 1) as nat));
        assert(node_at(t, levels, l, idx as int) == t[pow2(levels) - 2]);
        assert(sibling_path(t, levels, l, idx) =~= Seq::empty());
    } else {
        let parent = idx / 2;
        assert(pow2((levels - 1 - l) as nat) == 2 * pow2((levels - 2 - l) as nat));
        assert(parent < level_width(levels, (l + 1) as nat));
        assert(node_at(t, levels, (l + 1) as nat, parent as int) == node_digest(
            node_at(t, levels, l, 2 * (parent as int)),
            node_at(t, levels, l, 2 * (parent as int) + 1),
        ));
        let first = if idx % 2 == 0 {
            (node_at(t, levels, l, idx + 1 as int), Side::Right)
        } else {
            (node_at(t, levels, l, idx - 1 as int), Side::Left)
        };
        let rest = sibling_path(t, levels, (l + 1) as nat, parent);
        assert(sibling_path(t, levels, l, idx) == seq![first] + rest);
        assert((seq![first] + rest).drop_first() =~= rest);
        if idx % 2 == 0 {
            assert(2 * parent == idx);
            assert(chain_digest(node_at(t, levels, l, idx as int), seq![first] + rest)
                == chain_digest(node_at(t, levels, (l + 1) as nat, parent as int), rest));
        } else {
            assert(2 * parent == idx - 1);
            assert(chain_digest(node_at(t, levels, l, idx as int), seq![first] + rest)
                == chain_digest(node_at(t, levels, (l + 1) as nat, parent as int), rest));
        }
        lemma_path_to_root(t, levels, leaves, (l + 1) as nat, parent);
    }
}

/// Completeness: for every real (non-padding) leaf of a built tree, the
/// sibling path generated for its slot hashes from the leaf's own digest
/// back to the root.
pub proof fn lemma_inclusion_complete(t: Seq<Seq<u8>>, levels: nat, leaves: Seq<Seq<u8>>, i: int)
    requires
        merkle_built(t, levels, leaves),
        0 <= i < leaves.len(),
    ensures
        chain_digest(leaf_digest(leaves[i]), sibling_path(t, levels, 0, i as nat)) == root_of(t),
{
    assert(pow2((levels - 0) as nat) == pow2(levels));
    assert(level_offset(levels, 0) == 0);
    assert(node_at(t, levels, 0, i) == t[i]);
    lemma_path_to_root(t, levels, leaves, 0, i as nat);
}

/// Corresponding nodes of two trees built over the same leaf sequence hold
/// the same digest.
proof fn lemma_nodes_equal(
    t1: Seq<Seq<u8>>,
    t2: Seq<Seq<u8>>,
    levels: nat,
    leaves: Seq<Seq<u8>>,
    l: nat,
    k: int,
)
    requires
        merkle_built(t1, levels, leaves),
        merkle_built(t2, levels, leaves),
        l < levels,
        0 <= k < level_width(levels, l),
    ensures
        node_at(t1, levels, l, k) == node_at(t2, levels, l, k),
    decreases l,
{
    if l == 0 {
        assert(pow2((levels - 0) as nat) == pow2(levels));
        assert(level_offset(levels, 0) == 0);
        assert(node_at(t1, levels, 0, k) == t1[k]);
        assert(node_at(t2, levels, 0, k) == t2[k]);
    } else {
        assert(pow2((levels - 1 - (l - 1)) as nat) == 2 * pow2((levels - 1 - l) as nat));
        lemma_nodes_equal(t1, t2, levels, leaves, (l - 1) as nat, 2 * k);
        lemma_nodes_equal(t1, t2, levels, leaves, (l - 1) as nat, 2 * k + 1);
        assert(node_at(t1, levels, l, k) == node_digest(
            node_at(t1, levels, (l - 1) as nat, 2 * k),
            node_at(t1, levels, (l - 1) as nat, 2 * k + 1),
        ));
        assert(node_at(t2, levels, l, k) == node_digest(
            node_at(t2, levels, (l - 1) as nat, 2 * k),
            node_at(t2, levels, (l - 1) as nat, 2 * k + 1),
        ));
    }
}

/// Determinism: two trees built over the same leaf sequence have the same
/// level count, the same length, and an identical root digest.
pub proof fn lemma_build_deterministic(
    t1: Seq<Seq<u8>>,
    l1: nat,
    t2: Seq<Seq<u8>>,
    l2: nat,
    leaves: Seq<Seq<u8>>,
)
    requires
        merkle_built(t1, l1, leaves),
        merkle_built(t2, l2, leaves),
    ensures
        l1 == l2,
        t1.len() == t2.len(),
        root_of(t1) == root_of(t2),
{
    lemma_shape_unique(l1, l2, leaves.len());
    assert(pow2((l1 - (l1 - 1)) as nat) == 2 * pow2((l1 - 1 - (l1 - 1)) as nat));
    assert(pow2((l1 - 1 - (l1 - 1)) as nat) == 1);
    lemma_nodes_equal(t1, t2, l1, leaves, (l1 - 1) as nat, 0);
    assert(node_at(t1, l1, (l1 - 1) as nat, 0) == t1[pow2(l1) - 2]);
    assert(node_at(t2, l1, (l1 - 1) as nat, 0) == t2[pow2(l1) - 2]);
}

/// The degenerate, single-leaf tree: one level, one node, the root is the
/// sole leaf's own digest, the sibling path is empty, and the empty path
/// hashes the leaf's digest to the root trivially.
pub proof fn lemma_single_leaf(t: Seq<Seq<u8>>, levels: nat, leaves: Seq<Seq<u8>>)
    requires
        merkle_built(t, levels, leaves),
        leaves.len() == 1,
    ensures
        levels == 1,
        t.len() == 1,
        root_of(t) == leaf_digest(leaves[0]),
        sibling_path(t, levels, 0, 0) == Seq::<(Seq<u8>, Side)>::empty(),
        chain_digest(leaf_digest(leaves[0]), sibling_path(t, levels, 0, 0)) == root_of(t),
{
    if levels != 1 {
        assert(pow2((levels - 1) as nat) == 2 * pow2((levels - 2) as nat));
        lemma_pow2_pos((levels - 2) as nat);
        assert(false);
    }
    assert(t[0] == leaf_digest(leaves[0]));
}

} // verus!
