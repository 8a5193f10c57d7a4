//! The tree itself: construction from an ordered leaf list, and read access
//! to the root and the stored digests.

use vstd::prelude::*;
use crate::hashing::{leaf_digest, node_digest, padding_digest, hex_of};
use crate::hashing::{sha256, encode_hex, concat_bytes};
use crate::model::{
    pow2, tree_shape, level_offset, level_width, node_at, root_of, merkle_built, lemma_pow2_pos,
    lemma_pow2_mono, lemma_pow2_gt,
};

verus! {

/// The views of a sequence of byte vectors.
pub open spec fn byte_views(s: Seq<Vec<u8>>) -> Seq<Seq<u8>> {
    s.map_values(|v: Vec<u8>| v@)
}

/// The failures the library reports: an empty leaf list handed to the
/// builder, or a queried value whose digest is absent from the real
/// (non-padding) leaf segment.
#[derive(Clone, Copy, PartialEq, Eq, Structural, Debug)]
pub enum MerkleError {
    InvalidInput,
    LeafNotFound,
}

/// An immutable binary Merkle hash tree in flat form: the digests of all
/// nodes, leaf segment first, each higher level following in order, the root
/// last. Built once over a fixed leaf list and never mutated.
pub struct MerkleTree {
    levels: usize,
    leaf_count: usize,
    tree: Vec<Vec<u8>>,
    leaves: Ghost<Seq<Seq<u8>>>,
}

impl MerkleTree {
    /// The stored digests, leaf segment first.
    pub closed spec fn digests(&self) -> Seq<Seq<u8>> {
        byte_views(self.tree@)
    }

    /// The number of levels; the leaf segment is level 0, the root the sole
    /// node of level `levels - 1`.
    pub closed spec fn levels_spec(&self) -> nat {
        self.levels as nat
    }

    /// The number of real (non-padding) leaves.
    pub closed spec fn leaf_count_spec(&self) -> nat {
        self.leaf_count as nat
    }

    /// The leaf values the tree was built over.
    pub closed spec fn leaf_values(&self) -> Seq<Seq<u8>> {
        self.leaves@
    }

    /// The tree is the Merkle tree built over its leaf values.
    pub open spec fn wf(&self) -> bool {
        &&& merkle_built(self.digests(), self.levels_spec(), self.leaf_values())
        &&& self.leaf_count_spec() == self.leaf_values().len()
    }

    /// Builds the tree over the given leaf values; an empty list is
    /// rejected. The length bound keeps the padded tree's node count within
    /// `usize`.
    #[verifier::loop_isolation(false)]
    pub fn new(data: &Vec<Vec<u8>>) -> (result: Result<MerkleTree, MerkleError>)
        requires
            4 * data@.len() <= usize::MAX,
        ensures
            match result {
                Ok(tree) => {
                    &&& tree.wf()
                    &&& tree.leaf_values() == byte_views(data@)
                    &&& tree.leaf_count_spec() == data@.len()
                },
                Err(e) => e == MerkleError::InvalidInput,
            },
            result is Err <==> data@.len() == 0,
    {
        let n = data.len();
        if n == 0 {
            return Err(MerkleError::InvalidInput);
        }
        // The level count: the smallest whose leaf capacity holds n leaves.
        let mut levels: usize = 1;
        let mut m: usize = n;
        proof {
            assert(pow2(0) == 1);
            assert(pow2(0) * (n - 1) == n - 1) by (nonlinear_arith)
                requires
                    pow2(0) == 1,
            ;
            assert(pow2(0) * n == n) by (nonlinear_arith)
                requires
                    pow2(0) == 1,
            ;
        }
        while m > 1
            invariant
                1 <= m <= n,
                1 <= levels,
                pow2((levels - 1) as nat) * (m - 1) < n,
                n <= pow2((levels - 1) as nat) * m,
                levels == 1 || pow2((levels - 2) as nat) < n,
            decreases m,
        {
            proof {
                let p = pow2((levels - 1) as nat);
                lemma_pow2_pos((levels - 1) as nat);
                lemma_pow2_gt((levels - 1) as nat);
                assert(p * 1 <= p * (m - 1)) by (nonlinear_arith)
                    requires
                        p >= 0,
                        1 <= m - 1,
                ;
                assert(levels < usize::MAX);
                let mp = m as int / 2 + m as int % 2;
                assert(m == 2 * (m as int / 2) + m as int % 2);
                assert(2 * (mp - 1) <= m - 1);
                assert(m <= 2 * mp);
                assert(pow2(levels as nat) == 2 * p);
                assert(p * (2 * (mp - 1)) <= p * (m - 1)) by (nonlinear_arith)
                    requires
                        p >= 0,
                        2 * (mp - 1) <= m - 1,
                ;
                assert(p * m <= p * (2 * mp)) by (nonlinear_arith)
                    requires
                        p >= 0,
                        m <= 2 * mp,
                ;
                assert(pow2(levels as nat) * (mp - 1) == p * (2 * (mp - 1))) by (nonlinear_arith)
                    requires
                        pow2(levels as nat) == 2 * p,
                ;
                assert(pow2(levels as nat) * mp == p * (2 * mp)) by (nonlinear_arith)
                    requires
                        pow2(levels as nat) == 2 * p,
                ;
            }
            levels = levels + 1;
            m = m / 2 + m % 2;
        }
        proof {
            let p = pow2((levels - 1) as nat);
            assert(p * (m - 1) == 0) by (nonlinear_arith)
                requires
                    m == 1,
            ;
            assert(p * m == p) by (nonlinear_arith)
                requires
                    m == 1,
            ;
            if levels == 1 {
                assert(p == 1);
            } else {
                assert(p == 2 * pow2((levels - 2) as nat));
            }
            assert(tree_shape(levels as nat, n as nat));
            assert(pow2(levels as nat) == 2 * p);
        }
        // The leaf capacity: two to the power of (levels - 1).
        let mut cap: usize = 1;
        let mut li: usize = 0;
        while li < levels - 1
            invariant
                li <= levels - 1,
                cap == pow2(li as nat),
            decreases levels - 1 - li,
        {
            proof {
                assert(pow2((li + 1) as nat) == 2 * pow2(li as nat));
                lemma_pow2_mono((li + 1) as nat, (levels - 1) as nat);
            }
            cap = cap * 2;
            li = li + 1;
        }
        assert(cap == pow2((levels - 1) as nat));
        // Level 0: each real leaf's digest, then padding digests up to the
        // capacity.
        let mut nodes: Vec<Vec<u8>> = Vec::new();
        let mut i: usize = 0;
        while i < n
            invariant
                i <= n,
                nodes@.len() == i,
                forall|j: int| 0 <= j < i ==> nodes@[j]@ == leaf_digest(#[trigger] data@[j]@),
            decreases n - i,
        {
            let d = sha256(data[i].as_slice());
            nodes.push(d);
            i += 1;
        }
        while i < cap
            invariant
                n <= i <= cap,
                nodes@.len() == i,
                forall|j: int| 0 <= j < n ==> nodes@[j]@ == leaf_digest(#[trigger] data@[j]@),
                forall|j: int| n <= j < i ==> #[trigger] nodes@[j]@ == padding_digest(),
            decreases cap - i,
        {
            let empty_input: Vec<u8> = Vec::new();
            proof {
                assert(empty_input@ =~= Seq::<u8>::empty());
            }
            let d = sha256(empty_input.as_slice());
            nodes.push(d);
            i += 1;
        }
        // Higher levels, bottom-up: each node the combined digest of the
        // adjacent pair below it. In this layout the children of the node at
        // position p sit at positions 2p - 2*cap and 2p - 2*cap + 1.
        let mut lo: usize = 0;
        let mut width: usize = cap;
        let mut l: usize = 0;
        while l < levels - 1
            invariant
                l <= levels - 1,
                width == level_width(levels as nat, l as nat),
                lo == level_offset(levels as nat, l as nat),
                nodes@.len() == lo + width,
                nodes@.len() <= 2 * cap - 1,
                forall|j: int| 0 <= j < n ==> nodes@[j]@ == leaf_digest(#[trigger] data@[j]@),
                forall|j: int| n <= j < cap ==> #[trigger] nodes@[j]@ == padding_digest(),
                forall|p: int|
                    cap <= p < nodes@.len() ==> #[trigger] nodes@[p]@ == node_digest(
                        nodes@[2 * p - 2 * (cap as int)]@,
                        nodes@[2 * p - 2 * (cap as int) + 1]@,
                    ),
            decreases levels - 1 - l,
        {
            proof {
                assert(pow2((levels - l) as nat) == 2 * pow2((levels - 1 - l) as nat));
                assert(pow2((levels - 1 - l) as nat) == 2 * pow2((levels - 2 - l) as nat));
                lemma_pow2_pos((levels - 2 - l) as nat);
                lemma_pow2_mono((levels - 1 - l) as nat, (levels - 1) as nat);
            }
            let half = width / 2;
            let mut k: usize = 0;
            while k < half
                invariant
                    k <= half,
                    nodes@.len() == lo + width + k,
                    nodes@.len() <= 2 * cap - 1,
                    forall|j: int| 0 <= j < n ==> nodes@[j]@ == leaf_digest(#[trigger] data@[j]@),
                    forall|j: int| n <= j < cap ==> #[trigger] nodes@[j]@ == padding_digest(),
                    forall|p: int|
                        cap <= p < nodes@.len() ==> #[trigger] nodes@[p]@ == node_digest(
                            nodes@[2 * p - 2 * (cap as int)]@,
                            nodes@[2 * p - 2 * (cap as int) + 1]@,
                        ),
                decreases half - k,
            {
                let left = lo + 2 * k;
                let combined = concat_bytes(&nodes[left], &nodes[left + 1]);
                let d = sha256(combined.as_slice());
                proof {
                    assert(2 * (lo + width + k) - 2 * (cap as int) == left);
                }
                nodes.push(d);
                k += 1;
            }
            lo = lo + width;
            width = half;
            l += 1;
        }
        proof {
            assert(width == 1);
            assert(pow2((levels - (levels - 1)) as nat) == 2 * pow2(0));
            assert(nodes@.len() == pow2(levels as nat) - 1);
        }
        let ghost t = byte_views(nodes@);
        let ghost leaf_views = byte_views(data@);
        proof {
            assert(t.len() == pow2(levels as nat) - 1);
            assert(leaf_views.len() == n);
            assert forall|j: int| 0 <= j < leaf_views.len() implies #[trigger] t[j] == leaf_digest(
                leaf_views[j],
            ) by {
                assert(t[j] == nodes@[j]@);
                assert(leaf_views[j] == data@[j]@);
            }
            assert forall|j: int|
                leaf_views.len() <= j < pow2((levels - 1) as nat) implies #[trigger] t[j]
                == padding_digest() by {
                assert(t[j] == nodes@[j]@);
            }
            assert forall|ll: nat, k: int|
                1 <= ll < levels as nat && 0 <= k < level_width(levels as nat, ll) implies #[trigger] node_at(
                t,
                levels as nat,
                ll,
                k,
            ) == node_digest(
                node_at(t, levels as nat, (ll - 1) as nat, 2 * k),
                node_at(t, levels as nat, (ll - 1) as nat, 2 * k + 1),
            ) by {
                assert(pow2((levels - ll + 1) as nat) == 2 * pow2((levels - ll) as nat));
                assert(pow2((levels - ll) as nat) == 2 * pow2((levels - 1 - ll) as nat));
                lemma_pow2_pos((levels - 1 - ll) as nat);
                lemma_pow2_mono(1, ll);
                lemma_pow2_mono((levels - ll) as nat, (levels - 1) as nat);
                let p = level_offset(levels as nat, ll) + k;
                assert(level_offset(levels as nat, ll) >= cap) by {
                    assert(pow2((levels - ll) as nat) <= pow2((levels - 1) as nat));
                }
                assert(p < nodes@.len());
                assert(2 * p - 2 * (cap as int) == level_offset(levels as nat, (ll - 1) as nat) + 2
                    * k);
                assert(nodes@[p]@ == node_digest(
                    nodes@[2 * p - 2 * (cap as int)]@,
                    nodes@[2 * p - 2 * (cap as int) + 1]@,
                ));
                assert(node_at(t, levels as nat, ll, k) == nodes@[p]@);
            }
            assert(merkle_built(t, levels as nat, leaf_views));
        }
        Ok(
            MerkleTree {
                levels,
                leaf_count: n,
                tree: nodes,
                leaves: Ghost(byte_views(data@)),
            },
        )
    }

    /// The root digest: the single node of the top level, stored last.
    pub fn root(&self) -> (digest: &Vec<u8>)
        requires
            self.wf(),
        ensures
            digest@ == root_of(self.digests()),
    {
        proof {
            lemma_pow2_pos(self.levels_spec());
            assert(pow2(self.levels_spec()) == 2 * pow2((self.levels_spec() - 1) as nat));
            lemma_pow2_pos((self.levels_spec() - 1) as nat);
        }
        &self.tree[self.tree.len() - 1]
    }

    /// The digest stored at the given flat position.
    pub(crate) fn digest_at(&self, position: usize) -> (digest: &Vec<u8>)
        requires
            position < self.digests().len(),
        ensures
            digest@ == self.digests()[position as int],
    {
        &self.tree[position]
    }

    /// The number of levels.
    pub fn levels(&self) -> (count: usize)
        ensures
            count == self.levels_spec(),
    {
        self.levels
    }

    /// The number of real (non-padding) leaves.
    pub fn leaf_count(&self) -> (count: usize)
        ensures
            count == self.leaf_count_spec(),
    {
        self.leaf_count
    }

    /// The number of stored digests, over all levels.
    pub fn digest_count(&self) -> (count: usize)
        ensures
            count == self.digests().len(),
    {
        self.tree.len()
    }

    /// The root digest rendered as lowercase hexadecimal.
    pub fn root_hex(&self) -> (text: String)
        requires
            self.wf(),
        ensures
            text@ == hex_of(root_of(self.digests())),
    {
        encode_hex(self.root())
    }

    /// The digest at the given flat position, rendered as lowercase
    /// hexadecimal; nothing for a position past the end.
    pub fn digest_hex(&self, position: usize) -> (text: Option<String>)
        ensures
            match text {
                Some(s) => position < self.digests().len() && s@ == hex_of(
                    self.digests()[position as int],
                ),
                None => position >= self.digests().len(),
            },
    {
        if position < self.tree.len() {
            Some(encode_hex(&self.tree[position]))
        } else {
            None
        }
    }
}

} // verus!
