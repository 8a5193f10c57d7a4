//! Inclusion proofs: generation against a built tree, and verification of a
//! claimed leaf value against a root digest alone.

use vstd::prelude::*;
use crate::hashing::leaf_digest;
use crate::hashing::{sha256, bytes_eq, concat_bytes, copy_bytes};
use crate::model::{
    pow2, level_offset, level_width, node_at, sibling_path, chain_digest, Side, lemma_pow2_pos,
};
use crate::tree::{MerkleTree, MerkleError};

verus! {

/// The views of a sequence of (digest, side) pairs.
pub open spec fn pair_views(s: Seq<(Vec<u8>, Side)>) -> Seq<(Seq<u8>, Side)> {
    s.map_values(|q: (Vec<u8>, Side)| (q.0@, q.1))
}

/// A compact proof that one leaf value belongs to a tree with a given root:
/// the 0-based index of the leaf within the leaf segment, and one sibling
/// digest per level from the leaves up to (but not including) the root, each
/// with the side it sits on relative to the running digest.
pub struct MerkleProof {
    pub index: usize,
    pub siblings: Vec<(Vec<u8>, Side)>,
}

impl MerkleProof {
    /// The sibling list as a sequence of (digest, side) pairs.
    pub open spec fn path(&self) -> Seq<(Seq<u8>, Side)> {
        pair_views(self.siblings@)
    }
}

impl MerkleTree {
    /// The first position in the real leaf segment whose stored digest is
    /// the given one, if any. Padding slots are never searched, so padding
    /// digests are never reported as hits.
    fn find_leaf(&self, target: &Vec<u8>) -> (position: Option<usize>)
        requires
            self.wf(),
        ensures
            match position {
                Some(i) => {
                    &&& i < self.leaf_count_spec()
                    &&& self.digests()[i as int] == target@
                    &&& forall|j: int| 0 <= j < i ==> self.digests()[j] != target@
                },
                None => forall|j: int|
                    0 <= j < self.leaf_count_spec() ==> self.digests()[j] != target@,
            },
    {
        proof {
            assert(pow2(self.levels_spec()) == 2 * pow2((self.levels_spec() - 1) as nat));
            lemma_pow2_pos((self.levels_spec() - 1) as nat);
        }
        let count = self.leaf_count();
        let mut i: usize = 0;
        while i < count
            invariant
                i <= count,
                count == self.leaf_count_spec(),
                self.wf(),
                self.leaf_count_spec() < self.digests().len() + 1,
                forall|j: int| 0 <= j < i ==> self.digests()[j] != target@,
            decreases count - i,
        {
            if bytes_eq(self.digest_at(i), target) {
                return Some(i);
            }
            i += 1;
        }
        None
    }

    /// Generates the inclusion proof for the given leaf value: the lowest
    /// matching position in the real leaf segment and the sibling digest at
    /// each level on the way to the root. Fails when no real leaf hashes to
    /// the value.
    pub fn compute_merkle_proof(&self, input_value: &[u8]) -> (result: Result<
        MerkleProof,
        MerkleError,
    >)
        requires
            self.wf(),
        ensures
            match result {
                Ok(p) => {
                    &&& p.index < self.leaf_count_spec()
                    &&& self.digests()[p.index as int] == leaf_digest(input_value@)
                    &&& forall|j: int|
                        0 <= j < p.index ==> self.digests()[j] != leaf_digest(input_value@)
                    &&& p.path() == sibling_path(
                        self.digests(),
                        self.levels_spec(),
                        0,
                        p.index as nat,
                    )
                    &&& p.path().len() == self.levels_spec() - 1
                },
                Err(e) => {
                    &&& e == MerkleError::LeafNotFound
                    &&& forall|j: int|
                        0 <= j < self.leaf_count_spec() ==> self.digests()[j] != leaf_digest(
                            input_value@,
                        )
                },
            },
            result is Ok <==> exists|j: int|
                0 <= j < self.leaf_count_spec() && self.digests()[j] == leaf_digest(input_value@),
    {
        let target = sha256(input_value);
        let index = match self.find_leaf(&target) {
            None => {
                return Err(MerkleError::LeafNotFound);
            },
            Some(i) => i,
        };
        let ghost t = self.digests();
        let ghost levels_g = self.levels_spec();
        let levels = self.levels();
        proof {
            assert(pow2((levels_g - 0) as nat) == pow2(levels_g));
            assert(level_offset(levels_g, 0) == 0);
            assert(pow2(levels_g) == 2 * pow2((levels_g - 1) as nat));
        }
        let mut siblings: Vec<(Vec<u8>, Side)> = Vec::new();
        let mut idx = index;
        let mut lo: usize = 0;
        let total = self.digest_count();
        // The leaf capacity, recovered from the node count: for a tree of
        // 2^levels - 1 nodes the leaf segment holds half of them, rounded up.
        let mut width: usize = total / 2 + 1;
        let mut l: usize = 0;
        proof {
            assert(idx < width);
            assert(pair_views(siblings@) =~= Seq::<(Seq<u8>, Side)>::empty());
        }
        while l < levels - 1
            invariant
                self.wf(),
                t == self.digests(),
                levels_g == self.levels_spec(),
                levels == levels_g,
                l <= levels_g - 1,
                total == self.digests().len(),
                width == level_width(levels_g, l as nat),
                lo == level_offset(levels_g, l as nat),
                lo + width <= total,
                idx < width,
                pair_views(siblings@) + sibling_path(t, levels_g, l as nat, idx as nat)
                    == sibling_path(t, levels_g, 0, index as nat),
                siblings@.len() == l,
            decreases levels_g - l,
        {
            proof {
                assert(pow2((levels_g - l) as nat) == 2 * pow2((levels_g - 1 - l) as nat));
                assert(pow2((levels_g - 1 - l) as nat) == 2 * pow2((levels_g - 2 - l) as nat));
                lemma_pow2_pos((levels_g - 2 - l) as nat);
                assert(level_offset(levels_g, (l + 1) as nat) + level_width(levels_g, (l + 1) as nat)
                    <= t.len());
            }
            let sib = if idx % 2 == 0 {
                idx + 1
            } else {
                idx - 1
            };
            let side = if idx % 2 == 0 {
                Side::Right
            } else {
                Side::Left
            };
            let digest = copy_bytes(self.digest_at(lo + sib));
            let ghost before = siblings@;
            siblings.push((digest, side));
            proof {
                let first = (t[lo + sib], side);
                assert(node_at(t, levels_g, l as nat, sib as int) == t[lo + sib]);
                assert(sibling_path(t, levels_g, l as nat, idx as nat) == seq![first]
                    + sibling_path(t, levels_g, (l + 1) as nat, (idx / 2) as nat));
                assert(pair_views(siblings@) =~= pair_views(before) + seq![first]);
                assert((pair_views(before) + seq![first]) + sibling_path(
                    t,
                    levels_g,
                    (l + 1) as nat,
                    (idx / 2) as nat,
                ) =~= pair_views(before) + (seq![first] + sibling_path(
                    t,
                    levels_g,
                    (l + 1) as nat,
                    (idx / 2) as nat,
                )));
            }
            idx = idx / 2;
            lo = lo + width;
            width = width / 2;
            l += 1;
        }
        proof {
            assert(sibling_path(t, levels_g, l as nat, idx as nat)
                =~= Seq::<(Seq<u8>, Side)>::empty());
            assert(pair_views(siblings@) =~= pair_views(siblings@) + Seq::<
                (Seq<u8>, Side),
            >::empty());
        }
        Ok(MerkleProof { index, siblings })
    }

    /// Verifies a claimed leaf value against an inclusion proof and a root
    /// digest, without the tree: folds the sibling digests onto the claimed
    /// value's digest, combining on the recorded side at each level, and
    /// compares the outcome with the root. A malformed proof merely yields a
    /// non-matching digest and so a false verdict.
    pub fn verify_merkle_proof(input_value: &[u8], prf: &MerkleProof, root: &Vec<u8>) -> (ok: bool)
        ensures
            ok == (chain_digest(leaf_digest(input_value@), prf.path()) == root@),
    {
        let mut running = sha256(input_value);
        let mut j: usize = 0;
        proof {
            assert(prf.path().skip(0) =~= prf.path());
        }
        while j < prf.siblings.len()
            invariant
                j <= prf.siblings@.len(),
                chain_digest(leaf_digest(input_value@), prf.path()) == chain_digest(
                    running@,
                    prf.path().skip(j as int),
                ),
            decreases prf.siblings@.len() - j,
        {
            let pair = &prf.siblings[j];
            let combined = match pair.1 {
                Side::Left => concat_bytes(&pair.0, &running),
                Side::Right => concat_bytes(&running, &pair.0),
            };
            proof {
                assert(prf.path().skip(j as int)[0] == (pair.0@, pair.1));
                assert(prf.path().skip(j as int).drop_first() =~= prf.path().skip(j as int + 1));
            }
            running = sha256(combined.as_slice());
            j += 1;
        }
        proof {
            assert(prf.path().skip(j as int) =~= Seq::<(Seq<u8>, Side)>::empty());
        }
        bytes_eq(&running, root)
    }
}

} // verus!
