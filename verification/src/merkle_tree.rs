//! A binary Merkle tree over a power-of-two number of data blocks.

use crate::digest::{digest_eq, hash_pair, leaf_digest, parent_digest, sha256_digest};
use crate::power_of_two::{
    is_power_of_two, lemma_pow2_halves, lemma_pow2_is_one, lemma_single_bit_is_power_of_two,
};
use crate::tree_laws::lemma_path_leads_to_root;
use crate::tree_lemmas::{
    lemma_depth_is_exponent, lemma_merkle_layers_well_formed, lemma_position_halves,
};
use crate::tree_model::{
    is_merkle_layers, merkle_layers, merkle_node, merkle_path, node_sibling, position_at,
    proof_accepts, proof_view, recompute, tree_depth, valid_leaf_count,
};
use vstd::arithmetic::power2::pow2;
use vstd::prelude::*;

verus! {

/// The side of the running digest on which a sibling stands.
#[derive(Debug, Clone, Copy, PartialEq, Eq, Structural)]
pub enum SiblingDirection {
    Left,
    Right,
}

/// A single node of the tree: its digest.
#[derive(Clone, Debug)]
pub struct MerkleNode {
    pub hash: [u8; 32],
}

impl View for MerkleNode {
    type V = Seq<u8>;

    /// The node as the bytes of its digest.
    open spec fn view(&self) -> Seq<u8> {
        self.hash@
    }
}

impl MerkleNode {
    /// The leaf node of a data block.
    pub fn leaf(data: &[u8]) -> (node: Self)
        ensures
            node@ == leaf_digest(data@),
    {
        MerkleNode { hash: sha256_digest(data) }
    }

    /// The inner node above `left` and `right`, in that order.
    pub fn parent(left: &MerkleNode, right: &MerkleNode) -> (node: Self)
        ensures
            node@ == parent_digest(left@, right@),
    {
        MerkleNode { hash: hash_pair(left.hash, right.hash) }
    }
}

/// Why a tree could not be built from a list of blocks.
#[derive(Debug, Clone, Copy, PartialEq, Eq, Structural)]
pub enum BuildError {
    /// Fewer than two blocks were given.
    TooFewBlocks,
    /// Two or more blocks were given, but not a power of two of them.
    NotPowerOfTwo,
}

/// A complete Merkle tree: every layer of digests, leaves first.
pub struct MerkleTree {
    layers: Vec<Vec<MerkleNode>>,
}

/// The blocks handed to the builder, each as its bytes.
pub open spec fn block_bytes(data: Seq<&[u8]>) -> Seq<Seq<u8>> {
    Seq::new(data.len(), |i: int| data[i]@)
}

/// The digests of one stored layer.
pub open spec fn layer_digests(layer: Seq<MerkleNode>) -> Seq<Seq<u8>> {
    Seq::new(layer.len(), |j: int| layer[j]@)
}

/// The digests of a stack of stored layers.
pub open spec fn stack_digests(layers: Seq<Vec<MerkleNode>>) -> Seq<Seq<Seq<u8>>> {
    Seq::new(layers.len(), |k: int| layer_digests(layers[k]@))
}

impl View for MerkleTree {
    type V = Seq<Seq<Seq<u8>>>;

    /// The tree as its layers of digests, leaves first, root layer last.
    closed spec fn view(&self) -> Seq<Seq<Seq<u8>>> {
        stack_digests(self.layers@)
    }
}

impl MerkleTree {
    /// Every tree is a well-formed stack of layers.
    #[verifier::type_invariant]
    pub open spec fn wf(&self) -> bool {
        is_merkle_layers(self@)
    }

    /// The root digest as the model sees it: the one node of the last layer.
    pub open spec fn root_digest(&self) -> Seq<u8> {
        self@.last()[0]
    }

    /// Builds the tree over `data`, or says why the block count is refused.
    pub fn try_new(data: Vec<&[u8]>) -> (built: Result<Self, BuildError>)
        ensures
            match built {
                Ok(tree) => valid_leaf_count(data@.len()) && tree.wf() && tree@ == merkle_layers(
                    block_bytes(data@),
                ),
                Err(BuildError::TooFewBlocks) => data@.len() < 2,
                Err(BuildError::NotPowerOfTwo) => data@.len() >= 2 && !is_power_of_two(
                    data@.len(),
                ),
            },
    {
        let n: usize = data.len();
        if n < 2 {
            return Err(BuildError::TooFewBlocks);
        }
        if !is_a_pow_of_two(n) {
            return Err(BuildError::NotPowerOfTwo);
        }
        let ghost blocks = block_bytes(data@);
        let ghost depth = tree_depth(n as nat);
        proof {
            lemma_depth_is_exponent(n as nat);
        }
        let mut leaves: Vec<MerkleNode> = Vec::new();
        let mut i: usize = 0;
        while i < n
            invariant
                n == data@.len(),
                blocks == block_bytes(data@),
                i <= n,
                leaves@.len() == i,
                forall|j: int|
                    0 <= j < i ==> (#[trigger] leaves@[j])@ == merkle_node(blocks, 0, j),
            decreases n - i,
        {
            let node = MerkleNode::leaf(data[i]);
            leaves.push(node);
            i += 1;
        }
        let mut layers: Vec<Vec<MerkleNode>> = Vec::new();
        layers.push(leaves);
        while layers[layers.len() - 1].len() > 1
            invariant
                1 <= layers@.len() <= depth + 1,
                forall|k: int|
                    0 <= k < layers@.len() ==> (#[trigger] layers@[k])@.len() == pow2(
                        (depth - k) as nat,
                    ),
                forall|k: int, j: int|
                    0 <= k < layers@.len() && 0 <= j < layers@[k]@.len() ==> (
                    #[trigger] layers@[k]@[j])@ == merkle_node(blocks, k as nat, j),
            decreases depth + 1 - layers@.len(),
        {
            let level: usize = layers.len() - 1;
            let current = &layers[level];
            let half: usize = current.len() / 2;
            proof {
                lemma_pow2_is_one((depth - level) as nat);
                lemma_pow2_halves((depth - level) as nat);
            }
            let mut next: Vec<MerkleNode> = Vec::new();
            let mut j: usize = 0;
            while j < half
                invariant
                    j <= half,
                    2 * half == current@.len(),
                    2 * half <= usize::MAX,
                    next@.len() == j,
                    forall|p: int|
                        0 <= p < current@.len() ==> (#[trigger] current@[p])@ == merkle_node(
                            blocks,
                            level as nat,
                            p,
                        ),
                    forall|p: int|
                        0 <= p < j ==> (#[trigger] next@[p])@ == merkle_node(
                            blocks,
                            (level + 1) as nat,
                            p,
                        ),
                decreases half - j,
            {
                let node = MerkleNode::parent(&current[2 * j], &current[2 * j + 1]);
                next.push(node);
                j += 1;
            }
            layers.push(next);
        }
        proof {
            let top = layers@.len() - 1;
            lemma_pow2_is_one((depth - top) as nat);
            vstd::arithmetic::power2::lemma_pow2_pos((depth - top) as nat);
            assert(layers@[top]@.len() == 1);
            assert(blocks.len() == n);
            let built = stack_digests(layers@);
            let wanted = merkle_layers(blocks);
            assert(built.len() == wanted.len());
            assert forall|k: int| 0 <= k < built.len() implies #[trigger] built[k]
                =~= wanted[k] by {
                assert(built[k].len() == layers@[k]@.len());
            }
            assert(built =~= wanted);
            lemma_merkle_layers_well_formed(blocks);
        }
        Ok(MerkleTree { layers })
    }

    /// Builds the tree over `data`, whose length is a power of two and at
    /// least two. Code that cannot show this of its blocks calls
    /// [`MerkleTree::try_new`]; unverified code that calls `new` with any
    /// other number of blocks is stopped by a panic, and gets no tree.
    pub fn new(data: Vec<&[u8]>) -> (tree: Self)
        requires
            valid_leaf_count(data@.len()),
        ensures
            tree.wf(),
            tree@ == merkle_layers(block_bytes(data@)),
    {
        match Self::try_new(data) {
            Ok(tree) => tree,
            Err(_) => vstd::pervasive::unreached(),
        }
    }

    /// The stored layers, leaves first, for reading.
    pub fn layers(&self) -> (layers: &Vec<Vec<MerkleNode>>)
        ensures
            self.wf(),
            stack_digests(layers@) == self@,
    {
        proof {
            use_type_invariant(self);
        }
        &self.layers
    }

    /// The root digest: the single node of the last layer.
    pub fn root(&self) -> (digest: crate::digest::Hash)
        ensures
            self.wf(),
            digest@ == self.root_digest(),
    {
        proof {
            use_type_invariant(self);
            lemma_pow2_is_one(0);
            assert(self@[self@.len() - 1].len() == pow2(0));
        }
        self.layers[self.layers.len() - 1][0].hash
    }

    /// The number of layers above the leaves.
    pub fn depth(&self) -> (d: usize)
        ensures
            self.wf(),
            d == self@.len() - 1,
            pow2(d as nat) == self@[0].len(),
    {
        proof {
            use_type_invariant(self);
        }
        self.layers.len() - 1
    }

    /// The number of leaves.
    pub fn num_leaves(&self) -> (n: usize)
        ensures
            self.wf(),
            n == self@[0].len(),
    {
        proof {
            use_type_invariant(self);
        }
        self.layers[0].len()
    }

    /// The inclusion proof of the leaf at `leaf_index`: its sibling at every
    /// layer below the root, each tagged with the side it stands on. There is
    /// none for an index past the last leaf.
    pub fn proof_path(&self, leaf_index: usize) -> (path: Option<
        Vec<(crate::digest::Hash, SiblingDirection)>,
    >)
        ensures
            self.wf(),
            path is None <==> leaf_index >= self@[0].len(),
            path matches Some(steps) ==> steps@.len() == self@.len() - 1 && proof_view(steps@)
                == merkle_path(self@, leaf_index as int),
            path matches Some(steps) ==> recompute(
                self@[0][leaf_index as int],
                proof_view(steps@),
            ) == self.root_digest(),
    {
        proof {
            use_type_invariant(self);
        }
        if leaf_index >= self.num_leaves() {
            return None;
        }
        let depth: usize = self.depth();
        let mut path: Vec<(crate::digest::Hash, SiblingDirection)> = Vec::new();
        let mut curr_idx: usize = leaf_index;
        let mut i: usize = 0;
        proof {
            lemma_position_halves(leaf_index as int, 0);
        }
        while i < depth
            invariant
                is_merkle_layers(self@),
                depth == self.layers@.len() - 1,
                i <= depth,
                curr_idx == position_at(leaf_index as int, i as nat),
                curr_idx < self.layers@[i as int]@.len(),
                path@.len() == i,
                forall|k: int|
                    0 <= k < i ==> (#[trigger] path@[k].0)@ == node_sibling(
                        self@,
                        leaf_index as int,
                        k,
                    ).0,
                forall|k: int|
                    0 <= k < i ==> (#[trigger] path@[k]).1 == node_sibling(
                        self@,
                        leaf_index as int,
                        k,
                    ).1,
            decreases depth - i,
        {
            proof {
                assert(self@[i as int].len() == pow2((depth - i) as nat));
                lemma_pow2_halves((depth - i) as nat);
                assert(self@[i + 1].len() == pow2((depth - i - 1) as nat));
                lemma_position_halves(leaf_index as int, i as nat);
            }
            let layer = &self.layers[i];
            if curr_idx % 2 == 0 {
                path.push((layer[curr_idx + 1].hash, SiblingDirection::Right));
            } else {
                path.push((layer[curr_idx - 1].hash, SiblingDirection::Left));
            }
            curr_idx /= 2;
            i += 1;
        }
        proof {
            assert(proof_view(path@) =~= merkle_path(self@, leaf_index as int));
            lemma_path_leads_to_root(self@, leaf_index as int);
        }
        Some(path)
    }
}

/// Checks an inclusion proof: recomputes the digest from `leaf` through every
/// step of `proof` and compares it with `root`.
pub fn verify_proof(
    leaf: &[u8],
    proof: &[(crate::digest::Hash, SiblingDirection)],
    root: crate::digest::Hash,
) -> (ok: bool)
    ensures
        ok == proof_accepts(leaf@, proof_view(proof@), root@),
{
    let ghost steps = proof_view(proof@);
    let mut curr: crate::digest::Hash = MerkleNode::leaf(leaf).hash;
    let mut i: usize = 0;
    while i < proof.len()
        invariant
            i <= proof@.len(),
            steps == proof_view(proof@),
            curr@ == recompute(leaf_digest(leaf@), steps.take(i as int)),
        decreases proof@.len() - i,
    {
        let (sibling, direction) = proof[i];
        proof {
            assert(steps.take(i + 1).drop_last() =~= steps.take(i as int));
            assert(steps.take(i + 1).last() == (sibling@, direction));
        }
        curr = match direction {
            SiblingDirection::Left => hash_pair(sibling, curr),
            SiblingDirection::Right => hash_pair(curr, sibling),
        };
        i += 1;
    }
    proof {
        assert(steps.take(i as int) =~= steps);
    }
    digest_eq(&curr, &root)
}

/// Whether `n` is a power of two (zero is not).
pub fn is_a_pow_of_two(n: usize) -> (yes: bool)
    ensures
        yes == is_power_of_two(n as nat),
{
    proof {
        lemma_single_bit_is_power_of_two(n);
    }
    (n != 0) && (n & (n - 1)) == 0
}

} // verus!
