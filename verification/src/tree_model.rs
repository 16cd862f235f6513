//! The mathematical model of the tree: digests as byte strings, layers as
//! sequences of digests, and an inclusion proof as a sequence of tagged
//! siblings.

use crate::digest::{leaf_digest, parent_digest};
use crate::merkle_tree::SiblingDirection;
use crate::power_of_two::is_power_of_two;
use vstd::arithmetic::logarithm::log;
use vstd::arithmetic::power2::pow2;
use vstd::prelude::*;

verus! {

/// The leaf counts a tree can be built over: a power of two, at least two.
pub open spec fn valid_leaf_count(n: nat) -> bool {
    n >= 2 && is_power_of_two(n)
}

/// The number of levels above the leaves of a tree over `n` blocks.
pub open spec fn tree_depth(n: nat) -> nat {
    log(2, n as int) as nat
}

/// The digest at position `index` of layer `level`: at level 0 the digest of
/// block `index`, above that the parent of the two nodes below it.
pub open spec fn merkle_node(blocks: Seq<Seq<u8>>, level: nat, index: int) -> Seq<u8>
    decreases level,
{
    if level == 0 {
        leaf_digest(blocks[index])
    } else {
        parent_digest(
            merkle_node(blocks, (level - 1) as nat, 2 * index),
            merkle_node(blocks, (level - 1) as nat, 2 * index + 1),
        )
    }
}

/// Layer `level` of the tree over `blocks`: `2^(depth - level)` nodes.
pub open spec fn merkle_layer(blocks: Seq<Seq<u8>>, level: nat) -> Seq<Seq<u8>> {
    Seq::new(
        pow2((tree_depth(blocks.len()) - level) as nat),
        |j: int| merkle_node(blocks, level, j),
    )
}

/// All layers of the tree over `blocks`, leaves first, root layer last.
pub open spec fn merkle_layers(blocks: Seq<Seq<u8>>) -> Seq<Seq<Seq<u8>>> {
    Seq::new(tree_depth(blocks.len()) + 1, |k: int| merkle_layer(blocks, k as nat))
}

/// The root digest of the tree over `blocks`.
pub open spec fn merkle_root(blocks: Seq<Seq<u8>>) -> Seq<u8> {
    merkle_node(blocks, tree_depth(blocks.len()), 0)
}

/// Node `j` of layer `k` is the parent of nodes `2j` and `2j + 1` below it.
pub open spec fn node_is_parent(layers: Seq<Seq<Seq<u8>>>, k: int, j: int) -> bool {
    layers[k][j] == parent_digest(layers[k - 1][2 * j], layers[k - 1][2 * j + 1])
}

/// What makes a stack of layers a Merkle tree: at least two layers, each
/// half as long as the one below it down from a single root, and every node
/// above the leaves the parent of its two children.
pub open spec fn is_merkle_layers(layers: Seq<Seq<Seq<u8>>>) -> bool {
    &&& layers.len() >= 2
    &&& forall|k: int|
        0 <= k < layers.len() ==> (#[trigger] layers[k]).len() == pow2(
            (layers.len() - 1 - k) as nat,
        )
    &&& forall|k: int, j: int|
        1 <= k < layers.len() && 0 <= j < layers[k].len() ==> #[trigger] node_is_parent(
            layers,
            k,
            j,
        )
}

/// One entry of an inclusion proof: a sibling digest and the side it is on.
pub type Step = (Seq<u8>, SiblingDirection);

/// The sibling of position `pos` in `layer`, tagged with its side: the right
/// neighbour of an even position, the left neighbour of an odd one.
pub open spec fn sibling_step(layer: Seq<Seq<u8>>, pos: int) -> Step {
    if pos % 2 == 0 {
        (layer[pos + 1], SiblingDirection::Right)
    } else {
        (layer[pos - 1], SiblingDirection::Left)
    }
}

/// The position, in layer `level`, of the node above leaf `leaf_index`.
pub open spec fn position_at(leaf_index: int, level: nat) -> int {
    leaf_index / (pow2(level) as int)
}

/// The step that the proof of leaf `leaf_index` takes at layer `level`.
pub open spec fn node_sibling(layers: Seq<Seq<Seq<u8>>>, leaf_index: int, level: int) -> Step {
    sibling_step(layers[level], position_at(leaf_index, level as nat))
}

/// The inclusion proof of leaf `leaf_index`: one sibling per layer below the
/// root, from the leaves upward.
pub open spec fn merkle_path(layers: Seq<Seq<Seq<u8>>>, leaf_index: int) -> Seq<Step> {
    Seq::new((layers.len() - 1) as nat, |k: int| node_sibling(layers, leaf_index, k))
}

/// The parent of the running digest and one sibling, each on its side.
pub open spec fn combine(current: Seq<u8>, step: Step) -> Seq<u8> {
    match step.1 {
        SiblingDirection::Left => parent_digest(step.0, current),
        SiblingDirection::Right => parent_digest(current, step.0),
    }
}

/// The digest reached from `start` by combining with each step in order.
pub open spec fn recompute(start: Seq<u8>, proof: Seq<Step>) -> Seq<u8>
    decreases proof.len(),
{
    if proof.len() == 0 {
        start
    } else {
        combine(recompute(start, proof.drop_last()), proof.last())
    }
}

/// `proof` leads from the digest of `leaf` to exactly `root`.
pub open spec fn proof_accepts(leaf: Seq<u8>, proof: Seq<Step>, root: Seq<u8>) -> bool {
    recompute(leaf_digest(leaf), proof) == root
}

/// An executable proof as the model sees it: each digest by its bytes.
pub open spec fn proof_view(proof: Seq<(crate::digest::Hash, SiblingDirection)>) -> Seq<Step> {
    Seq::new(proof.len(), |i: int| (proof[i].0@, proof[i].1))
}

} // verus!
