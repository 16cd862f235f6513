//! What holds of every tree and every inclusion proof.

use crate::binding_laws::lemma_substituted_leaf_rejected;
use crate::digest::collision_exists;
use crate::merkle_tree::MerkleTree;
use crate::power_of_two::{
    lemma_log2_pow2, lemma_pow2_halves, lemma_pow2_injective, lemma_pow2_is_one,
};
use crate::tree_lemmas::{
    lemma_depth_is_exponent, lemma_merkle_layers_well_formed, lemma_position_halves,
};
use crate::tree_model::{
    is_merkle_layers, merkle_layers, merkle_node, merkle_path, merkle_root, node_is_parent,
    node_sibling, position_at, proof_accepts, recompute, tree_depth, valid_leaf_count,
};
use vstd::arithmetic::logarithm::log;
use vstd::arithmetic::power2::pow2;
use vstd::prelude::*;

verus! {

/// Layer `k` is exactly half as long as the layer below it.
pub open spec fn layer_halves(layers: Seq<Seq<Seq<u8>>>, k: int) -> bool {
    2 * layers[k].len() == layers[k - 1].len()
}

/// Shape of a built tree: over a valid list of blocks the layers are
/// well formed, there is one leaf per block, the number of layers above the
/// leaves is the base-two logarithm of the block count, every layer is half
/// as long as the one below it, and the last layer holds the root alone.
pub proof fn lemma_tree_shape(blocks: Seq<Seq<u8>>)
    requires
        valid_leaf_count(blocks.len()),
    ensures
        is_merkle_layers(merkle_layers(blocks)),
        merkle_layers(blocks)[0].len() == blocks.len(),
        merkle_layers(blocks).len() - 1 == log(2, blocks.len() as int),
        pow2((merkle_layers(blocks).len() - 1) as nat) == blocks.len(),
        forall|k: int|
            1 <= k < merkle_layers(blocks).len() ==> #[trigger] layer_halves(
                merkle_layers(blocks),
                k,
            ),
        merkle_layers(blocks).last() == seq![merkle_root(blocks)],
{
    let layers = merkle_layers(blocks);
    let d = tree_depth(blocks.len());
    lemma_depth_is_exponent(blocks.len());
    lemma_log2_pow2(d);
    lemma_merkle_layers_well_formed(blocks);
    assert forall|k: int| 1 <= k < layers.len() implies #[trigger] layer_halves(layers, k) by {
        lemma_pow2_halves((d - k + 1) as nat);
    }
    lemma_pow2_is_one(0);
    assert(layers.last() =~= seq![merkle_root(blocks)]);
}

/// Shape of any well-formed stack of layers: the leaf count is two to the
/// number of layers above the leaves, each layer is half the one below, and
/// the last layer has one node.
pub proof fn lemma_layers_shape(layers: Seq<Seq<Seq<u8>>>)
    requires
        is_merkle_layers(layers),
    ensures
        layers[0].len() == pow2((layers.len() - 1) as nat),
        layers.len() - 1 == log(2, layers[0].len() as int),
        layers[0].len() >= 2,
        layers.last().len() == 1,
        forall|k: int| 1 <= k < layers.len() ==> #[trigger] layer_halves(layers, k),
{
    let d = (layers.len() - 1) as nat;
    lemma_log2_pow2(d);
    lemma_pow2_is_one(0);
    lemma_pow2_halves(d);
    assert forall|k: int| 1 <= k < layers.len() implies #[trigger] layer_halves(layers, k) by {
        lemma_pow2_halves((d - k + 1) as nat);
    }
}

/// Determinism: any two trees built over the same blocks have the same
/// layers, and their root is the one digest that the blocks determine.
pub proof fn lemma_build_is_deterministic(
    first: MerkleTree,
    second: MerkleTree,
    blocks: Seq<Seq<u8>>,
)
    requires
        valid_leaf_count(blocks.len()),
        first@ == merkle_layers(blocks),
        second@ == merkle_layers(blocks),
    ensures
        first@ == second@,
        first.root_digest() == merkle_root(blocks),
        second.root_digest() == merkle_root(blocks),
{
    lemma_tree_shape(blocks);
}

proof fn lemma_layers_agree(a: Seq<Seq<Seq<u8>>>, b: Seq<Seq<Seq<u8>>>, k: int)
    requires
        is_merkle_layers(a),
        is_merkle_layers(b),
        a.len() == b.len(),
        a[0] == b[0],
        0 <= k < a.len(),
    ensures
        a[k] == b[k],
    decreases k,
{
    if k > 0 {
        lemma_layers_agree(a, b, k - 1);
        assert forall|j: int| 0 <= j < a[k].len() implies a[k][j] == b[k][j] by {
            assert(node_is_parent(a, k, j));
            assert(node_is_parent(b, k, j));
        }
        assert(a[k] =~= b[k]);
    }
}

/// A well-formed stack of layers is determined by its leaves.
pub proof fn lemma_layers_determined_by_leaves(a: Seq<Seq<Seq<u8>>>, b: Seq<Seq<Seq<u8>>>)
    requires
        is_merkle_layers(a),
        is_merkle_layers(b),
        a[0] == b[0],
    ensures
        a == b,
{
    lemma_pow2_injective((a.len() - 1) as nat, (b.len() - 1) as nat);
    assert forall|k: int| 0 <= k < a.len() implies a[k] == b[k] by {
        lemma_layers_agree(a, b, k);
    }
    assert(a =~= b);
}

proof fn lemma_path_prefix(layers: Seq<Seq<Seq<u8>>>, leaf_index: int, k: nat)
    requires
        is_merkle_layers(layers),
        0 <= leaf_index < layers[0].len(),
        k <= layers.len() - 1,
    ensures
        0 <= position_at(leaf_index, k) < layers[k as int].len(),
        recompute(layers[0][leaf_index], merkle_path(layers, leaf_index).take(k as int))
            == layers[k as int][position_at(leaf_index, k)],
    decreases k,
{
    let path = merkle_path(layers, leaf_index);
    if k == 0 {
        lemma_position_halves(leaf_index, 0);
        assert(path.take(0).len() == 0);
    } else {
        let below = (k - 1) as nat;
        let pos = position_at(leaf_index, below);
        lemma_path_prefix(layers, leaf_index, below);
        lemma_position_halves(leaf_index, below);
        lemma_pow2_halves((layers.len() - 1 - below) as nat);
        assert(layers[below as int].len() == pow2((layers.len() - 1 - below) as nat));
        assert(layers[k as int].len() == pow2((layers.len() - 1 - k) as nat));
        assert(path.take(k as int).drop_last() =~= path.take(below as int));
        assert(path.take(k as int).last() == node_sibling(layers, leaf_index, below as int));
        assert(node_is_parent(layers, k as int, pos / 2));
    }
}

/// Soundness on any tree: recomputing from a leaf's digest along the path of
/// that leaf arrives at the root.
pub proof fn lemma_path_leads_to_root(layers: Seq<Seq<Seq<u8>>>, leaf_index: int)
    requires
        is_merkle_layers(layers),
        0 <= leaf_index < layers[0].len(),
    ensures
        merkle_path(layers, leaf_index).len() == layers.len() - 1,
        recompute(layers[0][leaf_index], merkle_path(layers, leaf_index)) == layers.last()[0],
{
    let path = merkle_path(layers, leaf_index);
    let d = (layers.len() - 1) as nat;
    lemma_path_prefix(layers, leaf_index, d);
    lemma_pow2_is_one(0);
    assert(path.take(d as int) =~= path);
}

/// Round trip: for every valid list of blocks and every index in range, the
/// proof generated for that index is accepted for that block and the root.
pub proof fn lemma_proof_round_trip(blocks: Seq<Seq<u8>>, leaf_index: int)
    requires
        valid_leaf_count(blocks.len()),
        0 <= leaf_index < blocks.len(),
    ensures
        proof_accepts(
            blocks[leaf_index],
            merkle_path(merkle_layers(blocks), leaf_index),
            merkle_root(blocks),
        ),
        merkle_path(merkle_layers(blocks), leaf_index).len() == tree_depth(blocks.len()),
{
    lemma_tree_shape(blocks);
    lemma_path_leads_to_root(merkle_layers(blocks), leaf_index);
}

proof fn lemma_node_ignores_other_blocks(
    blocks: Seq<Seq<u8>>,
    depth: nat,
    changed: int,
    other: Seq<u8>,
    level: nat,
    index: int,
)
    requires
        blocks.len() == pow2(depth),
        level <= depth,
        0 <= changed < blocks.len(),
        0 <= index < pow2((depth - level) as nat),
        position_at(changed, level) != index,
    ensures
        merkle_node(blocks.update(changed, other), level, index) == merkle_node(
            blocks,
            level,
            index,
        ),
    decreases level,
{
    if level == 0 {
        lemma_position_halves(changed, 0);
    } else {
        let below = (level - 1) as nat;
        lemma_position_halves(changed, below);
        lemma_pow2_halves((depth - below) as nat);
        lemma_node_ignores_other_blocks(blocks, depth, changed, other, below, 2 * index);
        lemma_node_ignores_other_blocks(blocks, depth, changed, other, below, 2 * index + 1);
    }
}

/// The proof of a leaf does not depend on the block of that leaf.
pub proof fn lemma_path_ignores_own_block(blocks: Seq<Seq<u8>>, leaf_index: int, other: Seq<u8>)
    requires
        valid_leaf_count(blocks.len()),
        0 <= leaf_index < blocks.len(),
    ensures
        merkle_path(merkle_layers(blocks.update(leaf_index, other)), leaf_index) == merkle_path(
            merkle_layers(blocks),
            leaf_index,
        ),
{
    let changed = blocks.update(leaf_index, other);
    let old_layers = merkle_layers(blocks);
    let new_layers = merkle_layers(changed);
    let old_path = merkle_path(old_layers, leaf_index);
    let new_path = merkle_path(new_layers, leaf_index);
    lemma_tree_shape(blocks);
    lemma_tree_shape(changed);
    assert forall|k: int| 0 <= k < old_path.len() implies old_path[k] == new_path[k] by {
        let pos = position_at(leaf_index, k as nat);
        let depth = tree_depth(blocks.len());
        lemma_path_prefix(old_layers, leaf_index, k as nat);
        lemma_pow2_halves((depth - k) as nat);
        if pos % 2 == 0 {
            lemma_node_ignores_other_blocks(blocks, depth, leaf_index, other, k as nat, pos + 1);
        } else {
            lemma_node_ignores_other_blocks(blocks, depth, leaf_index, other, k as nat, pos - 1);
        }
    }
    assert(old_path =~= new_path);
}

/// Sensitivity: replacing any one block by a different one changes the root,
/// unless SHA-256 has a collision.
pub proof fn lemma_changed_block_moves_root(blocks: Seq<Seq<u8>>, leaf_index: int, other: Seq<u8>)
    requires
        valid_leaf_count(blocks.len()),
        0 <= leaf_index < blocks.len(),
        other != blocks[leaf_index],
    ensures
        merkle_root(blocks.update(leaf_index, other)) != merkle_root(blocks) || collision_exists(),
{
    let changed = blocks.update(leaf_index, other);
    lemma_path_ignores_own_block(blocks, leaf_index, other);
    lemma_proof_round_trip(blocks, leaf_index);
    lemma_proof_round_trip(changed, leaf_index);
    if merkle_root(changed) == merkle_root(blocks) {
        lemma_substituted_leaf_rejected(
            blocks[leaf_index],
            other,
            merkle_path(merkle_layers(blocks), leaf_index),
            merkle_root(blocks),
        );
    }
}

} // verus!
