//! Facts about the model that the executable tree and the laws rest on.

use crate::power_of_two::{lemma_log2_pow2, lemma_pow2_is_one};
use crate::tree_model::{
    is_merkle_layers, merkle_layers, merkle_node, node_is_parent, position_at, tree_depth,
    valid_leaf_count,
};
use vstd::arithmetic::div_mod::{lemma_div_denominator, lemma_div_pos_is_pos};
use vstd::arithmetic::power2::{lemma_pow2_pos, lemma_pow2_unfold, pow2};
use vstd::prelude::*;

verus! {

/// Over a valid number of blocks the depth is the exponent of the count.
pub proof fn lemma_depth_is_exponent(n: nat)
    requires
        valid_leaf_count(n),
    ensures
        pow2(tree_depth(n)) == n,
        tree_depth(n) >= 1,
{
    let d = choose|k: nat| pow2(k) == n;
    lemma_log2_pow2(d);
    lemma_pow2_is_one(d);
}

/// One layer up, the position above a leaf is half of what it was.
pub proof fn lemma_position_halves(leaf_index: int, level: nat)
    requires
        0 <= leaf_index,
    ensures
        position_at(leaf_index, 0) == leaf_index,
        position_at(leaf_index, level + 1) == position_at(leaf_index, level) / 2,
        0 <= position_at(leaf_index, level),
{
    lemma_pow2_is_one(0);
    lemma_pow2_unfold(level + 1);
    lemma_pow2_pos(level);
    lemma_div_denominator(leaf_index, pow2(level) as int, 2);
    lemma_div_pos_is_pos(leaf_index, pow2(level) as int);
    assert(pow2(level) as int * 2 == pow2(level + 1) as int);
}

/// The layers computed from a valid list of blocks form a Merkle tree.
pub proof fn lemma_merkle_layers_well_formed(blocks: Seq<Seq<u8>>)
    requires
        valid_leaf_count(blocks.len()),
    ensures
        is_merkle_layers(merkle_layers(blocks)),
{
    let d = tree_depth(blocks.len());
    let layers = merkle_layers(blocks);
    lemma_depth_is_exponent(blocks.len());
    assert forall|k: int, j: int|
        1 <= k < layers.len() && 0 <= j < layers[k].len() implies #[trigger] node_is_parent(
        layers,
        k,
        j,
    ) by {
        assert(layers[k].len() == pow2((d - k) as nat));
        assert(layers[k - 1].len() == pow2((d - k + 1) as nat));
        lemma_pow2_unfold((d - k + 1) as nat);
        assert(layers[k][j] == merkle_node(blocks, k as nat, j));
        assert(layers[k - 1][2 * j] == merkle_node(blocks, (k - 1) as nat, 2 * j));
        assert(layers[k - 1][2 * j + 1] == merkle_node(blocks, (k - 1) as nat, 2 * j + 1));
    }
}

} // verus!
