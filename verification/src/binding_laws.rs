//! What an accepted proof commits to: every change to the leaf, to a sibling,
//! to a side tag or to the root is rejected, short of a SHA-256 collision.

use crate::digest::{collision_exists, is_collision, leaf_digest};
use crate::merkle_tree::SiblingDirection;
use crate::tree_model::{combine, proof_accepts, recompute, Step};
use vstd::prelude::*;

verus! {

/// The other side.
pub open spec fn flipped(side: SiblingDirection) -> SiblingDirection {
    match side {
        SiblingDirection::Left => SiblingDirection::Right,
        SiblingDirection::Right => SiblingDirection::Left,
    }
}

/// The running digest just before step `k` of `proof`.
pub open spec fn running_digest(leaf: Seq<u8>, proof: Seq<Step>, k: int) -> Seq<u8> {
    recompute(leaf_digest(leaf), proof.take(k))
}

proof fn lemma_concat_cancels(prefix: Seq<u8>, a: Seq<u8>, b: Seq<u8>, suffix: Seq<u8>)
    ensures
        prefix + a == prefix + b ==> a == b,
        a + suffix == b + suffix ==> a == b,
{
    if prefix + a == prefix + b {
        assert(a =~= (prefix + a).subrange(prefix.len() as int, (prefix + a).len() as int));
        assert(b =~= (prefix + b).subrange(prefix.len() as int, (prefix + b).len() as int));
    }
    if a + suffix == b + suffix {
        assert((a + suffix).len() == (b + suffix).len());
        assert(a =~= (a + suffix).subrange(0, a.len() as int));
        assert(b =~= (b + suffix).subrange(0, b.len() as int));
    }
}

proof fn lemma_combine_binds_current(a: Seq<u8>, b: Seq<u8>, step: Step)
    requires
        combine(a, step) == combine(b, step),
    ensures
        a == b || collision_exists(),
{
    lemma_concat_cancels(step.0, a, b, step.0);
    match step.1 {
        SiblingDirection::Left => {
            if step.0 + a != step.0 + b {
                assert(is_collision(step.0 + a, step.0 + b));
            }
        },
        SiblingDirection::Right => {
            if a + step.0 != b + step.0 {
                assert(is_collision(a + step.0, b + step.0));
            }
        },
    }
}

proof fn lemma_combine_binds_sibling(
    current: Seq<u8>,
    s: Seq<u8>,
    t: Seq<u8>,
    side: SiblingDirection,
)
    requires
        combine(current, (s, side)) == combine(current, (t, side)),
    ensures
        s == t || collision_exists(),
{
    lemma_concat_cancels(current, s, t, current);
    match side {
        SiblingDirection::Left => {
            if s + current != t + current {
                assert(is_collision(s + current, t + current));
            }
        },
        SiblingDirection::Right => {
            if current + s != current + t {
                assert(is_collision(current + s, current + t));
            }
        },
    }
}

proof fn lemma_recompute_binds(a: Seq<u8>, b: Seq<u8>, proof: Seq<Step>)
    requires
        recompute(a, proof) == recompute(b, proof),
    ensures
        a == b || collision_exists(),
    decreases proof.len(),
{
    if proof.len() > 0 {
        let rest = proof.drop_last();
        lemma_combine_binds_current(recompute(a, rest), recompute(b, rest), proof.last());
        if recompute(a, rest) == recompute(b, rest) {
            lemma_recompute_binds(a, b, rest);
        }
    }
}

proof fn lemma_recompute_splits(start: Seq<u8>, proof: Seq<Step>, k: int)
    requires
        0 <= k <= proof.len(),
    ensures
        recompute(start, proof) == recompute(recompute(start, proof.take(k)), proof.skip(k)),
    decreases proof.len(),
{
    if k == proof.len() {
        assert(proof.take(k) =~= proof);
        assert(proof.skip(k).len() == 0);
    } else {
        lemma_recompute_splits(start, proof.drop_last(), k);
        assert(proof.drop_last().take(k) =~= proof.take(k));
        assert(proof.drop_last().skip(k) =~= proof.skip(k).drop_last());
        assert(proof.skip(k).last() == proof.last());
    }
}

/// A proof accepted for one root is rejected for every other root.
pub proof fn lemma_wrong_root_rejected(
    leaf: Seq<u8>,
    proof: Seq<Step>,
    root: Seq<u8>,
    other_root: Seq<u8>,
)
    requires
        proof_accepts(leaf, proof, root),
        other_root != root,
    ensures
        !proof_accepts(leaf, proof, other_root),
{
}

/// A proof accepted for one leaf is rejected for every other leaf value,
/// unless SHA-256 has a collision.
pub proof fn lemma_substituted_leaf_rejected(
    leaf: Seq<u8>,
    other_leaf: Seq<u8>,
    proof: Seq<Step>,
    root: Seq<u8>,
)
    requires
        proof_accepts(leaf, proof, root),
        other_leaf != leaf,
    ensures
        !proof_accepts(other_leaf, proof, root) || collision_exists(),
{
    if proof_accepts(other_leaf, proof, root) {
        lemma_recompute_binds(leaf_digest(leaf), leaf_digest(other_leaf), proof);
        if leaf_digest(leaf) == leaf_digest(other_leaf) {
            assert(is_collision(leaf, other_leaf));
        }
    }
}

/// An accepted proof is rejected once the sibling digest of any one step is
/// replaced by another, unless SHA-256 has a collision.
pub proof fn lemma_corrupted_sibling_rejected(
    leaf: Seq<u8>,
    proof: Seq<Step>,
    root: Seq<u8>,
    k: int,
    forged: Seq<u8>,
)
    requires
        proof_accepts(leaf, proof, root),
        0 <= k < proof.len(),
        forged != proof[k].0,
    ensures
        !proof_accepts(leaf, proof.update(k, (forged, proof[k].1)), root) || collision_exists(),
{
    let bad = proof.update(k, (forged, proof[k].1));
    if proof_accepts(leaf, bad, root) {
        let start = leaf_digest(leaf);
        let before = running_digest(leaf, proof, k);
        lemma_recompute_splits(start, proof, k + 1);
        lemma_recompute_splits(start, bad, k + 1);
        assert(bad.skip(k + 1) =~= proof.skip(k + 1));
        assert(proof.take(k + 1).drop_last() =~= proof.take(k));
        assert(bad.take(k + 1).drop_last() =~= proof.take(k));
        let good_next = recompute(start, proof.take(k + 1));
        let bad_next = recompute(start, bad.take(k + 1));
        assert(good_next == combine(before, proof[k]));
        assert(bad_next == combine(before, (forged, proof[k].1)));
        lemma_recompute_binds(good_next, bad_next, proof.skip(k + 1));
        if good_next == bad_next {
            lemma_combine_binds_sibling(before, proof[k].0, forged, proof[k].1);
        }
    }
}

/// An accepted proof is rejected once the side tag of any one step is
/// flipped, unless SHA-256 has a collision. The step must be one where the
/// sibling differs from the running digest: where the two are the same bytes,
/// either order hashes the same input.
pub proof fn lemma_flipped_side_rejected(leaf: Seq<u8>, proof: Seq<Step>, root: Seq<u8>, k: int)
    requires
        proof_accepts(leaf, proof, root),
        0 <= k < proof.len(),
        running_digest(leaf, proof, k).len() == proof[k].0.len(),
        running_digest(leaf, proof, k) != proof[k].0,
    ensures
        !proof_accepts(leaf, proof.update(k, (proof[k].0, flipped(proof[k].1))), root)
            || collision_exists(),
{
    let bad = proof.update(k, (proof[k].0, flipped(proof[k].1)));
    if proof_accepts(leaf, bad, root) {
        let start = leaf_digest(leaf);
        let before = running_digest(leaf, proof, k);
        let sibling = proof[k].0;
        lemma_recompute_splits(start, proof, k + 1);
        lemma_recompute_splits(start, bad, k + 1);
        assert(bad.skip(k + 1) =~= proof.skip(k + 1));
        assert(proof.take(k + 1).drop_last() =~= proof.take(k));
        assert(bad.take(k + 1).drop_last() =~= proof.take(k));
        let good_next = recompute(start, proof.take(k + 1));
        let bad_next = recompute(start, bad.take(k + 1));
        assert(good_next == combine(before, proof[k]));
        assert(bad_next == combine(before, (sibling, flipped(proof[k].1))));
        lemma_recompute_binds(good_next, bad_next, proof.skip(k + 1));
        if good_next == bad_next {
            crate::digest::lemma_parent_order_matters(before, sibling);
            assert(is_collision(before + sibling, sibling + before) || is_collision(
                sibling + before,
                before + sibling,
            ));
        }
    }
}

} // verus!
