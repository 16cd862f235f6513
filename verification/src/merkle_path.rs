//! A bare inclusion path: the sibling digests from a leaf up to the root,
//! with the side of each sibling read off the leaf's index.

use crate::digest::{digest_eq, hash_pair};
use crate::merkle_tree::SiblingDirection;
use crate::tree_laws::lemma_path_leads_to_root;
use crate::tree_lemmas::lemma_position_halves;
use crate::tree_model::{is_merkle_layers, merkle_path, position_at, recompute, Step};
use vstd::prelude::*;

verus! {

/// The side of the sibling met at `level` on the way up from leaf `index`:
/// right of a node at an even position, left of one at an odd position.
pub open spec fn side_at(index: int, level: nat) -> SiblingDirection {
    if position_at(index, level) % 2 == 0 {
        SiblingDirection::Right
    } else {
        SiblingDirection::Left
    }
}

/// The siblings of a path, each tagged with its side for leaf `index`.
pub open spec fn tagged(siblings: Seq<Seq<u8>>, index: int) -> Seq<Step> {
    Seq::new(siblings.len(), |k: int| (siblings[k], side_at(index, k as nat)))
}

/// The sibling digests of tagged steps, without their tags.
pub open spec fn untagged(steps: Seq<Step>) -> Seq<Seq<u8>> {
    Seq::new(steps.len(), |k: int| steps[k].0)
}

/// The tags in a tree's proof for a leaf are the sides that the leaf's index
/// gives: the siblings alone, checked against the index, lead to the root.
pub proof fn lemma_tree_path_follows_index(layers: Seq<Seq<Seq<u8>>>, leaf_index: int)
    requires
        is_merkle_layers(layers),
        0 <= leaf_index < layers[0].len(),
    ensures
        tagged(untagged(merkle_path(layers, leaf_index)), leaf_index) == merkle_path(
            layers,
            leaf_index,
        ),
        recompute(
            layers[0][leaf_index],
            tagged(untagged(merkle_path(layers, leaf_index)), leaf_index),
        ) == layers.last()[0],
{
    let path = merkle_path(layers, leaf_index);
    assert(tagged(untagged(path), leaf_index) =~= path);
    lemma_path_leads_to_root(layers, leaf_index);
}

/// The sibling digests of an inclusion proof, leaf level first.
#[derive(Debug)]
pub struct MerklePath {
    pub hashes: Vec<crate::digest::Hash>,
}

impl View for MerklePath {
    type V = Seq<Seq<u8>>;

    /// The siblings, each by its bytes.
    open spec fn view(&self) -> Seq<Seq<u8>> {
        Seq::new(self.hashes@.len(), |i: int| self.hashes@[i]@)
    }
}

impl MerklePath {
    /// An empty path.
    pub fn new() -> (path: Self)
        ensures
            path@ == Seq::<Seq<u8>>::empty(),
    {
        let path = MerklePath { hashes: Vec::new() };
        assert(path@ =~= Seq::<Seq<u8>>::empty());
        path
    }

    /// Appends a sibling at the end of the path.
    pub fn add_sibling(&mut self, hash: crate::digest::Hash)
        ensures
            final(self)@ == old(self)@.push(hash@),
    {
        self.hashes.push(hash);
        assert(self@ =~= old(self)@.push(hash@));
    }

    /// Removes the sibling added last and returns it, if there is one.
    pub fn pop_sibling(&mut self) -> (popped: Option<crate::digest::Hash>)
        ensures
            old(self)@.len() == 0 ==> popped is None && final(self)@ == old(self)@,
            old(self)@.len() > 0 ==> popped is Some && popped.unwrap()@ == old(self)@.last()
                && final(self)@ == old(self)@.drop_last(),
    {
        let popped = self.hashes.pop();
        assert(old(self)@.len() == 0 ==> self@ =~= old(self)@);
        assert(old(self)@.len() > 0 ==> self@ =~= old(self)@.drop_last());
        assert(old(self)@.len() > 0 ==> old(self)@.last() == old(self).hashes@.last()@);
        popped
    }

    /// The number of siblings in the path.
    pub fn len(&self) -> (n: usize)
        ensures
            n == self@.len(),
    {
        self.hashes.len()
    }

    /// The way up from the leaf at `index`: for every sibling of the path,
    /// leaf level first, the position of the node it is paired with and the
    /// side the sibling stands on.
    pub fn trace(&self, index: usize) -> (walk: Vec<(usize, SiblingDirection)>)
        ensures
            walk@.len() == self@.len(),
            forall|k: int|
                0 <= k < walk@.len() ==> (#[trigger] walk@[k]).0 == position_at(
                    index as int,
                    k as nat,
                ) && walk@[k].1 == side_at(index as int, k as nat),
    {
        let mut walk: Vec<(usize, SiblingDirection)> = Vec::new();
        let mut position: usize = index;
        let mut level: usize = 0;
        proof {
            lemma_position_halves(index as int, 0);
        }
        while level < self.hashes.len()
            invariant
                level <= self.hashes@.len(),
                position == position_at(index as int, level as nat),
                walk@.len() == level,
                forall|k: int|
                    0 <= k < level ==> (#[trigger] walk@[k]).0 == position_at(
                        index as int,
                        k as nat,
                    ) && walk@[k].1 == side_at(index as int, k as nat),
            decreases self.hashes@.len() - level,
        {
            proof {
                lemma_position_halves(index as int, level as nat);
            }
            if position % 2 == 0 {
                walk.push((position, SiblingDirection::Right));
            } else {
                walk.push((position, SiblingDirection::Left));
            }
            position /= 2;
            level += 1;
        }
        walk
    }

    /// Checks the path for the leaf digest `leaf` at position `index`:
    /// climbs from `leaf`, hashing with each sibling on the side that the
    /// index gives it, and compares what it reaches with `root`.
    pub fn verify(
        &self,
        root: crate::digest::Hash,
        leaf: crate::digest::Hash,
        index: usize,
    ) -> (ok: bool)
        ensures
            ok == (recompute(leaf@, tagged(self@, index as int)) == root@),
    {
        let ghost steps = tagged(self@, index as int);
        let mut current_hash: crate::digest::Hash = leaf;
        let mut position: usize = index;
        let mut level: usize = 0;
        proof {
            lemma_position_halves(index as int, 0);
        }
        while level < self.hashes.len()
            invariant
                level <= self.hashes@.len(),
                steps == tagged(self@, index as int),
                position == position_at(index as int, level as nat),
                current_hash@ == recompute(leaf@, steps.take(level as int)),
            decreases self.hashes@.len() - level,
        {
            let sibling: crate::digest::Hash = self.hashes[level];
            proof {
                lemma_position_halves(index as int, level as nat);
                assert(steps.take(level + 1).drop_last() =~= steps.take(level as int));
                assert(steps.take(level + 1).last() == (
                    sibling@,
                    side_at(index as int, level as nat),
                ));
            }
            if position % 2 == 0 {
                current_hash = hash_pair(current_hash, sibling);
            } else {
                current_hash = hash_pair(sibling, current_hash);
            }
            position /= 2;
            level += 1;
        }
        proof {
            assert(steps.take(level as int) =~= steps);
        }
        digest_eq(&current_hash, &root)
    }
}

} // verus!
