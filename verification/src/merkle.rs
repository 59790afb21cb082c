//! Building the tree, its root and inclusion witnesses, and checking a witness.

use crate::hash::{merkle_hash, zero_bytes, zero_hash, Hash32};
use crate::model::{
    base_level, hash_views, is_pow2, lemma_base_level_shape, lemma_next_pow2, lemma_next_pow2_unique,
    lemma_root_is_last_node, lemma_tree_levels_len, lemma_tree_parent, merkle_root, merkle_tree, next_pow2,
    node_view, nodes_view, tree_levels, filled_prefix, fold_witness, lemma_merkle_witness_at,
    lemma_next_level_shape, lemma_pow2_even, lemma_witness_exists_iff_member, merkle_witness, next_level, segment_views, witness_path,
};
use vstd::prelude::*;

verus! {

/// On which side of its parent the node on the way up from the leaf lies.
#[derive(Clone, Copy, Debug, PartialEq, Eq, Structural, Default)]
pub enum LeafRoute {
    #[default]
    Left,
    Right,
}

/// One level of an inclusion witness: the hash beside the node on the way up,
/// and the side on which that node lies.
#[derive(Clone, Copy, Debug)]
pub struct WitnessSegment {
    pub companion_hash: Hash32,
    pub leaf_route: LeafRoute,
}

impl View for WitnessSegment {
    type V = (Seq<u8>, LeafRoute);

    open spec fn view(&self) -> (Seq<u8>, LeafRoute) {
        (self.companion_hash@, self.leaf_route)
    }
}

impl WitnessSegment {
    /// The side on which the node on the way up lies.
    fn leaf_route(&self) -> (route: &LeafRoute)
        ensures
            *route == self.leaf_route,
    {
        &self.leaf_route
    }

    /// The hash beside the node on the way up.
    fn companion_hash(&self) -> (hash: Hash32)
        ensures
            hash == self.companion_hash,
    {
        self.companion_hash
    }
}

/// The smallest power of two that is at least `n` (1 for 0).
fn next_power_of_two(n: usize) -> (p: usize)
    requires
        n <= usize::MAX / 4,
    ensures
        p == next_pow2(n as nat),
        n <= p,
        n >= 1 ==> p < 2 * n,
        n == 0 ==> p == 1,
{
    let mut p: usize = 1;
    while p < n
        invariant
            n <= usize::MAX / 4,
            1 <= p,
            is_pow2(p as nat),
            p == 1 || p / 2 < n,
        decreases usize::MAX - p,
    {
        assert(is_pow2((2 * p) as nat)) by {
            assert((2 * p) as nat / 2 == p as nat);
        }
        p = 2 * p;
    }
    proof {
        lemma_next_pow2_unique(n as nat, p as nat);
        lemma_next_pow2(n as nat);
    }
    p
}

/// All nodes of the tree over `hashes`, level by level from the leaves, the
/// root last.
fn derive_merkle_tree(hashes: &[Hash32]) -> (merkles: Vec<Option<Hash32>>)
    requires
        hashes@.len() <= usize::MAX / 4,
    ensures
        nodes_view(merkles@) == merkle_tree(hash_views(hashes@)),
{
    let ghost leaves = hash_views(hashes@);
    let ghost tree = merkle_tree(leaves);
    proof {
        lemma_base_level_shape(leaves);
        lemma_root_is_last_node(leaves);
    }
    if hashes.len() == 0 {
        let mut merkles: Vec<Option<Hash32>> = Vec::new();
        merkles.push(Some(zero_hash()));
        assert(nodes_view(merkles@) =~= tree);
        return merkles;
    }
    let next_pot = next_power_of_two(hashes.len());
    let vec_len = 2 * next_pot - 1;
    let mut merkles: Vec<Option<Hash32>> = Vec::new();
    let mut i: usize = 0;
    while i < vec_len
        invariant
            i <= vec_len,
            merkles@.len() == i,
            forall|j: int| 0 <= j < i ==> merkles@[j] is None,
        decreases vec_len - i,
    {
        merkles.push(None);
        i = i + 1;
    }
    // the leaves, in the bottom level
    let mut i: usize = 0;
    while i < hashes.len()
        invariant
            hashes@.len() <= next_pot,
            merkles@.len() == vec_len,
            vec_len == 2 * next_pot - 1,
            i <= hashes@.len(),
            forall|j: int| 0 <= j < i ==> merkles@[j] == Some(hashes@[j]),
            forall|j: int| i <= j < vec_len ==> merkles@[j] is None,
        decreases hashes@.len() - i,
    {
        merkles.set(i, Some(hashes[i]));
        i = i + 1;
    }
    proof {
        lemma_tree_levels_len(base_level(leaves));
        assert forall|j: int| 0 <= j < next_pot implies node_view(#[trigger] merkles@[j]) == tree[j] by {
            assert(tree[j] == base_level(leaves)[j]);
        }
    }
    // each level above, pair by pair
    let mut offset = next_pot;
    let mut i: usize = 0;
    while i < vec_len - 1
        invariant
            next_pot >= 1,
            is_pow2(next_pot as nat),
            next_pot == base_level(leaves).len(),
            tree == tree_levels(base_level(leaves)),
            vec_len == 2 * next_pot - 1,
            tree.len() == vec_len,
            merkles@.len() == vec_len,
            i % 2 == 0,
            i <= vec_len - 1,
            offset == next_pot + i / 2,
            forall|j: int| 0 <= j < offset ==> node_view(#[trigger] merkles@[j]) == tree[j],
        decreases vec_len - i,
    {
        proof {
            lemma_tree_parent(base_level(leaves), i as int);
        }
        let left = merkles[i];
        if left.is_none() {
            merkles.set(offset, None);
        } else {
            let right = match merkles[i + 1] {
                Some(h) => h,
                None => zero_hash(),
            };
            merkles.set(offset, Some(merkle_hash(left.unwrap(), right)));
        }
        offset = offset + 1;
        i = i + 2;
    }
    assert(nodes_view(merkles@) =~= tree);
    merkles
}

/// The Merkle root of `hashes`: the zero hash for none, the hash itself for
/// one, else the top of the tree whose bottom level is `hashes` padded with
/// absent nodes to a power of two, where a parent is the branch hash of its two
/// children (the right one zero when absent) and is absent when its left child is.
///
/// The bound on the length keeps the node count `2 * next_pow2(len) - 1` within
/// `usize`; every slice of 32-byte hashes meets it, as no slice spans more than
/// `isize::MAX` bytes.
pub fn calc_merkle_root(hashes: &[Hash32]) -> (root: Hash32)
    requires
        hashes@.len() <= usize::MAX / 4,
    ensures
        root@ == merkle_root(hash_views(hashes@)),
{
    // the last element in the tree is always the root
    let merkles = derive_merkle_tree(hashes);
    proof {
        lemma_root_is_last_node(hash_views(hashes@));
    }
    let last = merkles[merkles.len() - 1];
    last.unwrap()
}


/// The inclusion witness of `leaf_hash` in the tree over `hashes`: for the
/// first bottom node that holds it, the hash beside each node on the way up to
/// the root (the root excluded), with the side of the node; `None` when no
/// bottom node holds it (with no leaves, only the zero hash is held).
/// The bound on the length is the one of `calc_merkle_root`.
pub fn create_merkle_witness(hashes: &[Hash32], leaf_hash: Hash32) -> (witness: Option<Vec<WitnessSegment>>)
    requires
        hashes@.len() <= usize::MAX / 4,
    ensures
        witness is Some <==> (hash_views(hashes@).contains(leaf_hash@) || (hashes@.len() == 0
            && leaf_hash@ == zero_bytes())),
        match witness {
            Some(w) => merkle_witness(hash_views(hashes@), leaf_hash@) == Some(segment_views(w@)),
            None => merkle_witness(hash_views(hashes@), leaf_hash@) is None,
        },
{
    proof {
        lemma_witness_exists_iff_member(hash_views(hashes@), leaf_hash@);
    }
    let ghost leaves = hash_views(hashes@);
    let ghost base = base_level(leaves);
    let ghost tree = merkle_tree(leaves);
    // the number of nodes in the bottom level of the tree
    let next_pot = next_power_of_two(hashes.len());
    let merkles = derive_merkle_tree(hashes);
    proof {
        lemma_base_level_shape(leaves);
        lemma_tree_levels_len(base);
    }
    let mut index: usize = 0;
    while index < next_pot
        invariant
            next_pot == base.len(),
            nodes_view(merkles@) == tree,
            tree == tree_levels(base),
            tree.len() == 2 * next_pot - 1,
            forall|j: int| 0 <= j < base.len() ==> #[trigger] tree[j] == base[j],
            index <= next_pot,
            forall|j: int| 0 <= j < index ==> base[j] != Some(leaf_hash@),
        ensures
            index <= next_pot,
            forall|j: int| 0 <= j < index ==> base[j] != Some(leaf_hash@),
            index < next_pot ==> base[index as int] == Some(leaf_hash@),
        decreases next_pot - index,
    {
        assert(nodes_view(merkles@)[index as int] == node_view(merkles@[index as int]));
        assert(node_view(merkles@[index as int]) == base[index as int]);
        match merkles[index] {
            Some(h) => {
                if leaf_hash.is_equal(&h) {
                    break;
                }
            },
            None => {},
        }
        index = index + 1;
    }
    if index == next_pot {
        assert(!exists|k: int| 0 <= k < base.len() && base[k] == Some(leaf_hash@));
        return None;
    }
    let leaf_index = index;
    proof {
        lemma_merkle_witness_at(leaves, leaf_hash@, leaf_index as int);
    }
    let mut witness_vec: Vec<WitnessSegment> = Vec::new();
    let mut level_start: usize = 0;
    let mut level_length: usize = next_pot;
    let mut level_index: usize = leaf_index;
    let ghost mut level = base;
    assert(tree.subrange(0, tree.len() as int) =~= tree);
    assert(segment_views(witness_vec@) + witness_path(level, level_index as int) =~= witness_path(base, leaf_index as int));
    // the companions along the route from the leaf up to the root, the root excluded
    while level_length > 1
        invariant
            nodes_view(merkles@) == tree,
            tree.len() == 2 * next_pot - 1,
            next_pot <= usize::MAX / 2,
            level.len() == level_length,
            is_pow2(level_length as nat),
            filled_prefix(level),
            level_start + level_length <= tree.len(),
            tree.subrange(level_start as int, tree.len() as int) == tree_levels(level),
            level_index < level_length,
            level[level_index as int] is Some,
            segment_views(witness_vec@) + witness_path(level, level_index as int) == witness_path(base, leaf_index as int),
        decreases level_length,
    {
        let ghost next = next_level(level);
        proof {
            lemma_next_level_shape(level);
            lemma_pow2_even(level_length as nat);
            lemma_tree_levels_len(level);
            assert(tree_levels(level) == level + tree_levels(next));
            assert forall|j: int| 0 <= j < level_length implies node_view(#[trigger] merkles@[level_start + j]) == level[j] by {
                assert(tree[level_start + j] == tree.subrange(level_start as int, tree.len() as int)[j]);
                assert(nodes_view(merkles@)[level_start + j] == node_view(merkles@[level_start + j]));
            }
        }
        let segment = if level_index % 2 == 0 {
            let ghost j: int = level_index + 1;
            assert(node_view(merkles@[level_start + j]) == level[j]);
            let companion_hash = match merkles[level_start + level_index + 1] {
                Some(h) => h,
                None => zero_hash(),
            };
            WitnessSegment { companion_hash, leaf_route: LeafRoute::Left }
        } else {
            let ghost j: int = level_index - 1;
            assert(node_view(merkles@[level_start + j]) == level[j]);
            assert(level[j] is Some);
            WitnessSegment { companion_hash: merkles[level_start + level_index - 1].unwrap(), leaf_route: LeafRoute::Right }
        };
        let ghost before = segment_views(witness_vec@);
        witness_vec.push(segment);
        proof {
            assert(segment@ == crate::model::sibling(level, level_index as int));
            assert(segment_views(witness_vec@) =~= before.push(segment@));
            assert(witness_path(level, level_index as int) =~= seq![segment@] + witness_path(next, (level_index / 2) as int));
            assert(segment_views(witness_vec@) + witness_path(next, (level_index / 2) as int) =~= before + witness_path(level, level_index as int));
            assert(tree.subrange((level_start + level_length) as int, tree.len() as int) =~= tree_levels(level).subrange(level_length as int, tree_levels(level).len() as int));
            assert(tree_levels(level).subrange(level_length as int, tree_levels(level).len() as int) =~= tree_levels(next));
            assert(next[(level_index / 2) as int] == crate::model::combine(level[2 * (level_index / 2) as int], level[2 * (level_index / 2) as int + 1]));
            level = next;
        }
        level_start = level_start + level_length;
        level_length = level_length / 2;
        level_index = level_index / 2;
    }
    assert(segment_views(witness_vec@) =~= witness_path(base, leaf_index as int));
    Some(witness_vec)
}

/// Whether the witness leads `leaf_value` to `merkle_root_hash`: starting from
/// the leaf, each segment hashes the current node with its companion, the
/// current node on the left for `Left` and on the right for `Right`.
pub fn verify_merkle_witness(witness_vec: &[WitnessSegment], leaf_value: Hash32, merkle_root_hash: Hash32) -> (valid: bool)
    ensures
        valid == (fold_witness(segment_views(witness_vec@), leaf_value@) == merkle_root_hash@),
{
    let ghost path = segment_views(witness_vec@);
    let mut current_hash = leaf_value;
    let mut i: usize = 0;
    assert(path.skip(0) =~= path);
    while i < witness_vec.len()
        invariant
            i <= witness_vec@.len(),
            path == segment_views(witness_vec@),
            fold_witness(path.skip(i as int), current_hash@) == fold_witness(path, leaf_value@),
        decreases witness_vec@.len() - i,
    {
        let witness_segment = &witness_vec[i];
        // the route gives the side of the current node, bottom to top
        match witness_segment.leaf_route() {
            LeafRoute::Right => {
                current_hash = merkle_hash(witness_segment.companion_hash(), current_hash);
            },
            LeafRoute::Left => {
                current_hash = merkle_hash(current_hash, witness_segment.companion_hash());
            },
        }
        assert(path.skip(i as int).drop_first() =~= path.skip(i + 1));
        i = i + 1;
    }
    assert(path.skip(i as int) =~= Seq::<(Seq<u8>, LeafRoute)>::empty());
    current_hash.is_equal(&merkle_root_hash)
}

} // verus!
