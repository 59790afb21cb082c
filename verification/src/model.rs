//! The mathematical model of the tree: levels of optional node hashes, the
//! root, inclusion witnesses and their evaluation, with the lemmas about them.

use crate::hash::{merkle_branch_hash, zero_bytes, Hash32};
use crate::merkle::{LeafRoute, WitnessSegment};
use vstd::arithmetic::div_mod::lemma_div_denominator;
use vstd::arithmetic::power2::{lemma_pow2_pos, lemma_pow2_unfold, pow2};
use vstd::prelude::*;

verus! {

/// The bytes of each hash.
pub open spec fn hash_views(hashes: Seq<Hash32>) -> Seq<Seq<u8>> {
    hashes.map_values(|h: Hash32| h@)
}

/// A node as optional bytes.
pub open spec fn node_view(node: Option<Hash32>) -> Option<Seq<u8>> {
    match node {
        Some(h) => Some(h@),
        None => None,
    }
}

/// Each node as optional bytes.
pub open spec fn nodes_view(nodes: Seq<Option<Hash32>>) -> Seq<Option<Seq<u8>>> {
    nodes.map_values(|n: Option<Hash32>| node_view(n))
}

/// Each witness segment as (companion bytes, route).
pub open spec fn segment_views(segments: Seq<WitnessSegment>) -> Seq<(Seq<u8>, LeafRoute)> {
    segments.map_values(|s: WitnessSegment| s@)
}

/// The bytes of a present node; the zero hash stands for an absent one.
pub open spec fn or_zero(node: Option<Seq<u8>>) -> Seq<u8> {
    match node {
        Some(h) => h,
        None => zero_bytes(),
    }
}

/// The parent of two sibling nodes: absent when the left one is absent, else
/// the branch hash of the left one with the right one (zero when absent).
pub open spec fn combine(left: Option<Seq<u8>>, right: Option<Seq<u8>>) -> Option<Seq<u8>> {
    match left {
        Some(l) => Some(merkle_branch_hash(l, or_zero(right))),
        None => None,
    }
}

/// The level above: node `j` is the parent of nodes `2j` and `2j + 1`.
pub open spec fn next_level(level: Seq<Option<Seq<u8>>>) -> Seq<Option<Seq<u8>>> {
    Seq::new(level.len() / 2, |j: int| combine(level[2 * j], level[2 * j + 1]))
}

/// A level followed by all the levels above it, up to the single root node.
pub open spec fn tree_levels(level: Seq<Option<Seq<u8>>>) -> Seq<Option<Seq<u8>>>
    decreases level.len(),
{
    if level.len() <= 1 {
        level
    } else {
        level + tree_levels(next_level(level))
    }
}

/// The single node at the top of the levels above `level`.
pub open spec fn root_of(level: Seq<Option<Seq<u8>>>) -> Option<Seq<u8>>
    decreases level.len(),
{
    if level.len() <= 1 {
        level[0]
    } else {
        root_of(next_level(level))
    }
}

/// `n` is a power of two.
pub open spec fn is_pow2(n: nat) -> bool
    decreases n,
{
    if n <= 1 {
        n == 1
    } else {
        n % 2 == 0 && is_pow2(n / 2)
    }
}

/// The smallest power of two that is at least `n` (1 for 0).
pub open spec fn next_pow2(n: nat) -> nat
    decreases n,
{
    if n <= 1 {
        1
    } else {
        2 * next_pow2(((n + 1) / 2) as nat)
    }
}

/// The bottom level: the leaves, then absent nodes up to the next power of two;
/// with no leaves, the single zero hash.
pub open spec fn base_level(leaves: Seq<Seq<u8>>) -> Seq<Option<Seq<u8>>> {
    if leaves.len() == 0 {
        seq![Some(zero_bytes())]
    } else {
        Seq::new(
            next_pow2(leaves.len()),
            |i: int|
                if i < leaves.len() {
                    Some(leaves[i])
                } else {
                    None
                },
        )
    }
}

/// All nodes of the tree over `leaves`, level by level from the bottom.
pub open spec fn merkle_tree(leaves: Seq<Seq<u8>>) -> Seq<Option<Seq<u8>>> {
    tree_levels(base_level(leaves))
}

/// The root of the tree over `leaves`.
pub open spec fn merkle_root(leaves: Seq<Seq<u8>>) -> Seq<u8> {
    or_zero(root_of(base_level(leaves)))
}

// ---------------------------------------------------------------------------
// Powers of two

pub proof fn lemma_pow2_even(p: nat)
    requires
        is_pow2(p),
        p >= 2,
    ensures
        p % 2 == 0,
{
}

proof fn lemma_pow2_le_double(p: nat, q: nat)
    requires
        is_pow2(p),
        is_pow2(q),
        p < q,
    ensures
        2 * p <= q,
    decreases q,
{
    if p > 1 {
        lemma_pow2_le_double(p / 2, q / 2);
    }
}

/// `next_pow2(n)` is a power of two, at least `n`, and (for `n >= 1`) less than `2n`.
pub proof fn lemma_next_pow2(n: nat)
    ensures
        is_pow2(next_pow2(n)),
        n <= next_pow2(n),
        n >= 1 ==> next_pow2(n) < 2 * n,
    decreases n,
{
    if n > 1 {
        let m = ((n + 1) / 2) as nat;
        lemma_next_pow2(m);
        let q = next_pow2(m);
        assert(2 * q / 2 == q);
        if n % 2 == 1 && q >= 2 {
            lemma_pow2_even(q);
        }
    }
}

/// A power of two at least `n` whose half is below `n` is `next_pow2(n)`.
pub proof fn lemma_next_pow2_unique(n: nat, p: nat)
    requires
        is_pow2(p),
        n <= p,
        p == 1 || p / 2 < n,
    ensures
        p == next_pow2(n),
{
    lemma_next_pow2(n);
    let q = next_pow2(n);
    if p < q {
        lemma_pow2_le_double(p, q);
        if q == 1 {
        } else {
            assert(q / 2 < n || n == 0);
        }
    } else if q < p {
        lemma_pow2_le_double(q, p);
    }
}


// ---------------------------------------------------------------------------
// Shape of the levels

/// Every present node has only present nodes before it in its level.
pub open spec fn filled_prefix(level: Seq<Option<Seq<u8>>>) -> bool {
    forall|i: int, j: int| 0 <= i <= j < level.len() && (#[trigger] level[j]) is Some ==> (#[trigger] level[i]) is Some
}

pub proof fn lemma_next_level_shape(level: Seq<Option<Seq<u8>>>)
    requires
        is_pow2(level.len()),
        level.len() >= 2,
    ensures
        is_pow2(next_level(level).len()),
        next_level(level).len() == level.len() / 2,
        next_level(level).len() < level.len(),
        filled_prefix(level) ==> filled_prefix(next_level(level)),
        level[0] is Some ==> next_level(level)[0] is Some,
{
    let next = next_level(level);
    if filled_prefix(level) {
        assert forall|i: int, j: int| 0 <= i <= j < next.len() && (#[trigger] next[j]) is Some implies (#[trigger] next[i]) is Some by {
            assert(level[2 * j] is Some);
            assert(level[2 * i] is Some);
        }
    }
}

/// The levels above a level of `len` nodes hold `2 len - 1` nodes, the level
/// itself first.
pub proof fn lemma_tree_levels_len(level: Seq<Option<Seq<u8>>>)
    requires
        is_pow2(level.len()),
    ensures
        tree_levels(level).len() == 2 * level.len() - 1,
        forall|i: int| 0 <= i < level.len() ==> #[trigger] tree_levels(level)[i] == level[i],
    decreases level.len(),
{
    if level.len() > 1 {
        lemma_next_level_shape(level);
        lemma_tree_levels_len(next_level(level));
    }
}

/// In the flat tree, the node at `len + i / 2` is the parent of the nodes at
/// `i` and `i + 1`, for every even `i`.
pub proof fn lemma_tree_parent(level: Seq<Option<Seq<u8>>>, i: int)
    requires
        is_pow2(level.len()),
        i % 2 == 0,
        0 <= i < 2 * level.len() - 2,
    ensures
        tree_levels(level)[level.len() + i / 2] == combine(tree_levels(level)[i], tree_levels(level)[i + 1]),
    decreases level.len(),
{
    let len = level.len() as int;
    let next = next_level(level);
    lemma_next_level_shape(level);
    lemma_tree_levels_len(level);
    lemma_tree_levels_len(next);
    let t = tree_levels(level);
    let t2 = tree_levels(next);
    assert(t == level + t2);
    if i < len {
        assert(t[len + i / 2] == t2[i / 2]);
        assert(t2[i / 2] == next[i / 2]);
        assert(2 * (i / 2) == i);
    } else {
        let k = i - len;
        lemma_pow2_even(level.len());
        assert(k % 2 == 0);
        lemma_tree_parent(next, k);
        assert(next.len() + k / 2 == i / 2);
        assert(t[len + i / 2] == t2[i / 2]);
        assert(t[i] == t2[k]);
        assert(t[i + 1] == t2[k + 1]);
    }
}

/// The last node of the flat tree is the root.
proof fn lemma_tree_last_is_root(level: Seq<Option<Seq<u8>>>)
    requires
        is_pow2(level.len()),
    ensures
        tree_levels(level)[tree_levels(level).len() - 1] == root_of(level),
    decreases level.len(),
{
    lemma_tree_levels_len(level);
    if level.len() > 1 {
        lemma_next_level_shape(level);
        lemma_tree_levels_len(next_level(level));
        lemma_tree_last_is_root(next_level(level));
    }
}

/// A level whose first node is present has a present root.
proof fn lemma_root_present(level: Seq<Option<Seq<u8>>>)
    requires
        is_pow2(level.len()),
        level[0] is Some,
    ensures
        root_of(level) is Some,
    decreases level.len(),
{
    if level.len() > 1 {
        lemma_next_level_shape(level);
        lemma_root_present(next_level(level));
    }
}

/// The bottom level has a power-of-two length (`next_pow2` of the number of
/// leaves, or 1 without leaves), a present first node, and its present nodes first.
pub proof fn lemma_base_level_shape(leaves: Seq<Seq<u8>>)
    ensures
        is_pow2(base_level(leaves).len()),
        base_level(leaves).len() == next_pow2(leaves.len()),
        leaves.len() <= base_level(leaves).len(),
        base_level(leaves)[0] is Some,
        filled_prefix(base_level(leaves)),
{
    lemma_next_pow2(leaves.len());
    if leaves.len() == 0 {
        assert(is_pow2(1));
    }
}


// ---------------------------------------------------------------------------
// Inclusion witnesses

/// The segment that a witness holds for the node at `idx` of `level`: for an
/// even index the right sibling (zero when absent) and the route `Left`, for an
/// odd one the left sibling and the route `Right`.
pub open spec fn sibling(level: Seq<Option<Seq<u8>>>, idx: int) -> (Seq<u8>, LeafRoute) {
    if idx % 2 == 0 {
        (or_zero(level[idx + 1]), LeafRoute::Left)
    } else {
        (or_zero(level[idx - 1]), LeafRoute::Right)
    }
}

/// The segments from the node at `idx` of `level` up to the root, the root
/// itself not included.
pub open spec fn witness_path(level: Seq<Option<Seq<u8>>>, idx: int) -> Seq<(Seq<u8>, LeafRoute)>
    decreases level.len(),
{
    if level.len() <= 1 {
        seq![]
    } else {
        seq![sibling(level, idx)] + witness_path(next_level(level), idx / 2)
    }
}

/// One step up: the branch hash of the current node with the companion, on
/// the side that the route gives.
pub open spec fn step(current: Seq<u8>, segment: (Seq<u8>, LeafRoute)) -> Seq<u8> {
    match segment.1 {
        LeafRoute::Left => merkle_branch_hash(current, segment.0),
        LeafRoute::Right => merkle_branch_hash(segment.0, current),
    }
}

/// The hash that a witness leads a leaf to, its segments taken in order.
pub open spec fn fold_witness(path: Seq<(Seq<u8>, LeafRoute)>, leaf: Seq<u8>) -> Seq<u8>
    decreases path.len(),
{
    if path.len() == 0 {
        leaf
    } else {
        fold_witness(path.drop_first(), step(leaf, path[0]))
    }
}

/// `k` is the first index of `level` that holds `leaf`.
pub open spec fn is_first_position(level: Seq<Option<Seq<u8>>>, leaf: Seq<u8>, k: int) -> bool {
    &&& 0 <= k < level.len()
    &&& level[k] == Some(leaf)
    &&& forall|j: int| 0 <= j < k ==> level[j] != Some(leaf)
}

/// The witness for `leaf` in the tree over `leaves`: the path from the first
/// bottom node that holds it, or none when no bottom node does.
pub open spec fn merkle_witness(leaves: Seq<Seq<u8>>, leaf: Seq<u8>) -> Option<Seq<(Seq<u8>, LeafRoute)>> {
    let base = base_level(leaves);
    if exists|k: int| 0 <= k < base.len() && base[k] == Some(leaf) {
        Some(witness_path(base, choose|k: int| is_first_position(base, leaf, k)))
    } else {
        None
    }
}

/// Where some index holds `leaf`, a first one does.
proof fn lemma_first_position_exists(level: Seq<Option<Seq<u8>>>, leaf: Seq<u8>, k: int)
    requires
        0 <= k < level.len(),
        level[k] == Some(leaf),
    ensures
        exists|f: int| is_first_position(level, leaf, f),
    decreases k,
{
    if exists|j: int| 0 <= j < k && level[j] == Some(leaf) {
        let j = choose|j: int| 0 <= j < k && level[j] == Some(leaf);
        lemma_first_position_exists(level, leaf, j);
    } else {
        assert(is_first_position(level, leaf, k));
    }
}

/// The first index that holds `leaf` is unique.
proof fn lemma_first_position_unique(level: Seq<Option<Seq<u8>>>, leaf: Seq<u8>, k1: int, k2: int)
    requires
        is_first_position(level, leaf, k1),
        is_first_position(level, leaf, k2),
    ensures
        k1 == k2,
{
    if k1 < k2 {
        assert(level[k1] != Some(leaf));
    } else if k2 < k1 {
        assert(level[k2] != Some(leaf));
    }
}

/// The witness of the first index `k` that holds `leaf` is the one that
/// `merkle_witness` names.
pub proof fn lemma_merkle_witness_at(leaves: Seq<Seq<u8>>, leaf: Seq<u8>, k: int)
    requires
        is_first_position(base_level(leaves), leaf, k),
    ensures
        merkle_witness(leaves, leaf) == Some(witness_path(base_level(leaves), k)),
{
    let base = base_level(leaves);
    assert(0 <= k < base.len() && base[k] == Some(leaf));
    let f = choose|f: int| is_first_position(base, leaf, f);
    lemma_first_position_unique(base, leaf, f, k);
}

/// From any present node whose predecessors are present, its witness leads its
/// hash to the root.
proof fn lemma_path_reaches_root(level: Seq<Option<Seq<u8>>>, idx: int, leaf: Seq<u8>)
    requires
        is_pow2(level.len()),
        filled_prefix(level),
        0 <= idx < level.len(),
        level[idx] == Some(leaf),
    ensures
        fold_witness(witness_path(level, idx), leaf) == or_zero(root_of(level)),
    decreases level.len(),
{
    if level.len() > 1 {
        let next = next_level(level);
        lemma_next_level_shape(level);
        lemma_pow2_even(level.len());
        let path = witness_path(level, idx);
        let rest = witness_path(next, idx / 2);
        assert(path.drop_first() =~= rest);
        let up = step(leaf, sibling(level, idx));
        if idx % 2 == 0 {
            assert(2 * (idx / 2) == idx);
            assert(next[idx / 2] == combine(level[idx], level[idx + 1]));
        } else {
            assert(2 * (idx / 2) == idx - 1);
            assert(level[idx - 1] is Some);
            assert(next[idx / 2] == combine(level[idx - 1], level[idx]));
        }
        assert(next[idx / 2] == Some(up));
        lemma_path_reaches_root(next, idx / 2, up);
    }
}

// ---------------------------------------------------------------------------
// Laws

/// The root is the last node of the tree, and the tree over `n >= 1` leaves
/// holds `2 * next_pow2(n) - 1` nodes.
pub proof fn lemma_root_is_last_node(leaves: Seq<Seq<u8>>)
    ensures
        merkle_tree(leaves).len() == 2 * next_pow2(leaves.len()) - 1,
        merkle_tree(leaves)[merkle_tree(leaves).len() - 1] == Some(merkle_root(leaves)),
{
    let base = base_level(leaves);
    lemma_base_level_shape(leaves);
    lemma_tree_levels_len(base);
    lemma_tree_last_is_root(base);
    lemma_root_present(base);
}

/// The root of no leaves is the zero hash, and the root of one leaf is that leaf.
pub proof fn lemma_small_roots(leaf: Seq<u8>)
    ensures
        merkle_root(Seq::empty()) == zero_bytes(),
        merkle_root(seq![leaf]) == leaf,
{
    assert(next_pow2(1) == 1);
    assert(base_level(seq![leaf]) =~= seq![Some(leaf)]);
}

/// A witness exists exactly for the hashes among the leaves, and, with no
/// leaves, for the zero hash.
pub proof fn lemma_witness_exists_iff_member(leaves: Seq<Seq<u8>>, leaf: Seq<u8>)
    ensures
        merkle_witness(leaves, leaf) is Some <==> (leaves.contains(leaf) || (leaves.len() == 0 && leaf == zero_bytes())),
{
    let base = base_level(leaves);
    lemma_base_level_shape(leaves);
    if leaves.len() > 0 {
        if leaves.contains(leaf) {
            let k = choose|k: int| 0 <= k < leaves.len() && leaves[k] == leaf;
            assert(base[k] == Some(leaf));
        }
        if exists|k: int| 0 <= k < base.len() && base[k] == Some(leaf) {
            let k = choose|k: int| 0 <= k < base.len() && base[k] == Some(leaf);
            assert(leaves[k] == leaf);
        }
    } else {
        if leaf == zero_bytes() {
            assert(base[0] == Some(leaf));
        }
    }
}

/// Every witness that exists for a leaf leads that leaf to the root of the tree.
pub proof fn lemma_witness_leads_to_root(leaves: Seq<Seq<u8>>, leaf: Seq<u8>)
    requires
        merkle_witness(leaves, leaf) is Some,
    ensures
        fold_witness(merkle_witness(leaves, leaf)->0, leaf) == merkle_root(leaves),
{
    let base = base_level(leaves);
    lemma_base_level_shape(leaves);
    let k0 = choose|k: int| 0 <= k < base.len() && base[k] == Some(leaf);
    lemma_first_position_exists(base, leaf, k0);
    let k = choose|k: int| is_first_position(base, leaf, k);
    lemma_path_reaches_root(base, k, leaf);
}

/// The branch hash maps two different pairs of nodes to one hash.
pub open spec fn has_branch_collision() -> bool {
    exists|l1: Seq<u8>, r1: Seq<u8>, l2: Seq<u8>, r2: Seq<u8>|
        (l1 != l2 || r1 != r2) && #[trigger] merkle_branch_hash(l1, r1) == #[trigger] merkle_branch_hash(l2, r2)
}

/// A witness that leads two different leaves to the same hash exhibits a
/// collision of the branch hash: without one, a witness binds its leaf.
pub proof fn lemma_witness_binds_leaf(path: Seq<(Seq<u8>, LeafRoute)>, a: Seq<u8>, b: Seq<u8>)
    requires
        a != b,
        fold_witness(path, a) == fold_witness(path, b),
    ensures
        has_branch_collision(),
    decreases path.len(),
{
    if path.len() > 0 {
        let c = path[0].0;
        let a2 = step(a, path[0]);
        let b2 = step(b, path[0]);
        if a2 == b2 {
            match path[0].1 {
                LeafRoute::Left => {
                    assert(merkle_branch_hash(a, c) == merkle_branch_hash(b, c));
                },
                LeafRoute::Right => {
                    assert(merkle_branch_hash(c, a) == merkle_branch_hash(c, b));
                },
            }
        } else {
            lemma_witness_binds_leaf(path.drop_first(), a2, b2);
        }
    }
}

/// A path from a level of `2^h` nodes has one segment per level below the root.
proof fn lemma_witness_path_len(level: Seq<Option<Seq<u8>>>, idx: int)
    requires
        is_pow2(level.len()),
    ensures
        pow2(witness_path(level, idx).len()) == level.len(),
    decreases level.len(),
{
    if level.len() <= 1 {
        vstd::arithmetic::power2::lemma2_to64();
    } else {
        lemma_next_level_shape(level);
        lemma_pow2_even(level.len());
        lemma_witness_path_len(next_level(level), idx / 2);
        lemma_pow2_unfold(witness_path(level, idx).len());
    }
}

/// A witness has one segment per level of the tree below the root: the bottom
/// level holds `2^len` nodes, `len` the number of segments.
pub proof fn lemma_witness_len(leaves: Seq<Seq<u8>>, leaf: Seq<u8>)
    requires
        merkle_witness(leaves, leaf) is Some,
    ensures
        pow2(merkle_witness(leaves, leaf)->0.len()) == base_level(leaves).len(),
{
    let base = base_level(leaves);
    lemma_base_level_shape(leaves);
    lemma_witness_path_len(base, choose|k: int| is_first_position(base, leaf, k));
}

// ---------------------------------------------------------------------------
// Laws on the shape of the tree, over the branch hash and the zero hash alone

/// A power of two is `2^e` for some `e`.
proof fn lemma_pow2_exponent(p: nat) -> (e: nat)
    requires
        is_pow2(p),
    ensures
        pow2(e) == p,
    decreases p,
{
    if p <= 1 {
        vstd::arithmetic::power2::lemma2_to64();
        0
    } else {
        let e = lemma_pow2_exponent(p / 2);
        lemma_pow2_unfold(e + 1);
        e + 1
    }
}

/// `next_pow2(n)` is `2^e` for some `e`, at least `n`, below `2n` for `n >= 1`,
/// and 1 for `n == 0`.
pub proof fn lemma_next_pow2_is_least_power(n: nat)
    ensures
        exists|e: nat| pow2(e) == next_pow2(n),
        n <= next_pow2(n),
        n >= 1 ==> next_pow2(n) < 2 * n,
        n == 0 ==> next_pow2(n) == 1,
{
    lemma_next_pow2(n);
    let e = lemma_pow2_exponent(next_pow2(n));
}

/// The bottom level of the tree holds the leaves in their given order, then
/// absent nodes up to `next_pow2(n)`; without leaves the tree is the single
/// zero hash.
pub proof fn lemma_bottom_level_holds_leaves_in_order(leaves: Seq<Seq<u8>>)
    ensures
        leaves.len() == 0 ==> merkle_tree(leaves) == seq![Some(zero_bytes())],
        forall|i: int| 0 <= i < leaves.len() ==> #[trigger] merkle_tree(leaves)[i] == Some(leaves[i]),
        forall|i: int| leaves.len() <= i < next_pow2(leaves.len()) && leaves.len() >= 1 ==> #[trigger] merkle_tree(leaves)[i] is None,
{
    let base = base_level(leaves);
    lemma_base_level_shape(leaves);
    lemma_tree_levels_len(base);
}

/// In the tree over `n >= 1` leaves, with `p = next_pow2(n)`, the node at
/// `p + i / 2` (for even `i` below `2p - 2`) is the parent of the nodes at `i`
/// and `i + 1`: absent when node `i` is absent, else the branch hash of node `i`
/// with node `i + 1`, the zero hash standing for an absent node `i + 1`.
pub proof fn lemma_parent_of_pair(leaves: Seq<Seq<u8>>, i: int)
    requires
        leaves.len() >= 1,
        i % 2 == 0,
        0 <= i < 2 * next_pow2(leaves.len()) - 2,
    ensures
        merkle_tree(leaves)[next_pow2(leaves.len()) + i / 2] == (match merkle_tree(leaves)[i] {
            None => None,
            Some(l) => Some(
                merkle_branch_hash(
                    l,
                    match merkle_tree(leaves)[i + 1] {
                        Some(r) => r,
                        None => zero_bytes(),
                    },
                ),
            ),
        }),
{
    lemma_base_level_shape(leaves);
    lemma_tree_parent(base_level(leaves), i);
}

/// The root of six leaves: the leaves pair up in order, and the lone pair of the
/// fifth and sixth leaves is hashed with the zero hash.
pub proof fn lemma_root_of_six_leaves(
    l1: Seq<u8>,
    l2: Seq<u8>,
    l3: Seq<u8>,
    l4: Seq<u8>,
    l5: Seq<u8>,
    l6: Seq<u8>,
)
    ensures
        merkle_root(seq![l1, l2, l3, l4, l5, l6]) == merkle_branch_hash(
            merkle_branch_hash(merkle_branch_hash(l1, l2), merkle_branch_hash(l3, l4)),
            merkle_branch_hash(merkle_branch_hash(l5, l6), zero_bytes()),
        ),
{
    let leaves = seq![l1, l2, l3, l4, l5, l6];
    assert(next_pow2(1) == 1);
    assert(next_pow2(2) == 2);
    assert(next_pow2(3) == 4);
    assert(next_pow2(6) == 8);
    let t = merkle_tree(leaves);
    lemma_bottom_level_holds_leaves_in_order(leaves);
    lemma_root_is_last_node(leaves);
    assert(t[0] == Some(l1) && t[1] == Some(l2) && t[2] == Some(l3));
    assert(t[3] == Some(l4) && t[4] == Some(l5) && t[5] == Some(l6));
    assert(t[6] is None && t[7] is None);
    lemma_parent_of_pair(leaves, 0);
    lemma_parent_of_pair(leaves, 2);
    lemma_parent_of_pair(leaves, 4);
    lemma_parent_of_pair(leaves, 6);
    lemma_parent_of_pair(leaves, 8);
    lemma_parent_of_pair(leaves, 10);
    lemma_parent_of_pair(leaves, 12);
}

// ---------------------------------------------------------------------------
// Laws on witnesses, over the branch hash and the zero hash alone

/// Evaluating a witness: the empty witness leaves the hash as it is, and a
/// first segment `(c, Left)` hashes the current node `x` as `H(x, c)`, a first
/// segment `(c, Right)` as `H(c, x)`, whatever follows it and wherever it stands.
pub proof fn lemma_fold_witness_steps(w: Seq<(Seq<u8>, LeafRoute)>, x: Seq<u8>, c: Seq<u8>)
    ensures
        fold_witness(Seq::empty(), x) == x,
        fold_witness(seq![(c, LeafRoute::Left)] + w, x) == fold_witness(w, merkle_branch_hash(x, c)),
        fold_witness(seq![(c, LeafRoute::Right)] + w, x) == fold_witness(w, merkle_branch_hash(c, x)),
{
    assert((seq![(c, LeafRoute::Left)] + w).drop_first() =~= w);
    assert((seq![(c, LeafRoute::Right)] + w).drop_first() =~= w);
}

/// In a flat tree whose bottom level has `m` nodes, the sibling of the node
/// at `idx / 2^j` on level `j` (the `width = m / 2^j` nodes from `2m - 2 width`
/// on), as a witness segment: for an even index the next node's hash (the zero
/// hash when absent) with route `Left`, for an odd one the previous node with
/// route `Right`.
pub open spec fn flat_sibling(t: Seq<Option<Seq<u8>>>, m: int, idx: int, j: int) -> (Seq<u8>, LeafRoute) {
    let width = m / (pow2(j as nat) as int);
    let start = 2 * m - 2 * width;
    let at = idx / (pow2(j as nat) as int);
    if at % 2 == 0 {
        (
            match t[start + at + 1] {
                Some(h) => h,
                None => zero_bytes(),
            },
            LeafRoute::Left,
        )
    } else {
        (t[start + at - 1]->0, LeafRoute::Right)
    }
}

/// In a flat tree whose bottom level has `m` nodes, the node at `idx / 2^j` on
/// level `j` has a present left sibling when its index is odd.
pub open spec fn flat_left_sibling_present(t: Seq<Option<Seq<u8>>>, m: int, idx: int, j: int) -> bool {
    let width = m / (pow2(j as nat) as int);
    let start = 2 * m - 2 * width;
    let at = idx / (pow2(j as nat) as int);
    at % 2 == 1 ==> t[start + at - 1] is Some
}

/// Segment `j` of the path from node `idx` of `level`, in the flat tree over
/// `level`: the level `j` up has `width = m / 2^j` nodes from `2m - 2 width` on,
/// the path node on it is the one at `idx / 2^j`, and the segment is its
/// sibling.
proof fn lemma_path_segment_in_tree(level: Seq<Option<Seq<u8>>>, idx: int, j: int)
    requires
        is_pow2(level.len()),
        filled_prefix(level),
        0 <= idx < level.len(),
        level[idx] is Some,
        0 <= j < witness_path(level, idx).len(),
    ensures
        ({
            let t = tree_levels(level);
            let m = level.len() as int;
            let width = m / (pow2(j as nat) as int);
            let start = 2 * m - 2 * width;
            let at = idx / (pow2(j as nat) as int);
            &&& 2 <= width <= m
            &&& 0 <= at < width
            &&& at % 2 == 0 ==> at + 1 < width
            &&& start + width <= 2 * m - 1
            &&& flat_left_sibling_present(t, m, idx, j)
            &&& witness_path(level, idx)[j] == flat_sibling(t, m, idx, j)
        }),
    decreases level.len(),
{
    let t = tree_levels(level);
    let m = level.len() as int;
    let next = next_level(level);
    lemma_next_level_shape(level);
    lemma_pow2_even(level.len());
    lemma_tree_levels_len(level);
    lemma_tree_levels_len(next);
    vstd::arithmetic::power2::lemma2_to64();
    let path = witness_path(level, idx);
    let rest = witness_path(next, idx / 2);
    assert(path =~= seq![sibling(level, idx)] + rest);
    if j == 0 {
        assert(m / (pow2(0) as int) == m);
        assert(idx / (pow2(0) as int) == idx);
        if idx % 2 == 1 {
            assert(level[idx - 1] is Some);
        }
    } else {
        let i2 = idx / 2;
        assert(2 * i2 <= idx);
        assert(level[2 * i2] is Some);
        assert(next[i2] == combine(level[2 * i2], level[2 * i2 + 1]));
        lemma_path_segment_in_tree(next, i2, j - 1);
        let t2 = tree_levels(next);
        let m2 = next.len() as int;
        let q = pow2((j - 1) as nat) as int;
        lemma_pow2_pos((j - 1) as nat);
        lemma_pow2_unfold(j as nat);
        assert(pow2(j as nat) as int == 2 * q);
        lemma_div_denominator(m, 2, q);
        lemma_div_denominator(idx, 2, q);
        assert(m / 2 == m2);
        let width = m2 / q;
        let start2 = 2 * m2 - 2 * width;
        let at = i2 / q;
        assert(m / (pow2(j as nat) as int) == width);
        assert(idx / (pow2(j as nat) as int) == at);
        assert(2 * m - 2 * width == m + start2);
        assert(t == level + t2);
        assert(path[j] == rest[j - 1]);
        if at % 2 == 0 {
            assert(t[m + start2 + at + 1] == t2[start2 + at + 1]);
        } else {
            assert(t[m + start2 + at - 1] == t2[start2 + at - 1]);
        }
    }
}

/// The witness of the first place `k` of a leaf among `n >= 1` leaves, with
/// `p = next_pow2(n)`: it has one segment per level below the root
/// (`2^len == p`); level `j` up is the `width = p / 2^j` nodes of the tree from
/// `2p - 2 width` on, the path node on it is the one at `k / 2^j`, and segment
/// `j` is its sibling: for an even index the next node's hash (the zero hash
/// when absent) with route `Left`, for an odd one the previous node, which is
/// present, with route `Right`.
pub proof fn lemma_witness_is_path_of_siblings(leaves: Seq<Seq<u8>>, leaf: Seq<u8>, k: int)
    requires
        0 <= k < leaves.len(),
        leaves[k] == leaf,
        forall|j: int| 0 <= j < k ==> leaves[j] != leaf,
    ensures
        merkle_witness(leaves, leaf) is Some,
        pow2(merkle_witness(leaves, leaf)->0.len()) == next_pow2(leaves.len()),
        forall|j: int|
            0 <= j < merkle_witness(leaves, leaf)->0.len() ==> #[trigger] merkle_witness(leaves, leaf)->0[j]
                == flat_sibling(merkle_tree(leaves), next_pow2(leaves.len()) as int, k, j)
                && flat_left_sibling_present(merkle_tree(leaves), next_pow2(leaves.len()) as int, k, j),
{
    let base = base_level(leaves);
    lemma_base_level_shape(leaves);
    assert(is_first_position(base, leaf, k));
    lemma_merkle_witness_at(leaves, leaf, k);
    lemma_witness_path_len(base, k);
    assert forall|j: int|
        0 <= j < merkle_witness(leaves, leaf)->0.len() implies #[trigger] merkle_witness(leaves, leaf)->0[j]
            == flat_sibling(merkle_tree(leaves), next_pow2(leaves.len()) as int, k, j)
            && flat_left_sibling_present(merkle_tree(leaves), next_pow2(leaves.len()) as int, k, j) by {
        lemma_path_segment_in_tree(base, k, j);
    }
}

/// With no leaves, the zero hash has the empty witness.
pub proof fn lemma_witness_of_no_leaves()
    ensures
        merkle_witness(Seq::empty(), zero_bytes()) == Some(Seq::<(Seq<u8>, LeafRoute)>::empty()),
{
    let leaves = Seq::<Seq<u8>>::empty();
    let base = base_level(leaves);
    assert(is_first_position(base, zero_bytes(), 0));
    lemma_merkle_witness_at(leaves, zero_bytes(), 0);
}

} // verus!
