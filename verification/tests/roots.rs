use kaspa_hashes::{HasherBase, MerkleBranchHash, ZERO_HASH};
use kaspa_merkle::hash::Hash32;
use kaspa_merkle::{calc_merkle_root, create_merkle_witness, verify_merkle_witness, LeafRoute, WitnessSegment};

fn leaf(byte: u8) -> Hash32 {
    Hash32::from_bytes([byte; 32])
}

fn zero() -> Hash32 {
    Hash32::from_bytes(ZERO_HASH.as_bytes())
}

/// The branch hash computed directly with `kaspa_hashes`.
fn branch(left: Hash32, right: Hash32) -> Hash32 {
    let mut hasher = MerkleBranchHash::new();
    hasher
        .update(kaspa_hashes::Hash::from_bytes(left.as_bytes()))
        .update(kaspa_hashes::Hash::from_bytes(right.as_bytes()));
    Hash32::from_bytes(hasher.finalize().as_bytes())
}

#[test]
fn root_of_no_leaves_is_zero() {
    assert_eq!(calc_merkle_root(&[]), zero());
}

#[test]
fn root_of_one_leaf_is_the_leaf() {
    assert_eq!(calc_merkle_root(&[leaf(7)]), leaf(7));
    assert_eq!(create_merkle_witness(&[leaf(7)], leaf(7)).unwrap().len(), 0);
}

#[test]
fn root_of_two_leaves_is_their_branch_hash() {
    let root = calc_merkle_root(&[leaf(1), leaf(2)]);
    assert_eq!(root, branch(leaf(1), leaf(2)));
    assert_ne!(root, leaf(1));
    assert_ne!(root, leaf(2));
    assert_ne!(root, branch(leaf(2), leaf(1)));
}

#[test]
fn root_of_three_leaves_pads_with_zero() {
    let root = calc_merkle_root(&[leaf(1), leaf(2), leaf(3)]);
    assert_eq!(root, branch(branch(leaf(1), leaf(2)), branch(leaf(3), zero())));
}

#[test]
fn root_of_five_leaves_skips_absent_nodes() {
    let leaves = [leaf(1), leaf(2), leaf(3), leaf(4), leaf(5)];
    let left = branch(branch(leaf(1), leaf(2)), branch(leaf(3), leaf(4)));
    let right = branch(branch(leaf(5), zero()), zero());
    assert_eq!(calc_merkle_root(&leaves), branch(left, right));
}

#[test]
fn witness_of_third_leaf_of_three() {
    let leaves = [leaf(1), leaf(2), leaf(3)];
    let witness = create_merkle_witness(&leaves, leaf(3)).unwrap();
    assert_eq!(witness.len(), 2);
    assert_eq!(witness[0].companion_hash, zero());
    assert_eq!(witness[0].leaf_route, LeafRoute::Left);
    assert_eq!(witness[1].companion_hash, branch(leaf(1), leaf(2)));
    assert_eq!(witness[1].leaf_route, LeafRoute::Right);
    assert!(verify_merkle_witness(&witness, leaf(3), calc_merkle_root(&leaves)));
}

#[test]
fn witness_of_second_leaf_of_two() {
    let witness = create_merkle_witness(&[leaf(1), leaf(2)], leaf(2)).unwrap();
    assert_eq!(witness.len(), 1);
    assert_eq!(witness[0].companion_hash, leaf(1));
    assert_eq!(witness[0].leaf_route, LeafRoute::Right);
}

#[test]
fn witness_of_repeated_leaf_is_for_its_first_place() {
    let leaves = [leaf(1), leaf(2), leaf(1)];
    let witness = create_merkle_witness(&leaves, leaf(1)).unwrap();
    assert_eq!(witness[0].companion_hash, leaf(2));
    assert_eq!(witness[0].leaf_route, LeafRoute::Left);
    assert_eq!(witness[1].companion_hash, branch(leaf(1), zero()));
    assert_eq!(witness[1].leaf_route, LeafRoute::Left);
}

#[test]
fn no_witness_for_padding_or_strangers() {
    let leaves = [leaf(1), leaf(2), leaf(3)];
    assert!(create_merkle_witness(&leaves, zero()).is_none());
    assert!(create_merkle_witness(&leaves, leaf(4)).is_none());
}

#[test]
fn witness_does_not_verify_other_leaf_or_root() {
    let leaves = [leaf(1), leaf(2), leaf(3), leaf(4)];
    let witness = create_merkle_witness(&leaves, leaf(4)).unwrap();
    let root = calc_merkle_root(&leaves);
    assert!(verify_merkle_witness(&witness, leaf(4), root));
    assert!(!verify_merkle_witness(&witness, leaf(3), root));
    assert!(!verify_merkle_witness(&witness, leaf(4), leaf(4)));
}

#[test]
fn hand_built_witness_verifies() {
    let witness = vec![
        WitnessSegment { companion_hash: leaf(2), leaf_route: LeafRoute::Left },
        WitnessSegment { companion_hash: leaf(9), leaf_route: LeafRoute::Right },
    ];
    let expected = branch(leaf(9), branch(leaf(1), leaf(2)));
    assert!(verify_merkle_witness(&witness, leaf(1), expected));
    assert!(verify_merkle_witness(&[], leaf(5), leaf(5)));
    assert!(!verify_merkle_witness(&[], leaf(5), leaf(6)));
}

#[test]
fn leaf_route_defaults_to_left() {
    assert_eq!(LeafRoute::default(), LeafRoute::Left);
}

#[test]
fn hash_bytes_round_trip_and_equality() {
    let mut bytes = [0u8; 32];
    bytes[31] = 1;
    let h = Hash32::from_bytes(bytes);
    assert_eq!(h.as_bytes(), bytes);
    assert!(h.is_equal(&Hash32::from_bytes(bytes)));
    assert!(!h.is_equal(&zero()));
}

#[test]
fn witness_has_one_segment_per_level() {
    let leaves: Vec<Hash32> = (1..=5).map(leaf).collect();
    for l in &leaves {
        assert_eq!(create_merkle_witness(&leaves, *l).unwrap().len(), 3);
    }
    let four: Vec<Hash32> = (1..=4).map(leaf).collect();
    assert_eq!(create_merkle_witness(&four, leaf(4)).unwrap().len(), 2);
}
