use kaspa_hashes::{HASH_SIZE, ZERO_HASH};
use kaspa_merkle::hash::Hash32;
use kaspa_merkle::{calc_merkle_root, create_merkle_witness, verify_merkle_witness};

// test the case of the empty tree which gets missed in the more general tests
const HASH1: [u8; 32] = [0x1u8; HASH_SIZE];
const HASH2: [u8; 32] = [0x2u8; HASH_SIZE];
const HASH3: [u8; 32] = [0x3u8; HASH_SIZE];

fn zero() -> Hash32 {
    Hash32::from_bytes(ZERO_HASH.as_bytes())
}

#[test]
fn test_witnesses_empty() {
    let empty_vec: Vec<Hash32> = vec![];
    let empty_witness = create_merkle_witness(&empty_vec, zero()).unwrap();
    let merkle_root = calc_merkle_root(&empty_vec);

    //sanity checks
    assert_eq!(empty_vec, vec!());
    assert_eq!(merkle_root, zero());
    assert!(verify_merkle_witness(&empty_witness, zero(), merkle_root));
    //check false is returned for other hashes
    assert!(!verify_merkle_witness(&empty_witness, Hash32::from_bytes(HASH1), merkle_root));
    //check erronous case behaves as expected
    assert!(create_merkle_witness(&empty_vec, Hash32::from_bytes(HASH1)).is_none());
}

// test separately the single leaf and double leaf tree cases
#[test]
fn test_witnesses_basic() {
    let single_vec = vec![Hash32::from_bytes(HASH1)];
    let double_vec = vec![Hash32::from_bytes(HASH1), Hash32::from_bytes(HASH2)];
    assert!(verify_merkle_witness(
        &create_merkle_witness(&single_vec, Hash32::from_bytes(HASH1)).unwrap(),
        Hash32::from_bytes(HASH1),
        calc_merkle_root(&single_vec)
    ));
    assert!(verify_merkle_witness(
        &create_merkle_witness(&double_vec, Hash32::from_bytes(HASH1)).unwrap(),
        Hash32::from_bytes(HASH1),
        calc_merkle_root(&double_vec)
    ));
    assert!(verify_merkle_witness(
        &create_merkle_witness(&double_vec, Hash32::from_bytes(HASH2)).unwrap(),
        Hash32::from_bytes(HASH2),
        calc_merkle_root(&double_vec)
    ));
    //testing erronous case behaviour
    assert!(create_merkle_witness(&single_vec, Hash32::from_bytes(HASH2)).is_none());
    assert!(create_merkle_witness(&single_vec, Hash32::from_bytes(HASH3)).is_none());
    assert!(create_merkle_witness(&double_vec, Hash32::from_bytes(HASH3)).is_none());
}

#[test]
fn test_witnesses_consistency() {
    const TREE_LENGTH: usize = 30;

    let mut hash_vec = vec![];
    for i in 0..TREE_LENGTH {
        let temp = [(i + 2) as u8; HASH_SIZE]; //skip ZERO_HASH and HASH1
        hash_vec.push(Hash32::from_bytes(temp));
    }
    for _ in 0..TREE_LENGTH {
        //fill up missing space with "garbage"
        hash_vec.push(Hash32::from_bytes(HASH1));
    }
    for i in 1..TREE_LENGTH {
        //disregard the 0 edge case as it is tested separately
        for leaf_index in 0..i {
            let witness = create_merkle_witness(&hash_vec[..i], hash_vec[leaf_index]).unwrap();
            let merkle_root = calc_merkle_root(&hash_vec[..i]);
            assert!(verify_merkle_witness(&witness, hash_vec[leaf_index], merkle_root));
            //check false is returned when witness doesn't match
            assert!(!verify_merkle_witness(&witness, hash_vec[leaf_index + 1], merkle_root));
        }
        //testing erronous case behaviour
        let leaf_index = 2 * i - 1;
        assert!(create_merkle_witness(&hash_vec[..i], hash_vec[leaf_index]).is_none());
    }
}
