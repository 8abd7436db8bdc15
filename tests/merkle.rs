use bc4py_extension::merkle::merkleroot_hash;
use bc4py_extension::utils::sha256double;

#[test]
fn sha256double_of_abc() {
    assert_eq!(
        sha256double(b"abc"),
        vec![
            79u8, 139, 66, 194, 45, 211, 114, 155, 81, 155, 166, 246, 141, 45, 167, 204, 91, 45, 96, 109, 5, 218,
            237, 90, 213, 18, 140, 192, 62, 108, 99, 88
        ]
    );
}

#[test]
fn merkle_root_of_empty_list_is_none() {
    assert_eq!(merkleroot_hash(&vec![]), None);
}

#[test]
fn merkle_root_of_one_hash_is_itself() {
    assert_eq!(merkleroot_hash(&vec![vec![5u8; 32]]), Some(vec![5u8; 32]));
}

#[test]
fn merkle_root_of_two_hashes() {
    let root = merkleroot_hash(&vec![vec![1u8; 32], vec![2u8; 32]]).unwrap();
    assert_eq!(
        root,
        vec![
            57u8, 206, 32, 190, 222, 130, 201, 107, 137, 8, 190, 196, 161, 87, 176, 156, 84, 155, 61, 185, 11, 155,
            71, 75, 218, 154, 233, 185, 3, 3, 16, 180
        ]
    );
}

#[test]
fn merkle_root_repeats_odd_last_hash() {
    let root = merkleroot_hash(&vec![vec![1u8; 32], vec![2u8; 32], vec![3u8; 32]]).unwrap();
    assert_eq!(
        root,
        vec![
            34u8, 62, 2, 63, 173, 241, 240, 83, 223, 38, 152, 136, 113, 248, 147, 200, 33, 194, 142, 223, 119, 214,
            74, 149, 94, 108, 42, 2, 213, 71, 189, 172
        ]
    );
}
