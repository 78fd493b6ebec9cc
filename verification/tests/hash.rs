use lumen_fs::hash::hash_block;

#[test]
fn the_same_payload_always_hashes_to_the_same_address() {
    let a = hash_block(b"the same bytes");
    let b = hash_block(b"the same bytes");
    assert_eq!(a, b);
}

#[test]
fn a_single_flipped_bit_changes_the_address() {
    let a = hash_block(&[0b0000_0000]);
    let b = hash_block(&[0b0000_0001]);
    assert_ne!(a, b);
}
