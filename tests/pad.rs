use cryptopals::pad::pkcs7;

#[test]
fn test_pkcs7() {
    let mut block = Vec::from("YELLOW SUBMARINE");
    pkcs7(&mut block, 20);
    assert_eq!(block, Vec::from("YELLOW SUBMARINE\x04\x04\x04\x04"));
}

#[test]
fn pkcs7_adds_whole_block_to_full_block() {
    let mut block = Vec::from("YELLOW SUBMARINE");
    pkcs7(&mut block, 16);
    let mut expected = Vec::from("YELLOW SUBMARINE");
    expected.extend(std::iter::repeat(16u8).take(16));
    assert_eq!(block, expected);
}

#[test]
fn pkcs7_pads_empty_block() {
    let mut block = Vec::new();
    pkcs7(&mut block, 3);
    assert_eq!(block, vec![3, 3, 3]);
}

#[test]
fn pkcs7_uses_full_length_beyond_256() {
    let mut block = vec![0u8; 300];
    pkcs7(&mut block, 7);
    assert_eq!(block.len(), 301);
    assert_eq!(block[300], 1);
}
