use cryptopals::bytes::Hex;
use cryptopals::xor::{edit_distance, repeating_key_xor, xor};

fn from_hex(text: &str) -> Vec<u8> {
    Hex(text.to_string()).decode().unwrap()
}

#[test]
fn test_xor() {
    let first = from_hex("1c0111001f010100061a024b53535009181c");
    let second = from_hex("686974207468652062756c6c277320657965");
    let xored = xor(&first, &second);

    assert_eq!(xored, from_hex("746865206b696420646f6e277420706c6179"));
}

#[test]
fn test_repeating_key_xor() {
    let plaintext: Vec<u8> =
        b"Burning 'em, if you ain't quick and nimble\nI go crazy when I hear a cymbal".to_vec();
    let key: &[u8] = b"ICE";

    let result = repeating_key_xor(&plaintext, key);

    let expected = from_hex(
        "0b3637272a2b2e63622c2e69692a23693a2a3c6324202d623d63343c2a26226324272765272\
        a282b2f20430a652e2c652a3124333a653e2b2027630c692b20283165286326302e27282f",
    );

    assert_eq!(result, expected);
}

#[test]
fn test_edit_distance() {
    let first = b"this is a test";
    let second = b"wokka wokka!!!";

    assert_eq!(edit_distance(first, second), 37);
}

#[test]
fn xor_twice_gives_back_the_original() {
    let a = b"attack at dawn".to_vec();
    let b = b"some other key".to_vec();
    let once = xor(&a, &b);
    assert_ne!(once, a);
    assert_eq!(xor(&once, &b), a);
}

#[test]
fn xor_stops_at_shorter_input() {
    assert_eq!(xor(&[1, 2, 3], &[1, 1]), vec![0, 3]);
    assert_eq!(xor(&[], &[1, 1]), Vec::<u8>::new());
}

#[test]
fn repeating_key_xor_with_empty_key_is_empty() {
    assert_eq!(repeating_key_xor(b"abc", b""), Vec::<u8>::new());
}

#[test]
fn repeating_key_xor_twice_gives_back_the_original() {
    let text = b"Burning 'em, if you ain't quick and nimble".to_vec();
    let once = repeating_key_xor(&text, b"ICE");
    assert_eq!(repeating_key_xor(&once, b"ICE"), text);
}

#[test]
fn edit_distance_is_symmetric_and_zero_on_itself() {
    let first = b"this is a test";
    let second = b"wokka wokka!!!";
    assert_eq!(edit_distance(second, first), 37);
    assert_eq!(edit_distance(first, first), 0);
    assert_eq!(edit_distance(&[0xff], &[0x00]), 8);
    assert_eq!(edit_distance(&[], &[0xff]), 0);
}
