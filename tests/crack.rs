use cryptopals::bytes::Hex;
use cryptopals::crack::{
    break_repeating_key_xor, break_repeating_key_xor_size, decrypt_single_byte_xor,
    find_single_byte_xor, recover_key, BreakError,
};
use cryptopals::keysize::{best_keysizes, keysize_score};
use cryptopals::score::{Score, Scorer};
use cryptopals::xor::repeating_key_xor;

const CORPUS: &[u8] = b"It was a bright cold day in April, and the clocks were striking thirteen. \
The quick brown fox jumps over the lazy dog while the farmer watches from the porch. \
Most of the people in the town had gone to the market early in the morning, and the streets were quiet. \
She said that she would come back in the evening, when the work was done and the children were asleep. \
There is nothing more pleasant than a long walk along the river on a warm summer afternoon. \
He looked at the letter for a long time before he opened it, and then he read it twice. ";

const LONG_TEXT: &[u8] = b"The old lighthouse keeper climbed the stairs every evening to light the lamp. \
He had done this for forty years, in rain and in wind, and he had never once missed a night. \
The ships that passed the rocks below did not know his name, but they knew his light, \
and that was enough for him. In the morning he would walk down to the village for bread and news. \
When the winter came the sea grew rough and grey, and the keeper spent long hours by the fire, \
reading old books and mending the nets that the fishermen brought him. His daughter wrote to him from the city \
every month, and he kept her letters in a box beside his bed.";

const ICE_TEXT: &[u8] =
    b"Burning 'em, if you ain't quick and nimble\nI go crazy when I hear a cymbal";

fn from_hex(text: &str) -> Vec<u8> {
    Hex(text.to_string()).decode().unwrap()
}

fn single_byte_encrypt(text: &[u8], key: u8) -> Vec<u8> {
    text.iter().map(|b| b ^ key).collect()
}

#[test]
fn test_decrypt_single_byte_xor() {
    let ciphertext =
        from_hex("1b37373331363f78151b7f2b783431333d78397828372d363c78373e783a393b3736");
    let freqs = Scorer::new(CORPUS);

    let (_, plaintext_guess, _) = decrypt_single_byte_xor(&ciphertext, &freqs);
    assert_eq!(&plaintext_guess[..], &b"Cooking MC's like a pound of bacon"[..]);
}

#[test]
fn single_byte_break_reports_key_and_score() {
    let ciphertext =
        from_hex("1b37373331363f78151b7f2b783431333d78397828372d363c78373e783a393b3736");
    let freqs = Scorer::new(CORPUS);
    let (score, plaintext, key) = decrypt_single_byte_xor(&ciphertext, &freqs);
    assert_eq!(key, b'X');
    assert_eq!(score, Score::new(589, 17));
    assert_eq!(score, freqs.score(&plaintext));
}

#[test]
fn single_byte_break_recovers_known_key() {
    let freqs = Scorer::new(CORPUS);
    let plaintext = b"the farmer watches the town from the porch";
    let ciphertext = single_byte_encrypt(plaintext, 0x5a);
    let (_, text, key) = decrypt_single_byte_xor(&ciphertext, &freqs);
    assert_eq!(key, 0x5a);
    assert_eq!(text, plaintext.to_vec());
}

#[test]
fn single_byte_break_prefers_smallest_key_on_ties() {
    let freqs = Scorer::new(b"");
    let (score, text, key) = decrypt_single_byte_xor(b"\x01\x02\x03", &freqs);
    assert_eq!(key, 0);
    assert_eq!(text, vec![1, 2, 3]);
    assert_eq!(score, Score::new(0, 1));
}

#[test]
fn single_byte_break_of_empty_ciphertext() {
    let freqs = Scorer::new(CORPUS);
    let (score, text, key) = decrypt_single_byte_xor(b"", &freqs);
    assert_eq!((score, text, key), (Score::new(0, 1), vec![], 0));
}

#[test]
fn test_find_single_byte_xor() {
    let freqs = Scorer::new(CORPUS);
    let hidden = single_byte_encrypt(b"Now that the party is jumping\n", 0x35);
    let noise_one = single_byte_encrypt(b"xq#9 zz!kq", 7);
    let noise_two = from_hex("0e3647e8592d35514a081243582536ed3de6734059001e3f535ce6271032");
    let ciphertexts: Vec<&[u8]> = vec![&noise_one, &hidden, &noise_two];

    let plaintext_guess = find_single_byte_xor(ciphertexts, &freqs).unwrap();

    assert_eq!(plaintext_guess, b"Now that the party is jumping\n");
}

#[test]
fn find_single_byte_xor_of_nothing_is_none() {
    let freqs = Scorer::new(CORPUS);
    assert_eq!(find_single_byte_xor(vec![], &freqs), None);
}

#[test]
fn find_single_byte_xor_keeps_first_on_ties() {
    let freqs = Scorer::new(b"");
    let first: &[u8] = b"\x01";
    let second: &[u8] = b"\x02";
    assert_eq!(find_single_byte_xor(vec![first, second], &freqs), Some(vec![1]));
}

#[test]
fn keysize_score_of_two_blocks() {
    assert_eq!(keysize_score(b"this is a testwokka wokka!!!", 14), Score::new(37, 14));
}

#[test]
fn keysize_score_averages_three_blocks() {
    let ciphertext = repeating_key_xor(ICE_TEXT, b"ICE");
    assert_eq!(keysize_score(&ciphertext, 3), Score::new(28, 9));
    assert_eq!(keysize_score(&ciphertext, 2), Score::new(3, 1));
}

#[test]
fn best_keysizes_ranks_all_candidates() {
    let ciphertext = repeating_key_xor(ICE_TEXT, b"ICE");
    assert_eq!(
        best_keysizes(&ciphertext),
        vec![
            12, 28, 24, 33, 35, 23, 26, 4, 6, 7, 8, 11, 36, 37, 25, 17, 14, 22, 32, 30, 27, 21,
            16, 29, 15, 18, 34, 13, 5, 2, 20, 9, 19, 31, 3, 10
        ]
    );
}

#[test]
fn best_keysizes_breaks_ties_by_length() {
    assert_eq!(best_keysizes(&[0u8; 10]), vec![2, 3, 4, 5]);
    assert_eq!(best_keysizes(&[0u8; 200]).len(), 38);
}

#[test]
fn best_keysizes_of_short_ciphertext_is_empty() {
    assert_eq!(best_keysizes(b"abc"), Vec::<usize>::new());
    assert_eq!(best_keysizes(b"abcd"), vec![2]);
}

#[test]
fn repeating_key_break_with_known_length_recovers_ice() {
    let freqs = Scorer::new(CORPUS);
    let ciphertext = repeating_key_xor(ICE_TEXT, b"ICE");
    assert_eq!(recover_key(&ciphertext, &freqs, 3), b"ICE".to_vec());
    assert_eq!(break_repeating_key_xor_size(&ciphertext, &freqs, 3), ICE_TEXT.to_vec());
}

#[test]
fn repeating_key_break_round_trip() {
    let freqs = Scorer::new(CORPUS);
    for key in [&b"ICE"[..], b"key", b"Secret", b"ab"] {
        let ciphertext = repeating_key_xor(LONG_TEXT, key);
        assert_eq!(break_repeating_key_xor(&ciphertext, &freqs), Ok(LONG_TEXT.to_vec()));
        assert_eq!(recover_key(&ciphertext, &freqs, key.len()), key.to_vec());
    }
}

#[test]
fn repeating_key_break_of_degenerate_input() {
    let freqs = Scorer::new(CORPUS);
    assert_eq!(break_repeating_key_xor(b"x", &freqs), Err(BreakError::DegenerateInput));
    assert_eq!(break_repeating_key_xor(b"", &freqs), Err(BreakError::DegenerateInput));
    assert_eq!(break_repeating_key_xor(b"xyz", &freqs), Err(BreakError::DegenerateInput));
    assert!(break_repeating_key_xor(b"wxyz", &freqs).is_ok());
}
