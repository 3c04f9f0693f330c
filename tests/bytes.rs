use cryptopals::bytes::{Base64, CodecError, Hex};

#[test]
fn hex_from_vec() {
    let hex = Hex::encode(&vec![99, 111]);
    assert_eq!(hex.0, "636f");
}

#[test]
fn vec_from_hex() {
    let vec = Hex("636f".to_string()).decode().unwrap();
    assert_eq!(vec, vec![99, 111]);
}

#[test]
fn base64_from_vec() {
    let base64 = Base64::encode("Man".as_bytes());
    assert_eq!(base64.0, "TWFu".to_string());
}

#[test]
fn vec_from_base64() {
    let vec = Base64("TWFu".to_string()).decode().unwrap();
    assert_eq!(vec, "Man".as_bytes().to_vec());
}

#[test]
fn hex_encodes_every_nibble() {
    let hex = Hex::encode(&[0x00, 0x0f, 0xa5, 0xff, 0x10]);
    assert_eq!(hex.0, "000fa5ff10");
}

#[test]
fn hex_of_empty_is_empty() {
    assert_eq!(Hex::encode(&[]).0, "");
    assert_eq!(Hex(String::new()).decode(), Ok(vec![]));
}

#[test]
fn hex_round_trip() {
    let bytes: Vec<u8> = (0..=255).collect();
    let hex = Hex::encode(&bytes);
    assert_eq!(hex.0.len(), 512);
    assert_eq!(hex.decode().unwrap(), bytes);
}

#[test]
fn hex_rejects_odd_length() {
    assert_eq!(Hex("636".to_string()).decode(), Err(CodecError::OddLength));
}

#[test]
fn hex_rejects_non_digit() {
    assert_eq!(Hex("6g".to_string()).decode(), Err(CodecError::InvalidHexDigit));
    assert_eq!(Hex("6F".to_string()).decode(), Err(CodecError::InvalidHexDigit));
    assert_eq!(Hex("63é".to_string()).decode(), Err(CodecError::InvalidHexDigit));
    assert_eq!(Hex("6z3".to_string()).decode(), Err(CodecError::InvalidHexDigit));
}

#[test]
fn base64_pads_partial_groups() {
    assert_eq!(Base64::encode(b"Ma").0, "TWE=");
    assert_eq!(Base64::encode(b"M").0, "TQ==");
    assert_eq!(Base64::encode(b"").0, "");
}

#[test]
fn base64_decodes_padded_text() {
    assert_eq!(Base64("TWE=".to_string()).decode(), Ok(b"Ma".to_vec()));
}

#[test]
fn base64_rejects_invalid_text() {
    assert_eq!(Base64("TW!u".to_string()).decode(), Err(CodecError::InvalidBase64));
    assert_eq!(Base64("TWF".to_string()).decode(), Err(CodecError::InvalidBase64));
}
