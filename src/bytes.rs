//! Hexadecimal and base64 text forms of byte strings.
use vstd::prelude::*;

verus! {

/// Why a text could not be decoded into bytes.
#[derive(Debug, Clone, Copy, PartialEq, Eq)]
pub enum CodecError {
    /// A character is not a lowercase hexadecimal digit.
    InvalidHexDigit,
    /// The hexadecimal text has an odd number of digits.
    OddLength,
    /// The text is not valid standard base64.
    InvalidBase64,
}

/// Bytes written as lowercase hexadecimal text, two digits per byte.
pub struct Hex(pub String);

/// Bytes written as standard base64 text, with padding.
pub struct Base64(pub String);

/// Whether `c` is a lowercase hexadecimal digit.
pub open spec fn is_hex_digit(c: char) -> bool {
    ('0' <= c && c <= '9') || ('a' <= c && c <= 'f')
}

/// The value of the hexadecimal digit `c`.
pub open spec fn digit_value(c: char) -> nat {
    if '0' <= c && c <= '9' {
        (c as nat - '0' as nat) as nat
    } else {
        (c as nat - 'a' as nat + 10) as nat
    }
}

/// The lowercase hexadecimal digit of value `v`, for `v < 16`.
pub open spec fn hex_char(v: nat) -> char {
    if v < 10 {
        (v + '0' as nat) as char
    } else {
        ((v - 10) + 'a' as nat) as char
    }
}

/// The hexadecimal text of `b`: the high digit, then the low digit, of each
/// byte.
pub open spec fn hex_encode(b: Seq<u8>) -> Seq<char> {
    Seq::new(
        2 * b.len(),
        |i: int|
            if i % 2 == 0 {
                hex_char(b[i / 2] as nat / 16)
            } else {
                hex_char(b[i / 2] as nat % 16)
            },
    )
}

/// Whether every character of `s` is a hexadecimal digit.
pub open spec fn all_hex_digits(s: Seq<char>) -> bool {
    forall|i: int| 0 <= i < s.len() ==> is_hex_digit(#[trigger] s[i])
}

/// The bytes of the hexadecimal text `s`, taken two digits at a time.
pub open spec fn hex_decode(s: Seq<char>) -> Seq<u8> {
    Seq::new(
        s.len() / 2,
        |i: int| (16 * digit_value(s[2 * i]) + digit_value(s[2 * i + 1])) as u8,
    )
}

/// The standard base64 text, with padding, of `b`.
pub uninterp spec fn base64_of(b: Seq<u8>) -> Seq<char>;

/// The bytes that the standard base64 text `s` decodes to, if it is valid.
pub uninterp spec fn base64_decoded(s: Seq<char>) -> Option<Seq<u8>>;

/// The length of `s` in bytes, encoded as UTF-8.
pub open spec fn byte_len(s: Seq<char>) -> nat {
    vstd::utf8::encode_utf8(s).len()
}

#[verifier::external_type_specification]
#[verifier::external_body]
pub struct ExBase64DecodeError(base64::DecodeError);

/// Relies on `String::push`: the character is appended.
#[verifier::external_body]
fn push_char(s: &mut String, c: char)
    ensures
        final(s)@ == old(s)@.push(c),
{
    s.push(c)
}

/// Relies on `base64::encode` (standard alphabet, padded): the text depends
/// on the bytes alone, with four characters for each started group of three
/// bytes.
#[verifier::external_body]
fn base64_encode(bytes: &[u8]) -> (r: String)
    requires
        4 * ((bytes@.len() + 2) / 3) <= usize::MAX,
    ensures
        r@ == base64_of(bytes@),
        r@.len() == 4 * ((bytes@.len() + 2) / 3),
{
    base64::encode(bytes)
}

/// Relies on `base64::decode` (standard alphabet): whether it succeeds, and
/// the bytes, depend on the text alone. It panics when the length in bytes
/// plus three overflows.
#[verifier::external_body]
fn base64_decode(text: &str) -> (r: Result<Vec<u8>, base64::DecodeError>)
    requires
        byte_len(text@) + 3 <= usize::MAX,
    ensures
        r is Ok <==> base64_decoded(text@) is Some,
        r is Ok ==> r->Ok_0@ == base64_decoded(text@)->0,
{
    base64::decode(text)
}

/// The lowercase hexadecimal digit of value `v`.
fn raw_to_char(v: u8) -> (r: char)
    requires
        v < 16,
    ensures
        r == hex_char(v as nat),
{
    if v < 10 {
        (v + 48) as char
    } else {
        (v - 10 + 97) as char
    }
}

impl Hex {
    /// The value of the hexadecimal digit `hexchar`, or none for any other
    /// character.
    fn char_to_raw(hexchar: u8) -> (r: Option<u8>)
        ensures
            r is Some <==> is_hex_digit(hexchar as char),
            r is Some ==> r->0 as nat == digit_value(hexchar as char) && r->0 < 16,
    {
        if 48 <= hexchar && hexchar <= 57 {
            Some(hexchar - 48)
        } else if 97 <= hexchar && hexchar <= 102 {
            Some(hexchar - 97 + 10)
        } else {
            None
        }
    }

    /// The hexadecimal text of `bytes`.
    pub fn encode(bytes: &[u8]) -> (r: Hex)
        ensures
            r.0@ == hex_encode(bytes@),
    {
        let mut text = String::new();
        let mut i: usize = 0;
        while i < bytes.len()
            invariant
                i <= bytes@.len(),
                text@ == hex_encode(bytes@).subrange(0, 2 * i),
            decreases bytes@.len() - i,
        {
            let b = bytes[i];
            push_char(&mut text, raw_to_char(b / 16));
            push_char(&mut text, raw_to_char(b % 16));
            proof {
                assert((2 * i) % 2 == 0 && (2 * i) / 2 == i as int);
                assert((2 * i + 1) % 2 == 1 && (2 * i + 1) / 2 == i as int);
            }
            i = i + 1;
            assert(text@ =~= hex_encode(bytes@).subrange(0, 2 * i));
        }
        assert(text@ =~= hex_encode(bytes@));
        Hex(text)
    }

    /// The bytes of the hexadecimal text: an error for a character that is
    /// not a lowercase hexadecimal digit, else for an odd number of digits.
    pub fn decode(&self) -> (r: Result<Vec<u8>, CodecError>)
        ensures
            r is Ok <==> all_hex_digits(self.0@) && self.0@.len() % 2 == 0,
            r is Ok ==> r->Ok_0@ == hex_decode(self.0@),
            r == Err::<Vec<u8>, CodecError>(CodecError::InvalidHexDigit) <==> !all_hex_digits(
                self.0@,
            ),
            r == Err::<Vec<u8>, CodecError>(CodecError::OddLength) <==> all_hex_digits(self.0@)
                && self.0@.len() % 2 == 1,
    {
        broadcast use vstd::string::is_ascii_spec_bytes;

        let text = self.0.as_str();
        let ghost s = text@;
        if !text.is_ascii() {
            proof {
                let i = choose|i: int| 0 <= i < s.len() && !('\0' <= #[trigger] s[i] <= '\u{7f}');
                assert(!is_hex_digit(s[i]));
            }
            return Err(CodecError::InvalidHexDigit);
        }
        let raw = text.as_bytes();
        assert(raw@ =~= Seq::new(s.len(), |i: int| s[i] as u8));
        let mut i: usize = 0;
        while i < raw.len()
            invariant
                raw@ == Seq::new(s.len(), |i: int| s[i] as u8),
                s == self.0@,
                vstd::utf8::is_ascii_chars(s),
                i <= s.len(),
                forall|t: int| 0 <= t < i ==> is_hex_digit(#[trigger] s[t]),
            decreases s.len() - i,
        {
            if Self::char_to_raw(raw[i]).is_none() {
                assert(raw@[i as int] == s[i as int] as u8);
                assert((s[i as int] as u8) as char == s[i as int]);
                assert(!is_hex_digit(s[i as int]));
                return Err(CodecError::InvalidHexDigit);
            }
            assert((s[i as int] as u8) as char == s[i as int]);
            i = i + 1;
        }
        if raw.len() % 2 == 1 {
            return Err(CodecError::OddLength);
        }
        let mut out: Vec<u8> = Vec::with_capacity(raw.len() / 2);
        let mut j: usize = 0;
        while j < raw.len() / 2
            invariant
                raw@ == Seq::new(s.len(), |i: int| s[i] as u8),
                s == self.0@,
                vstd::utf8::is_ascii_chars(s),
                all_hex_digits(s),
                s.len() % 2 == 0,
                j <= s.len() / 2,
                out@ == hex_decode(s).subrange(0, j as int),
            decreases s.len() / 2 - j,
        {
            let hi_char = raw[2 * j];
            let lo_char = raw[2 * j + 1];
            assert((s[2 * j as int] as u8) as char == s[2 * j as int]);
            assert((s[2 * j + 1] as u8) as char == s[2 * j + 1]);
            assert(is_hex_digit(s[2 * j as int]) && is_hex_digit(s[2 * j + 1]));
            let hi = match Self::char_to_raw(hi_char) {
                Some(v) => v,
                None => {
                    return Err(CodecError::InvalidHexDigit);
                },
            };
            let lo = match Self::char_to_raw(lo_char) {
                Some(v) => v,
                None => {
                    return Err(CodecError::InvalidHexDigit);
                },
            };
            out.push(hi * 16 + lo);
            j = j + 1;
            assert(out@ =~= hex_decode(s).subrange(0, j as int));
        }
        assert(out@ =~= hex_decode(s));
        Ok(out)
    }
}

impl Base64 {
    /// The base64 text of `bytes`.
    pub fn encode(bytes: &[u8]) -> (r: Base64)
        requires
            4 * ((bytes@.len() + 2) / 3) <= usize::MAX,
        ensures
            r.0@ == base64_of(bytes@),
            r.0@.len() == 4 * ((bytes@.len() + 2) / 3),
    {
        Base64(base64_encode(bytes))
    }

    /// The bytes of the base64 text, or an error when it is not valid
    /// standard base64.
    pub fn decode(&self) -> (r: Result<Vec<u8>, CodecError>)
        requires
            byte_len(self.0@) + 3 <= usize::MAX,
        ensures
            r is Ok <==> base64_decoded(self.0@) is Some,
            r is Ok ==> r->Ok_0@ == base64_decoded(self.0@)->0,
            r is Err ==> r == Err::<Vec<u8>, CodecError>(CodecError::InvalidBase64),
    {
        match base64_decode(self.0.as_str()) {
            Ok(bytes) => Ok(bytes),
            Err(_) => Err(CodecError::InvalidBase64),
        }
    }
}

} // verus!
