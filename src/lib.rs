//! Breaking XOR ciphers by frequency analysis, with the byte codecs and
//! padding that go with it.

pub mod score;
pub mod xor;
pub mod crack;
pub mod keysize;
pub mod pad;
pub mod bytes;
