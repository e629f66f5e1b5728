//! Byte and text codecs, repeating-key XOR, and a frequency-based attack on it.

pub mod bytestring;
pub mod languages;
pub mod crypt;
