//! A five-lane modular polynomial fingerprint of byte streams.
//!
//! The digest of a byte sequence is computed by packing the bytes into
//! 32-bit words, routing the words round-robin into five independent
//! modular accumulators, and serialising the five finalised lane values
//! as a 20-byte digest.

mod engine;
mod hasher;
mod text;
mod words;

pub use engine::digest_bytes;
pub use engine::lanes_wf;
pub use engine::run_words;
pub use hasher::digest_of;
pub use hasher::hash;
pub use hasher::Hasher;
pub use text::all_scalars;
pub use text::decode_utf16;
pub use text::decode_utf8;
pub use text::encode_utf16le;
pub use text::hash_text;
pub use text::lemma_bom_equivalence;
pub use text::lemma_normalization_fallback;
pub use text::lemma_utf16_round_trip;
pub use text::lemma_utf8_round_trip;
pub use text::normalize;
pub use text::normalized;
pub use text::utf16_encode;
pub use text::utf16le_encode;
pub use text::utf8_encode;
pub use words::word_stream;
