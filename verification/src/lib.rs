//! Lossless Huffman compression over bit-granular streams.
//!
//! The crate is built in two layers: a bit-addressable stream abstraction
//! over an in-memory byte buffer, and a Huffman codec (frequency analysis,
//! deterministic tree construction, code derivation, and the encode/decode
//! walks) layered on top of it.

pub mod bit_model;
pub mod bit_stream;
pub mod hufftree;
pub mod codec;
