//! Compact word-list codec: index-count coding, LZSS, Huffman and
//! arithmetic coding of a sorted word list, and the decoder that answers
//! membership and index queries from the packed tables.
pub mod bits;
pub mod lzss;
pub mod huffman;
pub mod indexing;
pub mod decoder;
pub mod roundtrip;
pub mod arith;
pub mod words;
