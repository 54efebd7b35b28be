//! A byte-oriented Huffman codec.
//!
//! The crate counts how often each byte occurs in an input, builds a Huffman
//! tree from those counts with a fixed tie-breaking rule, derives a prefix-free
//! code table from the tree, and packs the coded input into bytes, most
//! significant bit first. Decoding rebuilds the same tree from the serialized
//! frequency table and walks the packed bits through it.
//!
//! Every executable function carries a contract over mathematical models
//! (`Seq`, `Map`, `nat`). Proof functions beside them state what holds across
//! functions: that decoding gives back what was encoded, that reading a header
//! gives back the table it was written from, that the codes are prefix-free,
//! and that no prefix-free code needs fewer bits than the one of the Huffman
//! tree.

pub mod bitstream;
pub mod codec;
pub mod codes;
pub mod error;
pub mod frequency;
pub mod header;
pub mod kraft;
pub mod optimality;
pub mod round_trip;
pub mod tree;

pub use bitstream::{BitReader, BitWriter};
pub use codec::{compress, decode, decode_symbols, decompress, encode, encode_symbols};
pub use codes::generate_codes;
pub use error::HuffmanError;
pub use frequency::{count_frequencies, total_count};
pub use header::{parse_header, serialize_header};
pub use tree::{build_huffman_tree, Node};
