//! Lossless byte compression with deterministic Huffman codes.
//!
//! `compress` counts the bytes of its input, builds a Huffman tree from the counts with a
//! fixed tie-break, encodes each byte by its path in the tree, and writes the counts and
//! the packed bits into a container; `decompress` reads the container, rebuilds the same
//! tree from the counts and walks the bits down it.

pub mod bitsequence;
pub mod bytefreq;
pub mod bytestream;
pub mod codec;
pub mod freq;
pub mod freqmap;
pub mod node;
pub mod wzfile;

pub use bitsequence::{BitIterator, BitSequence};
pub use bytefreq::ByteFreq;
pub use bytestream::{ByteStream, long_to_bytes, min_byte_size, slice_to_long};
pub use codec::{FormatError, MAX_INPUT_LEN, compress, decompress};
pub use freq::gen_frequency;
pub use freqmap::{Freqmap, trim_map};
pub use node::{Node, huffman, prepare_huffman};
pub use wzfile::Wzfile;
