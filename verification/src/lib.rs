//! The Zstandard compression format: a compressor and a decompressor, with the proof that
//! the one undoes the other.
//!
//! [`decompress`] gives exactly what [`decode::decompress_from`] says of its input, and
//! [`compress`] exactly the bytes that [`compress::compressed`] names.  Every frame that the
//! compressor writes decompresses to the data it was made from, alone or with other frames
//! behind it.
//!
//! What the bytes of a frame mean is stated in [`frame_laws`], [`literal_laws`],
//! [`sequence_laws`], [`fse_laws`], [`huffman_laws`] and [`bit_laws`]; what the compressor
//! makes of its freedom in [`matcher_laws`], [`encode_laws`], [`code_laws`] and
//! [`huf_optimal`].

// Bits and bytes
pub mod bit_laws;
pub mod bitreader;
pub mod bits;
pub mod bitstream;
pub mod bytes;
pub mod constants;
pub mod error;

// Entropy coding
pub mod code_laws;
pub mod cost;
pub mod fse;
pub mod fse_decode;
pub mod fse_header;
pub mod fse_laws;
pub mod fse_table;
pub mod huf;
pub mod huf_codes;
pub mod huf_lengths;
pub mod huf_optimal;
pub mod huf_weights;
pub mod huffman;
pub mod huffman_laws;
pub mod normalize;

// Sections of a block
pub mod execute;
pub mod lit_section;
pub mod literal_laws;
pub mod literals;
pub mod matcher;
pub mod matcher_laws;
pub mod offsets;
pub mod seq_section;
pub mod sequence_laws;
pub mod sequences;

// Blocks and frames
pub mod block;
pub mod compress;
pub mod decode;
pub mod encode_laws;
pub mod frame;
pub mod frame_laws;
pub mod frames;

pub use crate::compress::{compress, compress_to_vec};
pub use crate::decode::decompress;
