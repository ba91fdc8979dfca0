//! A block-based Huffman compressor and decompressor.
//!
//! The input byte stream is padded with zero bytes to a multiple of the
//! block size, grouped into fixed-size blocks, and a Huffman tree is built
//! over the block frequencies.  The container written by [`codec::encode`]
//! holds the serialized tree, a 32-bit block count (most-significant bit
//! first) and the prefix-coded body, packed eight bits per byte.
//! [`codec::decode`] is its exact inverse.

pub mod bits;
pub mod tree;
pub mod codes;
pub mod codec;

pub use codec::decode;
pub use codec::encode;
pub use codec::DecodeError;
pub use tree::cmp_byte_arrays;
pub use tree::find_pop;
pub use tree::pop_smallest;
pub use tree::Node;
