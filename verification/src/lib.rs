//! A verified decoder for the DEFLATE bitstream format.
//!
//! The decoder pulls bits from a [`bitreader::BitReader`], rebuilds the
//! canonical Huffman codes of each block, and expands length/distance
//! back-references against a window of the last 32768 bytes of output.
//! Every executable function carries a contract over a mathematical model
//! of the stream, and Verus proves each body against its contract.
//!
//! - [`bitsource`]: the bit reader as a sequence of bits and a cursor, and
//!   fixed-width fields read from it.
//! - [`huffman`]: canonical codes and the prefix tree that decodes them.
//! - [`deflate`]: block headers, tables, tokens, the window and the decoder.
//! - [`power`]: powers of two.

pub mod bitsource;
pub mod deflate;
pub mod huffman;
pub mod power;
