//! The DEFLATE decoding engine and its parts.

pub mod codes;
pub mod engine;
pub mod error;
pub mod roundtrip;
pub mod tables;
pub mod token;
pub mod window;

pub use engine::inflate;
pub use engine::Decompressor;
pub use error::DecompressorError;
