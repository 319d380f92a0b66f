//! The ways in which decoding a stream can fail.

use vstd::prelude::*;

verus! {

/// Why a decode stopped.  Every error is final for the stream in which it
/// occurs: the decoder neither retries nor guesses.
#[derive(Debug, Clone, Copy, PartialEq, Eq, Structural)]
pub enum DecompressorError {
    /// The bit source ran dry before a required field was complete.
    UnexpectedEndOfInput,
    /// A block header carried the reserved block type `11`.
    ReservedBlockType,
    /// The code lengths sent for a dynamic block do not describe two usable
    /// codes: a repeat without a predecessor, a run past the announced count,
    /// or lengths that no prefix code can have.
    InvalidDynamicTableDescription,
    /// A back-reference reaches further back than the bytes produced so far,
    /// or than the 32768-byte window.
    InvalidDistance,
    /// The `NLEN` field of a stored block is not the complement of `LEN`.
    StoredBlockLengthMismatch,
    /// The bits read name no code of the active Huffman code.
    InvalidHuffmanCode,
}

impl DecompressorError {
    /// The text that `description` returns for each kind of error.
    pub open spec fn description_text(self) -> Seq<char> {
        match self {
            DecompressorError::UnexpectedEndOfInput => "Encountered unexpected EOF"@,
            DecompressorError::ReservedBlockType => "Reserved block type in deflate header"@,
            DecompressorError::InvalidDynamicTableDescription =>
                "Invalid code length description in dynamic block"@,
            DecompressorError::InvalidDistance => "Back-reference distance out of range"@,
            DecompressorError::StoredBlockLengthMismatch =>
                "Stored block length does not match its complement"@,
            DecompressorError::InvalidHuffmanCode => "Bits do not form a valid Huffman code"@,
        }
    }

    /// A short, fixed description of the error.
    pub fn description(&self) -> (text: &'static str)
        ensures
            text@ == self.description_text(),
    {
        match self {
            DecompressorError::UnexpectedEndOfInput => "Encountered unexpected EOF",
            DecompressorError::ReservedBlockType => "Reserved block type in deflate header",
            DecompressorError::InvalidDynamicTableDescription =>
                "Invalid code length description in dynamic block",
            DecompressorError::InvalidDistance => "Back-reference distance out of range",
            DecompressorError::StoredBlockLengthMismatch =>
                "Stored block length does not match its complement",
            DecompressorError::InvalidHuffmanCode => "Bits do not form a valid Huffman code",
        }
    }
}

} // verus!
