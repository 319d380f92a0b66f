//! Tokens: the units that a Huffman-coded block is made of, and how one is
//! read from the bit stream.

use crate::bitsource::field_at;
use crate::bitsource::lemma_field_value_bound;
use crate::bitsource::next_bit;
use crate::bitsource::read_bits;
use crate::bitsource::reader_bits;
use crate::bitsource::reader_cursor;
use crate::deflate::error::DecompressorError;
use crate::deflate::tables::distance_bases;
use crate::deflate::tables::distance_code;
use crate::deflate::tables::distance_extra_bits;
use crate::deflate::tables::length_bases;
use crate::deflate::tables::length_code;
use crate::deflate::tables::length_extra_bits;
use crate::huffman::canonical::resolve;
use crate::huffman::canonical::resolve_from;
use crate::huffman::canonical::Resolution;
use crate::huffman::tree::Step;
use crate::huffman::tree::Tree;
use bitreader::BitReader;
use vstd::prelude::*;

verus! {

/// One decoded unit of a Huffman-coded block.
#[derive(Clone, Copy, Debug, PartialEq, Eq, Structural)]
pub enum Token {
    /// One byte of output.
    Literal(u8),
    /// A copy of `length` bytes (3 to 258) that begins `distance` bytes
    /// (1 to 32768) before the end of the output.
    Reference { length: u16, distance: u16 },
    /// The end of the block.
    EndOfBlock,
}

/// Reading one symbol of the code `lengths` at `pos`: the symbol and the
/// position after its word.
pub open spec fn symbol_at(lengths: Seq<u8>, bits: Seq<bool>, pos: int) -> Result<
    (int, int),
    DecompressorError,
> {
    match resolve(lengths, bits, pos) {
        Resolution::Symbol { symbol, next } => Ok((symbol, next)),
        Resolution::Invalid => Err(DecompressorError::InvalidHuffmanCode),
        Resolution::EndOfInput => Err(DecompressorError::UnexpectedEndOfInput),
    }
}

/// The length that the length symbol `symbol` (257 to 285) and the extra
/// bits at `pos` stand for, and the position after them.
pub open spec fn length_at(symbol: int, bits: Seq<bool>, pos: int) -> Result<
    (nat, int),
    DecompressorError,
> {
    match field_at(bits, pos, length_extra_bits()[symbol - 257] as nat) {
        Ok((extra, next)) => Ok(((length_bases()[symbol - 257] + extra) as nat, next)),
        Err(e) => Err(e),
    }
}

/// The distance that the distance symbol and extra bits at `pos` stand for,
/// and the position after them.  The symbols 30 and above stand for none.
pub open spec fn distance_at(distances: Seq<u8>, bits: Seq<bool>, pos: int) -> Result<
    (nat, int),
    DecompressorError,
> {
    match symbol_at(distances, bits, pos) {
        Err(e) => Err(e),
        Ok((symbol, next)) => if symbol >= 30 {
            Err(DecompressorError::InvalidHuffmanCode)
        } else {
            match field_at(bits, next, distance_extra_bits()[symbol] as nat) {
                Ok((extra, after)) => Ok(((distance_bases()[symbol] + extra) as nat, after)),
                Err(e) => Err(e),
            }
        },
    }
}

/// The token at `pos` and the position after it.  The symbols below 256 are
/// literal bytes, 256 ends the block, 257 to 285 begin a back-reference,
/// and the symbols above stand for nothing.
pub open spec fn token_at(literals: Seq<u8>, distances: Seq<u8>, bits: Seq<bool>, pos: int) -> Result<
    (Token, int),
    DecompressorError,
> {
    match symbol_at(literals, bits, pos) {
        Err(e) => Err(e),
        Ok((symbol, next)) => if symbol < 256 {
            Ok((Token::Literal(symbol as u8), next))
        } else if symbol == 256 {
            Ok((Token::EndOfBlock, next))
        } else if symbol <= 285 {
            match length_at(symbol, bits, next) {
                Err(e) => Err(e),
                Ok((length, after)) => match distance_at(distances, bits, after) {
                    Err(e) => Err(e),
                    Ok((distance, end)) => Ok(
                        (Token::Reference { length: length as u16, distance: distance as u16 }, end),
                    ),
                },
            }
        } else {
            Err(DecompressorError::InvalidHuffmanCode)
        },
    }
}

/// Reads one symbol: walks the tree bit by bit from the root until a word
/// is complete.  Fails with `UnexpectedEndOfInput` if the stream ends within
/// a word, and with `InvalidHuffmanCode` if the bits begin no word.
pub fn parse_next_symbol(in_stream: &mut BitReader, huffman_codes: &Tree) -> (symbol: Result<
    u16,
    DecompressorError,
>)
    ensures
        reader_bits(*final(in_stream)) == reader_bits(*old(in_stream)),
        match symbol_at(
            huffman_codes@,
            reader_bits(*old(in_stream)),
            reader_cursor(*old(in_stream)) as int,
        ) {
            Ok((s, next)) => symbol == Ok::<u16, DecompressorError>(s as u16) && 0 <= s < 65536
                && reader_cursor(*final(in_stream)) == next,
            Err(e) => symbol == Err::<u16, DecompressorError>(e),
        },
{
    let ghost bits = reader_bits(*in_stream);
    let ghost start = reader_cursor(*in_stream) as int;
    let ghost lengths = huffman_codes@;
    let ghost mut path = Seq::<bool>::empty();
    let mut node: usize = huffman_codes.root();
    loop
        invariant
            reader_bits(*in_stream) == bits,
            bits == reader_bits(*old(in_stream)),
            start == reader_cursor(*old(in_stream)),
            lengths == huffman_codes@,
            reader_cursor(*in_stream) == start + path.len(),
            path.len() > 0 ==> start + path.len() <= bits.len(),
            forall|j: int| 0 <= j < path.len() ==> path[j] == bits[start + j],
            huffman_codes.path_to(node) == Some(path),
            resolve_from(lengths, bits, start, path.len()) == resolve(lengths, bits, start),
        decreases bits.len() - start - path.len(),
    {
        let bit = match next_bit(in_stream) {
            Ok(b) => b,
            Err(_) => {
                return Err(DecompressorError::UnexpectedEndOfInput);
            },
        };
        proof {
            assert(path.push(bit) =~= bits.subrange(start, start + path.len() + 1));
        }
        match huffman_codes.lookup(node, bit) {
            None => {
                return Err(DecompressorError::InvalidHuffmanCode);
            },
            Some(Step::Resolved(s)) => {
                return Ok(s);
            },
            Some(Step::Descend(next)) => {
                node = next;
                proof {
                    path = path.push(bit);
                }
            },
        }
    }
}

/// Reads one token: a literal/length symbol and, for a back-reference, the
/// extra bits of the length, the distance symbol and its extra bits.
pub fn parse_token(in_stream: &mut BitReader, literals: &Tree, distances: &Tree) -> (token: Result<
    Token,
    DecompressorError,
>)
    ensures
        reader_bits(*final(in_stream)) == reader_bits(*old(in_stream)),
        match token_at(
            literals@,
            distances@,
            reader_bits(*old(in_stream)),
            reader_cursor(*old(in_stream)) as int,
        ) {
            Ok((t, next)) => token == Ok::<Token, DecompressorError>(t) && reader_cursor(
                *final(in_stream),
            ) == next,
            Err(e) => token == Err::<Token, DecompressorError>(e),
        },
        token matches Ok(Token::Reference { length, distance }) ==> 3 <= length <= 258 && 1
            <= distance <= 32768,
{
    let ghost bits = reader_bits(*in_stream);
    let symbol: u16 = match parse_next_symbol(in_stream, literals) {
        Ok(s) => s,
        Err(e) => {
            return Err(e);
        },
    };
    if symbol < 256 {
        return Ok(Token::Literal(symbol as u8));
    }
    if symbol == 256 {
        return Ok(Token::EndOfBlock);
    }
    let (length_base, length_extra) = match length_code(symbol) {
        Some(entry) => entry,
        None => {
            return Err(DecompressorError::InvalidHuffmanCode);
        },
    };
    proof {
        lemma_field_value_bound(bits, reader_cursor(*in_stream) as int, length_extra as nat);
    }
    let length_more: u16 = match read_bits(in_stream, length_extra) {
        Ok(v) => v,
        Err(e) => {
            return Err(e);
        },
    };
    let length: u16 = length_base + length_more;
    let distance_symbol: u16 = match parse_next_symbol(in_stream, distances) {
        Ok(s) => s,
        Err(e) => {
            return Err(e);
        },
    };
    let (distance_base, distance_extra) = match distance_code(distance_symbol) {
        Some(entry) => entry,
        None => {
            return Err(DecompressorError::InvalidHuffmanCode);
        },
    };
    proof {
        lemma_field_value_bound(bits, reader_cursor(*in_stream) as int, distance_extra as nat);
    }
    let distance_more: u16 = match read_bits(in_stream, distance_extra) {
        Ok(v) => v,
        Err(e) => {
            return Err(e);
        },
    };
    let distance: u16 = distance_base + distance_more;
    Ok(Token::Reference { length, distance })
}

} // verus!
