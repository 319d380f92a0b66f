//! The two Huffman codes of a block: the fixed pair, and the pair that a
//! dynamic block describes in its header.

use crate::bitsource::field_value;
use crate::bitsource::lemma_field_value_bound;
use crate::bitsource::read_bits;
use crate::bitsource::reader_bits;
use crate::bitsource::reader_cursor;
use crate::deflate::error::DecompressorError;
use crate::deflate::tables::code_length_order;
use crate::deflate::tables::code_length_symbol;
use crate::deflate::tables::fixed_distance_code_lengths;
use crate::deflate::tables::fixed_distance_lengths;
use crate::deflate::tables::fixed_literal_code_lengths;
use crate::deflate::tables::fixed_literal_lengths;
use crate::deflate::tables::lemma_fixed_codes_admissible;
use crate::deflate::token::parse_next_symbol;
use crate::deflate::token::symbol_at;
use crate::huffman::canonical::admissible;
use crate::huffman::canonical::is_used;
use crate::huffman::tree::codes_from_lengths;
use crate::huffman::tree::Tree;
use crate::power::lemma_two_to_values;
use bitreader::BitReader;
use vstd::prelude::*;

verus! {

/// The codes of a block: one for literals and lengths, one for distances.
pub struct HuffmanCodes {
    pub literals: Tree,
    pub distances: Tree,
}

/// No code has no word: the empty list of lengths is admissible.
pub proof fn lemma_no_lengths_admissible()
    ensures
        admissible(Seq::<u8>::empty()),
{
    let none = Seq::<u8>::empty();
    assert forall|s: int| !is_used(none, s) by {}
}

/// A pair of codes without any word, for a decoder that has seen no block.
pub fn create_empty_huffman_codes() -> (codes: HuffmanCodes)
    ensures
        codes.literals@ == Seq::<u8>::empty(),
        codes.distances@ == Seq::<u8>::empty(),
{
    let none: Vec<u8> = Vec::new();
    proof {
        lemma_no_lengths_admissible();
    }
    let literals = codes_from_lengths(&none).unwrap();
    let distances = codes_from_lengths(&none).unwrap();
    HuffmanCodes { literals, distances }
}

/// The fixed codes: literal/length symbols 0 to 143 have 8 bits, 144 to 255
/// have 9, 256 to 279 have 7, 280 to 287 have 8; the 30 distance symbols
/// have 5 bits each.
pub fn create_fixed_huffman_codes() -> (codes: HuffmanCodes)
    ensures
        codes.literals@ == fixed_literal_lengths(),
        codes.distances@ == fixed_distance_lengths(),
{
    let literal_lengths = fixed_literal_code_lengths();
    let distance_lengths = fixed_distance_code_lengths();
    proof {
        lemma_fixed_codes_admissible();
    }
    let literals = codes_from_lengths(&literal_lengths).unwrap();
    let distances = codes_from_lengths(&distance_lengths).unwrap();
    HuffmanCodes { literals, distances }
}

/// The lengths of the code-length code after the first `count` of its
/// three-bit fields, which start at `pos` and come in the order of
/// `code_length_order`; the symbols whose field was not sent have length 0.
pub open spec fn code_length_lengths(bits: Seq<bool>, pos: int, count: nat) -> Seq<u8>
    decreases count,
{
    if count == 0 {
        Seq::new(19, |s: int| 0u8)
    } else {
        code_length_lengths(bits, pos, (count - 1) as nat).update(
            code_length_order()[count - 1],
            field_value(bits, pos + 3 * (count - 1), 3) as u8,
        )
    }
}

/// The number of extra bits that follow a repeat symbol (16, 17 or 18).
pub open spec fn run_extra_bits(symbol: int) -> nat {
    if symbol == 16 {
        2
    } else if symbol == 17 {
        3
    } else {
        7
    }
}

/// The shortest run that a repeat symbol (16, 17 or 18) stands for.
pub open spec fn run_base(symbol: int) -> nat {
    if symbol == 16 || symbol == 17 {
        3
    } else {
        11
    }
}

/// Reading code lengths with the code-length code `code` from `pos` on,
/// until `total` lengths are there, `sofar` being those read already.  A
/// symbol below 16 is a length; 16 repeats the length before it 3 to 6
/// times; 17 and 18 stand for 3 to 10 and 11 to 138 zeros.  A repeat with
/// nothing before it, or a run past `total`, is an error.
pub open spec fn lengths_from(
    code: Seq<u8>,
    bits: Seq<bool>,
    pos: int,
    sofar: Seq<u8>,
    total: nat,
) -> Result<(Seq<u8>, int), DecompressorError>
    decreases total - sofar.len(),
{
    if sofar.len() >= total {
        Ok((sofar, pos))
    } else {
        match symbol_at(code, bits, pos) {
            Err(e) => Err(e),
            Ok((symbol, next)) => if symbol < 16 {
                lengths_from(code, bits, next, sofar.push(symbol as u8), total)
            } else if next + run_extra_bits(symbol) > bits.len() {
                Err(DecompressorError::UnexpectedEndOfInput)
            } else {
                let run = run_base(symbol) + field_value(bits, next, run_extra_bits(symbol));
                if symbol == 16 && sofar.len() == 0 {
                    Err(DecompressorError::InvalidDynamicTableDescription)
                } else if sofar.len() + run > total {
                    Err(DecompressorError::InvalidDynamicTableDescription)
                } else {
                    let fill = if symbol == 16 {
                        sofar.last()
                    } else {
                        0u8
                    };
                    lengths_from(
                        code,
                        bits,
                        next + run_extra_bits(symbol),
                        sofar + Seq::new(run, |i: int| fill),
                        total,
                    )
                }
            },
        }
    }
}

/// What the header of a dynamic block describes.
pub struct Tables {
    /// The code lengths of the literal/length code.
    pub literals: Seq<u8>,
    /// The code lengths of the distance code.
    pub distances: Seq<u8>,
    /// The position after the header.
    pub next: int,
}

/// The header of a dynamic block at `pos`: five bits for the number of
/// literal/length lengths less 257, five for the number of distance lengths
/// less 1, four for the number of code-length fields less 4; then those
/// fields, and then the lengths themselves, written in the code-length
/// code.  The code-length code and the two codes described must be
/// admissible.
pub open spec fn dynamic_tables(bits: Seq<bool>, pos: int) -> Result<Tables, DecompressorError> {
    if pos + 14 > bits.len() {
        Err(DecompressorError::UnexpectedEndOfInput)
    } else {
        let hlit = field_value(bits, pos, 5) + 257;
        let hdist = field_value(bits, pos + 5, 5) + 1;
        let hclen = field_value(bits, pos + 10, 4) + 4;
        let body = pos + 14 + 3 * hclen;
        if body > bits.len() {
            Err(DecompressorError::UnexpectedEndOfInput)
        } else {
            let code = code_length_lengths(bits, pos + 14, hclen);
            if !admissible(code) {
                Err(DecompressorError::InvalidDynamicTableDescription)
            } else {
                match lengths_from(code, bits, body, Seq::empty(), hlit + hdist) {
                    Err(e) => Err(e),
                    Ok((all, next)) => {
                        let literals = all.subrange(0, hlit as int);
                        let distances = all.subrange(hlit as int, (hlit + hdist) as int);
                        if admissible(literals) && admissible(distances) {
                            Ok(Tables { literals, distances, next })
                        } else {
                            Err(DecompressorError::InvalidDynamicTableDescription)
                        }
                    },
                }
            }
        }
    }
}

/// Reads `total` code lengths written in the code-length code `code`.  A
/// header announces at most 288 lengths of one code and 32 of the other.
pub fn read_code_lengths(in_stream: &mut BitReader, code: &Tree, total: usize) -> (lengths: Result<
    Vec<u8>,
    DecompressorError,
>)
    requires
        total <= 320,
    ensures
        reader_bits(*final(in_stream)) == reader_bits(*old(in_stream)),
        match lengths_from(
            code@,
            reader_bits(*old(in_stream)),
            reader_cursor(*old(in_stream)) as int,
            Seq::empty(),
            total as nat,
        ) {
            Ok((all, next)) => lengths matches Ok(v) && v@ == all && v@.len() == total
                && reader_cursor(*final(in_stream)) == next,
            Err(e) => lengths matches Err(x) && x == e,
        },
{
    let ghost bits = reader_bits(*in_stream);
    let ghost start = reader_cursor(*in_stream) as int;
    let mut lengths: Vec<u8> = Vec::new();
    while lengths.len() < total
        invariant
            total <= 320,
            lengths@.len() <= total,
            reader_bits(*in_stream) == bits,
            bits == reader_bits(*old(in_stream)),
            start == reader_cursor(*old(in_stream)),
            lengths_from(code@, bits, reader_cursor(*in_stream) as int, lengths@, total as nat)
                == lengths_from(code@, bits, start, Seq::empty(), total as nat),
        decreases total - lengths.len(),
    {
        let symbol: u16 = match parse_next_symbol(in_stream, code) {
            Ok(s) => s,
            Err(e) => {
                return Err(e);
            },
        };
        if symbol < 16 {
            lengths.push(symbol as u8);
        } else {
            let extra: u8 = if symbol == 16 {
                2
            } else if symbol == 17 {
                3
            } else {
                7
            };
            let base: usize = if symbol == 16 || symbol == 17 {
                3
            } else {
                11
            };
            proof {
                lemma_field_value_bound(bits, reader_cursor(*in_stream) as int, extra as nat);
                lemma_two_to_values();
            }
            let more: u16 = match read_bits(in_stream, extra) {
                Ok(v) => v,
                Err(e) => {
                    return Err(e);
                },
            };
            let run: usize = base + more as usize;
            if symbol == 16 && lengths.len() == 0 {
                return Err(DecompressorError::InvalidDynamicTableDescription);
            }
            if lengths.len() + run > total {
                return Err(DecompressorError::InvalidDynamicTableDescription);
            }
            let fill: u8 = if symbol == 16 {
                lengths[lengths.len() - 1]
            } else {
                0
            };
            let ghost before = lengths@;
            let mut j: usize = 0;
            proof {
                assert(lengths@ =~= before + Seq::new(0, |i: int| fill));
            }
            while j < run
                invariant
                    j <= run,
                    lengths@ == before + Seq::new(j as nat, |i: int| fill),
                decreases run - j,
            {
                lengths.push(fill);
                j += 1;
                proof {
                    assert(lengths@ =~= before + Seq::new(j as nat, |i: int| fill));
                }
            }
        }
    }
    Ok(lengths)
}

/// Copies the lengths from `from` up to `to` into a list of their own.
fn slice_of(lengths: &Vec<u8>, from: usize, to: usize) -> (part: Vec<u8>)
    requires
        from <= to <= lengths.len(),
    ensures
        part@ == lengths@.subrange(from as int, to as int),
{
    let mut part: Vec<u8> = Vec::new();
    let mut i: usize = from;
    while i < to
        invariant
            from <= i <= to <= lengths.len(),
            part@ == lengths@.subrange(from as int, i as int),
        decreases to - i,
    {
        part.push(lengths[i]);
        i += 1;
        proof {
            assert(part@ =~= lengths@.subrange(from as int, i as int));
        }
    }
    part
}

/// Reads the header of a dynamic block and builds the two codes that it
/// describes.
pub fn read_dynamic_huffman_codes(in_stream: &mut BitReader) -> (codes: Result<
    HuffmanCodes,
    DecompressorError,
>)
    ensures
        reader_bits(*final(in_stream)) == reader_bits(*old(in_stream)),
        match dynamic_tables(reader_bits(*old(in_stream)), reader_cursor(*old(in_stream)) as int) {
            Ok(tables) => codes matches Ok(c) && c.literals@ == tables.literals && c.distances@
                == tables.distances && reader_cursor(*final(in_stream)) == tables.next,
            Err(e) => codes matches Err(x) && x == e,
        },
{
    let ghost bits = reader_bits(*in_stream);
    let ghost start = reader_cursor(*in_stream) as int;
    proof {
        lemma_two_to_values();
        lemma_field_value_bound(bits, start, 5);
        lemma_field_value_bound(bits, start + 5, 5);
        lemma_field_value_bound(bits, start + 10, 4);
    }
    let hlit: usize = match read_bits(in_stream, 5) {
        Ok(v) => v as usize + 257,
        Err(e) => {
            return Err(e);
        },
    };
    let hdist: usize = match read_bits(in_stream, 5) {
        Ok(v) => v as usize + 1,
        Err(e) => {
            return Err(e);
        },
    };
    let hclen: usize = match read_bits(in_stream, 4) {
        Ok(v) => v as usize + 4,
        Err(e) => {
            return Err(e);
        },
    };
    let mut code_lengths: Vec<u8> = Vec::new();
    let mut s: usize = 0;
    while s < 19
        invariant
            s <= 19,
            code_lengths@.len() == s,
            forall|t: int| 0 <= t < s ==> #[trigger] code_lengths@[t] == 0,
        decreases 19 - s,
    {
        code_lengths.push(0);
        s += 1;
    }
    proof {
        assert(code_lengths@ =~= code_length_lengths(bits, start + 14, 0));
    }
    let mut k: usize = 0;
    while k < hclen
        invariant
            k <= hclen <= 19,
            hclen == field_value(bits, start + 10, 4) + 4,
            start + 14 <= bits.len(),
            reader_bits(*in_stream) == bits,
            bits == reader_bits(*old(in_stream)),
            start == reader_cursor(*old(in_stream)),
            reader_cursor(*in_stream) == start + 14 + 3 * k,
            start + 14 + 3 * k <= bits.len(),
            code_lengths@.len() == 19,
            code_lengths@ == code_length_lengths(bits, start + 14, k as nat),
        decreases hclen - k,
    {
        proof {
            lemma_field_value_bound(bits, start + 14 + 3 * k, 3);
            lemma_two_to_values();
        }
        let len: u16 = match read_bits(in_stream, 3) {
            Ok(v) => v,
            Err(e) => {
                return Err(e);
            },
        };
        code_lengths.set(code_length_symbol(k), len as u8);
        k += 1;
    }
    let code = match codes_from_lengths(&code_lengths) {
        Some(tree) => tree,
        None => {
            return Err(DecompressorError::InvalidDynamicTableDescription);
        },
    };
    let all = match read_code_lengths(in_stream, &code, hlit + hdist) {
        Ok(v) => v,
        Err(e) => {
            return Err(e);
        },
    };
    let literal_lengths = slice_of(&all, 0, hlit);
    let distance_lengths = slice_of(&all, hlit, hlit + hdist);
    let literals = match codes_from_lengths(&literal_lengths) {
        Some(tree) => tree,
        None => {
            return Err(DecompressorError::InvalidDynamicTableDescription);
        },
    };
    let distances = match codes_from_lengths(&distance_lengths) {
        Some(tree) => tree,
        None => {
            return Err(DecompressorError::InvalidDynamicTableDescription);
        },
    };
    Ok(HuffmanCodes { literals, distances })
}

} // verus!
