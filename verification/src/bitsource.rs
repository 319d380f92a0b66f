//! The bit source: a `bitreader::BitReader`, seen as a fixed sequence of bits
//! and a cursor into it.
//!
//! The reader is an outside type, so what this module says of it is believed,
//! not proved.  Everything built on top of it (multi-bit fields, byte order)
//! is verified against those statements.

use bitreader::BitReader;
use bitreader::BitReaderError;
use crate::deflate::error::DecompressorError;
use crate::power::lemma_two_to_adds;
use crate::power::lemma_two_to_monotonic;
use crate::power::lemma_two_to_values;
use crate::power::two_to;
use vstd::prelude::*;

verus! {

/// The reader of the `bitreader` crate, opaque to the verifier.
#[verifier::external_type_specification]
#[verifier::external_body]
pub struct ExBitReader<'a>(BitReader<'a>);

/// The error of the `bitreader` crate, opaque to the verifier.
#[verifier::external_type_specification]
#[verifier::external_body]
pub struct ExBitReaderError(BitReaderError);

/// The bits of the reader's byte slice, from the first bit of the slice up
/// to the reader's read limit, each byte from its most significant bit
/// down: the bits that lie behind the cursor, and those that the reader can
/// still hand out, in the order in which it hands them out.
pub uninterp spec fn reader_bits(reader: BitReader) -> Seq<bool>;

/// The reader's cursor: the index in `reader_bits` of the next bit to be read.
pub uninterp spec fn reader_cursor(reader: BitReader) -> nat;

/// Bit `k` of a byte, counted from the most significant bit.
pub open spec fn bit_from_top(byte: u8, k: int) -> bool {
    (byte >> ((7 - k) as u8)) & 1 == 1
}

/// Bit `k` of a byte, counted from the least significant bit.
pub open spec fn bit_from_bottom(byte: u8, k: int) -> bool {
    (byte >> (k as u8)) & 1 == 1
}

/// The bits of a byte sequence, most significant bit of each byte first.
pub open spec fn msb_first(bytes: Seq<u8>) -> Seq<bool> {
    Seq::new(8 * bytes.len(), |i: int| bit_from_top(bytes[i / 8], i % 8))
}

/// The bits of a byte sequence, least significant bit of each byte first:
/// the order in which a DEFLATE stream packs its bits.
pub open spec fn lsb_first(bytes: Seq<u8>) -> Seq<bool> {
    Seq::new(8 * bytes.len(), |i: int| bit_from_bottom(bytes[i / 8], i % 8))
}

/// The number of bits to skip from `cursor` to the next byte boundary.
pub open spec fn padding(cursor: nat) -> nat {
    ((8 - cursor % 8) % 8) as nat
}

/// Calls `BitReader::new`.  The new reader hands out all bits of `bytes`,
/// most significant bit of each byte first, and starts at the first.  The
/// crate counts bits in a `u64`, so the slice must be short enough for that.
#[verifier::external_body]
pub(crate) fn reader_over<'a>(bytes: &'a [u8]) -> (reader: BitReader<'a>)
    requires
        bytes@.len() * 8 <= u64::MAX,
    ensures
        reader_bits(reader) == msb_first(bytes@),
        reader_cursor(reader) == 0,
{
    BitReader::new(bytes)
}

/// Calls `BitReader::read_bool`.  It yields the bit under the cursor and
/// moves the cursor one bit on; at the read limit it fails and moves nothing.
#[verifier::external_body]
pub(crate) fn next_bit(reader: &mut BitReader) -> (bit: Result<bool, BitReaderError>)
    ensures
        reader_bits(*final(reader)) == reader_bits(*old(reader)),
        match bit {
            Ok(b) => {
                &&& reader_cursor(*old(reader)) < reader_bits(*old(reader)).len()
                &&& b == reader_bits(*old(reader))[reader_cursor(*old(reader)) as int]
                &&& reader_cursor(*final(reader)) == reader_cursor(*old(reader)) + 1
            },
            Err(_) => {
                &&& reader_cursor(*old(reader)) >= reader_bits(*old(reader)).len()
                &&& reader_cursor(*final(reader)) == reader_cursor(*old(reader))
            },
        },
{
    reader.read_bool()
}

/// Calls `BitReader::align` with an alignment of one byte.  It moves the
/// cursor to the next multiple of eight, or leaves it where it is when it
/// stands on one; it fails, moving nothing, when that would pass the read
/// limit.
#[verifier::external_body]
pub(crate) fn align_to_byte(reader: &mut BitReader) -> (done: Result<(), BitReaderError>)
    ensures
        reader_bits(*final(reader)) == reader_bits(*old(reader)),
        match done {
            Ok(_) => {
                &&& reader_cursor(*old(reader)) + padding(reader_cursor(*old(reader)))
                    <= reader_bits(*old(reader)).len()
                &&& reader_cursor(*final(reader)) == reader_cursor(*old(reader)) + padding(
                    reader_cursor(*old(reader)),
                )
            },
            Err(_) => {
                &&& reader_cursor(*old(reader)) + padding(reader_cursor(*old(reader)))
                    > reader_bits(*old(reader)).len()
                &&& reader_cursor(*final(reader)) == reader_cursor(*old(reader))
            },
        },
{
    reader.align(1)
}

/// Calls `BitReader::remaining`: the number of bits between the cursor and
/// the read limit.
#[verifier::external_body]
pub(crate) fn bits_left(reader: &BitReader) -> (left: u64)
    ensures
        reader_cursor(*reader) + left == reader_bits(*reader).len(),
{
    reader.remaining()
}

/// The value of the `count` bits from `pos` on, the first of them counting
/// least: the way in which a DEFLATE stream writes its fixed-width fields.
pub open spec fn field_value(bits: Seq<bool>, pos: int, count: nat) -> nat
    decreases count,
{
    if count == 0 {
        0
    } else {
        field_value(bits, pos, (count - 1) as nat) + if bits[pos + count - 1] {
            two_to((count - 1) as nat)
        } else {
            0
        }
    }
}

/// Reading a field of `count` bits at `pos`: its value and the position
/// after it, or `UnexpectedEndOfInput` where the stream ends before.
pub open spec fn field_at(bits: Seq<bool>, pos: int, count: nat) -> Result<
    (nat, int),
    DecompressorError,
> {
    if pos + count > bits.len() {
        Err(DecompressorError::UnexpectedEndOfInput)
    } else {
        Ok((field_value(bits, pos, count), pos + count))
    }
}

/// A field of `count` bits is below two to the `count`.
pub proof fn lemma_field_value_bound(bits: Seq<bool>, pos: int, count: nat)
    ensures
        field_value(bits, pos, count) < two_to(count),
    decreases count,
{
    if count > 0 {
        lemma_field_value_bound(bits, pos, (count - 1) as nat);
    }
}

/// Reads a field of `count` bits, the first bit read counting least.  Fails
/// with `UnexpectedEndOfInput` exactly when fewer than `count` bits are left,
/// and then reads nothing.
pub fn read_bits(reader: &mut BitReader, count: u8) -> (value: Result<u16, DecompressorError>)
    requires
        count <= 16,
    ensures
        reader_bits(*final(reader)) == reader_bits(*old(reader)),
        match value {
            Ok(v) => {
                &&& reader_cursor(*old(reader)) + count <= reader_bits(*old(reader)).len()
                &&& v == field_value(
                    reader_bits(*old(reader)),
                    reader_cursor(*old(reader)) as int,
                    count as nat,
                )
                &&& reader_cursor(*final(reader)) == reader_cursor(*old(reader)) + count
            },
            Err(e) => {
                &&& e == DecompressorError::UnexpectedEndOfInput
                &&& reader_cursor(*old(reader)) + count > reader_bits(*old(reader)).len()
                &&& reader_cursor(*final(reader)) == reader_cursor(*old(reader))
            },
        },
{
    let ghost bits = reader_bits(*reader);
    let ghost start = reader_cursor(*reader);
    if bits_left(reader) < count as u64 {
        return Err(DecompressorError::UnexpectedEndOfInput);
    }
    let mut value: u32 = 0;
    let mut weight: u32 = 1;
    let mut i: u8 = 0;
    while i < count
        invariant
            i <= count <= 16,
            reader_bits(*reader) == bits,
            bits == reader_bits(*old(reader)),
            start == reader_cursor(*old(reader)),
            reader_cursor(*reader) == start + i,
            start + count <= bits.len(),
            weight == two_to(i as nat),
            value == field_value(bits, start as int, i as nat),
            value < weight,
        decreases count - i,
    {
        proof {
            lemma_two_to_monotonic((i + 1) as nat, 16);
            lemma_two_to_values();
        }
        match next_bit(reader) {
            Ok(bit) => {
                if bit {
                    value = value + weight;
                }
            },
            Err(_) => {
                return Err(DecompressorError::UnexpectedEndOfInput);
            },
        }
        weight = weight * 2;
        i = i + 1;
    }
    proof {
        lemma_two_to_values();
        lemma_two_to_monotonic(count as nat, 16);
    }
    Ok(value as u16)
}

/// A byte with its bits in the opposite order.
pub open spec fn mirrored(byte: u8) -> u8 {
    ((byte & 1) << 7) | ((byte & 2) << 5) | ((byte & 4) << 3) | ((byte & 8) << 1) | ((byte & 16)
        >> 1) | ((byte & 32) >> 3) | ((byte & 64) >> 5) | ((byte & 128) >> 7)
}

/// Counting from the top of the mirrored byte is counting from the bottom
/// of the byte itself.
pub proof fn lemma_mirrored_bit(byte: u8, k: u8)
    by (bit_vector)
    requires
        k < 8,
    ensures
        ((mirrored(byte) >> (7 - k) as u8) & 1 == 1) == ((byte >> k) & 1 == 1),
{
}

/// Reverses the order of the bits in a byte.
pub fn mirror(byte: u8) -> (turned: u8)
    ensures
        turned == mirrored(byte),
{
    ((byte & 1) << 7) | ((byte & 2) << 5) | ((byte & 4) << 3) | ((byte & 8) << 1) | ((byte & 16)
        >> 1) | ((byte & 32) >> 3) | ((byte & 64) >> 5) | ((byte & 128) >> 7)
}

/// Reverses the order of the bits in every byte.  A reader over the result
/// hands out the bits of `bytes` least significant bit first.
pub fn mirror_all(bytes: &[u8]) -> (turned: Vec<u8>)
    ensures
        turned@.len() == bytes@.len(),
        forall|i: int| 0 <= i < bytes@.len() ==> #[trigger] turned@[i] == mirrored(bytes@[i]),
        msb_first(turned@) == lsb_first(bytes@),
{
    let mut turned: Vec<u8> = Vec::new();
    let mut i: usize = 0;
    while i < bytes.len()
        invariant
            i <= bytes.len(),
            turned@.len() == i,
            forall|j: int| 0 <= j < i ==> #[trigger] turned@[j] == mirrored(bytes@[j]),
        decreases bytes.len() - i,
    {
        turned.push(mirror(bytes[i]));
        i += 1;
    }
    proof {
        assert forall|j: int| 0 <= j < 8 * bytes@.len() implies #[trigger] msb_first(turned@)[j]
            == lsb_first(bytes@)[j] by {
            let k = (j % 8) as u8;
            assert(turned@[j / 8] == mirrored(bytes@[j / 8]));
            lemma_mirrored_bit(bytes@[j / 8], k);
        }
        assert(msb_first(turned@) =~= lsb_first(bytes@));
    }
    turned
}

/// A field of `low + high` bits is its `low` first bits, plus the `high`
/// bits after them counted from two to the `low`.
pub proof fn lemma_field_splits(bits: Seq<bool>, pos: int, low: nat, high: nat)
    ensures
        field_value(bits, pos, low + high) == field_value(bits, pos, low) + two_to(low)
            * field_value(bits, pos + low, high),
    decreases high,
{
    if high == 0 {
        assert(two_to(low) * field_value(bits, pos + low, 0) == 0) by (nonlinear_arith)
            requires
                field_value(bits, pos + low, 0) == 0,
        ;
    } else {
        let less = (high - 1) as nat;
        lemma_field_splits(bits, pos, low, less);
        lemma_two_to_adds(low, less);
        let top: nat = if bits[pos + low + less] {
            1
        } else {
            0
        };
        assert((low + high - 1) as nat == low + less);
        assert(field_value(bits, pos, low + high) == field_value(bits, pos, low + less) + top
            * two_to(low + less));
        assert(field_value(bits, pos + low, high) == field_value(bits, pos + low, less) + top
            * two_to(less));
        assert(two_to(low) * (field_value(bits, pos + low, less) + top * two_to(less)) == two_to(low)
            * field_value(bits, pos + low, less) + top * (two_to(low) * two_to(less)))
            by (nonlinear_arith);
    }
}

/// A byte is the sum of its bits, each at its own power of two.
pub proof fn lemma_byte_is_sum_of_bits(byte: u8)
    by (bit_vector)
    ensures
        byte == (if (byte >> 0u8) & 1 == 1 {
            1u32
        } else {
            0u32
        }) + (if (byte >> 1u8) & 1 == 1 {
            2u32
        } else {
            0u32
        }) + (if (byte >> 2u8) & 1 == 1 {
            4u32
        } else {
            0u32
        }) + (if (byte >> 3u8) & 1 == 1 {
            8u32
        } else {
            0u32
        }) + (if (byte >> 4u8) & 1 == 1 {
            16u32
        } else {
            0u32
        }) + (if (byte >> 5u8) & 1 == 1 {
            32u32
        } else {
            0u32
        }) + (if (byte >> 6u8) & 1 == 1 {
            64u32
        } else {
            0u32
        }) + (if (byte >> 7u8) & 1 == 1 {
            128u32
        } else {
            0u32
        }),
{
}

/// Read least significant bit first, the eight bits of a byte are the byte.
pub proof fn lemma_byte_field(bytes: Seq<u8>, index: int)
    requires
        0 <= index < bytes.len(),
    ensures
        field_value(lsb_first(bytes), 8 * index, 8) == bytes[index],
{
    let bits = lsb_first(bytes);
    let byte = bytes[index];
    lemma_two_to_values();
    lemma_byte_is_sum_of_bits(byte);
    assert((8 * index + 0) / 8 == index && (8 * index + 0) % 8 == 0);
    assert(bits[8 * index + 0] == ((byte >> 0u8) & 1 == 1));
    assert((8 * index + 1) / 8 == index && (8 * index + 1) % 8 == 1);
    assert(bits[8 * index + 1] == ((byte >> 1u8) & 1 == 1));
    assert((8 * index + 2) / 8 == index && (8 * index + 2) % 8 == 2);
    assert(bits[8 * index + 2] == ((byte >> 2u8) & 1 == 1));
    assert((8 * index + 3) / 8 == index && (8 * index + 3) % 8 == 3);
    assert(bits[8 * index + 3] == ((byte >> 3u8) & 1 == 1));
    assert((8 * index + 4) / 8 == index && (8 * index + 4) % 8 == 4);
    assert(bits[8 * index + 4] == ((byte >> 4u8) & 1 == 1));
    assert((8 * index + 5) / 8 == index && (8 * index + 5) % 8 == 5);
    assert(bits[8 * index + 5] == ((byte >> 5u8) & 1 == 1));
    assert((8 * index + 6) / 8 == index && (8 * index + 6) % 8 == 6);
    assert(bits[8 * index + 6] == ((byte >> 6u8) & 1 == 1));
    assert((8 * index + 7) / 8 == index && (8 * index + 7) % 8 == 7);
    assert(bits[8 * index + 7] == ((byte >> 7u8) & 1 == 1));
    reveal_with_fuel(field_value, 9);
}

/// Read least significant bit first, sixteen bits at a byte boundary are
/// two bytes, the lower byte first.
pub proof fn lemma_two_byte_field(bytes: Seq<u8>, index: int)
    requires
        0 <= index,
        index + 1 < bytes.len(),
    ensures
        field_value(lsb_first(bytes), 8 * index, 16) == bytes[index] + 256 * bytes[index + 1],
{
    lemma_two_to_values();
    lemma_field_splits(lsb_first(bytes), 8 * index, 8, 8);
    lemma_byte_field(bytes, index);
    lemma_byte_field(bytes, index + 1);
}

} // verus!
