//! The fixed tables of the format: length and distance codes, the code
//! lengths of the fixed Huffman codes, and the order in which a dynamic
//! block sends the lengths of its code-length code.

use crate::huffman::canonical::admissible;
use crate::huffman::canonical::codes_fit;
use crate::huffman::canonical::count_of;
use crate::huffman::canonical::first_code;
use crate::huffman::canonical::lemma_fitting_codes_are_prefix_code;
use crate::power::lemma_two_to_values;
use crate::power::two_to;
use vstd::prelude::*;

verus! {

/// The smallest length that each length symbol, from 257 on, stands for.
pub open spec fn length_bases() -> Seq<int> {
    seq![
        3, 4, 5, 6, 7, 8, 9, 10, 11, 13, 15, 17, 19, 23, 27, 31, 35, 43, 51, 59, 67, 83, 99, 115,
        131, 163, 195, 227, 258,
    ]
}

/// The number of extra bits that follow each length symbol, from 257 on.
pub open spec fn length_extra_bits() -> Seq<int> {
    seq![0, 0, 0, 0, 0, 0, 0, 0, 1, 1, 1, 1, 2, 2, 2, 2, 3, 3, 3, 3, 4, 4, 4, 4, 5, 5, 5, 5, 0]
}

/// The smallest distance that each distance symbol stands for.
pub open spec fn distance_bases() -> Seq<int> {
    seq![
        1, 2, 3, 4, 5, 7, 9, 13, 17, 25, 33, 49, 65, 97, 129, 193, 257, 385, 513, 769, 1025, 1537,
        2049, 3073, 4097, 6145, 8193, 12289, 16385, 24577,
    ]
}

/// The number of extra bits that follow each distance symbol.
pub open spec fn distance_extra_bits() -> Seq<int> {
    seq![
        0, 0, 0, 0, 1, 1, 2, 2, 3, 3, 4, 4, 5, 5, 6, 6, 7, 7, 8, 8, 9, 9, 10, 10, 11, 11, 12, 12, 13,
        13,
    ]
}

/// The symbols of the code-length alphabet, in the order in which a dynamic
/// block sends their lengths.
pub open spec fn code_length_order() -> Seq<int> {
    seq![16, 17, 18, 0, 8, 7, 9, 6, 10, 5, 11, 4, 12, 3, 13, 2, 14, 1, 15]
}

/// The code lengths of the fixed literal/length code.
pub open spec fn fixed_literal_lengths() -> Seq<u8> {
    Seq::new(
        288,
        |s: int|
            if s < 144 {
                8u8
            } else if s < 256 {
                9u8
            } else if s < 280 {
                7u8
            } else {
                8u8
            },
    )
}

/// The code lengths of the fixed distance code.
pub open spec fn fixed_distance_lengths() -> Seq<u8> {
    Seq::new(30, |s: int| 5u8)
}

/// The base length and the number of extra bits of a length symbol; `None`
/// for a symbol that is none.
pub fn length_code(symbol: u16) -> (entry: Option<(u16, u8)>)
    ensures
        entry is Some <==> 257 <= symbol <= 285,
        entry matches Some((base, extra)) ==> base == length_bases()[symbol - 257] && extra
            == length_extra_bits()[symbol - 257] && extra <= 5 && base + two_to(extra as nat)
            <= 259,
{
    proof {
        lemma_two_to_values();
    }
    match symbol {
        257 => Some((3, 0)),
        258 => Some((4, 0)),
        259 => Some((5, 0)),
        260 => Some((6, 0)),
        261 => Some((7, 0)),
        262 => Some((8, 0)),
        263 => Some((9, 0)),
        264 => Some((10, 0)),
        265 => Some((11, 1)),
        266 => Some((13, 1)),
        267 => Some((15, 1)),
        268 => Some((17, 1)),
        269 => Some((19, 2)),
        270 => Some((23, 2)),
        271 => Some((27, 2)),
        272 => Some((31, 2)),
        273 => Some((35, 3)),
        274 => Some((43, 3)),
        275 => Some((51, 3)),
        276 => Some((59, 3)),
        277 => Some((67, 4)),
        278 => Some((83, 4)),
        279 => Some((99, 4)),
        280 => Some((115, 4)),
        281 => Some((131, 5)),
        282 => Some((163, 5)),
        283 => Some((195, 5)),
        284 => Some((227, 5)),
        285 => Some((258, 0)),
        _ => None,
    }
}

/// The base distance and the number of extra bits of a distance symbol;
/// `None` for a symbol that is none.
pub fn distance_code(symbol: u16) -> (entry: Option<(u16, u8)>)
    ensures
        entry is Some <==> symbol < 30,
        entry matches Some((base, extra)) ==> base == distance_bases()[symbol as int] && extra
            == distance_extra_bits()[symbol as int] && extra <= 13 && base + two_to(extra as nat)
            <= 32769,
{
    proof {
        lemma_two_to_values();
    }
    match symbol {
        0 => Some((1, 0)),
        1 => Some((2, 0)),
        2 => Some((3, 0)),
        3 => Some((4, 0)),
        4 => Some((5, 1)),
        5 => Some((7, 1)),
        6 => Some((9, 2)),
        7 => Some((13, 2)),
        8 => Some((17, 3)),
        9 => Some((25, 3)),
        10 => Some((33, 4)),
        11 => Some((49, 4)),
        12 => Some((65, 5)),
        13 => Some((97, 5)),
        14 => Some((129, 6)),
        15 => Some((193, 6)),
        16 => Some((257, 7)),
        17 => Some((385, 7)),
        18 => Some((513, 8)),
        19 => Some((769, 8)),
        20 => Some((1025, 9)),
        21 => Some((1537, 9)),
        22 => Some((2049, 10)),
        23 => Some((3073, 10)),
        24 => Some((4097, 11)),
        25 => Some((6145, 11)),
        26 => Some((8193, 12)),
        27 => Some((12289, 12)),
        28 => Some((16385, 13)),
        29 => Some((24577, 13)),
        _ => None,
    }
}

/// The symbol of the code-length alphabet whose length a dynamic block
/// sends in place `slot`; 0 for a place that does not exist.
pub fn code_length_symbol(slot: usize) -> (symbol: usize)
    ensures
        slot < 19 ==> symbol == code_length_order()[slot as int],
        symbol < 19,
{
    match slot {
        0 => 16,
        1 => 17,
        2 => 18,
        3 => 0,
        4 => 8,
        5 => 7,
        6 => 9,
        7 => 6,
        8 => 10,
        9 => 5,
        10 => 11,
        11 => 4,
        12 => 12,
        13 => 3,
        14 => 13,
        15 => 2,
        16 => 14,
        17 => 1,
        18 => 15,
        _ => 0,
    }
}

/// Builds the code lengths of the fixed literal/length code.
pub fn fixed_literal_code_lengths() -> (lengths: Vec<u8>)
    ensures
        lengths@ == fixed_literal_lengths(),
{
    let mut lengths: Vec<u8> = Vec::new();
    let mut s: usize = 0;
    while s < 288
        invariant
            s <= 288,
            lengths@.len() == s,
            forall|t: int| 0 <= t < s ==> #[trigger] lengths@[t] == fixed_literal_lengths()[t],
        decreases 288 - s,
    {
        let len: u8 = if s < 144 {
            8
        } else if s < 256 {
            9
        } else if s < 280 {
            7
        } else {
            8
        };
        lengths.push(len);
        s += 1;
    }
    assert(lengths@ =~= fixed_literal_lengths());
    lengths
}

/// Builds the code lengths of the fixed distance code.
pub fn fixed_distance_code_lengths() -> (lengths: Vec<u8>)
    ensures
        lengths@ == fixed_distance_lengths(),
{
    let mut lengths: Vec<u8> = Vec::new();
    let mut s: usize = 0;
    while s < 30
        invariant
            s <= 30,
            lengths@.len() == s,
            forall|t: int| 0 <= t < s ==> #[trigger] lengths@[t] == 5,
        decreases 30 - s,
    {
        lengths.push(5);
        s += 1;
    }
    assert(lengths@ =~= fixed_distance_lengths());
    lengths
}

/// How many of the first `upto` symbols of the fixed literal/length code have
/// the length `len`.
pub open spec fn fixed_literal_count(len: int, upto: int) -> int {
    if len == 8 {
        (if upto < 144 {
            upto
        } else {
            144
        }) + (if upto > 280 {
            upto - 280
        } else {
            0
        })
    } else if len == 9 {
        if upto < 144 {
            0
        } else if upto < 256 {
            upto - 144
        } else {
            112
        }
    } else if len == 7 {
        if upto < 256 {
            0
        } else if upto < 280 {
            upto - 256
        } else {
            24
        }
    } else {
        0
    }
}

/// The fixed literal/length code has as many symbols of each length as
/// `fixed_literal_count` says.
proof fn lemma_fixed_literal_count(len: int, upto: int)
    requires
        0 <= upto <= 288,
    ensures
        count_of(fixed_literal_lengths(), len, upto) == fixed_literal_count(len, upto),
    decreases upto,
{
    if upto > 0 {
        lemma_fixed_literal_count(len, upto - 1);
    }
}

/// Every symbol of the fixed distance code has five bits.
proof fn lemma_fixed_distance_count(len: int, upto: int)
    requires
        0 <= upto <= 30,
    ensures
        count_of(fixed_distance_lengths(), len, upto) == (if len == 5 {
            upto
        } else {
            0
        }),
    decreases upto,
{
    if upto > 0 {
        lemma_fixed_distance_count(len, upto - 1);
    }
}

/// The two fixed codes are prefix codes, and trees can be built from them.
pub proof fn lemma_fixed_codes_admissible()
    ensures
        admissible(fixed_literal_lengths()),
        admissible(fixed_distance_lengths()),
{
    lemma_two_to_values();
    let lit = fixed_literal_lengths();
    assert(lit.len() == 288);
    lemma_fixed_literal_count(1, 288);
    assert(first_code(lit, 1) == 0);
    lemma_fixed_literal_count(2, 288);
    assert(first_code(lit, 2) == 0);
    lemma_fixed_literal_count(3, 288);
    assert(first_code(lit, 3) == 0);
    lemma_fixed_literal_count(4, 288);
    assert(first_code(lit, 4) == 0);
    lemma_fixed_literal_count(5, 288);
    assert(first_code(lit, 5) == 0);
    lemma_fixed_literal_count(6, 288);
    assert(first_code(lit, 6) == 0);
    lemma_fixed_literal_count(7, 288);
    assert(first_code(lit, 7) == 0);
    lemma_fixed_literal_count(8, 288);
    assert(first_code(lit, 8) == 48);
    lemma_fixed_literal_count(9, 288);
    assert(first_code(lit, 9) == 400);
    lemma_fixed_literal_count(10, 288);
    assert(first_code(lit, 10) == 1024);
    lemma_fixed_literal_count(11, 288);
    assert(first_code(lit, 11) == 2048);
    lemma_fixed_literal_count(12, 288);
    assert(first_code(lit, 12) == 4096);
    lemma_fixed_literal_count(13, 288);
    assert(first_code(lit, 13) == 8192);
    lemma_fixed_literal_count(14, 288);
    assert(first_code(lit, 14) == 16384);
    lemma_fixed_literal_count(15, 288);
    assert(first_code(lit, 15) == 32768);
    assert(codes_fit(lit));
    lemma_fitting_codes_are_prefix_code(lit);

    let dist = fixed_distance_lengths();
    assert(dist.len() == 30);
    lemma_fixed_distance_count(1, 30);
    assert(first_code(dist, 1) == 0);
    lemma_fixed_distance_count(2, 30);
    assert(first_code(dist, 2) == 0);
    lemma_fixed_distance_count(3, 30);
    assert(first_code(dist, 3) == 0);
    lemma_fixed_distance_count(4, 30);
    assert(first_code(dist, 4) == 0);
    lemma_fixed_distance_count(5, 30);
    assert(first_code(dist, 5) == 0);
    lemma_fixed_distance_count(6, 30);
    assert(first_code(dist, 6) == 60);
    lemma_fixed_distance_count(7, 30);
    assert(first_code(dist, 7) == 120);
    lemma_fixed_distance_count(8, 30);
    assert(first_code(dist, 8) == 240);
    lemma_fixed_distance_count(9, 30);
    assert(first_code(dist, 9) == 480);
    lemma_fixed_distance_count(10, 30);
    assert(first_code(dist, 10) == 960);
    lemma_fixed_distance_count(11, 30);
    assert(first_code(dist, 11) == 1920);
    lemma_fixed_distance_count(12, 30);
    assert(first_code(dist, 12) == 3840);
    lemma_fixed_distance_count(13, 30);
    assert(first_code(dist, 13) == 7680);
    lemma_fixed_distance_count(14, 30);
    assert(first_code(dist, 14) == 15360);
    lemma_fixed_distance_count(15, 30);
    assert(first_code(dist, 15) == 30720);
    assert(codes_fit(dist));
    lemma_fitting_codes_are_prefix_code(dist);
}

} // verus!
