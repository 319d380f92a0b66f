//! The canonical code of a list of code lengths, as mathematics.
//!
//! A code is given by one length per symbol, zero meaning that the symbol is
//! not used.  Shorter words come first; among words of one length, the lower
//! symbol comes first; words are numbered consecutively within a length, and
//! the first number of a length is twice the number that follows the last
//! word of the length before.

use crate::power::lemma_two_to_adds;
use crate::power::lemma_two_to_positive;
use crate::power::lemma_two_to_values;
use crate::power::two_to;
use vstd::arithmetic::div_mod::lemma_div_denominator;
use vstd::prelude::*;

verus! {

/// How many of the symbols below `upto` have the code length `len`.
pub open spec fn count_of(lengths: Seq<u8>, len: int, upto: int) -> nat
    decreases upto,
{
    if upto <= 0 {
        0
    } else {
        count_of(lengths, len, upto - 1) + if lengths[upto - 1] == len {
            1nat
        } else {
            0nat
        }
    }
}

/// The number of the first word of length `len`.
pub open spec fn first_code(lengths: Seq<u8>, len: int) -> nat
    decreases len,
{
    if len <= 1 {
        0
    } else {
        2 * (first_code(lengths, len - 1) + count_of(lengths, len - 1, lengths.len() as int))
    }
}

/// Whether `symbol` belongs to the alphabet and has a word.
pub open spec fn is_used(lengths: Seq<u8>, symbol: int) -> bool {
    0 <= symbol < lengths.len() && lengths[symbol] > 0
}

/// The number of the word of `symbol`.
pub open spec fn code_of(lengths: Seq<u8>, symbol: int) -> nat {
    first_code(lengths, lengths[symbol] as int) + count_of(lengths, lengths[symbol] as int, symbol)
}

/// The word of `len` bits that spells `value`, most significant bit first.
pub open spec fn word_of(value: nat, len: nat) -> Seq<bool> {
    Seq::new(len, |i: int| (value / two_to((len - 1 - i) as nat)) % 2 == 1)
}

/// The word of `symbol`, in the order in which its bits stand in a stream.
pub open spec fn codeword(lengths: Seq<u8>, symbol: int) -> Seq<bool> {
    word_of(code_of(lengths, symbol), lengths[symbol] as nat)
}

/// Whether the lengths give a prefix code: the number of each word fits in
/// the word's length, and no word begins another symbol's word.
pub open spec fn is_prefix_code(lengths: Seq<u8>) -> bool {
    &&& forall|s: int| #[trigger]
        is_used(lengths, s) ==> code_of(lengths, s) < two_to(lengths[s] as nat)
    &&& forall|s: int, t: int|
        #![trigger codeword(lengths, s), codeword(lengths, t)]
        is_used(lengths, s) && is_used(lengths, t) && s != t ==> !codeword(
            lengths,
            s,
        ).is_prefix_of(codeword(lengths, t))
}

/// The lengths from which a decoding tree can be built: at most 65536
/// symbols, no length above fifteen, and the words form a prefix code.
pub open spec fn admissible(lengths: Seq<u8>) -> bool {
    &&& lengths.len() <= 65536
    &&& forall|s: int| 0 <= s < lengths.len() ==> #[trigger] lengths[s] <= 15
    &&& is_prefix_code(lengths)
}

/// Whether `word` is the beginning, and not the whole, of the word of a used
/// symbol below `limit`.
pub open spec fn begins_word_below(lengths: Seq<u8>, limit: int, word: Seq<bool>) -> bool {
    exists|s: int|
        #![trigger codeword(lengths, s)]
        s < limit && is_used(lengths, s) && word.len() < lengths[s] && word.is_prefix_of(
            codeword(lengths, s),
        )
}

/// Whether `word` is the word of a used symbol.
pub open spec fn is_word(lengths: Seq<u8>, word: Seq<bool>) -> bool {
    exists|s: int| #![trigger codeword(lengths, s)] is_used(lengths, s) && codeword(lengths, s) == word
}

/// A symbol whose word is `word`; in a prefix code there is at most one.
pub open spec fn symbol_of(lengths: Seq<u8>, word: Seq<bool>) -> int {
    choose|s: int| #![trigger codeword(lengths, s)] is_used(lengths, s) && codeword(lengths, s) == word
}

/// Where a walk stands after the bits of `word`.
pub enum Walk {
    /// The bits spell the word of this symbol.
    Resolved(int),
    /// The bits begin at least one word and are none.
    Descend,
    /// No word begins with the bits.
    Stuck,
}

/// Where a walk through the code stands after the bits of `word`.
pub open spec fn walk(lengths: Seq<u8>, word: Seq<bool>) -> Walk {
    if is_word(lengths, word) {
        Walk::Resolved(symbol_of(lengths, word))
    } else if begins_word_below(lengths, lengths.len() as int, word) {
        Walk::Descend
    } else {
        Walk::Stuck
    }
}

/// What comes of decoding one symbol from a bit stream.
pub enum Resolution {
    /// The bits up to `next` spell the word of `symbol`.
    Symbol { symbol: int, next: int },
    /// The bits read begin no word of the code.
    Invalid,
    /// The stream ended within a word.
    EndOfInput,
}

/// Decoding one symbol from `bits` at `pos`, `depth` bits of which have been
/// walked already without reaching a word.
pub open spec fn resolve_from(lengths: Seq<u8>, bits: Seq<bool>, pos: int, depth: nat) -> Resolution
    decreases bits.len() - pos - depth,
{
    if pos + depth >= bits.len() {
        Resolution::EndOfInput
    } else {
        match walk(lengths, bits.subrange(pos, pos + depth + 1)) {
            Walk::Resolved(symbol) => Resolution::Symbol { symbol, next: pos + depth + 1 },
            Walk::Descend => resolve_from(lengths, bits, pos, depth + 1),
            Walk::Stuck => Resolution::Invalid,
        }
    }
}

/// Decoding one symbol from `bits` at `pos`: the first word of the code that
/// the bits from `pos` on spell.
pub open spec fn resolve(lengths: Seq<u8>, bits: Seq<bool>, pos: int) -> Resolution {
    resolve_from(lengths, bits, pos, 0)
}

/// Whether, for every length, the numbers of its words fit in that length:
/// Kraft's inequality, said of the canonical numbering.
pub open spec fn codes_fit(lengths: Seq<u8>) -> bool {
    forall|len: int|
        #![trigger first_code(lengths, len)]
        1 <= len <= 15 ==> first_code(lengths, len) + count_of(
            lengths,
            len,
            lengths.len() as int,
        ) <= two_to(len as nat)
}

/// Counting further never counts less.
pub proof fn lemma_count_monotonic(lengths: Seq<u8>, len: int, a: int, b: int)
    requires
        a <= b,
    ensures
        count_of(lengths, len, a) <= count_of(lengths, len, b),
    decreases b - a,
{
    if a < b {
        lemma_count_monotonic(lengths, len, a, b - 1);
    }
}

/// The first `k` bits of a word spell the value without its last bits.
pub proof fn lemma_word_prefix(value: nat, len: nat, k: nat)
    requires
        k <= len,
    ensures
        word_of(value, len).take(k as int) == word_of(value / two_to((len - k) as nat), k),
{
    let whole = word_of(value, len);
    let cut = two_to((len - k) as nat);
    let short = word_of(value / cut, k);
    lemma_two_to_positive((len - k) as nat);
    assert forall|i: int| 0 <= i < k implies whole.take(k as int)[i] == short[i] by {
        let low = two_to((k - 1 - i) as nat);
        lemma_two_to_positive((k - 1 - i) as nat);
        lemma_two_to_adds((len - k) as nat, (k - 1 - i) as nat);
        assert((len - k) as nat + (k - 1 - i) as nat == (len - 1 - i) as nat);
        lemma_div_denominator(value as int, cut as int, low as int);
        assert((value / cut) / low == value / two_to((len - 1 - i) as nat));
    }
    assert(whole.take(k as int) =~= short);
}

/// Two values that fit in `len` bits and spell the same word are equal.
pub proof fn lemma_word_unique(a: nat, b: nat, len: nat)
    requires
        a < two_to(len),
        b < two_to(len),
        word_of(a, len) == word_of(b, len),
    ensures
        a == b,
    decreases len,
{
    if len > 0 {
        let last = (len - 1) as int;
        assert(two_to(0) == 1);
        assert(two_to(1) == 2) by {
            lemma_two_to_values();
        }
        assert(word_of(a, len)[last] == ((a / two_to(0)) % 2 == 1));
        assert(word_of(b, len)[last] == ((b / two_to(0)) % 2 == 1));
        assert((a % 2 == 1) == (b % 2 == 1));
        lemma_word_prefix(a, len, (len - 1) as nat);
        lemma_word_prefix(b, len, (len - 1) as nat);
        assert((len - (len - 1) as nat) as nat == 1);
        lemma_word_unique(a / 2, b / 2, (len - 1) as nat);
    }
}

/// The first number of a longer length lies beyond every number of a
/// shorter length, shifted up to the longer length.
pub proof fn lemma_first_code_grows(lengths: Seq<u8>, short: int, long: int)
    requires
        1 <= short < long,
    ensures
        first_code(lengths, long) >= two_to((long - short) as nat) * (first_code(lengths, short)
            + count_of(lengths, short, lengths.len() as int)),
    decreases long,
{
    let reach = first_code(lengths, short) + count_of(lengths, short, lengths.len() as int);
    if long == short + 1 {
        assert(two_to(1) == 2) by {
            lemma_two_to_values();
        }
    } else {
        lemma_first_code_grows(lengths, short, long - 1);
        let step = two_to((long - 1 - short) as nat);
        assert(two_to((long - short) as nat) == 2 * step);
        assert((2 * step) * reach == 2 * (step * reach)) by (nonlinear_arith);
    }
}

/// Lengths whose numbers fit give a prefix code: the canonical numbering
/// keeps the words of one length apart, and puts every longer word beyond
/// the shorter ones.
pub proof fn lemma_fitting_codes_are_prefix_code(lengths: Seq<u8>)
    requires
        forall|s: int| 0 <= s < lengths.len() ==> #[trigger] lengths[s] <= 15,
        codes_fit(lengths),
    ensures
        is_prefix_code(lengths),
{
    let n = lengths.len() as int;
    assert forall|s: int| #[trigger] is_used(lengths, s) implies code_of(lengths, s) < two_to(
        lengths[s] as nat,
    ) by {
        lemma_code_fits(lengths, s);
    }
    assert forall|s: int, t: int|
        #![trigger codeword(lengths, s), codeword(lengths, t)]
        is_used(lengths, s) && is_used(lengths, t) && s != t implies !codeword(
        lengths,
        s,
    ).is_prefix_of(codeword(lengths, t)) by {
        let ls = lengths[s] as int;
        let lt = lengths[t] as int;
        let cs = code_of(lengths, s);
        let ct = code_of(lengths, t);
        lemma_code_fits(lengths, s);
        lemma_code_fits(lengths, t);
        if codeword(lengths, s).is_prefix_of(codeword(lengths, t)) {
            if ls == lt {
                assert(codeword(lengths, s) =~= codeword(lengths, t));
                lemma_word_unique(cs, ct, ls as nat);
                if s < t {
                    lemma_count_monotonic(lengths, ls, s + 1, t);
                } else {
                    lemma_count_monotonic(lengths, ls, t + 1, s);
                }
                assert(false);
            } else {
                let cut = two_to((lt - ls) as nat);
                lemma_two_to_positive((lt - ls) as nat);
                lemma_word_prefix(ct, lt as nat, ls as nat);
                assert(codeword(lengths, t).take(ls) =~= codeword(lengths, s));
                lemma_two_to_adds((lt - ls) as nat, ls as nat);
                assert(ct / cut < two_to(ls as nat)) by (nonlinear_arith)
                    requires
                        ct < cut * two_to(ls as nat),
                        cut > 0,
                ;
                lemma_word_unique(cs, ct / cut, ls as nat);
                lemma_first_code_grows(lengths, ls, lt);
                let reach = first_code(lengths, ls) + count_of(lengths, ls, n);
                lemma_count_monotonic(lengths, ls, s + 1, n);
                assert(ct / cut >= reach) by (nonlinear_arith)
                    requires
                        ct >= cut * reach,
                        cut > 0,
                ;
                assert(false);
            }
        }
    }
}

/// Where the numbers of every length fit, the number of each word does.
pub proof fn lemma_code_fits(lengths: Seq<u8>, s: int)
    requires
        forall|t: int| 0 <= t < lengths.len() ==> #[trigger] lengths[t] <= 15,
        codes_fit(lengths),
        is_used(lengths, s),
    ensures
        code_of(lengths, s) < two_to(lengths[s] as nat),
{
    let len = lengths[s] as int;
    assert(lengths[s] <= 15);
    lemma_count_monotonic(lengths, len, s + 1, lengths.len() as int);
    assert(first_code(lengths, len) + count_of(lengths, len, lengths.len() as int) <= two_to(
        len as nat,
    ));
}

/// The word of a symbol has as many bits as its code length says.
pub proof fn lemma_codeword_length(lengths: Seq<u8>, symbol: int)
    ensures
        codeword(lengths, symbol).len() == lengths[symbol],
{
}

/// Along the word of a used symbol of a prefix code, decoding descends until
/// the word is complete, and then resolves to that symbol.
pub proof fn lemma_resolve_along_word(
    lengths: Seq<u8>,
    bits: Seq<bool>,
    pos: int,
    symbol: int,
    depth: nat,
)
    requires
        is_prefix_code(lengths),
        is_used(lengths, symbol),
        0 <= pos,
        pos + lengths[symbol] <= bits.len(),
        bits.subrange(pos, pos + lengths[symbol]) == codeword(lengths, symbol),
        depth < lengths[symbol],
    ensures
        resolve_from(lengths, bits, pos, depth) == (Resolution::Symbol {
            symbol,
            next: pos + lengths[symbol],
        }),
    decreases lengths[symbol] - depth,
{
    let whole = codeword(lengths, symbol);
    let read = bits.subrange(pos, pos + depth + 1);
    assert(read =~= whole.subrange(0, (depth + 1) as int));
    assert(read.is_prefix_of(whole));
    if depth + 1 == lengths[symbol] {
        assert(read =~= whole);
        assert(is_word(lengths, read));
        let other = symbol_of(lengths, read);
        assert(is_used(lengths, other) && codeword(lengths, other) == read);
        if other != symbol {
            assert(codeword(lengths, other).is_prefix_of(codeword(lengths, symbol)));
        }
    } else {
        if is_word(lengths, read) {
            let other = symbol_of(lengths, read);
            assert(is_used(lengths, other) && codeword(lengths, other) == read);
            assert(other != symbol);
            assert(codeword(lengths, other).is_prefix_of(codeword(lengths, symbol)));
        }
        assert(begins_word_below(lengths, lengths.len() as int, read));
        lemma_resolve_along_word(lengths, bits, pos, symbol, depth + 1);
    }
}

/// In a prefix code, the word of every used symbol decodes to that symbol,
/// whatever follows it in the stream.
pub proof fn lemma_word_resolves_to_its_symbol(
    lengths: Seq<u8>,
    bits: Seq<bool>,
    pos: int,
    symbol: int,
)
    requires
        is_prefix_code(lengths),
        is_used(lengths, symbol),
        0 <= pos,
        pos + lengths[symbol] <= bits.len(),
        bits.subrange(pos, pos + lengths[symbol]) == codeword(lengths, symbol),
    ensures
        resolve(lengths, bits, pos) == (Resolution::Symbol { symbol, next: pos + lengths[symbol] }),
{
    lemma_resolve_along_word(lengths, bits, pos, symbol, 0);
}

/// Kraft's sum over the symbols below `upto`, counted in units of two to the
/// minus fifteenth: a used symbol with a word of `len` bits adds two to the
/// `15 - len`.
pub open spec fn kraft_sum(lengths: Seq<u8>, upto: int) -> nat
    decreases upto,
{
    if upto <= 0 {
        0
    } else {
        kraft_sum(lengths, upto - 1) + if 0 < lengths[upto - 1] <= 15 {
            two_to((15 - lengths[upto - 1]) as nat)
        } else {
            0
        }
    }
}

/// Kraft's inequality: the sum is at most one, which is two to the
/// fifteenth of its units.
pub open spec fn kraft_holds(lengths: Seq<u8>) -> bool {
    kraft_sum(lengths, lengths.len() as int) <= two_to(15)
}

/// The number that follows the last word of length `len`, were the symbols
/// below `upto` the only ones.
pub open spec fn reach(lengths: Seq<u8>, len: int, upto: int) -> nat
    decreases len,
{
    if len <= 0 {
        0
    } else {
        2 * reach(lengths, len - 1, upto) + count_of(lengths, len, upto)
    }
}

/// With all symbols counted, the reach of a length is its first number
/// plus the number of its words.
proof fn lemma_reach_is_first_code_and_count(lengths: Seq<u8>, len: int)
    requires
        1 <= len,
    ensures
        reach(lengths, len, lengths.len() as int) == first_code(lengths, len) + count_of(
            lengths,
            len,
            lengths.len() as int,
        ),
    decreases len,
{
    if len > 1 {
        lemma_reach_is_first_code_and_count(lengths, len - 1);
    } else {
        assert(reach(lengths, 0, lengths.len() as int) == 0);
    }
}

/// One more symbol, with a word of `lengths[upto]` bits, moves the reach of
/// every length that is no shorter by the share of that word.
proof fn lemma_reach_step(lengths: Seq<u8>, len: int, upto: int)
    requires
        0 <= len <= 15,
        0 <= upto,
    ensures
        reach(lengths, len, upto + 1) == reach(lengths, len, upto) + (if 0 < lengths[upto] <= len {
            two_to((len - lengths[upto]) as nat)
        } else {
            0
        }),
    decreases len,
{
    if len > 0 {
        lemma_reach_step(lengths, len - 1, upto);
        let own = lengths[upto] as int;
        if 0 < own < len {
            assert(two_to((len - own) as nat) == 2 * two_to((len - 1 - own) as nat));
        }
    }
}

/// The reach of length fifteen is Kraft's sum.
proof fn lemma_reach_is_kraft_sum(lengths: Seq<u8>, upto: int)
    requires
        0 <= upto,
    ensures
        reach(lengths, 15, upto) == kraft_sum(lengths, upto),
    decreases upto,
{
    if upto > 0 {
        lemma_reach_is_kraft_sum(lengths, upto - 1);
        lemma_reach_step(lengths, 15, upto - 1);
    } else {
        lemma_reach_of_none(lengths, 15);
    }
}

/// Without symbols nothing is reached.
proof fn lemma_reach_of_none(lengths: Seq<u8>, len: int)
    ensures
        reach(lengths, len, 0) == 0,
    decreases len,
{
    if len > 0 {
        lemma_reach_of_none(lengths, len - 1);
    }
}

/// Where the reach of a length fits, the reach of every shorter length does.
proof fn lemma_reach_fits_below(lengths: Seq<u8>, short: int, long: int, upto: int)
    requires
        0 <= short <= long,
        reach(lengths, long, upto) <= two_to(long as nat),
    ensures
        reach(lengths, short, upto) <= two_to(short as nat),
    decreases long - short,
{
    if short < long {
        assert(two_to(long as nat) == 2 * two_to((long - 1) as nat));
        lemma_reach_fits_below(lengths, short, long - 1, upto);
    }
}

/// The last of the symbols below `upto` that have the length `len`.
proof fn lemma_last_of_length(lengths: Seq<u8>, len: int, upto: int) -> (last: int)
    requires
        count_of(lengths, len, upto) > 0,
    ensures
        0 <= last < upto,
        lengths[last] == len,
        count_of(lengths, len, last) + 1 == count_of(lengths, len, upto),
    decreases upto,
{
    if lengths[upto - 1] == len {
        upto - 1
    } else {
        lemma_last_of_length(lengths, len, upto - 1)
    }
}

/// In a prefix code the numbers of every length fit.
proof fn lemma_prefix_code_fits(lengths: Seq<u8>, len: int)
    requires
        is_prefix_code(lengths),
        1 <= len,
    ensures
        first_code(lengths, len) + count_of(lengths, len, lengths.len() as int) <= two_to(
            len as nat,
        ),
    decreases len,
{
    let n = lengths.len() as int;
    if count_of(lengths, len, n) > 0 {
        let last = lemma_last_of_length(lengths, len, n);
        assert(is_used(lengths, last));
    } else if len > 1 {
        lemma_prefix_code_fits(lengths, len - 1);
    } else {
        assert(two_to(1) == 2) by {
            lemma_two_to_values();
        }
    }
}

/// Kraft's theorem for canonical codes: lengths of at most fifteen bits
/// give a prefix code exactly when their Kraft sum is at most one.
pub proof fn lemma_prefix_code_iff_kraft(lengths: Seq<u8>)
    requires
        forall|s: int| 0 <= s < lengths.len() ==> #[trigger] lengths[s] <= 15,
    ensures
        is_prefix_code(lengths) <==> kraft_holds(lengths),
{
    let n = lengths.len() as int;
    lemma_reach_is_kraft_sum(lengths, n);
    lemma_reach_is_first_code_and_count(lengths, 15);
    if is_prefix_code(lengths) {
        lemma_prefix_code_fits(lengths, 15);
    }
    if kraft_holds(lengths) {
        assert forall|len: int| #![trigger first_code(lengths, len)] 1 <= len <= 15 implies first_code(
            lengths,
            len,
        ) + count_of(lengths, len, n) <= two_to(len as nat) by {
            lemma_reach_fits_below(lengths, len, 15, n);
            lemma_reach_is_first_code_and_count(lengths, len);
        }
        lemma_fitting_codes_are_prefix_code(lengths);
    }
}

} // verus!
