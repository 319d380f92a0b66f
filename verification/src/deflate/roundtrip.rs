//! Round trips: streams written down as the format prescribes decode to
//! the data that was put into them.

use crate::bitsource::field_value;
use crate::bitsource::lemma_byte_field;
use crate::bitsource::lemma_field_splits;
use crate::bitsource::lemma_field_value_bound;
use crate::bitsource::lemma_two_byte_field;
use crate::bitsource::lsb_first;
use crate::bitsource::padding;
use crate::deflate::engine::after_block;
use crate::deflate::engine::drain;
use crate::deflate::engine::header_at;
use crate::deflate::engine::inflated;
use crate::deflate::engine::initial_view;
use crate::deflate::engine::pull;
use crate::deflate::engine::stored_at;
use crate::deflate::engine::transition;
use crate::deflate::engine::BFinal;
use crate::deflate::engine::BType;
use crate::deflate::engine::DecoderView;
use crate::deflate::engine::Header;
use crate::deflate::engine::Pulled;
use crate::deflate::engine::State;
use crate::deflate::error::DecompressorError;
use crate::deflate::tables::fixed_distance_lengths;
use crate::deflate::tables::fixed_literal_lengths;
use crate::deflate::tables::lemma_fixed_codes_admissible;
use crate::deflate::token::token_at;
use crate::deflate::token::Token;
use crate::deflate::window::keep_last;
use crate::huffman::canonical::codeword;
use crate::huffman::canonical::is_used;
use crate::huffman::canonical::lemma_codeword_length;
use crate::huffman::canonical::lemma_word_resolves_to_its_symbol;
use crate::power::lemma_two_to_values;
use vstd::prelude::*;

verus! {

/// The bytes of a stream that holds `data` as one stored block, the last of
/// its stream: the header byte, the length and its complement in two bytes
/// each, the lower byte first, and the data.
pub open spec fn stored_stream(data: Seq<u8>) -> Seq<u8> {
    seq![
        1u8,
        (data.len() % 256) as u8,
        (data.len() / 256) as u8,
        ((65535 - data.len()) % 256) as u8,
        ((65535 - data.len()) / 256) as u8,
    ] + data
}

/// What is stored comes back: a stream that holds `data` as one stored
/// block decodes to `data`.
pub proof fn lemma_stored_stream_round_trips(data: Seq<u8>)
    requires
        data.len() <= 65535,
    ensures
        inflated(lsb_first(stored_stream(data))) == Ok::<Seq<u8>, DecompressorError>(data),
{
    let n = data.len() as int;
    let bytes = stored_stream(data);
    let bits = lsb_first(bytes);
    assert(bytes.len() == 5 + n);
    assert(bits.len() == 40 + 8 * n);
    lemma_two_to_values();

    // the header: the last block, stored
    lemma_byte_field(bytes, 0);
    lemma_field_splits(bits, 0, 1, 7);
    lemma_field_splits(bits, 1, 2, 5);
    lemma_field_value_bound(bits, 1, 2);
    lemma_field_value_bound(bits, 3, 5);
    assert(field_value(bits, 0, 1) == (if bits[0] {
        1nat
    } else {
        0nat
    })) by {
        reveal_with_fuel(field_value, 2);
    }
    let kind = field_value(bits, 1, 2);
    let rest = field_value(bits, 3, 5);
    assert(field_value(bits, 0, 8) == 1);
    assert(field_value(bits, 1, 7) == kind + 4 * rest);
    assert(bits[0] && kind == 0);
    let start = initial_view();
    let header = Header { bfinal: Some(true), btype: Some(BType::NoCompression) };
    let storing = DecoderView { header, state: State::CopyingStoredBytes, ..start };
    assert(header_at(bits, 0) == Ok::<(BFinal, BType, int), DecompressorError>(
        (true, BType::NoCompression, 3),
    ));
    assert(transition(start, bits, 0) == Ok::<Pulled, DecompressorError>(
        Pulled { decoder: storing, cursor: 3, bytes: Seq::empty() },
    ));

    // the body: the length, its complement, and the data
    assert(padding(3) == 5);
    lemma_two_byte_field(bytes, 1);
    lemma_two_byte_field(bytes, 3);
    assert(field_value(bits, 8, 16) == n);
    assert(field_value(bits, 24, 16) == 65535 - n);
    let copied = Seq::new(n as nat, |i: int| field_value(bits, 8 + 32 + 8 * i, 8) as u8);
    assert forall|i: int| 0 <= i < n implies copied[i] == data[i] by {
        lemma_byte_field(bytes, 5 + i);
        assert(8 * (5 + i) == 8 + 32 + 8 * i);
    }
    assert(copied =~= data);
    assert(stored_at(bits, 3) == Ok::<(Seq<u8>, int), DecompressorError>((data, 40 + 8 * n)));
    let done = storing.after_output(data).at(State::Done);
    assert(transition(storing, bits, 3) == Ok::<Pulled, DecompressorError>(
        Pulled { decoder: done, cursor: 40 + 8 * n, bytes: data },
    ));
    assert(pull(storing, bits, 3) == Ok::<Pulled, DecompressorError>(
        Pulled { decoder: done, cursor: 40 + 8 * n, bytes: data },
    ));
    assert(pull(start, bits, 0) == pull(storing, bits, 3));
    assert(Seq::<u8>::empty() + data =~= data);
}

/// The words of the fixed literal/length code for the first `count` bytes of
/// `data`, one after another.
pub open spec fn literal_words(data: Seq<u8>, count: nat) -> Seq<bool>
    decreases count,
{
    if count == 0 {
        Seq::empty()
    } else {
        literal_words(data, (count - 1) as nat) + codeword(
            fixed_literal_lengths(),
            data[count - 1] as int,
        )
    }
}

/// The bits of a stream that holds `data` as one block of literals in the
/// fixed code, the last of its stream: the header, the word of each byte,
/// and the word that ends the block.
#[verifier::opaque]
pub open spec fn literal_stream(data: Seq<u8>) -> Seq<bool> {
    seq![true, true, false] + literal_words(data, data.len()) + codeword(
        fixed_literal_lengths(),
        256,
    )
}

/// The decoder within the block of `literal_stream(data)`, after `count`
/// bytes.
#[verifier::opaque]
pub open spec fn among_literals(data: Seq<u8>, count: nat) -> DecoderView {
    DecoderView {
        header: Header {
            bfinal: Some(true),
            btype: Some(BType::CompressedWithFixedHuffmanCodes),
        },
        state: State::DecodingTokens,
        literals: fixed_literal_lengths(),
        distances: fixed_distance_lengths(),
        window: keep_last(data.take(count as int)),
    }
}

/// Where the word of byte `count` begins in `literal_stream(data)`: after
/// the header and the words of the bytes before it.
pub open spec fn literal_offset(data: Seq<u8>, count: nat) -> int {
    3 + literal_words(data, count).len() as int
}

/// The words of more bytes begin with the words of fewer.
proof fn lemma_literal_words_grow(data: Seq<u8>, fewer: nat, more: nat)
    requires
        fewer <= more,
    ensures
        literal_words(data, fewer).is_prefix_of(literal_words(data, more)),
    decreases more,
{
    if fewer < more {
        lemma_literal_words_grow(data, fewer, (more - 1) as nat);
    }
}

/// A part of a part is found in the whole, behind whatever stands before.
proof fn lemma_part_in_place(
    head: Seq<bool>,
    before: Seq<bool>,
    word: Seq<bool>,
    all: Seq<bool>,
    tail: Seq<bool>,
)
    requires
        (before + word).is_prefix_of(all),
    ensures
        head.len() + before.len() + word.len() <= (head + all + tail).len(),
        (head + all + tail).subrange(
            (head.len() + before.len()) as int,
            (head.len() + before.len() + word.len()) as int,
        ) == word,
{
    let with = before + word;
    let whole = head + all + tail;
    let from = (head.len() + before.len()) as int;
    assert(with =~= all.subrange(0, with.len() as int));
    assert forall|i: int| 0 <= i < word.len() implies whole.subrange(from, from + word.len())[i]
        == word[i] by {
        assert(whole[from + i] == all[before.len() + i]);
        assert(all.subrange(0, with.len() as int)[before.len() + i] == all[before.len() + i]);
        assert(with[before.len() + i] == word[i]);
    }
    assert(whole.subrange(from, from + word.len()) =~= word);
}

/// In `literal_stream(data)`, the word of byte `index` stands in its place.
proof fn lemma_literal_word_in_place(data: Seq<u8>, index: nat)
    requires
        index < data.len(),
    ensures
        literal_offset(data, index + 1) == literal_offset(data, index) + fixed_literal_lengths()[data[index as int] as int],
        literal_offset(data, index + 1) <= literal_stream(data).len(),
        literal_stream(data).subrange(
            literal_offset(data, index),
            literal_offset(data, index + 1),
        ) == codeword(fixed_literal_lengths(), data[index as int] as int),
{
    reveal(literal_stream);
    let head = seq![true, true, false];
    let all = literal_words(data, data.len());
    let tail = codeword(fixed_literal_lengths(), 256);
    let before = literal_words(data, index);
    let word = codeword(fixed_literal_lengths(), data[index as int] as int);
    lemma_literal_words_grow(data, index + 1, data.len());
    lemma_codeword_length(fixed_literal_lengths(), data[index as int] as int);
    assert(literal_words(data, index + 1) == before + word);
    lemma_part_in_place(head, before, word, all, tail);
    assert(head.len() == 3);
}

/// In `literal_stream(data)`, the word that ends the block stands last.
proof fn lemma_last_word_in_place(data: Seq<u8>)
    ensures
        literal_offset(data, data.len()) + 7 == literal_stream(data).len(),
        literal_stream(data).subrange(
            literal_offset(data, data.len()),
            literal_offset(data, data.len()) + 7,
        ) == codeword(fixed_literal_lengths(), 256),
        literal_stream(data)[0],
        literal_stream(data)[1],
        !literal_stream(data)[2],
{
    reveal(literal_stream);
    let head = seq![true, true, false];
    let all = literal_words(data, data.len());
    let tail = codeword(fixed_literal_lengths(), 256);
    lemma_codeword_length(fixed_literal_lengths(), 256);
    assert(head.len() == 3);
    assert(tail.len() == 7);
    assert((head + all + tail).subrange(3 + all.len() as int, 3 + all.len() as int + 7) =~= tail);
    assert((head + all + tail)[0] == head[0]);
    assert((head + all + tail)[1] == head[1]);
    assert((head + all + tail)[2] == head[2]);
}

/// Within the block, the next token is the literal of the next byte.
proof fn lemma_literal_token(data: Seq<u8>, count: nat)
    requires
        count < data.len(),
    ensures
        token_at(
            fixed_literal_lengths(),
            fixed_distance_lengths(),
            literal_stream(data),
            literal_offset(data, count),
        ) == Ok::<(Token, int), DecompressorError>(
            (Token::Literal(data[count as int]), literal_offset(data, count + 1)),
        ),
{
    let bits = literal_stream(data);
    let fixed = fixed_literal_lengths();
    let byte = data[count as int];
    lemma_fixed_codes_admissible();
    lemma_literal_word_in_place(data, count);
    assert(is_used(fixed, byte as int));
    lemma_word_resolves_to_its_symbol(fixed, bits, literal_offset(data, count), byte as int);
}

/// After the last byte, the next token ends the block.
proof fn lemma_last_token(data: Seq<u8>)
    ensures
        token_at(
            fixed_literal_lengths(),
            fixed_distance_lengths(),
            literal_stream(data),
            literal_offset(data, data.len()),
        ) == Ok::<(Token, int), DecompressorError>(
            (Token::EndOfBlock, literal_offset(data, data.len()) + 7),
        ),
{
    let bits = literal_stream(data);
    let fixed = fixed_literal_lengths();
    lemma_fixed_codes_admissible();
    lemma_last_word_in_place(data);
    assert(is_used(fixed, 256));
    lemma_word_resolves_to_its_symbol(fixed, bits, literal_offset(data, data.len()), 256);
}

/// Within the block, a pull puts out the next byte.
proof fn lemma_literal_pull(data: Seq<u8>, count: nat)
    requires
        count < data.len(),
    ensures
        pull(among_literals(data, count), literal_stream(data), literal_offset(data, count))
            == Ok::<Pulled, DecompressorError>(
            Pulled {
                decoder: among_literals(data, count + 1),
                cursor: literal_offset(data, count + 1),
                bytes: seq![data[count as int]],
            },
        ),
        !(among_literals(data, count + 1).state is Done),
{
    reveal(among_literals);
    let bits = literal_stream(data);
    let here = among_literals(data, count);
    let then = among_literals(data, count + 1);
    let byte = data[count as int];
    lemma_literal_token(data, count);
    assert(data.take((count + 1) as int) =~= data.take(count as int) + seq![byte]);
    assert(keep_last(keep_last(data.take(count as int)) + seq![byte]) =~= keep_last(
        data.take((count + 1) as int),
    ));
    assert(here.after_output(seq![byte]) == then);
    let pulled = Pulled {
        decoder: then,
        cursor: literal_offset(data, count + 1),
        bytes: seq![byte],
    };
    assert(transition(here, bits, literal_offset(data, count)) == Ok::<Pulled, DecompressorError>(
        pulled,
    ));
    assert(pulled.bytes.len() > 0);
}

/// After the last byte, a pull ends the stream and puts out nothing.
proof fn lemma_last_pull(data: Seq<u8>) -> (pulled: Pulled)
    ensures
        pull(
            among_literals(data, data.len()),
            literal_stream(data),
            literal_offset(data, data.len()),
        ) == Ok::<Pulled, DecompressorError>(pulled),
        pulled.decoder.state is Done,
        pulled.bytes == Seq::<u8>::empty(),
{
    reveal(among_literals);
    let bits = literal_stream(data);
    let here = among_literals(data, data.len());
    lemma_last_token(data);
    let pulled = Pulled {
        decoder: here.at(State::Done),
        cursor: literal_offset(data, data.len()) + 7,
        bytes: Seq::empty(),
    };
    assert(after_block(here.header) == State::Done);
    assert(transition(here, bits, literal_offset(data, data.len())) == Ok::<
        Pulled,
        DecompressorError,
    >(pulled));
    pulled
}

/// Decoding to the end is what the first pull puts out, and then decoding
/// to the end from where that pull has left off.
proof fn lemma_drain_unfolds(
    decoder: DecoderView,
    bits: Seq<bool>,
    pos: int,
    sofar: Seq<u8>,
    pulled: Pulled,
)
    requires
        pull(decoder, bits, pos) == Ok::<Pulled, DecompressorError>(pulled),
    ensures
        drain(decoder, bits, pos, sofar) == (if pulled.decoder.state is Done {
            Ok::<Seq<u8>, DecompressorError>(sofar + pulled.bytes)
        } else {
            drain(pulled.decoder, bits, pulled.cursor, sofar + pulled.bytes)
        }),
{
}

/// From within the block, the decoder puts out the bytes that are left and
/// stops.
proof fn lemma_literals_drain(data: Seq<u8>, count: nat, sofar: Seq<u8>)
    requires
        count <= data.len(),
    ensures
        drain(among_literals(data, count), literal_stream(data), literal_offset(data, count), sofar)
            == Ok::<Seq<u8>, DecompressorError>(sofar + data.skip(count as int)),
    decreases data.len() - count,
{
    let bits = literal_stream(data);
    let here = among_literals(data, count);
    let pos = literal_offset(data, count);
    if count < data.len() {
        let byte = data[count as int];
        let pulled = Pulled {
            decoder: among_literals(data, count + 1),
            cursor: literal_offset(data, count + 1),
            bytes: seq![byte],
        };
        lemma_literal_pull(data, count);
        lemma_drain_unfolds(here, bits, pos, sofar, pulled);
        lemma_literals_drain(data, count + 1, sofar + seq![byte]);
        assert(sofar + seq![byte] + data.skip((count + 1) as int) =~= sofar + data.skip(
            count as int,
        ));
    } else {
        let pulled = lemma_last_pull(data);
        lemma_drain_unfolds(here, bits, pos, sofar, pulled);
        assert(sofar + Seq::<u8>::empty() =~= sofar + data.skip(count as int));
    }
}

/// What is written in the fixed code comes back: a stream that holds `data`
/// as one block of literals decodes to `data`.
pub proof fn lemma_literal_stream_round_trips(data: Seq<u8>)
    ensures
        inflated(literal_stream(data)) == Ok::<Seq<u8>, DecompressorError>(data),
{
    reveal(among_literals);
    let bits = literal_stream(data);
    lemma_two_to_values();
    lemma_last_word_in_place(data);
    assert(bits[0] && bits[1] && !bits[2]);
    assert(field_value(bits, 1, 2) == 1) by {
        reveal_with_fuel(field_value, 3);
    }
    let start = initial_view();
    let header = Header { bfinal: Some(true), btype: Some(BType::CompressedWithFixedHuffmanCodes) };
    let awaiting = DecoderView {
        header,
        state: State::AwaitingHuffmanTables(BType::CompressedWithFixedHuffmanCodes),
        ..start
    };
    let decoding = among_literals(data, 0);
    assert(header_at(bits, 0) == Ok::<(BFinal, BType, int), DecompressorError>(
        (true, BType::CompressedWithFixedHuffmanCodes, 3),
    ));
    assert(transition(start, bits, 0) == Ok::<Pulled, DecompressorError>(
        Pulled { decoder: awaiting, cursor: 3, bytes: Seq::empty() },
    ));
    assert(data.take(0) =~= Seq::<u8>::empty());
    assert(awaiting.with_codes(fixed_literal_lengths(), fixed_distance_lengths()) == decoding);
    assert(transition(awaiting, bits, 3) == Ok::<Pulled, DecompressorError>(
        Pulled { decoder: decoding, cursor: 3, bytes: Seq::empty() },
    ));
    assert(pull(awaiting, bits, 3) == pull(decoding, bits, 3));
    assert(pull(start, bits, 0) == pull(awaiting, bits, 3));
    assert(literal_offset(data, 0) == 3);
    lemma_literals_drain(data, 0, Seq::empty());
    assert(Seq::<u8>::empty() + data.skip(0) =~= data);
    assert(drain(start, bits, 0, Seq::empty()) == drain(decoding, bits, 3, Seq::empty()));
}

} // verus!
