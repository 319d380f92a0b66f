//! The decoder: a state machine that turns a bit stream into bytes, one
//! token or one stored run at a time.

use crate::bitsource::align_to_byte;
use crate::bitsource::field_at;
use crate::bitsource::field_value;
use crate::bitsource::lemma_field_value_bound;
use crate::bitsource::lsb_first;
use crate::bitsource::mirror_all;
use crate::bitsource::next_bit;
use crate::bitsource::padding;
use crate::bitsource::read_bits;
use crate::bitsource::reader_bits;
use crate::bitsource::reader_cursor;
use crate::bitsource::reader_over;
use crate::deflate::codes::create_empty_huffman_codes;
use crate::deflate::codes::create_fixed_huffman_codes;
use crate::deflate::codes::dynamic_tables;
use crate::deflate::codes::lengths_from;
use crate::deflate::codes::read_dynamic_huffman_codes;
use crate::deflate::codes::run_extra_bits;
use crate::deflate::codes::HuffmanCodes;
use crate::deflate::error::DecompressorError;
use crate::deflate::tables::fixed_distance_lengths;
use crate::deflate::tables::fixed_literal_lengths;
use crate::deflate::token::length_at;
use crate::deflate::token::parse_token;
use crate::deflate::token::symbol_at;
use crate::deflate::token::token_at;
use crate::deflate::token::Token;
use crate::deflate::window::expansion;
use crate::deflate::window::keep_last;
use crate::deflate::window::Window;
use crate::huffman::canonical::resolve_from;
use crate::huffman::canonical::walk;
use crate::huffman::canonical::Resolution;
use crate::huffman::canonical::Walk;
use crate::power::lemma_two_to_values;
use bitreader::BitReader;
use std::collections::VecDeque;
use vstd::prelude::*;

verus! {

/// Whether a block is the last of its stream.
pub type BFinal = bool;

/// How a block is encoded.
#[derive(Debug, Clone, Copy, PartialEq, Eq, Structural)]
pub enum BType {
    /// Stored: a run of raw bytes.
    NoCompression,
    /// Huffman-coded with the codes that the format fixes.
    CompressedWithFixedHuffmanCodes,
    /// Huffman-coded with codes that the block describes itself.
    CompressedWithDynamicHuffmanCodes,
}

/// The header of the current block, as far as it has been read.
#[derive(Debug, Clone, Copy)]
pub struct Header {
    pub bfinal: Option<BFinal>,
    pub btype: Option<BType>,
}

impl Header {
    /// A header of which nothing has been read.
    pub fn new() -> (header: Header)
        ensures
            header.bfinal is None,
            header.btype is None,
    {
        Header { bfinal: None, btype: None }
    }
}

/// Where the decoder stands in the stream.
#[derive(Debug, Clone, Copy, PartialEq, Eq, Structural)]
pub enum State {
    /// Between blocks: the next bits are a block header.
    AwaitingBlockHeader,
    /// The header of a block of this kind has been read; its codes have not.
    AwaitingHuffmanTables(BType),
    /// In a stored block, before its length fields.
    CopyingStoredBytes,
    /// In a Huffman-coded block, between two tokens.
    DecodingTokens,
    /// After the end of the last block.
    Done,
}

/// The decoder as the contracts see it.
pub struct DecoderView {
    /// The header of the current block.
    pub header: Header,
    /// Where the decoder stands.
    pub state: State,
    /// The code lengths of the active literal/length code.
    pub literals: Seq<u8>,
    /// The code lengths of the active distance code.
    pub distances: Seq<u8>,
    /// The last bytes of output, at most 32768.
    pub window: Seq<u8>,
}

/// What one pull yields: the decoder afterwards, the position of the next
/// unread bit, and the bytes produced.
pub struct Pulled {
    pub decoder: DecoderView,
    pub cursor: int,
    pub bytes: Seq<u8>,
}

/// The decoder before the first bit.
pub open spec fn initial_view() -> DecoderView {
    DecoderView {
        header: Header { bfinal: None, btype: None },
        state: State::AwaitingBlockHeader,
        literals: Seq::empty(),
        distances: Seq::empty(),
        window: Seq::empty(),
    }
}

/// The kind of block that the two BTYPE bits name; 3 names none.
pub open spec fn block_kind(code: nat) -> BType {
    if code == 0 {
        BType::NoCompression
    } else if code == 1 {
        BType::CompressedWithFixedHuffmanCodes
    } else {
        BType::CompressedWithDynamicHuffmanCodes
    }
}

/// The block header at `pos`: one bit BFINAL, two bits BTYPE.
pub open spec fn header_at(bits: Seq<bool>, pos: int) -> Result<
    (BFinal, BType, int),
    DecompressorError,
> {
    if pos + 3 > bits.len() {
        Err(DecompressorError::UnexpectedEndOfInput)
    } else if field_value(bits, pos + 1, 2) == 3 {
        Err(DecompressorError::ReservedBlockType)
    } else {
        Ok((bits[pos], block_kind(field_value(bits, pos + 1, 2)), pos + 3))
    }
}

/// The body of a stored block at `pos`: padding up to the next byte
/// boundary, `LEN` and `NLEN` in 16 bits each, and `LEN` bytes.
pub open spec fn stored_at(bits: Seq<bool>, pos: int) -> Result<(Seq<u8>, int), DecompressorError> {
    let start = pos + padding(pos as nat);
    if start + 32 > bits.len() {
        Err(DecompressorError::UnexpectedEndOfInput)
    } else {
        let len = field_value(bits, start, 16);
        let nlen = field_value(bits, start + 16, 16);
        if nlen != 65535 - len {
            Err(DecompressorError::StoredBlockLengthMismatch)
        } else if start + 32 + 8 * len > bits.len() {
            Err(DecompressorError::UnexpectedEndOfInput)
        } else {
            Ok(
                (
                    Seq::new(len, |i: int| field_value(bits, start + 32 + 8 * i, 8) as u8),
                    start + 32 + 8 * len,
                ),
            )
        }
    }
}

/// The state after the end of a block with this header.
pub open spec fn after_block(header: Header) -> State {
    if header.bfinal == Some(true) {
        State::Done
    } else {
        State::AwaitingBlockHeader
    }
}

impl DecoderView {
    /// This decoder in another state.
    pub open spec fn at(self, state: State) -> DecoderView {
        DecoderView { state, ..self }
    }

    /// This decoder after it has put out `bytes`.
    pub open spec fn after_output(self, bytes: Seq<u8>) -> DecoderView {
        DecoderView { window: keep_last(self.window + bytes), ..self }
    }

    /// This decoder with other codes, about to decode tokens.
    pub open spec fn with_codes(self, literals: Seq<u8>, distances: Seq<u8>) -> DecoderView {
        DecoderView { state: State::DecodingTokens, literals, distances, ..self }
    }
}

/// One transition of the state machine from `pos`.
pub open spec fn transition(decoder: DecoderView, bits: Seq<bool>, pos: int) -> Result<
    Pulled,
    DecompressorError,
> {
    match decoder.state {
        State::AwaitingBlockHeader => match header_at(bits, pos) {
            Err(e) => Err(e),
            Ok((bfinal, btype, next)) => Ok(
                Pulled {
                    decoder: DecoderView {
                        header: Header { bfinal: Some(bfinal), btype: Some(btype) },
                        state: if btype is NoCompression {
                            State::CopyingStoredBytes
                        } else {
                            State::AwaitingHuffmanTables(btype)
                        },
                        ..decoder
                    },
                    cursor: next,
                    bytes: Seq::empty(),
                },
            ),
        },
        State::AwaitingHuffmanTables(btype) => match btype {
            BType::NoCompression => Ok(
                Pulled {
                    decoder: decoder.at(State::CopyingStoredBytes),
                    cursor: pos,
                    bytes: Seq::empty(),
                },
            ),
            BType::CompressedWithFixedHuffmanCodes => Ok(
                Pulled {
                    decoder: decoder.with_codes(fixed_literal_lengths(), fixed_distance_lengths()),
                    cursor: pos,
                    bytes: Seq::empty(),
                },
            ),
            BType::CompressedWithDynamicHuffmanCodes => match dynamic_tables(bits, pos) {
                Err(e) => Err(e),
                Ok(tables) => Ok(
                    Pulled {
                        decoder: decoder.with_codes(tables.literals, tables.distances),
                        cursor: tables.next,
                        bytes: Seq::empty(),
                    },
                ),
            },
        },
        State::CopyingStoredBytes => match stored_at(bits, pos) {
            Err(e) => Err(e),
            Ok((bytes, next)) => Ok(
                Pulled {
                    decoder: decoder.after_output(bytes).at(after_block(decoder.header)),
                    cursor: next,
                    bytes,
                },
            ),
        },
        State::DecodingTokens => match token_at(decoder.literals, decoder.distances, bits, pos) {
            Err(e) => Err(e),
            Ok((Token::Literal(byte), next)) => Ok(
                Pulled { decoder: decoder.after_output(seq![byte]), cursor: next, bytes: seq![byte] },
            ),
            Ok((Token::Reference { length, distance }, next)) => if 1 <= distance
                <= decoder.window.len() {
                Ok(
                    Pulled {
                        decoder: decoder.after_output(
                            expansion(decoder.window, length as nat, distance as nat),
                        ),
                        cursor: next,
                        bytes: expansion(decoder.window, length as nat, distance as nat),
                    },
                )
            } else {
                Err(DecompressorError::InvalidDistance)
            },
            Ok((Token::EndOfBlock, next)) => Ok(
                Pulled {
                    decoder: decoder.at(after_block(decoder.header)),
                    cursor: next,
                    bytes: Seq::empty(),
                },
            ),
        },
        State::Done => Ok(Pulled { decoder, cursor: pos, bytes: Seq::empty() }),
    }
}

/// The states from which a transition may read nothing and still go on.
pub open spec fn rank(state: State) -> nat {
    match state {
        State::AwaitingHuffmanTables(_) => 1,
        _ => 0,
    }
}

/// A word of a code is at least one bit long and ends within the stream.
pub proof fn lemma_resolve_advances(lengths: Seq<u8>, bits: Seq<bool>, pos: int, depth: nat)
    ensures
        resolve_from(lengths, bits, pos, depth) matches Resolution::Symbol { symbol, next } ==> pos
            + depth < next <= bits.len(),
    decreases bits.len() - pos - depth,
{
    if pos + depth < bits.len() {
        match walk(lengths, bits.subrange(pos, pos + depth + 1)) {
            Walk::Descend => {
                lemma_resolve_advances(lengths, bits, pos, depth + 1);
            },
            _ => {},
        }
    }
}

/// Reading code lengths never moves back, nor past the end of the stream.
pub proof fn lemma_lengths_from_advances(
    code: Seq<u8>,
    bits: Seq<bool>,
    pos: int,
    sofar: Seq<u8>,
    total: nat,
)
    requires
        pos <= bits.len(),
    ensures
        lengths_from(code, bits, pos, sofar, total) matches Ok((all, next)) ==> pos <= next
            <= bits.len(),
    decreases total - sofar.len(),
{
    if sofar.len() < total {
        lemma_resolve_advances(code, bits, pos, 0);
        match symbol_at(code, bits, pos) {
            Err(e) => {},
            Ok((symbol, next)) => {
                if symbol < 16 {
                    lemma_lengths_from_advances(code, bits, next, sofar.push(symbol as u8), total);
                } else if next + run_extra_bits(symbol) <= bits.len() {
                    let run = crate::deflate::codes::run_base(symbol) + field_value(
                        bits,
                        next,
                        run_extra_bits(symbol),
                    );
                    if !(symbol == 16 && sofar.len() == 0) && sofar.len() + run <= total {
                        let fill = if symbol == 16 {
                            sofar.last()
                        } else {
                            0u8
                        };
                        lemma_lengths_from_advances(
                            code,
                            bits,
                            next + run_extra_bits(symbol),
                            sofar + Seq::new(run, |i: int| fill),
                            total,
                        );
                    }
                }
            },
        }
    }
}

/// A transition never moves back; where it moves on, it stays within the
/// stream; where it stands still, it puts out nothing and, unless the
/// decoder is done, reaches a state from which the next one must move.
pub proof fn lemma_transition_progress(decoder: DecoderView, bits: Seq<bool>, pos: int)
    ensures
        transition(decoder, bits, pos) matches Ok(pulled) ==> {
            &&& pos <= pulled.cursor
            &&& pulled.cursor > pos ==> pulled.cursor <= bits.len()
            &&& pulled.cursor == pos ==> pulled.bytes.len() == 0 && (decoder.state is Done || rank(
                pulled.decoder.state,
            ) < rank(decoder.state))
        },
{
    match decoder.state {
        State::AwaitingBlockHeader => {},
        State::AwaitingHuffmanTables(btype) => {
            if btype is CompressedWithDynamicHuffmanCodes && pos + 14 <= bits.len() {
                let hlit = field_value(bits, pos, 5) + 257;
                let hdist = field_value(bits, pos + 5, 5) + 1;
                let hclen = field_value(bits, pos + 10, 4) + 4;
                let body = pos + 14 + 3 * hclen;
                if body <= bits.len() {
                    lemma_lengths_from_advances(
                        crate::deflate::codes::code_length_lengths(bits, pos + 14, hclen),
                        bits,
                        body,
                        Seq::empty(),
                        hlit + hdist,
                    );
                }
            }
        },
        State::CopyingStoredBytes => {},
        State::DecodingTokens => {
            lemma_resolve_advances(decoder.literals, bits, pos, 0);
            match symbol_at(decoder.literals, bits, pos) {
                Ok((symbol, next)) => {
                    if 256 < symbol <= 285 {
                        match length_at(symbol, bits, next) {
                            Ok((length, after)) => {
                                lemma_resolve_advances(decoder.distances, bits, after, 0);
                            },
                            Err(e) => {},
                        }
                    }
                },
                Err(e) => {},
            }
        },
        State::Done => {},
    }
}

/// Pulling from the decoder: transitions from `pos` on, up to and with the
/// first that puts out bytes or ends the stream.
pub open spec fn pull(decoder: DecoderView, bits: Seq<bool>, pos: int) -> Result<
    Pulled,
    DecompressorError,
>
    decreases bits.len() - pos, rank(decoder.state),
    via pull_decreases
{
    match transition(decoder, bits, pos) {
        Err(e) => Err(e),
        Ok(pulled) => if pulled.bytes.len() > 0 || pulled.decoder.state is Done {
            Ok(pulled)
        } else {
            pull(pulled.decoder, bits, pulled.cursor)
        },
    }
}

/// Why `pull` ends: see `lemma_transition_progress`.
#[via_fn]
proof fn pull_decreases(decoder: DecoderView, bits: Seq<bool>, pos: int) {
    lemma_transition_progress(decoder, bits, pos);
}

/// A pull never moves back, moves on where it puts out bytes, and puts out
/// bytes unless it ends the stream.
pub proof fn lemma_pull_progress(decoder: DecoderView, bits: Seq<bool>, pos: int)
    ensures
        pull(decoder, bits, pos) matches Ok(pulled) ==> {
            &&& pos <= pulled.cursor
            &&& pulled.cursor > pos ==> pulled.cursor <= bits.len()
            &&& pulled.bytes.len() > 0 ==> pulled.cursor > pos
            &&& !(pulled.decoder.state is Done) ==> pulled.bytes.len() > 0
        },
    decreases bits.len() - pos, rank(decoder.state),
{
    lemma_transition_progress(decoder, bits, pos);
    match transition(decoder, bits, pos) {
        Err(e) => {},
        Ok(pulled) => {
            if !(pulled.bytes.len() > 0 || pulled.decoder.state is Done) {
                lemma_pull_progress(pulled.decoder, bits, pulled.cursor);
            }
        },
    }
}

/// Decoding to the end: the bytes of every pull from `pos` on, after
/// `sofar`, up to and with the pull that ends the stream.
pub open spec fn drain(decoder: DecoderView, bits: Seq<bool>, pos: int, sofar: Seq<u8>) -> Result<
    Seq<u8>,
    DecompressorError,
>
    decreases bits.len() - pos,
    via drain_decreases
{
    match pull(decoder, bits, pos) {
        Err(e) => Err(e),
        Ok(pulled) => if pulled.decoder.state is Done {
            Ok(sofar + pulled.bytes)
        } else {
            drain(pulled.decoder, bits, pulled.cursor, sofar + pulled.bytes)
        },
    }
}

/// Why `drain` ends: see `lemma_pull_progress`.
#[via_fn]
proof fn drain_decreases(decoder: DecoderView, bits: Seq<bool>, pos: int, sofar: Seq<u8>) {
    lemma_pull_progress(decoder, bits, pos);
}

/// The bytes that a whole stream of bits decodes to, or the error at which
/// the decode stops.
pub open spec fn inflated(bits: Seq<bool>) -> Result<Seq<u8>, DecompressorError> {
    drain(initial_view(), bits, 0, Seq::empty())
}

/// Reads BFINAL, the first bit of a block header.
pub fn parse_bfinal(in_stream: &mut BitReader) -> (bfinal: Result<BFinal, DecompressorError>)
    ensures
        reader_bits(*final(in_stream)) == reader_bits(*old(in_stream)),
        match bfinal {
            Ok(last) => {
                &&& reader_cursor(*old(in_stream)) < reader_bits(*old(in_stream)).len()
                &&& last == reader_bits(*old(in_stream))[reader_cursor(*old(in_stream)) as int]
                &&& reader_cursor(*final(in_stream)) == reader_cursor(*old(in_stream)) + 1
            },
            Err(e) => {
                &&& e == DecompressorError::UnexpectedEndOfInput
                &&& reader_cursor(*old(in_stream)) >= reader_bits(*old(in_stream)).len()
            },
        },
{
    match next_bit(in_stream) {
        Ok(bfinal) => Ok(bfinal),
        Err(_) => Err(DecompressorError::UnexpectedEndOfInput),
    }
}

/// Reads BTYPE, the two bits after BFINAL: `00` is a stored block, `01` one
/// with the fixed codes, `10` one with codes of its own.  Fails with
/// `ReservedBlockType` on `11`.
pub fn parse_btype(in_stream: &mut BitReader) -> (btype: Result<BType, DecompressorError>)
    ensures
        reader_bits(*final(in_stream)) == reader_bits(*old(in_stream)),
        match field_at(reader_bits(*old(in_stream)), reader_cursor(*old(in_stream)) as int, 2) {
            Err(e) => btype == Err::<BType, DecompressorError>(e),
            Ok((code, next)) => reader_cursor(*final(in_stream)) == next && btype == (if code == 3 {
                Err::<BType, DecompressorError>(DecompressorError::ReservedBlockType)
            } else {
                Ok::<BType, DecompressorError>(block_kind(code))
            }),
        },
{
    proof {
        lemma_field_value_bound(
            reader_bits(*in_stream),
            reader_cursor(*in_stream) as int,
            2,
        );
        lemma_two_to_values();
    }
    match read_bits(in_stream, 2) {
        Ok(code) => {
            if code == 0 {
                Ok(BType::NoCompression)
            } else if code == 1 {
                Ok(BType::CompressedWithFixedHuffmanCodes)
            } else if code == 2 {
                Ok(BType::CompressedWithDynamicHuffmanCodes)
            } else {
                Err(DecompressorError::ReservedBlockType)
            }
        },
        Err(e) => Err(e),
    }
}

/// Reads the body of a stored block: skips to the next byte boundary, reads
/// `LEN` and `NLEN`, and copies `LEN` bytes to the window and to the result.
/// Fails with `StoredBlockLengthMismatch`, before any byte is copied, if
/// `NLEN` is not the complement of `LEN`.
pub fn read_stored_block(in_stream: &mut BitReader, window: &mut Window) -> (bytes: Result<
    VecDeque<u8>,
    DecompressorError,
>)
    ensures
        reader_bits(*final(in_stream)) == reader_bits(*old(in_stream)),
        match stored_at(reader_bits(*old(in_stream)), reader_cursor(*old(in_stream)) as int) {
            Ok((stored, next)) => bytes matches Ok(b) && b@ == stored && reader_cursor(
                *final(in_stream),
            ) == next && final(window)@ == keep_last(old(window)@ + stored),
            Err(e) => bytes matches Err(x) && x == e,
        },
        bytes is Err && !(bytes matches Err(e) && e == DecompressorError::UnexpectedEndOfInput)
            ==> final(window)@ == old(window)@,
{
    let ghost bits = reader_bits(*in_stream);
    let ghost pos = reader_cursor(*in_stream) as int;
    let ghost start = pos + padding(pos as nat);
    let ghost held = window@;
    match align_to_byte(in_stream) {
        Ok(_) => {},
        Err(_) => {
            return Err(DecompressorError::UnexpectedEndOfInput);
        },
    }
    proof {
        lemma_field_value_bound(bits, start, 16);
        lemma_field_value_bound(bits, start + 16, 16);
        lemma_two_to_values();
    }
    let len: u16 = match read_bits(in_stream, 16) {
        Ok(v) => v,
        Err(e) => {
            return Err(e);
        },
    };
    let nlen: u16 = match read_bits(in_stream, 16) {
        Ok(v) => v,
        Err(e) => {
            return Err(e);
        },
    };
    if nlen != 65535 - len {
        return Err(DecompressorError::StoredBlockLengthMismatch);
    }
    let mut bytes: VecDeque<u8> = VecDeque::new();
    let mut i: u16 = 0;
    proof {
        assert(bytes@ =~= Seq::new(0, |j: int| field_value(bits, start + 32 + 8 * j, 8) as u8));
        assert(held + bytes@ =~= held);
        assert(held.len() <= 32768 ==> keep_last(held) == held);
    }
    while i < len
        invariant
            i <= len,
            reader_bits(*in_stream) == bits,
            bits == reader_bits(*old(in_stream)),
            pos == reader_cursor(*old(in_stream)),
            start == pos + padding(pos as nat),
            held == old(window)@,
            start + 32 <= bits.len(),
            len == field_value(bits, start, 16),
            field_value(bits, start + 16, 16) == 65535 - len,
            reader_cursor(*in_stream) == start + 32 + 8 * i,
            start + 32 + 8 * i <= bits.len(),
            bytes@ == Seq::new(i as nat, |j: int| field_value(bits, start + 32 + 8 * j, 8) as u8),
            i == 0 ==> window@ == held,
            i > 0 ==> window@ == keep_last(held + bytes@),
        decreases len - i,
    {
        proof {
            lemma_field_value_bound(bits, start + 32 + 8 * i, 8);
            lemma_two_to_values();
        }
        let byte: u8 = match read_bits(in_stream, 8) {
            Ok(v) => v as u8,
            Err(e) => {
                return Err(e);
            },
        };
        proof {
            assert((held + bytes@).push(byte) =~= held + bytes@.push(byte));
            assert(keep_last(keep_last(held + bytes@).push(byte)) =~= keep_last(
                (held + bytes@).push(byte),
            ));
            assert(i == 0 ==> held + bytes@ =~= held);
        }
        window.push(byte);
        bytes.push_back(byte);
        i = i + 1;
        proof {
            assert(bytes@ =~= Seq::new(
                i as nat,
                |j: int| field_value(bits, start + 32 + 8 * j, 8) as u8,
            ));
        }
    }
    proof {
        crate::deflate::window::lemma_window_is_bounded(window);
        if len == 0 {
            assert(held + bytes@ =~= held);
        }
    }
    Ok(bytes)
}

/// Decodes a DEFLATE stream from a bit source, a piece at a time.
pub struct Decompressor {
    header: Header,
    state: State,
    huffman_codes: HuffmanCodes,
    output_buf: Window,
}

impl View for Decompressor {
    type V = DecoderView;

    /// The decoder's state, codes and window as plain values.
    closed spec fn view(&self) -> DecoderView {
        DecoderView {
            header: self.header,
            state: self.state,
            literals: self.huffman_codes.literals@,
            distances: self.huffman_codes.distances@,
            window: self.output_buf@,
        }
    }
}

impl Decompressor {
    /// A decoder at the beginning of a stream.
    pub fn new() -> (decoder: Decompressor)
        ensures
            decoder@ == initial_view(),
    {
        Decompressor {
            header: Header::new(),
            state: State::AwaitingBlockHeader,
            huffman_codes: create_empty_huffman_codes(),
            output_buf: Window::new(),
        }
    }

    /// Where the decoder stands.
    pub fn state(&self) -> (state: State)
        ensures
            state == self@.state,
    {
        self.state
    }

    /// The header of the current block.
    pub fn header(&self) -> (header: Header)
        ensures
            header == self@.header,
    {
        self.header
    }

    /// Whether the stream has ended.
    pub fn is_done(&self) -> (done: bool)
        ensures
            done == (self@.state is Done),
    {
        match self.state {
            State::Done => true,
            _ => false,
        }
    }

    /// The state after the end of the current block.
    fn state_after_block(&self) -> (state: State)
        ensures
            state == after_block(self@.header),
    {
        match self.header.bfinal {
            Some(true) => State::Done,
            _ => State::AwaitingBlockHeader,
        }
    }

    /// Makes one transition of the state machine.
    pub fn advance(&mut self, in_stream: &mut BitReader) -> (bytes: Result<
        VecDeque<u8>,
        DecompressorError,
    >)
        ensures
            reader_bits(*final(in_stream)) == reader_bits(*old(in_stream)),
            match transition(
                old(self)@,
                reader_bits(*old(in_stream)),
                reader_cursor(*old(in_stream)) as int,
            ) {
                Ok(pulled) => bytes matches Ok(b) && b@ == pulled.bytes && final(self)@
                    == pulled.decoder && reader_cursor(*final(in_stream)) == pulled.cursor,
                Err(e) => bytes matches Err(x) && x == e,
            },
    {
        let ghost before = self@;
        match self.state {
            State::AwaitingBlockHeader => {
                let bfinal = match parse_bfinal(in_stream) {
                    Ok(b) => b,
                    Err(e) => {
                        return Err(e);
                    },
                };
                let btype = match parse_btype(in_stream) {
                    Ok(t) => t,
                    Err(e) => {
                        return Err(e);
                    },
                };
                self.header = Header { bfinal: Some(bfinal), btype: Some(btype) };
                self.state = match btype {
                    BType::NoCompression => State::CopyingStoredBytes,
                    _ => State::AwaitingHuffmanTables(btype),
                };
                Ok(VecDeque::new())
            },
            State::AwaitingHuffmanTables(btype) => {
                match btype {
                    BType::NoCompression => {
                        self.state = State::CopyingStoredBytes;
                    },
                    BType::CompressedWithFixedHuffmanCodes => {
                        self.huffman_codes = create_fixed_huffman_codes();
                        self.state = State::DecodingTokens;
                    },
                    BType::CompressedWithDynamicHuffmanCodes => {
                        let codes = match read_dynamic_huffman_codes(in_stream) {
                            Ok(c) => c,
                            Err(e) => {
                                return Err(e);
                            },
                        };
                        self.huffman_codes = codes;
                        self.state = State::DecodingTokens;
                    },
                }
                Ok(VecDeque::new())
            },
            State::CopyingStoredBytes => {
                let bytes = match read_stored_block(in_stream, &mut self.output_buf) {
                    Ok(b) => b,
                    Err(e) => {
                        return Err(e);
                    },
                };
                self.state = self.state_after_block();
                Ok(bytes)
            },
            State::DecodingTokens => {
                let token = match parse_token(
                    in_stream,
                    &self.huffman_codes.literals,
                    &self.huffman_codes.distances,
                ) {
                    Ok(t) => t,
                    Err(e) => {
                        return Err(e);
                    },
                };
                match token {
                    Token::Literal(byte) => {
                        let mut bytes: VecDeque<u8> = VecDeque::new();
                        bytes.push_back(byte);
                        self.output_buf.push(byte);
                        proof {
                            assert(bytes@ =~= seq![byte]);
                            assert(before.window.push(byte) =~= before.window + seq![byte]);
                        }
                        Ok(bytes)
                    },
                    Token::Reference { length, distance } => {
                        self.output_buf.copy(length, distance)
                    },
                    Token::EndOfBlock => {
                        self.state = self.state_after_block();
                        Ok(VecDeque::new())
                    },
                }
            },
            State::Done => Ok(VecDeque::new()),
        }
    }

    /// Pulls the next piece of output: runs the state machine until a
    /// literal, a back-reference or a stored block has put out bytes, and
    /// returns them; or until the last block has ended, and returns what
    /// the last transition put out, which may be nothing.  Once the stream
    /// has ended, every further pull returns nothing.  Fails at the first
    /// invalid input; after that the decoder is of no further use.
    pub fn decompress(&mut self, in_stream: &mut BitReader) -> (bytes: Result<
        VecDeque<u8>,
        DecompressorError,
    >)
        ensures
            reader_bits(*final(in_stream)) == reader_bits(*old(in_stream)),
            match pull(
                old(self)@,
                reader_bits(*old(in_stream)),
                reader_cursor(*old(in_stream)) as int,
            ) {
                Ok(pulled) => bytes matches Ok(b) && b@ == pulled.bytes && final(self)@
                    == pulled.decoder && reader_cursor(*final(in_stream)) == pulled.cursor,
                Err(e) => bytes matches Err(x) && x == e,
            },
    {
        let ghost bits = reader_bits(*in_stream);
        loop
            invariant
                reader_bits(*in_stream) == bits,
                bits == reader_bits(*old(in_stream)),
                pull(self@, bits, reader_cursor(*in_stream) as int) == pull(
                    old(self)@,
                    bits,
                    reader_cursor(*old(in_stream)) as int,
                ),
            decreases bits.len() - reader_cursor(*in_stream), rank(self@.state),
        {
            proof {
                lemma_transition_progress(self@, bits, reader_cursor(*in_stream) as int);
            }
            let bytes = match self.advance(in_stream) {
                Ok(b) => b,
                Err(e) => {
                    return Err(e);
                },
            };
            if bytes.len() > 0 || self.is_done() {
                return Ok(bytes);
            }
        }
    }
}

/// Decodes a whole DEFLATE stream held in memory.  The bits of each byte
/// are taken least significant bit first, as the format packs them.
pub fn inflate(input: &[u8]) -> (output: Result<Vec<u8>, DecompressorError>)
    requires
        input@.len() * 8 <= u64::MAX,
    ensures
        match inflated(lsb_first(input@)) {
            Ok(bytes) => output matches Ok(v) && v@ == bytes,
            Err(e) => output matches Err(x) && x == e,
        },
{
    let turned = mirror_all(input);
    let mut reader = reader_over(turned.as_slice());
    let mut decoder = Decompressor::new();
    let mut output: Vec<u8> = Vec::new();
    let ghost bits = lsb_first(input@);
    loop
        invariant
            bits == lsb_first(input@),
            reader_bits(reader) == bits,
            drain(decoder@, bits, reader_cursor(reader) as int, output@) == inflated(bits),
        decreases bits.len() - reader_cursor(reader),
    {
        let ghost decoder_before = decoder@;
        let ghost cursor_before = reader_cursor(reader) as int;
        proof {
            lemma_pull_progress(decoder_before, bits, cursor_before);
            assert(drain(decoder_before, bits, cursor_before, output@) == (match pull(
                decoder_before,
                bits,
                cursor_before,
            ) {
                Err(e) => Err(e),
                Ok(pulled) => if pulled.decoder.state is Done {
                    Ok(output@ + pulled.bytes)
                } else {
                    drain(pulled.decoder, bits, pulled.cursor, output@ + pulled.bytes)
                },
            }));
        }
        let bytes = match decoder.decompress(&mut reader) {
            Ok(b) => b,
            Err(e) => {
                return Err(e);
            },
        };
        let ghost before = output@;
        let mut i: usize = 0;
        while i < bytes.len()
            invariant
                i <= bytes.len(),
                output@ == before + bytes@.subrange(0, i as int),
            decreases bytes.len() - i,
        {
            output.push(bytes[i]);
            i += 1;
            proof {
                assert(output@ =~= before + bytes@.subrange(0, i as int));
            }
        }
        proof {
            assert(bytes@.subrange(0, bytes@.len() as int) =~= bytes@);
        }
        if decoder.is_done() {
            return Ok(output);
        }
    }
}

/// Decoding depends on the input alone: two fresh decoders that are given
/// the same bytes decode to the same output, or fail with the same error.
pub proof fn lemma_equal_inputs_decode_alike(first: Seq<u8>, second: Seq<u8>)
    requires
        first == second,
    ensures
        inflated(lsb_first(first)) == inflated(lsb_first(second)),
{
}

/// Once the stream has ended, a pull puts out nothing and changes nothing.
pub proof fn lemma_done_is_final(decoder: DecoderView, bits: Seq<bool>, pos: int)
    requires
        decoder.state is Done,
    ensures
        pull(decoder, bits, pos) == Ok::<Pulled, DecompressorError>(
            Pulled { decoder, cursor: pos, bytes: Seq::empty() },
        ),
{
}

/// The window follows the output: after a pull it holds the last 32768
/// bytes of what it held before, followed by what the pull has put out.
pub proof fn lemma_window_follows_output(decoder: DecoderView, bits: Seq<bool>, pos: int)
    requires
        decoder.window.len() <= 32768,
    ensures
        pull(decoder, bits, pos) matches Ok(pulled) ==> pulled.decoder.window == keep_last(
            decoder.window + pulled.bytes,
        ),
    decreases bits.len() - pos, rank(decoder.state),
{
    lemma_transition_progress(decoder, bits, pos);
    assert(decoder.window + Seq::<u8>::empty() =~= decoder.window);
    match transition(decoder, bits, pos) {
        Err(e) => {},
        Ok(pulled) => {
            assert(pulled.decoder.window == keep_last(decoder.window + pulled.bytes));
            if !(pulled.bytes.len() > 0 || pulled.decoder.state is Done) {
                assert(pulled.bytes =~= Seq::<u8>::empty());
                lemma_window_follows_output(pulled.decoder, bits, pulled.cursor);
            }
        },
    }
}

} // verus!
