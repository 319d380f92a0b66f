//! The sliding window: the last 32768 bytes of output, against which
//! back-references are resolved.

use crate::deflate::error::DecompressorError;
use std::collections::VecDeque;
use vstd::prelude::*;

verus! {

/// The number of bytes that the window holds at most.
pub const WINDOW_SIZE: usize = 32768;

/// The last 32768 bytes of `bytes`, or all of them if there are fewer.
pub open spec fn keep_last(bytes: Seq<u8>) -> Seq<u8> {
    if bytes.len() > 32768 {
        bytes.subrange(bytes.len() - 32768, bytes.len() as int)
    } else {
        bytes
    }
}

/// The bytes that a back-reference of `length` and `distance` stands for
/// after the output `history`: byte `i` is the byte `distance` places before
/// the end of `history`, moved on by `i` and wrapping round at the end.
pub open spec fn expansion(history: Seq<u8>, length: nat, distance: nat) -> Seq<u8> {
    Seq::new(length, |i: int| history[history.len() - distance + i % (distance as int)])
}

/// Each byte of an expansion equals the byte that stands `distance` places
/// before it in the output, also where the copy overlaps itself: the bytes
/// that it repeats may be bytes that it has just produced.
pub proof fn lemma_expansion_repeats_output(history: Seq<u8>, length: nat, distance: nat, i: int)
    requires
        1 <= distance <= history.len(),
        0 <= i < length,
    ensures
        expansion(history, length, distance)[i] == (history + expansion(history, length, distance))[
            history.len() + i - distance],
{
    let d = distance as int;
    if i < d {
        assert(i % d == i) by (nonlinear_arith)
            requires
                0 <= i < d,
        ;
    } else {
        assert((i - d) % d == i % d) by (nonlinear_arith)
            requires
                0 < d <= i,
        ;
    }
}

/// A longer expansion begins with the shorter one.
pub proof fn lemma_expansion_grows(history: Seq<u8>, length: nat, distance: nat)
    requires
        1 <= distance <= history.len(),
    ensures
        expansion(history, length + 1, distance) == expansion(history, length, distance).push(
            (history + expansion(history, length, distance))[history.len() + length - distance],
        ),
{
    let d = distance as int;
    let i = length as int;
    let long = expansion(history, length + 1, distance);
    let short = expansion(history, length, distance);
    if i < d {
        assert(i % d == i) by (nonlinear_arith)
            requires
                0 <= i < d,
        ;
    } else {
        assert((i - d) % d == i % d) by (nonlinear_arith)
            requires
                0 < d <= i,
        ;
    }
    assert(long =~= short.push((history + short)[history.len() + length - distance]));
}

/// The window never shows more than 32768 bytes.
pub proof fn lemma_window_is_bounded(window: &Window)
    ensures
        window@.len() <= 32768,
        keep_last(window@) == window@,
{
}

/// The sliding window.  It may buffer more than it shows: the window is
/// the last 32768 bytes of the buffer.
pub struct Window {
    bytes: VecDeque<u8>,
}

impl View for Window {
    type V = Seq<u8>;

    /// The bytes in the window, oldest first.
    closed spec fn view(&self) -> Seq<u8> {
        keep_last(self.bytes@)
    }
}

impl Window {
    /// An empty window.
    pub fn new() -> (window: Window)
        ensures
            window@ == Seq::<u8>::empty(),
    {
        Window { bytes: VecDeque::with_capacity(WINDOW_SIZE) }
    }

    /// The number of bytes in the window, never more than 32768.
    pub fn len(&self) -> (len: usize)
        ensures
            len == self@.len(),
            len <= 32768,
    {
        let held: usize = self.bytes.len();
        if held > WINDOW_SIZE {
            WINDOW_SIZE
        } else {
            held
        }
    }

    /// Appends a byte; the oldest byte leaves a full window.
    pub fn push(&mut self, byte: u8)
        ensures
            final(self)@ == keep_last(old(self)@.push(byte)),
    {
        if self.bytes.len() >= WINDOW_SIZE {
            let _ = self.bytes.pop_front();
        }
        self.bytes.push_back(byte);
        assert(keep_last(self.bytes@) =~= keep_last(keep_last(old(self).bytes@).push(byte)));
    }

    /// Expands a back-reference: appends `length` bytes, each a copy of the
    /// byte `distance` places before it, and returns them.  Fails with
    /// `InvalidDistance`, changing nothing, when `distance` is zero or
    /// reaches behind the window.
    pub fn copy(&mut self, length: u16, distance: u16) -> (copied: Result<
        VecDeque<u8>,
        DecompressorError,
    >)
        ensures
            1 <= distance <= old(self)@.len() ==> (copied matches Ok(bytes) && bytes@ == expansion(
                old(self)@,
                length as nat,
                distance as nat,
            ) && final(self)@ == keep_last(old(self)@ + bytes@)),
            !(1 <= distance <= old(self)@.len()) ==> (copied matches Err(e) && e
                == DecompressorError::InvalidDistance && final(self)@ == old(self)@),
    {
        let mut copied: VecDeque<u8> = VecDeque::new();
        if distance == 0 || distance as usize > self.len() {
            return Err(DecompressorError::InvalidDistance);
        }
        let ghost start = self@;
        let mut i: u16 = 0;
        proof {
            assert(copied@ =~= expansion(start, 0, distance as nat));
            assert(start + copied@ =~= start);
        }
        while i < length
            invariant
                i <= length,
                start == old(self)@,
                1 <= distance <= start.len() <= 32768,
                copied@ == expansion(start, i as nat, distance as nat),
                self@ == keep_last(start + copied@),
            decreases length - i,
        {
            let held: usize = self.bytes.len();
            let byte: u8 = self.bytes[held - distance as usize];
            proof {
                lemma_expansion_grows(start, i as nat, distance as nat);
                let total = start + copied@;
                let shown = keep_last(self.bytes@);
                assert(shown == keep_last(total));
                assert(distance <= shown.len());
                assert(byte == shown[shown.len() - distance]);
                assert(shown[shown.len() - distance] == total[total.len() - distance]);
                assert((start + copied@).push(byte) =~= start + copied@.push(byte));
                assert(keep_last(keep_last(start + copied@).push(byte)) =~= keep_last(
                    (start + copied@).push(byte),
                ));
            }
            self.push(byte);
            copied.push_back(byte);
            i = i + 1;
        }
        Ok(copied)
    }
}

} // verus!
