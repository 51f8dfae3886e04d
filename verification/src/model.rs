//! The mathematical model of a stream: its bytes, a byte offset and the
//! sub-byte residue that bit reads leave behind, with every read written as a
//! function from one such state to the next.

use crate::bytes::first_index_from;
use crate::endian::{be_value, le_value};
use crate::error::{KError, Needed};
use vstd::arithmetic::power2::pow2;
use vstd::prelude::*;

verus! {

/// A stream as a value: `bytes` never change, `pos` is the offset of the next
/// unread byte, and the low `bits_left` bits of `bits` are those that a bit
/// read has fetched and not yet handed out.
pub struct StreamModel {
    pub bytes: Seq<u8>,
    pub pos: nat,
    pub bits: nat,
    pub bits_left: nat,
}

impl StreamModel {
    /// The offset lies within the bytes, fewer than eight bits are pending,
    /// and the accumulator holds nothing above them.
    pub open spec fn wf(self) -> bool {
        &&& self.pos <= self.bytes.len()
        &&& self.bits_left <= 7
        &&& self.bits < pow2(self.bits_left)
    }

    /// A stream over `bytes` on which nothing has been read.
    pub open spec fn fresh(bytes: Seq<u8>) -> StreamModel {
        StreamModel { bytes, pos: 0, bits: 0, bits_left: 0 }
    }

    pub open spec fn size(self) -> nat {
        self.bytes.len()
    }

    /// All bytes are consumed and no fetched bit is pending.
    pub open spec fn at_eof(self) -> bool {
        self.pos == self.size() && self.bits_left == 0
    }

    /// The same stream with the pending bits dropped.
    pub open spec fn aligned(self) -> StreamModel {
        StreamModel { bits: 0, bits_left: 0, ..self }
    }

    /// The same stream with its offset at `p`.
    pub open spec fn at(self, p: nat) -> StreamModel {
        StreamModel { pos: p, ..self }
    }

    /// `after` is this stream further on: same bytes, an offset that did not
    /// go back and does not pass the end.
    pub open spec fn precedes(self, after: StreamModel) -> bool {
        &&& after.bytes == self.bytes
        &&& self.pos <= after.pos <= after.size()
    }

    /// At least `n` bytes are unread.
    pub open spec fn has(self, n: nat) -> bool {
        self.pos + n <= self.size()
    }

    /// By how many bytes a read of `n` overruns the end.
    pub open spec fn shortfall(self, n: nat) -> nat {
        (self.pos + n - self.size()) as nat
    }

    /// The next `n` unread bytes.
    pub open spec fn run(self, n: nat) -> Seq<u8> {
        self.bytes.subrange(self.pos as int, (self.pos + n) as int)
    }

    /// All unread bytes.
    pub open spec fn rest(self) -> Seq<u8> {
        self.bytes.subrange(self.pos as int, self.size() as int)
    }

    /// The stream after a whole-byte read of `n` bytes: advanced, with no
    /// bits pending.
    pub open spec fn after_bytes(self, n: nat) -> StreamModel {
        StreamModel { pos: self.pos + n, bits: 0, bits_left: 0, ..self }
    }

    /// A whole-byte read of `n` bytes succeeded and left `after`.
    pub open spec fn took(self, n: nat, after: StreamModel) -> bool {
        self.has(n) && after == self.after_bytes(n)
    }

    /// A whole-byte read of `n` bytes failed with `e` for want of bytes and
    /// left the stream, `after`, as it was.
    pub open spec fn fell_short(self, n: nat, e: KError, after: StreamModel) -> bool {
        &&& !self.has(n)
        &&& e == KError::Incomplete(Needed::Size(self.shortfall(n) as usize))
        &&& after == self
    }

    /// Offset of the first unread byte equal to `term`; `size()` if none is.
    pub open spec fn term_pos(self, term: u8) -> nat {
        first_index_from(self.bytes, self.pos, term)
    }

    /// How many bytes a read of `n` bits has to fetch: none while the pending
    /// bits suffice, else enough to cover the rest.
    pub open spec fn bytes_for_bits(self, n: nat) -> nat {
        if n <= self.bits_left {
            0
        } else {
            ((n - self.bits_left + 7) / 8) as nat
        }
    }

    /// How many fetched bits a read of `n` bits leaves pending.
    pub open spec fn spare_bits(self, n: nat) -> nat {
        (self.bits_left + 8 * self.bytes_for_bits(n) - n) as nat
    }

    /// Big-endian reading: the pending bits followed by the fetched bytes, as
    /// one number whose most significant bits come first.
    pub open spec fn be_window(self, n: nat) -> nat {
        self.bits * pow2(8 * self.bytes_for_bits(n)) + be_value(self.run(self.bytes_for_bits(n)))
    }

    /// What a big-endian read of `n` bits returns: the top `n` bits of the
    /// window.
    pub open spec fn be_bits(self, n: nat) -> nat {
        self.be_window(n) / pow2(self.spare_bits(n))
    }

    /// The stream after a big-endian read of `n` bits: the low bits of the
    /// window that were not handed out stay pending.
    pub open spec fn after_be_bits(self, n: nat) -> StreamModel {
        StreamModel {
            bytes: self.bytes,
            pos: self.pos + self.bytes_for_bits(n),
            bits: self.be_window(n) % pow2(self.spare_bits(n)),
            bits_left: self.spare_bits(n),
        }
    }

    /// Little-endian reading: the pending bits at the low end, the fetched
    /// bytes above them at successive 8-bit offsets.
    pub open spec fn le_window(self, n: nat) -> nat {
        self.bits + le_value(self.run(self.bytes_for_bits(n))) * pow2(self.bits_left)
    }

    /// What a little-endian read of `n` bits returns: the low `n` bits of the
    /// window.
    pub open spec fn le_bits(self, n: nat) -> nat {
        self.le_window(n) % pow2(n)
    }

    /// The stream after a little-endian read of `n` bits: the high bits of
    /// the window that were not handed out stay pending.
    pub open spec fn after_le_bits(self, n: nat) -> StreamModel {
        StreamModel {
            bytes: self.bytes,
            pos: self.pos + self.bytes_for_bits(n),
            bits: self.le_window(n) / pow2(n),
            bits_left: self.spare_bits(n),
        }
    }
}

/// However many reads lie between two states of a stream, its offset has not
/// gone back and lies within its bytes: `precedes` holds of a state and
/// itself, and carries over a chain of reads.
pub proof fn lemma_precedes_chains(a: StreamModel, b: StreamModel, c: StreamModel)
    requires
        a.precedes(b),
        b.precedes(c),
    ensures
        a.precedes(c),
        a.wf() ==> a.precedes(a),
{
}

} // verus!
