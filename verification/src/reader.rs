//! The in-memory stream: a cursor over a borrowed byte slice.

use crate::bitops::{
    drop_low, join, keep_low, lemma_div_bound, lemma_join_bound, lemma_pow2_le, lemma_split_high,
    lemma_split_low,
};
use crate::endian::{be_word, le_word, lemma_be_value_bound, lemma_le_value_bound};
use crate::error::{KError, KResult, Needed};
use crate::model::StreamModel;
use crate::stream::KStream;
use vstd::arithmetic::div_mod::lemma_mod_bound;
use vstd::arithmetic::power2::{lemma2_to64, lemma2_to64_rest, lemma_pow2_adds, lemma_pow2_pos, pow2};
use vstd::prelude::*;
use vstd::slice::slice_subrange;

verus! {

/// A stream over a borrowed byte slice. It holds the offset of the next
/// unread byte and the bits that a bit read fetched and has not handed out.
pub struct BytesReader<'a> {
    pos: usize,
    bits: u64,
    bits_left: u64,
    bytes: &'a [u8],
}

impl<'a> BytesReader<'a> {
    /// A stream at the start of `bytes`, with no bits pending.
    pub fn new(bytes: &'a [u8]) -> (r: Self)
        ensures
            r.model() == StreamModel::fresh(bytes@),
            r.model().wf(),
    {
        proof {
            lemma2_to64();
        }
        BytesReader { pos: 0, bits: 0, bits_left: 0, bytes }
    }

    /// Hands out `n` of the pending bits, most significant first.
    fn take_pending_be(&mut self, n: u64) -> (v: u64)
        requires
            old(self).model().wf(),
            n <= old(self).model().bits_left,
        ensures
            final(self).model().wf(),
            v as nat == old(self).model().be_bits(n as nat),
            final(self).model() == old(self).model().after_be_bits(n as nat),
    {
        let spare = self.bits_left - n;
        let v = drop_low(self.bits, spare);
        let kept = keep_low(self.bits, spare);
        proof {
            let m = self.model();
            lemma2_to64();
            lemma_pow2_pos(spare as nat);
            lemma_mod_bound(self.bits as int, pow2(spare as nat) as int);
            assert(m.run(0) =~= Seq::<u8>::empty());
            assert(m.be_window(n as nat) == self.bits) by (nonlinear_arith)
                requires
                    m.be_window(n as nat) == self.bits * pow2(0) + 0,
                    pow2(0) == 1,
            ;
        }
        self.bits = kept;
        self.bits_left = spare;
        v
    }

    /// Hands out `n` of the pending bits, least significant first.
    fn take_pending_le(&mut self, n: u64) -> (v: u64)
        requires
            old(self).model().wf(),
            n <= old(self).model().bits_left,
        ensures
            final(self).model().wf(),
            v as nat == old(self).model().le_bits(n as nat),
            final(self).model() == old(self).model().after_le_bits(n as nat),
    {
        let spare = self.bits_left - n;
        let v = keep_low(self.bits, n);
        let kept = drop_low(self.bits, n);
        proof {
            let m = self.model();
            lemma_div_bound(self.bits as nat, n as nat, spare as nat);
            assert(m.run(0) =~= Seq::<u8>::empty());
            assert(m.le_window(n as nat) == self.bits) by (nonlinear_arith)
                requires
                    m.le_window(n as nat) == self.bits + 0 * pow2(m.bits_left),
            ;
        }
        self.bits = kept;
        self.bits_left = spare;
        v
    }
}

impl<'a> KStream<'a> for BytesReader<'a> {
    closed spec fn model(&self) -> StreamModel {
        StreamModel {
            bytes: self.bytes@,
            pos: self.pos as nat,
            bits: self.bits as nat,
            bits_left: self.bits_left as nat,
        }
    }

    fn is_eof(&self) -> (eof: bool) {
        if self.bits_left > 0 {
            return false;
        }
        self.pos == self.bytes.len()
    }

    fn seek(&mut self, position: usize) -> (r: KResult<()>) {
        if position > self.bytes.len() {
            return Err(KError::Incomplete(Needed::Size(position - self.pos)));
        }
        self.pos = position;
        Ok(())
    }

    fn pos(&self) -> (p: usize) {
        self.pos
    }

    fn size(&self) -> (n: usize) {
        self.bytes.len()
    }

    fn align_to_byte(&mut self) -> (r: KResult<()>) {
        proof {
            lemma2_to64();
        }
        self.bits = 0;
        self.bits_left = 0;
        Ok(())
    }

    fn read_bits_int_be(&mut self, n: usize) -> (r: KResult<u64>) {
        if n > 64 {
            return Err(KError::ReadBitsTooLarge { requested: n });
        }
        let want = n as u64;
        if want <= self.bits_left {
            return Ok(self.take_pending_be(want));
        }
        let need = want - self.bits_left;
        let count = ((need + 7) / 8) as usize;
        let unread = self.bytes.len() - self.pos;
        if count > unread {
            return Err(KError::Incomplete(Needed::Size(count - unread)));
        }
        let fetched = be_word(self.bytes, self.pos, count);
        let spare = 8 * (count as u64) - need;
        let top = drop_low(fetched, spare);
        proof {
            let m = self.model();
            assert(m.bytes_for_bits(n as nat) == count);
            assert(m.spare_bits(n as nat) == spare);
            lemma_be_value_bound(m.run(count as nat));
            lemma_pow2_adds(spare as nat, need as nat);
            lemma_pow2_adds(need as nat, spare as nat);
            lemma_div_bound(fetched as nat, spare as nat, need as nat);
            lemma_join_bound(self.bits as nat, top as nat, need as nat, self.bits_left as nat);
            lemma_pow2_le(n as nat, 64);
            lemma2_to64_rest();
            lemma_split_high(self.bits as nat * pow2(need as nat), fetched as nat, spare as nat);
            assert(self.bits as nat * pow2(8 * count as nat) == self.bits as nat * pow2(
                need as nat,
            ) * pow2(spare as nat)) by (nonlinear_arith)
                requires
                    pow2(8 * count as nat) == pow2(need as nat) * pow2(spare as nat),
            ;
            lemma_pow2_pos(spare as nat);
            lemma_mod_bound(fetched as int, pow2(spare as nat) as int);
        }
        let v = join(self.bits, top, need);
        self.bits = keep_low(fetched, spare);
        self.bits_left = spare;
        self.pos = self.pos + count;
        Ok(v)
    }

    fn read_bits_int_le(&mut self, n: usize) -> (r: KResult<u64>) {
        if n > 64 {
            return Err(KError::ReadBitsTooLarge { requested: n });
        }
        let want = n as u64;
        if want <= self.bits_left {
            return Ok(self.take_pending_le(want));
        }
        let need = want - self.bits_left;
        let count = ((need + 7) / 8) as usize;
        let unread = self.bytes.len() - self.pos;
        if count > unread {
            return Err(KError::Incomplete(Needed::Size(count - unread)));
        }
        let fetched = le_word(self.bytes, self.pos, count);
        let spare = 8 * (count as u64) - need;
        let low = keep_low(fetched, need);
        proof {
            let m = self.model();
            assert(m.bytes_for_bits(n as nat) == count);
            assert(m.spare_bits(n as nat) == spare);
            lemma_le_value_bound(m.run(count as nat));
            lemma_pow2_adds(need as nat, spare as nat);
            lemma_pow2_pos(need as nat);
            lemma_mod_bound(fetched as int, pow2(need as nat) as int);
            lemma_join_bound(low as nat, self.bits as nat, self.bits_left as nat, need as nat);
            lemma_pow2_le(n as nat, 64);
            lemma2_to64_rest();
            lemma_split_low(self.bits as nat, fetched as nat, self.bits_left as nat, need as nat);
            lemma_div_bound(fetched as nat, need as nat, spare as nat);
        }
        let v = join(low, self.bits, self.bits_left);
        self.bits = drop_low(fetched, need);
        self.bits_left = spare;
        self.pos = self.pos + count;
        Ok(v)
    }

    fn read_bytes(&mut self, len: usize) -> (r: KResult<&'a [u8]>) {
        let start = self.pos;
        let unread = self.bytes.len() - start;
        if len > unread {
            return Err(KError::Incomplete(Needed::Size(len - unread)));
        }
        proof {
            lemma2_to64();
        }
        self.pos = start + len;
        self.bits = 0;
        self.bits_left = 0;
        Ok(slice_subrange(self.bytes, start, start + len))
    }

    fn read_bytes_full(&mut self) -> (r: KResult<&'a [u8]>) {
        let start = self.pos;
        proof {
            lemma2_to64();
        }
        self.pos = self.bytes.len();
        self.bits = 0;
        self.bits_left = 0;
        Ok(slice_subrange(self.bytes, start, self.bytes.len()))
    }

    fn read_bytes_term(&mut self, term: u8, include_term: bool, consume: bool, eos_error: bool) -> (r:
        KResult<&'a [u8]>) {
        let start = self.pos;
        let mut end = start;
        while end < self.bytes.len() && self.bytes[end] != term
            invariant
                start <= end <= self.bytes@.len(),
                self.model() == old(self).model(),
                self.model().term_pos(term) == crate::bytes::first_index_from(
                    self.bytes@,
                    end as nat,
                    term,
                ),
            decreases self.bytes@.len() - end,
        {
            end += 1;
        }
        if end == self.bytes.len() {
            if eos_error {
                return Err(KError::EncounteredEOF);
            }
            proof {
                lemma2_to64();
            }
            self.bits = 0;
            self.bits_left = 0;
            Ok(slice_subrange(self.bytes, start, self.bytes.len()))
        } else {
            proof {
                lemma2_to64();
            }
            self.pos = if consume {
                end + 1
            } else {
                end
            };
            self.bits = 0;
            self.bits_left = 0;
            let stop = if include_term {
                end + 1
            } else {
                end
            };
            Ok(slice_subrange(self.bytes, start, stop))
        }
    }
}

} // verus!
