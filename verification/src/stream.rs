//! The read surface of a stream: position, bounded and terminated byte reads,
//! typed integers in both byte orders, bit reads, and the byte-run
//! transforms that parsers apply to what they have read.

use crate::bytes::{
    first_index_from, lemma_strip_right, lemma_terminate, rotate_left, strip_right, stripped_len,
    terminate, xor_many, xor_one,
};
use crate::endian::{
    be_i16, be_i32, be_i64, be_u16, be_u32, be_u64, be_value, head, le_i16, le_i32, le_i64,
    le_u16, le_u32, le_u64, le_value, signed,
};
use crate::error::{KError, KResult, Needed};
use crate::inflate::{zlib_decompress, zlib_inflated};
use crate::model::StreamModel;
use vstd::prelude::*;
use vstd::slice::slice_subrange;

verus! {

/// Whether two byte runs hold the same bytes.
pub fn same_bytes(a: &[u8], b: &[u8]) -> (eq: bool)
    ensures
        eq == (a@ == b@),
{
    if a.len() != b.len() {
        return false;
    }
    let mut i: usize = 0;
    while i < a.len()
        invariant
            a@.len() == b@.len(),
            i <= a@.len(),
            forall|j: int| 0 <= j < i ==> a@[j] == b@[j],
        decreases a@.len() - i,
    {
        if a[i] != b[i] {
            return false;
        }
        i += 1;
    }
    assert(a@ =~= b@);
    true
}

/// Stepping an index that cycles below `n`.
proof fn lemma_next_index(i: int, n: int)
    requires
        0 <= i,
        0 < n,
    ensures
        (i + 1) % n == if i % n + 1 >= n {
            0
        } else {
            i % n + 1
        },
{
    vstd::arithmetic::div_mod::lemma_fundamental_div_mod(i, n);
    vstd::arithmetic::div_mod::lemma_mod_bound(i, n);
    let q = i / n;
    let r = i % n;
    if r + 1 >= n {
        assert(i + 1 == (q + 1) * n + 0) by (nonlinear_arith)
            requires
                i == n * q + r,
                r + 1 == n,
        ;
        vstd::arithmetic::div_mod::lemma_fundamental_div_mod_converse(i + 1, n, q + 1, 0);
    } else {
        assert(i + 1 == q * n + (r + 1)) by (nonlinear_arith)
            requires
                i == n * q + r,
        ;
        vstd::arithmetic::div_mod::lemma_fundamental_div_mod_converse(i + 1, n, q, r + 1);
    }
}

/// A positioned byte stream with a bit accumulator. The bytes borrowed out of
/// it live as long as `'a`, not as long as the borrow that read them.
pub trait KStream<'a> {
    /// The stream as a mathematical value.
    spec fn model(&self) -> StreamModel;

    /// True exactly when every byte is consumed and no fetched bit is
    /// pending; pending bits alone keep a stream from its end.
    fn is_eof(&self) -> (eof: bool)
        ensures
            eof == self.model().at_eof(),
            self.model().bits_left > 0 ==> !eof,
    ;

    /// Moves the offset to `position`. A position past the end is refused
    /// with the distance from the offset, and the stream stays as it was.
    fn seek(&mut self, position: usize) -> (r: KResult<()>)
        requires
            old(self).model().wf(),
        ensures
            final(self).model().wf(),
            match r {
                Ok(_) => position <= old(self).model().size() && final(self).model() == old(
                    self,
                ).model().at(position as nat),
                Err(e) => position > old(self).model().size() && final(self).model() == old(
                    self,
                ).model() && e == KError::Incomplete(
                    Needed::Size((position - old(self).model().pos) as usize),
                ),
            },
    ;

    /// The offset of the next unread byte.
    fn pos(&self) -> (p: usize)
        ensures
            p as nat == self.model().pos,
    ;

    /// How many bytes the stream holds, read or not.
    fn size(&self) -> (n: usize)
        ensures
            n as nat == self.model().size(),
    ;

    /// Drops the pending bits; the offset stays.
    fn align_to_byte(&mut self) -> (r: KResult<()>)
        requires
            old(self).model().wf(),
        ensures
            r is Ok,
            final(self).model().wf(),
            final(self).model() == old(self).model().aligned(),
    ;

    /// Reads `n` bits, most significant first, right-aligned in the result.
    fn read_bits_int_be(&mut self, n: usize) -> (r: KResult<u64>)
        requires
            old(self).model().wf(),
        ensures
            final(self).model().wf(),
            old(self).model().precedes(final(self).model()),
            match r {
                Ok(v) => {
                    &&& n <= 64
                    &&& old(self).model().has(old(self).model().bytes_for_bits(n as nat))
                    &&& v as nat == old(self).model().be_bits(n as nat)
                    &&& final(self).model() == old(self).model().after_be_bits(n as nat)
                },
                Err(e) => {
                    &&& final(self).model() == old(self).model()
                    &&& if n > 64 {
                        e == (KError::ReadBitsTooLarge { requested: n })
                    } else {
                        old(self).model().fell_short(
                            old(self).model().bytes_for_bits(n as nat),
                            e,
                            final(self).model(),
                        )
                    }
                },
            },
    ;

    /// Reads `n` bits, least significant first, right-aligned in the result.
    fn read_bits_int_le(&mut self, n: usize) -> (r: KResult<u64>)
        requires
            old(self).model().wf(),
        ensures
            final(self).model().wf(),
            old(self).model().precedes(final(self).model()),
            match r {
                Ok(v) => {
                    &&& n <= 64
                    &&& old(self).model().has(old(self).model().bytes_for_bits(n as nat))
                    &&& v as nat == old(self).model().le_bits(n as nat)
                    &&& final(self).model() == old(self).model().after_le_bits(n as nat)
                },
                Err(e) => {
                    &&& final(self).model() == old(self).model()
                    &&& if n > 64 {
                        e == (KError::ReadBitsTooLarge { requested: n })
                    } else {
                        old(self).model().fell_short(
                            old(self).model().bytes_for_bits(n as nat),
                            e,
                            final(self).model(),
                        )
                    }
                },
            },
    ;

    /// Reads the next `len` bytes, or fails with the number of bytes missing
    /// and leaves the stream as it was.
    fn read_bytes(&mut self, len: usize) -> (r: KResult<&'a [u8]>)
        requires
            old(self).model().wf(),
        ensures
            final(self).model().wf(),
            old(self).model().precedes(final(self).model()),
            match r {
                Ok(s) => old(self).model().took(len as nat, final(self).model()) && s@ == old(
                    self,
                ).model().run(len as nat),
                Err(e) => old(self).model().fell_short(len as nat, e, final(self).model()),
            },
    ;

    /// Reads everything that is left.
    fn read_bytes_full(&mut self) -> (r: KResult<&'a [u8]>)
        requires
            old(self).model().wf(),
        ensures
            final(self).model().wf(),
            old(self).model().precedes(final(self).model()),
            r matches Ok(s) && s@ == old(self).model().rest(),
            final(self).model() == old(self).model().aligned().at(old(self).model().size()),
    ;

    /// Reads up to the first `term`. Where there is one, the run returned
    /// holds it if `include_term`, and the offset passes it if `consume`. Where
    /// there is none, the read fails if `eos_error`, and else returns the
    /// rest without moving the offset.
    fn read_bytes_term(&mut self, term: u8, include_term: bool, consume: bool, eos_error: bool) -> (r:
        KResult<&'a [u8]>)
        requires
            old(self).model().wf(),
        ensures
            final(self).model().wf(),
            old(self).model().precedes(final(self).model()),
            ({
                let before = old(self).model();
                let m = before.term_pos(term);
                if m < before.size() {
                    &&& r matches Ok(s) && s@ == before.bytes.subrange(
                        before.pos as int,
                        m + if include_term { 1int } else { 0int },
                    )
                    &&& final(self).model() == before.aligned().at(
                        m + if consume { 1nat } else { 0nat },
                    )
                } else if eos_error {
                    r == Err::<&[u8], KError>(KError::EncounteredEOF) && final(self).model()
                        == before
                } else {
                    r matches Ok(s) && s@ == before.rest() && final(self).model()
                        == before.aligned()
                }
            }),
    ;

    /// Reads one byte as a signed integer.
    fn read_s1(&mut self) -> (r: KResult<i8>)
        requires
            old(self).model().wf(),
        ensures
            final(self).model().wf(),
            old(self).model().precedes(final(self).model()),
            match r {
                Ok(v) => old(self).model().took(1, final(self).model()) && v as int == signed(
                    old(self).model().run(1)[0] as nat,
                    8,
                ),
                Err(e) => old(self).model().fell_short(1, e, final(self).model()),
            },
    {
        match self.read_bytes(1) {
            Ok(s) => {
                let b = s[0];
                proof {
                    vstd::arithmetic::power2::lemma2_to64();
                    assert(b as i8 as int == if b >= 128 {
                        b as int - 256
                    } else {
                        b as int
                    }) by (bit_vector);
                }
                Ok(b as i8)
            },
            Err(e) => Err(e),
        }
    }

    /// Reads one byte as an unsigned integer.
    fn read_u1(&mut self) -> (r: KResult<u8>)
        requires
            old(self).model().wf(),
        ensures
            final(self).model().wf(),
            old(self).model().precedes(final(self).model()),
            match r {
                Ok(v) => old(self).model().took(1, final(self).model()) && v == old(
                    self,
                ).model().run(1)[0],
                Err(e) => old(self).model().fell_short(1, e, final(self).model()),
            },
    {
        match self.read_bytes(1) {
            Ok(s) => Ok(s[0]),
            Err(e) => Err(e),
        }
    }

    /// Reads 2 bytes as a signed big-endian integer.
    fn read_s2be(&mut self) -> (r: KResult<i16>)
        requires
            old(self).model().wf(),
        ensures
            final(self).model().wf(),
            old(self).model().precedes(final(self).model()),
            match r {
                Ok(v) => old(self).model().took(2, final(self).model()) && v as int == signed(be_value(old(self).model().run(2)), 16),
                Err(e) => old(self).model().fell_short(2, e, final(self).model()),
            },
    {
        match self.read_bytes(2) {
            Ok(s) => {
                assert(head(s@, 2) =~= s@);
                Ok(be_i16(s))
            },
            Err(e) => Err(e),
        }
    }

    /// Reads 4 bytes as a signed big-endian integer.
    fn read_s4be(&mut self) -> (r: KResult<i32>)
        requires
            old(self).model().wf(),
        ensures
            final(self).model().wf(),
            old(self).model().precedes(final(self).model()),
            match r {
                Ok(v) => old(self).model().took(4, final(self).model()) && v as int == signed(be_value(old(self).model().run(4)), 32),
                Err(e) => old(self).model().fell_short(4, e, final(self).model()),
            },
    {
        match self.read_bytes(4) {
            Ok(s) => {
                assert(head(s@, 4) =~= s@);
                Ok(be_i32(s))
            },
            Err(e) => Err(e),
        }
    }

    /// Reads 8 bytes as a signed big-endian integer.
    fn read_s8be(&mut self) -> (r: KResult<i64>)
        requires
            old(self).model().wf(),
        ensures
            final(self).model().wf(),
            old(self).model().precedes(final(self).model()),
            match r {
                Ok(v) => old(self).model().took(8, final(self).model()) && v as int == signed(be_value(old(self).model().run(8)), 64),
                Err(e) => old(self).model().fell_short(8, e, final(self).model()),
            },
    {
        match self.read_bytes(8) {
            Ok(s) => {
                assert(head(s@, 8) =~= s@);
                Ok(be_i64(s))
            },
            Err(e) => Err(e),
        }
    }

    /// Reads 2 bytes as a signed little-endian integer.
    fn read_s2le(&mut self) -> (r: KResult<i16>)
        requires
            old(self).model().wf(),
        ensures
            final(self).model().wf(),
            old(self).model().precedes(final(self).model()),
            match r {
                Ok(v) => old(self).model().took(2, final(self).model()) && v as int == signed(le_value(old(self).model().run(2)), 16),
                Err(e) => old(self).model().fell_short(2, e, final(self).model()),
            },
    {
        match self.read_bytes(2) {
            Ok(s) => {
                assert(head(s@, 2) =~= s@);
                Ok(le_i16(s))
            },
            Err(e) => Err(e),
        }
    }

    /// Reads 4 bytes as a signed little-endian integer.
    fn read_s4le(&mut self) -> (r: KResult<i32>)
        requires
            old(self).model().wf(),
        ensures
            final(self).model().wf(),
            old(self).model().precedes(final(self).model()),
            match r {
                Ok(v) => old(self).model().took(4, final(self).model()) && v as int == signed(le_value(old(self).model().run(4)), 32),
                Err(e) => old(self).model().fell_short(4, e, final(self).model()),
            },
    {
        match self.read_bytes(4) {
            Ok(s) => {
                assert(head(s@, 4) =~= s@);
                Ok(le_i32(s))
            },
            Err(e) => Err(e),
        }
    }

    /// Reads 8 bytes as a signed little-endian integer.
    fn read_s8le(&mut self) -> (r: KResult<i64>)
        requires
            old(self).model().wf(),
        ensures
            final(self).model().wf(),
            old(self).model().precedes(final(self).model()),
            match r {
                Ok(v) => old(self).model().took(8, final(self).model()) && v as int == signed(le_value(old(self).model().run(8)), 64),
                Err(e) => old(self).model().fell_short(8, e, final(self).model()),
            },
    {
        match self.read_bytes(8) {
            Ok(s) => {
                assert(head(s@, 8) =~= s@);
                Ok(le_i64(s))
            },
            Err(e) => Err(e),
        }
    }

    /// Reads 2 bytes as an unsigned big-endian integer.
    fn read_u2be(&mut self) -> (r: KResult<u16>)
        requires
            old(self).model().wf(),
        ensures
            final(self).model().wf(),
            old(self).model().precedes(final(self).model()),
            match r {
                Ok(v) => old(self).model().took(2, final(self).model()) && v as nat == be_value(old(self).model().run(2)),
                Err(e) => old(self).model().fell_short(2, e, final(self).model()),
            },
    {
        match self.read_bytes(2) {
            Ok(s) => {
                assert(head(s@, 2) =~= s@);
                Ok(be_u16(s))
            },
            Err(e) => Err(e),
        }
    }

    /// Reads 4 bytes as an unsigned big-endian integer.
    fn read_u4be(&mut self) -> (r: KResult<u32>)
        requires
            old(self).model().wf(),
        ensures
            final(self).model().wf(),
            old(self).model().precedes(final(self).model()),
            match r {
                Ok(v) => old(self).model().took(4, final(self).model()) && v as nat == be_value(old(self).model().run(4)),
                Err(e) => old(self).model().fell_short(4, e, final(self).model()),
            },
    {
        match self.read_bytes(4) {
            Ok(s) => {
                assert(head(s@, 4) =~= s@);
                Ok(be_u32(s))
            },
            Err(e) => Err(e),
        }
    }

    /// Reads 8 bytes as an unsigned big-endian integer.
    fn read_u8be(&mut self) -> (r: KResult<u64>)
        requires
            old(self).model().wf(),
        ensures
            final(self).model().wf(),
            old(self).model().precedes(final(self).model()),
            match r {
                Ok(v) => old(self).model().took(8, final(self).model()) && v as nat == be_value(old(self).model().run(8)),
                Err(e) => old(self).model().fell_short(8, e, final(self).model()),
            },
    {
        match self.read_bytes(8) {
            Ok(s) => {
                assert(head(s@, 8) =~= s@);
                Ok(be_u64(s))
            },
            Err(e) => Err(e),
        }
    }

    /// Reads 2 bytes as an unsigned little-endian integer.
    fn read_u2le(&mut self) -> (r: KResult<u16>)
        requires
            old(self).model().wf(),
        ensures
            final(self).model().wf(),
            old(self).model().precedes(final(self).model()),
            match r {
                Ok(v) => old(self).model().took(2, final(self).model()) && v as nat == le_value(old(self).model().run(2)),
                Err(e) => old(self).model().fell_short(2, e, final(self).model()),
            },
    {
        match self.read_bytes(2) {
            Ok(s) => {
                assert(head(s@, 2) =~= s@);
                Ok(le_u16(s))
            },
            Err(e) => Err(e),
        }
    }

    /// Reads 4 bytes as an unsigned little-endian integer.
    fn read_u4le(&mut self) -> (r: KResult<u32>)
        requires
            old(self).model().wf(),
        ensures
            final(self).model().wf(),
            old(self).model().precedes(final(self).model()),
            match r {
                Ok(v) => old(self).model().took(4, final(self).model()) && v as nat == le_value(old(self).model().run(4)),
                Err(e) => old(self).model().fell_short(4, e, final(self).model()),
            },
    {
        match self.read_bytes(4) {
            Ok(s) => {
                assert(head(s@, 4) =~= s@);
                Ok(le_u32(s))
            },
            Err(e) => Err(e),
        }
    }

    /// Reads 8 bytes as an unsigned little-endian integer.
    fn read_u8le(&mut self) -> (r: KResult<u64>)
        requires
            old(self).model().wf(),
        ensures
            final(self).model().wf(),
            old(self).model().precedes(final(self).model()),
            match r {
                Ok(v) => old(self).model().took(8, final(self).model()) && v as nat == le_value(old(self).model().run(8)),
                Err(e) => old(self).model().fell_short(8, e, final(self).model()),
            },
    {
        match self.read_bytes(8) {
            Ok(s) => {
                assert(head(s@, 8) =~= s@);
                Ok(le_u64(s))
            },
            Err(e) => Err(e),
        }
    }

    /// Reads as many bytes as `expected` holds and checks that they are the
    /// same. On a mismatch the bytes stay consumed and the error reports
    /// them.
    fn ensure_fixed_contents(&mut self, expected: &[u8]) -> (r: KResult<&'a [u8]>)
        requires
            old(self).model().wf(),
        ensures
            final(self).model().wf(),
            old(self).model().precedes(final(self).model()),
            ({
                let before = old(self).model();
                let n = expected@.len();
                match r {
                    Ok(s) => before.took(n, final(self).model()) && before.run(n) == expected@
                        && s@ == expected@,
                    Err(e) => if before.has(n) {
                        &&& before.run(n) != expected@
                        &&& final(self).model() == before.after_bytes(n)
                        &&& e matches KError::UnexpectedContents { actual } && actual@
                            == before.run(n)
                    } else {
                        before.fell_short(n, e, final(self).model())
                    },
                }
            }),
    {
        match self.read_bytes(expected.len()) {
            Ok(actual) => {
                if same_bytes(actual, expected) {
                    Ok(actual)
                } else {
                    Err(KError::UnexpectedContents { actual: vstd::slice::slice_to_vec(actual) })
                }
            },
            Err(e) => Err(e),
        }
    }

    /// The longest prefix of `bytes` that does not end in `pad`, borrowed
    /// from `bytes`.
    fn bytes_strip_right<'b>(&'b self, bytes: &'b [u8], pad: u8) -> (r: &'b [u8])
        ensures
            r@ == strip_right(bytes@, pad),
            r@.is_prefix_of(bytes@),
            r@.len() > 0 ==> r@.last() != pad,
            forall|i: int| r@.len() <= i < bytes@.len() ==> bytes@[i] == pad,
    {
        let mut new_len = bytes.len();
        assert(bytes@.take(new_len as int) =~= bytes@);
        while new_len > 0 && bytes[new_len - 1] == pad
            invariant
                new_len <= bytes@.len(),
                stripped_len(bytes@, pad) == stripped_len(bytes@.take(new_len as int), pad),
            decreases new_len,
        {
            assert(bytes@.take(new_len as int).drop_last() =~= bytes@.take(new_len - 1));
            new_len -= 1;
        }
        proof {
            lemma_strip_right(bytes@, pad);
        }
        slice_subrange(bytes, 0, new_len)
    }

    /// The prefix of `bytes` up to its first `term`, with that terminator if
    /// `include_term`; all of `bytes` where it holds no `term`.
    fn bytes_terminate<'b>(&'b self, bytes: &'b [u8], term: u8, include_term: bool) -> (r:
        &'b [u8])
        ensures
            r@ == terminate(bytes@, term, include_term),
            r@.is_prefix_of(bytes@),
            (include_term && bytes@.contains(term)) ==> r@.len() > 0 && r@.last() == term,
            !(include_term && bytes@.contains(term)) ==> !r@.contains(term),
            !bytes@.contains(term) ==> r@ == bytes@,
    {
        let mut new_len: usize = 0;
        while new_len < bytes.len() && bytes[new_len] != term
            invariant
                new_len <= bytes@.len(),
                first_index_from(bytes@, 0, term) == first_index_from(
                    bytes@,
                    new_len as nat,
                    term,
                ),
            decreases bytes@.len() - new_len,
        {
            new_len += 1;
        }
        if include_term && new_len < bytes.len() {
            new_len += 1;
        }
        proof {
            lemma_terminate(bytes@, term, include_term);
        }
        slice_subrange(bytes, 0, new_len)
    }

    /// Every byte combined with `key` by exclusive or.
    fn process_xor_one(bytes: &[u8], key: u8) -> (r: Vec<u8>)
        ensures
            r@ == xor_one(bytes@, key),
    {
        let mut res: Vec<u8> = Vec::new();
        let mut i: usize = 0;
        while i < bytes.len()
            invariant
                i <= bytes@.len(),
                res@ == xor_one(bytes@.take(i as int), key),
            decreases bytes@.len() - i,
        {
            res.push(bytes[i] ^ key);
            i += 1;
            assert(res@ =~= xor_one(bytes@.take(i as int), key));
        }
        assert(bytes@.take(bytes@.len() as int) =~= bytes@);
        res
    }

    /// Byte `i` combined with byte `i mod |key|` of the key by exclusive or.
    /// The key must not be empty.
    fn process_xor_many(bytes: &[u8], key: &[u8]) -> (r: Vec<u8>)
        requires
            key@.len() > 0,
        ensures
            r@ == xor_many(bytes@, key@),
    {
        let mut res: Vec<u8> = Vec::new();
        let mut i: usize = 0;
        let mut ki: usize = 0;
        while i < bytes.len()
            invariant
                i <= bytes@.len(),
                key@.len() > 0,
                ki < key@.len(),
                ki as int == i as int % key@.len() as int,
                res@ == xor_many(bytes@.take(i as int), key@),
            decreases bytes@.len() - i,
        {
            res.push(bytes[i] ^ key[ki]);
            proof {
                lemma_next_index(i as int, key@.len() as int);
            }
            i += 1;
            ki += 1;
            if ki >= key.len() {
                ki = 0;
            }
            assert(res@ =~= xor_many(bytes@.take(i as int), key@));
        }
        assert(bytes@.take(bytes@.len() as int) =~= bytes@);
        res
    }

    /// Every byte rotated left by `amount` bits, `amount` at most 7.
    fn process_rotate_left(bytes: &[u8], amount: u8) -> (r: Vec<u8>)
        requires
            amount <= 7,
        ensures
            r@ == rotate_left(bytes@, amount),
    {
        let mut res: Vec<u8> = Vec::new();
        let mut i: usize = 0;
        while i < bytes.len()
            invariant
                i <= bytes@.len(),
                amount <= 7,
                res@ == rotate_left(bytes@.take(i as int), amount),
            decreases bytes@.len() - i,
        {
            let b = bytes[i];
            let rotated = if amount == 0 {
                b
            } else {
                (b << amount) | (b >> (8 - amount))
            };
            res.push(rotated);
            i += 1;
            assert(res@ =~= rotate_left(bytes@.take(i as int), amount));
        }
        assert(bytes@.take(bytes@.len() as int) =~= bytes@);
        res
    }

    /// Decompresses a zlib stream to its end; a stream that the decoder
    /// rejects is an `IoError` with the decoder's text.
    fn process_zlib(bytes: &[u8]) -> (r: KResult<Vec<u8>>)
        ensures
            match zlib_inflated(bytes@) {
                Ok(s) => r matches Ok(v) && v@ == s,
                Err(t) => r matches Err(KError::IoError { desc }) && desc@ == t,
            },
    {
        zlib_decompress(bytes)
    }
}

} // verus!
