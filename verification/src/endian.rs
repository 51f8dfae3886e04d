//! Fixed-width integers as byte runs: what a run of bytes is worth in either
//! byte order, and the conversions that read it.

use byteorder::{BigEndian, ByteOrder, LittleEndian};
use crate::bitops::{lemma_split_high, lemma_split_low};
use vstd::arithmetic::div_mod::{lemma_basic_div, lemma_mod_bound, lemma_mod_breakdown};
use vstd::arithmetic::power2::{
    lemma2_to64, lemma2_to64_rest, lemma_pow2_adds, lemma_pow2_pos, pow2,
};
use vstd::prelude::*;

verus! {

/// The number that `s` spells with its first byte as the most significant.
pub open spec fn be_value(s: Seq<u8>) -> nat
    decreases s.len(),
{
    if s.len() == 0 {
        0
    } else {
        be_value(s.drop_last()) * 256 + s.last() as nat
    }
}

/// The number that `s` spells with its first byte as the least significant.
pub open spec fn le_value(s: Seq<u8>) -> nat
    decreases s.len(),
{
    if s.len() == 0 {
        0
    } else {
        s.first() as nat + 256 * le_value(s.drop_first())
    }
}

/// The two's-complement reading of `v` as a signed number of `width` bits.
pub open spec fn signed(v: nat, width: nat) -> int {
    if v >= pow2((width - 1) as nat) {
        v - pow2(width)
    } else {
        v as int
    }
}

/// The first `n` bytes of `s`.
pub open spec fn head(s: Seq<u8>, n: int) -> Seq<u8> {
    s.subrange(0, n)
}

/// `byteorder::BigEndian::read_u16`: the first two bytes of `buf` as a
/// big-endian number. It panics on a shorter buffer.
#[verifier::external_body]
pub(crate) fn be_u16(buf: &[u8]) -> (v: u16)
    requires
        buf@.len() >= 2,
    ensures
        v as nat == be_value(head(buf@, 2)),
{
    BigEndian::read_u16(buf)
}

/// `byteorder::BigEndian::read_u32`: the first four bytes of `buf` as a
/// big-endian number. It panics on a shorter buffer.
#[verifier::external_body]
pub(crate) fn be_u32(buf: &[u8]) -> (v: u32)
    requires
        buf@.len() >= 4,
    ensures
        v as nat == be_value(head(buf@, 4)),
{
    BigEndian::read_u32(buf)
}

/// `byteorder::BigEndian::read_u64`: the first eight bytes of `buf` as a
/// big-endian number. It panics on a shorter buffer.
#[verifier::external_body]
pub(crate) fn be_u64(buf: &[u8]) -> (v: u64)
    requires
        buf@.len() >= 8,
    ensures
        v as nat == be_value(head(buf@, 8)),
{
    BigEndian::read_u64(buf)
}

/// `byteorder::LittleEndian::read_u16`: the first two bytes of `buf` as a
/// little-endian number. It panics on a shorter buffer.
#[verifier::external_body]
pub(crate) fn le_u16(buf: &[u8]) -> (v: u16)
    requires
        buf@.len() >= 2,
    ensures
        v as nat == le_value(head(buf@, 2)),
{
    LittleEndian::read_u16(buf)
}

/// `byteorder::LittleEndian::read_u32`: the first four bytes of `buf` as a
/// little-endian number. It panics on a shorter buffer.
#[verifier::external_body]
pub(crate) fn le_u32(buf: &[u8]) -> (v: u32)
    requires
        buf@.len() >= 4,
    ensures
        v as nat == le_value(head(buf@, 4)),
{
    LittleEndian::read_u32(buf)
}

/// `byteorder::LittleEndian::read_u64`: the first eight bytes of `buf` as a
/// little-endian number. It panics on a shorter buffer.
#[verifier::external_body]
pub(crate) fn le_u64(buf: &[u8]) -> (v: u64)
    requires
        buf@.len() >= 8,
    ensures
        v as nat == le_value(head(buf@, 8)),
{
    LittleEndian::read_u64(buf)
}

/// `byteorder::BigEndian::read_i16`: the unsigned big-endian reading of the
/// first two bytes, reinterpreted in two's complement. It panics on a shorter
/// buffer.
#[verifier::external_body]
pub(crate) fn be_i16(buf: &[u8]) -> (v: i16)
    requires
        buf@.len() >= 2,
    ensures
        v as int == signed(be_value(head(buf@, 2)), 16),
{
    BigEndian::read_i16(buf)
}

/// `byteorder::BigEndian::read_i32`: the unsigned big-endian reading of the
/// first four bytes, reinterpreted in two's complement. It panics on a shorter
/// buffer.
#[verifier::external_body]
pub(crate) fn be_i32(buf: &[u8]) -> (v: i32)
    requires
        buf@.len() >= 4,
    ensures
        v as int == signed(be_value(head(buf@, 4)), 32),
{
    BigEndian::read_i32(buf)
}

/// `byteorder::BigEndian::read_i64`: the unsigned big-endian reading of the
/// first eight bytes, reinterpreted in two's complement. It panics on a shorter
/// buffer.
#[verifier::external_body]
pub(crate) fn be_i64(buf: &[u8]) -> (v: i64)
    requires
        buf@.len() >= 8,
    ensures
        v as int == signed(be_value(head(buf@, 8)), 64),
{
    BigEndian::read_i64(buf)
}

/// `byteorder::LittleEndian::read_i16`: the unsigned little-endian reading of
/// the first two bytes, reinterpreted in two's complement. It panics on a
/// shorter buffer.
#[verifier::external_body]
pub(crate) fn le_i16(buf: &[u8]) -> (v: i16)
    requires
        buf@.len() >= 2,
    ensures
        v as int == signed(le_value(head(buf@, 2)), 16),
{
    LittleEndian::read_i16(buf)
}

/// `byteorder::LittleEndian::read_i32`: the unsigned little-endian reading of
/// the first four bytes, reinterpreted in two's complement. It panics on a
/// shorter buffer.
#[verifier::external_body]
pub(crate) fn le_i32(buf: &[u8]) -> (v: i32)
    requires
        buf@.len() >= 4,
    ensures
        v as int == signed(le_value(head(buf@, 4)), 32),
{
    LittleEndian::read_i32(buf)
}

/// `byteorder::LittleEndian::read_i64`: the unsigned little-endian reading of
/// the first eight bytes, reinterpreted in two's complement. It panics on a
/// shorter buffer.
#[verifier::external_body]
pub(crate) fn le_i64(buf: &[u8]) -> (v: i64)
    requires
        buf@.len() >= 8,
    ensures
        v as int == signed(le_value(head(buf@, 8)), 64),
{
    LittleEndian::read_i64(buf)
}

/// A big-endian run of `n` bytes spells a number below `2^(8n)`.
pub proof fn lemma_be_value_bound(s: Seq<u8>)
    ensures
        be_value(s) < pow2(8 * s.len()),
    decreases s.len(),
{
    lemma2_to64();
    if s.len() > 0 {
        lemma_be_value_bound(s.drop_last());
        lemma_pow2_adds(8 * s.drop_last().len(), 8);
    }
}

/// A little-endian run of `n` bytes spells a number below `2^(8n)`.
pub proof fn lemma_le_value_bound(s: Seq<u8>)
    ensures
        le_value(s) < pow2(8 * s.len()),
    decreases s.len(),
{
    lemma2_to64();
    if s.len() > 0 {
        lemma_le_value_bound(s.drop_first());
        lemma_pow2_adds(8 * s.drop_first().len(), 8);
    }
}

/// The `len` bytes that spell the low `8 * len` bits of `v`, most significant
/// byte first.
pub open spec fn be_bytes(v: nat, len: nat) -> Seq<u8>
    decreases len,
{
    if len == 0 {
        Seq::empty()
    } else {
        be_bytes(v / 256, (len - 1) as nat).push((v % 256) as u8)
    }
}

/// The `len` bytes that spell the low `8 * len` bits of `v`, least
/// significant byte first.
pub open spec fn le_bytes(v: nat, len: nat) -> Seq<u8>
    decreases len,
{
    if len == 0 {
        Seq::empty()
    } else {
        seq![(v % 256) as u8] + le_bytes(v / 256, (len - 1) as nat)
    }
}

/// Big-endian, a run followed by another is worth the first shifted up by
/// the second's width, plus the second.
pub proof fn lemma_be_value_concat(a: Seq<u8>, b: Seq<u8>)
    ensures
        be_value(a + b) == be_value(a) * pow2(8 * b.len()) + be_value(b),
    decreases b.len(),
{
    lemma2_to64();
    if b.len() == 0 {
        assert(a + b =~= a);
        assert(be_value(a) * pow2(0) == be_value(a)) by (nonlinear_arith)
            requires
                pow2(0) == 1,
        ;
    } else {
        lemma_be_value_concat(a, b.drop_last());
        assert((a + b).drop_last() =~= a + b.drop_last());
        lemma_pow2_adds(8 * b.drop_last().len(), 8);
        assert(be_value(a + b) == be_value(a) * pow2(8 * b.len()) + be_value(b))
            by (nonlinear_arith)
            requires
                be_value(a + b) == (be_value(a) * pow2(8 * b.drop_last().len()) + be_value(
                    b.drop_last(),
                )) * 256 + b.last() as nat,
                be_value(b) == be_value(b.drop_last()) * 256 + b.last() as nat,
                pow2(8 * b.len()) == pow2(8 * b.drop_last().len()) * 256,
        ;
    }
}

/// Little-endian, a run followed by another is worth the first, plus the
/// second shifted up by the first's width.
pub proof fn lemma_le_value_concat(a: Seq<u8>, b: Seq<u8>)
    ensures
        le_value(a + b) == le_value(a) + le_value(b) * pow2(8 * a.len()),
    decreases a.len(),
{
    lemma2_to64();
    if a.len() == 0 {
        assert(a + b =~= b);
        assert(le_value(b) * pow2(0) == le_value(b)) by (nonlinear_arith)
            requires
                pow2(0) == 1,
        ;
    } else {
        lemma_le_value_concat(a.drop_first(), b);
        assert((a + b).drop_first() =~= a.drop_first() + b);
        lemma_pow2_adds(8, 8 * a.drop_first().len());
        assert(le_value(a + b) == le_value(a) + le_value(b) * pow2(8 * a.len()))
            by (nonlinear_arith)
            requires
                le_value(a + b) == a.first() as nat + 256 * (le_value(a.drop_first()) + le_value(
                    b,
                ) * pow2(8 * a.drop_first().len())),
                le_value(a) == a.first() as nat + 256 * le_value(a.drop_first()),
                pow2(8 * a.len()) == 256 * pow2(8 * a.drop_first().len()),
        ;
    }
}

/// Big-endian, the first `p` bytes of a run are worth the run with its other
/// bytes dropped.
pub proof fn lemma_be_value_prefix(s: Seq<u8>, p: nat)
    requires
        p <= s.len(),
    ensures
        be_value(s.take(p as int)) == be_value(s) / pow2(8 * (s.len() - p) as nat),
{
    let a = s.take(p as int);
    let b = s.skip(p as int);
    assert(a + b =~= s);
    lemma_be_value_concat(a, b);
    lemma_be_value_bound(b);
    lemma_split_high(be_value(a), be_value(b), 8 * b.len());
    lemma_basic_div(be_value(b) as int, pow2(8 * b.len()) as int);
}

/// Little-endian, the first `p` bytes of a run are worth the low `8 * p`
/// bits of the run.
pub proof fn lemma_le_value_prefix(s: Seq<u8>, p: nat)
    requires
        p <= s.len(),
    ensures
        le_value(s.take(p as int)) == le_value(s) % pow2(8 * p),
{
    let a = s.take(p as int);
    let b = s.skip(p as int);
    assert(a + b =~= s);
    lemma_le_value_concat(a, b);
    lemma_le_value_bound(a);
    lemma2_to64();
    lemma_split_low(le_value(a), le_value(b), 8 * p, 0);
    assert((le_value(b) % pow2(0)) * pow2(8 * p) == 0) by (nonlinear_arith)
        requires
            pow2(0) == 1,
    ;
}

/// The big-endian bytes of `v` spell the low `8 * len` bits of `v`.
pub proof fn lemma_be_bytes_value(v: nat, len: nat)
    ensures
        be_bytes(v, len).len() == len,
        be_value(be_bytes(v, len)) == v % pow2(8 * len),
    decreases len,
{
    lemma2_to64();
    if len > 0 {
        let rest = (len - 1) as nat;
        lemma_be_bytes_value(v / 256, rest);
        let s = be_bytes(v, len);
        assert(s.drop_last() =~= be_bytes(v / 256, rest));
        lemma_pow2_pos(8 * rest);
        lemma_pow2_adds(8, 8 * rest);
        lemma_mod_breakdown(v as int, 256, pow2(8 * rest) as int);
        lemma_mod_bound(v as int, 256);
        assert(s.last() as nat == v % 256);
    }
}

/// The little-endian bytes of `v` spell the low `8 * len` bits of `v`.
pub proof fn lemma_le_bytes_value(v: nat, len: nat)
    ensures
        le_bytes(v, len).len() == len,
        le_value(le_bytes(v, len)) == v % pow2(8 * len),
    decreases len,
{
    lemma2_to64();
    if len > 0 {
        let rest = (len - 1) as nat;
        lemma_le_bytes_value(v / 256, rest);
        let s = le_bytes(v, len);
        assert(s.drop_first() =~= le_bytes(v / 256, rest));
        lemma_pow2_pos(8 * rest);
        lemma_pow2_adds(8, 8 * rest);
        lemma_mod_breakdown(v as int, 256, pow2(8 * rest) as int);
        lemma_mod_bound(v as int, 256);
        assert(s.first() as nat == v % 256);
    }
}

/// The `count` bytes of `bytes` from `start` on, read as one big-endian word.
pub fn be_word(bytes: &[u8], start: usize, count: usize) -> (v: u64)
    requires
        count <= 8,
        start + count <= bytes@.len(),
    ensures
        v as nat == be_value(bytes@.subrange(start as int, start + count)),
{
    let len: usize = bytes.len();
    let mut v: u64 = 0;
    let mut i: usize = 0;
    while i < count
        invariant
            i <= count <= 8,
            start + count <= bytes@.len(),
            len == bytes@.len(),
            v as nat == be_value(bytes@.subrange(start as int, start + i)),
        decreases count - i,
    {
        proof {
            let s = bytes@.subrange(start as int, start + i);
            let t = bytes@.subrange(start as int, start + i + 1);
            assert(t.drop_last() =~= s);
            lemma_be_value_bound(s);
            lemma_pow2_adds(8 * i as nat, (56 - 8 * i) as nat);
            lemma2_to64_rest();
            vstd::arithmetic::power2::lemma_pow2_pos((56 - 8 * i) as nat);
            assert(v < pow2(56)) by (nonlinear_arith)
                requires
                    v < pow2(8 * i as nat),
                    pow2(56) == pow2(8 * i as nat) * pow2((56 - 8 * i) as nat),
                    pow2((56 - 8 * i) as nat) > 0,
            ;
        }
        v = v * 256 + bytes[start + i] as u64;
        i += 1;
    }
    v
}

/// The `count` bytes of `bytes` from `start` on, read as one little-endian
/// word.
pub fn le_word(bytes: &[u8], start: usize, count: usize) -> (v: u64)
    requires
        count <= 8,
        start + count <= bytes@.len(),
    ensures
        v as nat == le_value(bytes@.subrange(start as int, start + count)),
{
    let len: usize = bytes.len();
    let mut v: u64 = 0;
    let mut i: usize = 0;
    while i < count
        invariant
            i <= count <= 8,
            start + count <= bytes@.len(),
            len == bytes@.len(),
            v as nat == le_value(bytes@.subrange(start + count - i, start + count)),
        decreases count - i,
    {
        proof {
            let s = bytes@.subrange(start + count - i, start + count);
            let t = bytes@.subrange(start + count - i - 1, start + count);
            assert(t.drop_first() =~= s);
            lemma_le_value_bound(s);
            lemma_pow2_adds(8 * i as nat, (56 - 8 * i) as nat);
            lemma2_to64_rest();
            vstd::arithmetic::power2::lemma_pow2_pos((56 - 8 * i) as nat);
            assert(v < pow2(56)) by (nonlinear_arith)
                requires
                    v < pow2(8 * i as nat),
                    pow2(56) == pow2(8 * i as nat) * pow2((56 - 8 * i) as nat),
                    pow2((56 - 8 * i) as nat) > 0,
            ;
        }
        v = v * 256 + bytes[start + count - 1 - i] as u64;
        i += 1;
    }
    v
}

} // verus!
