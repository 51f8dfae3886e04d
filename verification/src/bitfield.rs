//! Bit reads as reads of bit fields: what a stream hands out is the run of
//! bits at its bit position, so values packed into bytes come back as they
//! went in.

use crate::bitops::{
    lemma_div_of_div, lemma_join_bound, lemma_mod_of_mod, lemma_mod_small, lemma_mod_then_div,
    lemma_pow2_le, lemma_split_high, lemma_split_low,
};
use crate::endian::{
    be_bytes, be_value, le_bytes, le_value, lemma_be_bytes_value, lemma_be_value_bound,
    lemma_be_value_concat, lemma_be_value_prefix, lemma_le_bytes_value, lemma_le_value_bound,
    lemma_le_value_concat, lemma_le_value_prefix,
};
use crate::model::StreamModel;
use vstd::arithmetic::div_mod::lemma_basic_div;
use vstd::arithmetic::power2::{lemma2_to64, lemma_pow2_adds, lemma_pow2_pos, pow2};
use vstd::prelude::*;

verus! {

/// The `n` bits of `bytes` from bit `at` on, counting each byte's most
/// significant bit first, as a number.
pub open spec fn be_field(bytes: Seq<u8>, at: nat, n: nat) -> nat
    recommends
        at + n <= 8 * bytes.len(),
{
    (be_value(bytes) / pow2((8 * bytes.len() - at - n) as nat)) % pow2(n)
}

/// The `n` bits of `bytes` from bit `at` on, counting each byte's least
/// significant bit first, as a number.
pub open spec fn le_field(bytes: Seq<u8>, at: nat, n: nat) -> nat
    recommends
        at + n <= 8 * bytes.len(),
{
    (le_value(bytes) / pow2(at)) % pow2(n)
}

impl StreamModel {
    /// How many bits of the stream have been handed out: those of the bytes
    /// consumed, less the ones still pending.
    pub open spec fn bit_pos(self) -> nat {
        (8 * self.pos - self.bits_left) as nat
    }

    /// The pending bits are the last bits of the bytes consumed, as
    /// big-endian bit reads leave them.
    pub open spec fn be_coherent(self) -> bool {
        &&& self.wf()
        &&& self.bits_left <= 8 * self.pos
        &&& self.bits == be_value(self.bytes.take(self.pos as int)) % pow2(self.bits_left)
    }

    /// The pending bits are the top bits of the bytes consumed, as
    /// little-endian bit reads leave them.
    pub open spec fn le_coherent(self) -> bool {
        &&& self.wf()
        &&& self.bits_left <= 8 * self.pos
        &&& self.bits == le_value(self.bytes.take(self.pos as int)) / pow2(self.bit_pos())
    }
}

/// A stream with no bits pending is coherent for either bit order: a fresh
/// stream is, and so is any stream after a whole-byte read or an alignment.
pub proof fn lemma_aligned_is_coherent(m: StreamModel)
    requires
        m.wf(),
        m.bits_left == 0,
    ensures
        m.be_coherent(),
        m.le_coherent(),
        m.bit_pos() == 8 * m.pos,
{
    lemma2_to64();
    let prefix = m.bytes.take(m.pos as int);
    lemma_le_value_bound(prefix);
    lemma_basic_div(le_value(prefix) as int, pow2(8 * m.pos) as int);
}

/// A big-endian read of `n` bits from a coherent stream returns the `n` bits
/// at the stream's bit position and moves that position on by `n`.
pub proof fn lemma_be_bits_are_next(m: StreamModel, n: nat)
    requires
        m.be_coherent(),
        n <= 64,
        m.has(m.bytes_for_bits(n)),
    ensures
        m.be_bits(n) == be_field(m.bytes, m.bit_pos(), n),
        m.after_be_bits(n).be_coherent(),
        m.after_be_bits(n).bit_pos() == m.bit_pos() + n,
{
    let k = m.bytes_for_bits(n);
    let spare = m.spare_bits(n);
    let after = m.after_be_bits(n);
    let before = m.bytes.take(m.pos as int);
    let fetched = m.run(k);
    let upto = m.bytes.take((m.pos + k) as int);
    let w = be_value(before);
    let f = be_value(fetched);
    let w2 = be_value(upto);
    assert(before + fetched =~= upto);
    lemma_be_value_concat(before, fetched);
    lemma_be_value_bound(fetched);
    // The window is the low bits of everything consumed so far.
    lemma_split_low(f, w, 8 * k, m.bits_left);
    assert(m.be_window(n) == w2 % pow2(8 * k + m.bits_left)) by (nonlinear_arith)
        requires
            m.be_window(n) == (w % pow2(m.bits_left)) * pow2(8 * k) + f,
            (f + w * pow2(8 * k)) % pow2(8 * k + m.bits_left) == f + (w % pow2(m.bits_left))
                * pow2(8 * k),
            w2 == w * pow2(8 * k) + f,
    ;
    assert(8 * k + m.bits_left == spare + n);
    lemma_mod_then_div(w2, spare, n);
    lemma_mod_of_mod(w2, spare, spare + n);
    assert(m.be_bits(n) == (w2 / pow2(spare)) % pow2(n));
    assert(after.bits == w2 % pow2(spare));
    lemma_pow2_pos(spare);
    vstd::arithmetic::div_mod::lemma_mod_bound(w2 as int, pow2(spare) as int);
    assert(after.bytes.take(after.pos as int) =~= upto);
    // Everything consumed so far is the whole with the rest dropped.
    let rest = (8 * (m.bytes.len() - (m.pos + k))) as nat;
    lemma_be_value_prefix(m.bytes, m.pos + k);
    lemma_div_of_div(be_value(m.bytes), rest, spare);
    assert(rest + spare == 8 * m.bytes.len() - m.bit_pos() - n);
}

/// A little-endian read of `n` bits from a coherent stream returns the `n`
/// bits at the stream's bit position and moves that position on by `n`.
pub proof fn lemma_le_bits_are_next(m: StreamModel, n: nat)
    requires
        m.le_coherent(),
        n <= 64,
        m.has(m.bytes_for_bits(n)),
    ensures
        m.le_bits(n) == le_field(m.bytes, m.bit_pos(), n),
        m.after_le_bits(n).le_coherent(),
        m.after_le_bits(n).bit_pos() == m.bit_pos() + n,
{
    let k = m.bytes_for_bits(n);
    let spare = m.spare_bits(n);
    let after = m.after_le_bits(n);
    let before = m.bytes.take(m.pos as int);
    let fetched = m.run(k);
    let upto = m.bytes.take((m.pos + k) as int);
    let w = le_value(before);
    let f = le_value(fetched);
    let w2 = le_value(upto);
    let c = m.bit_pos();
    assert(before + fetched =~= upto);
    lemma_le_value_concat(before, fetched);
    // The window is everything consumed so far with the bits handed out
    // dropped.
    lemma_pow2_adds(m.bits_left, c);
    lemma_split_high(f * pow2(m.bits_left), w, c);
    assert(m.le_window(n) == w2 / pow2(c)) by (nonlinear_arith)
        requires
            m.le_window(n) == w / pow2(c) + f * pow2(m.bits_left),
            (f * pow2(m.bits_left) * pow2(c) + w) / pow2(c) == f * pow2(m.bits_left) + w / pow2(
                c,
            ),
            w2 == w + f * pow2(8 * m.pos),
            pow2(8 * m.pos) == pow2(m.bits_left) * pow2(c),
    ;
    lemma_div_of_div(w2, c, n);
    assert(after.bits == w2 / pow2(c + n));
    assert(after.bytes.take(after.pos as int) =~= upto);
    assert(after.bit_pos() == c + n);
    lemma_le_value_bound(upto);
    crate::bitops::lemma_div_bound(w2, c + n, spare);
    // Everything consumed so far is the low bits of the whole.
    lemma_le_value_prefix(m.bytes, m.pos + k);
    let whole = le_value(m.bytes);
    let width = 8 * (m.pos + k);
    lemma_mod_then_div(whole, c, (width - c) as nat);
    lemma_mod_of_mod(whole / pow2(c), n, (width - c) as nat);
}

/// A value and the number of bits it is packed into.
pub struct BitField {
    pub width: nat,
    pub value: nat,
}

/// Every field is at most 64 bits wide and its value fits its width.
pub open spec fn fields_fit(fs: Seq<BitField>) -> bool {
    forall|i: int| 0 <= i < fs.len() ==> fs[i].width <= 64 && fs[i].value < pow2(fs[i].width)
}

/// The widths of all fields together.
pub open spec fn total_width(fs: Seq<BitField>) -> nat
    decreases fs.len(),
{
    if fs.len() == 0 {
        0
    } else {
        total_width(fs.drop_last()) + fs.last().width
    }
}

/// The fields written one after another, each most significant bit first,
/// as one number: the first field ends up on top.
pub open spec fn packed_be(fs: Seq<BitField>) -> nat
    decreases fs.len(),
{
    if fs.len() == 0 {
        0
    } else {
        packed_be(fs.drop_last()) * pow2(fs.last().width) + fs.last().value
    }
}

/// The fields written one after another, each least significant bit first,
/// as one number: the first field ends up at the bottom.
pub open spec fn packed_le(fs: Seq<BitField>) -> nat
    decreases fs.len(),
{
    if fs.len() == 0 {
        0
    } else {
        packed_le(fs.drop_last()) + fs.last().value * pow2(total_width(fs.drop_last()))
    }
}

/// How many bytes the fields take.
pub open spec fn packed_len(fs: Seq<BitField>) -> nat {
    (total_width(fs) + 7) / 8
}

/// The bytes that hold the fields packed most significant bit first, the
/// last byte filled up with zero bits.
pub open spec fn pack_be(fs: Seq<BitField>) -> Seq<u8> {
    be_bytes(
        packed_be(fs) * pow2((8 * packed_len(fs) - total_width(fs)) as nat),
        packed_len(fs),
    )
}

/// The bytes that hold the fields packed least significant bit first, the
/// last byte filled up with zero bits.
pub open spec fn pack_le(fs: Seq<BitField>) -> Seq<u8> {
    le_bytes(packed_le(fs), packed_len(fs))
}

/// The stream `m` after big-endian reads of the widths of the first `i`
/// fields, in order.
pub open spec fn after_be_reads(m: StreamModel, fs: Seq<BitField>, i: nat) -> StreamModel
    decreases i,
{
    if i == 0 {
        m
    } else {
        after_be_reads(m, fs, (i - 1) as nat).after_be_bits(fs[i - 1].width)
    }
}

/// The stream `m` after little-endian reads of the widths of the first `i`
/// fields, in order.
pub open spec fn after_le_reads(m: StreamModel, fs: Seq<BitField>, i: nat) -> StreamModel
    decreases i,
{
    if i == 0 {
        m
    } else {
        after_le_reads(m, fs, (i - 1) as nat).after_le_bits(fs[i - 1].width)
    }
}

/// The first `i + 1` fields are as wide as the first `i` and field `i`, and
/// no prefix is wider than the whole.
pub proof fn lemma_width_of_prefix(fs: Seq<BitField>, i: nat)
    requires
        i <= fs.len(),
    ensures
        total_width(fs.take(i as int)) <= total_width(fs),
        i < fs.len() ==> total_width(fs.take(i as int + 1)) == total_width(fs.take(i as int))
            + fs[i as int].width,
    decreases fs.len() - i,
{
    if i == fs.len() {
        assert(fs.take(i as int) =~= fs);
    } else {
        lemma_width_of_prefix(fs, i + 1);
        assert(fs.take(i as int + 1).drop_last() =~= fs.take(i as int));
    }
}

/// Packed fields take no more bits than their widths together.
pub proof fn lemma_packed_bound(fs: Seq<BitField>)
    requires
        fields_fit(fs),
    ensures
        packed_be(fs) < pow2(total_width(fs)),
        packed_le(fs) < pow2(total_width(fs)),
    decreases fs.len(),
{
    lemma2_to64();
    if fs.len() > 0 {
        let init = fs.drop_last();
        let last = fs.last();
        lemma_packed_bound(init);
        lemma_join_bound(packed_be(init), last.value, last.width, total_width(init));
        lemma_join_bound(last.value, packed_le(init), total_width(init), last.width);
        lemma_pow2_adds(last.width, total_width(init));
        lemma_pow2_adds(total_width(init), last.width);
    }
}

/// Big-endian, the packed fields with the later ones dropped are the first
/// `j` fields packed.
pub proof fn lemma_packed_be_prefix(fs: Seq<BitField>, j: nat)
    requires
        fields_fit(fs),
        j <= fs.len(),
    ensures
        total_width(fs.take(j as int)) <= total_width(fs),
        packed_be(fs) / pow2((total_width(fs) - total_width(fs.take(j as int))) as nat)
            == packed_be(fs.take(j as int)),
    decreases fs.len(),
{
    lemma2_to64();
    lemma_width_of_prefix(fs, j);
    if j == fs.len() {
        assert(fs.take(j as int) =~= fs);
        assert(packed_be(fs) / 1 == packed_be(fs));
    } else {
        let init = fs.drop_last();
        let last = fs.last();
        lemma_packed_be_prefix(init, j);
        assert(init.take(j as int) =~= fs.take(j as int));
        let gap = (total_width(init) - total_width(fs.take(j as int))) as nat;
        lemma_split_high(packed_be(init), last.value, last.width);
        lemma_basic_div(last.value as int, pow2(last.width) as int);
        lemma_div_of_div(packed_be(fs), last.width, gap);
    }
}

/// Little-endian, the low bits of the packed fields are the first `j` fields
/// packed.
pub proof fn lemma_packed_le_prefix(fs: Seq<BitField>, j: nat)
    requires
        fields_fit(fs),
        j <= fs.len(),
    ensures
        packed_le(fs) % pow2(total_width(fs.take(j as int))) == packed_le(fs.take(j as int)),
    decreases fs.len(),
{
    lemma2_to64();
    lemma_width_of_prefix(fs, j);
    if j == fs.len() {
        assert(fs.take(j as int) =~= fs);
        lemma_packed_bound(fs);
        lemma_mod_small(packed_le(fs), total_width(fs));
    } else {
        let init = fs.drop_last();
        let last = fs.last();
        lemma_packed_le_prefix(init, j);
        assert(init.take(j as int) =~= fs.take(j as int));
        lemma_packed_bound(init);
        let cut = total_width(fs.take(j as int));
        lemma_width_of_prefix(init, j);
        lemma_split_low(packed_le(init), last.value, total_width(init), 0);
        assert((last.value % pow2(0)) * pow2(total_width(init)) == 0) by (nonlinear_arith)
            requires
                pow2(0) == 1,
        ;
        lemma_mod_of_mod(packed_le(fs), cut, total_width(init));
    }
}

/// In the bytes packed most significant bit first, field `i` lies where the
/// fields before it end and holds its value.
pub proof fn lemma_packed_be_field(fs: Seq<BitField>, i: nat)
    requires
        fields_fit(fs),
        i < fs.len(),
    ensures
        pack_be(fs).len() == packed_len(fs),
        be_field(pack_be(fs), total_width(fs.take(i as int)), fs[i as int].width)
            == fs[i as int].value,
{
    let total = total_width(fs);
    let len = packed_len(fs);
    let pad = (8 * len - total) as nat;
    let at = total_width(fs.take(i as int));
    let n = fs[i as int].width;
    let upto = fs.take(i as int + 1);
    lemma2_to64();
    lemma_width_of_prefix(fs, i);
    lemma_width_of_prefix(fs, i + 1);
    let gap = (total - at - n) as nat;
    // The bytes spell the packed number, shifted up by the padding.
    lemma_packed_bound(fs);
    lemma_be_bytes_value(packed_be(fs) * pow2(pad), len);
    lemma_join_bound(packed_be(fs), 0, pad, total);
    lemma_pow2_adds(pad, total);
    lemma_mod_small(packed_be(fs) * pow2(pad), 8 * len);
    assert(be_value(pack_be(fs)) == packed_be(fs) * pow2(pad));
    // Dropping the padding and the later fields leaves the fields up to `i`.
    lemma_div_of_div(packed_be(fs) * pow2(pad), pad, gap);
    lemma_split_high(packed_be(fs), 0, pad);
    lemma_pow2_pos(pad);
    lemma_basic_div(0, pow2(pad) as int);
    lemma_packed_be_prefix(fs, i + 1);
    assert(be_value(pack_be(fs)) / pow2(pad + gap) == packed_be(upto));
    assert(pad + gap == 8 * pack_be(fs).len() - at - n);
    // Field `i` is the bottom of those.
    assert(upto.drop_last() =~= fs.take(i as int));
    assert(upto.last() == fs[i as int]);
    lemma_split_high(packed_be(fs.take(i as int)), fs[i as int].value, n);
    lemma_mod_small(fs[i as int].value, n);
}

/// In the bytes packed least significant bit first, field `i` lies where the
/// fields before it end and holds its value.
pub proof fn lemma_packed_le_field(fs: Seq<BitField>, i: nat)
    requires
        fields_fit(fs),
        i < fs.len(),
    ensures
        pack_le(fs).len() == packed_len(fs),
        le_field(pack_le(fs), total_width(fs.take(i as int)), fs[i as int].width)
            == fs[i as int].value,
{
    let total = total_width(fs);
    let len = packed_len(fs);
    let at = total_width(fs.take(i as int));
    let n = fs[i as int].width;
    let upto = fs.take(i as int + 1);
    lemma2_to64();
    lemma_width_of_prefix(fs, i);
    lemma_width_of_prefix(fs, i + 1);
    // The bytes spell the packed number.
    lemma_packed_bound(fs);
    lemma_le_bytes_value(packed_le(fs), len);
    lemma_pow2_le(total, 8 * len);
    lemma_mod_small(packed_le(fs), 8 * len);
    assert(le_value(pack_le(fs)) == packed_le(fs));
    // Its bits below the end of field `i` are the fields up to `i`.
    lemma_packed_le_prefix(fs, i + 1);
    lemma_mod_then_div(packed_le(fs), at, n);
    assert((packed_le(fs) / pow2(at)) % pow2(n) == packed_le(upto) / pow2(at));
    // Field `i` is the top of those.
    assert(upto.drop_last() =~= fs.take(i as int));
    assert(upto.last() == fs[i as int]);
    lemma_packed_bound(fs.take(i as int));
    assert(fields_fit(fs.take(i as int)));
    lemma_split_high(fs[i as int].value, packed_le(fs.take(i as int)), at);
    lemma_basic_div(packed_le(fs.take(i as int)) as int, pow2(at) as int);
}

/// Reading the packed fields back most significant bit first keeps the
/// stream coherent, with its bit position at the end of the fields read.
pub proof fn lemma_be_reads_track(fs: Seq<BitField>, i: nat)
    requires
        fields_fit(fs),
        i <= fs.len(),
    ensures
        ({
            let s = after_be_reads(StreamModel::fresh(pack_be(fs)), fs, i);
            &&& s.be_coherent()
            &&& s.bytes == pack_be(fs)
            &&& s.bit_pos() == total_width(fs.take(i as int))
            &&& i < fs.len() ==> s.has(s.bytes_for_bits(fs[i as int].width))
        }),
    decreases i,
{
    let start = StreamModel::fresh(pack_be(fs));
    let s = after_be_reads(start, fs, i);
    lemma2_to64();
    if i == 0 {
        lemma_aligned_is_coherent(start);
        assert(fs.take(0) =~= Seq::<BitField>::empty());
    } else {
        let prev = after_be_reads(start, fs, (i - 1) as nat);
        lemma_be_reads_track(fs, (i - 1) as nat);
        lemma_width_of_prefix(fs, (i - 1) as nat);
        lemma_be_bits_are_next(prev, fs[i - 1].width);
    }
    if i < fs.len() {
        lemma_width_of_prefix(fs, i);
        lemma_width_of_prefix(fs, i + 1);
        lemma_packed_be_field(fs, i);
    }
}

/// Reading the packed fields back least significant bit first keeps the
/// stream coherent, with its bit position at the end of the fields read.
pub proof fn lemma_le_reads_track(fs: Seq<BitField>, i: nat)
    requires
        fields_fit(fs),
        i <= fs.len(),
    ensures
        ({
            let s = after_le_reads(StreamModel::fresh(pack_le(fs)), fs, i);
            &&& s.le_coherent()
            &&& s.bytes == pack_le(fs)
            &&& s.bit_pos() == total_width(fs.take(i as int))
            &&& i < fs.len() ==> s.has(s.bytes_for_bits(fs[i as int].width))
        }),
    decreases i,
{
    let start = StreamModel::fresh(pack_le(fs));
    let s = after_le_reads(start, fs, i);
    lemma2_to64();
    if i == 0 {
        lemma_aligned_is_coherent(start);
        assert(fs.take(0) =~= Seq::<BitField>::empty());
    } else {
        let prev = after_le_reads(start, fs, (i - 1) as nat);
        lemma_le_reads_track(fs, (i - 1) as nat);
        lemma_width_of_prefix(fs, (i - 1) as nat);
        lemma_le_bits_are_next(prev, fs[i - 1].width);
    }
    if i < fs.len() {
        lemma_width_of_prefix(fs, i);
        lemma_width_of_prefix(fs, i + 1);
        lemma_packed_le_field(fs, i);
    }
}

/// Values packed most significant bit first come back in order: after the
/// first `i` fields have been read from the packed bytes, a big-endian read
/// of the width of field `i` finds the bytes it needs and returns the value
/// of field `i`.
pub proof fn lemma_be_round_trip(fs: Seq<BitField>, i: nat)
    requires
        fields_fit(fs),
        i < fs.len(),
    ensures
        ({
            let s = after_be_reads(StreamModel::fresh(pack_be(fs)), fs, i);
            &&& s.wf()
            &&& s.has(s.bytes_for_bits(fs[i as int].width))
            &&& s.be_bits(fs[i as int].width) == fs[i as int].value
        }),
{
    let s = after_be_reads(StreamModel::fresh(pack_be(fs)), fs, i);
    lemma_be_reads_track(fs, i);
    lemma_be_bits_are_next(s, fs[i as int].width);
    lemma_packed_be_field(fs, i);
}

/// Values packed least significant bit first come back in order: after the
/// first `i` fields have been read from the packed bytes, a little-endian
/// read of the width of field `i` finds the bytes it needs and returns the
/// value of field `i`.
pub proof fn lemma_le_round_trip(fs: Seq<BitField>, i: nat)
    requires
        fields_fit(fs),
        i < fs.len(),
    ensures
        ({
            let s = after_le_reads(StreamModel::fresh(pack_le(fs)), fs, i);
            &&& s.wf()
            &&& s.has(s.bytes_for_bits(fs[i as int].width))
            &&& s.le_bits(fs[i as int].width) == fs[i as int].value
        }),
{
    let s = after_le_reads(StreamModel::fresh(pack_le(fs)), fs, i);
    lemma_le_reads_track(fs, i);
    lemma_le_bits_are_next(s, fs[i as int].width);
    lemma_packed_le_field(fs, i);
}

} // verus!
