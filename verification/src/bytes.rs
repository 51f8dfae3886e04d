//! What the byte-run transforms compute, as functions on sequences, and the
//! algebra they obey.

use vstd::prelude::*;

verus! {

/// Every byte of `s` combined with `key` by exclusive or.
pub open spec fn xor_one(s: Seq<u8>, key: u8) -> Seq<u8> {
    Seq::new(s.len(), |i: int| s[i] ^ key)
}

/// Byte `i` of `s` combined with byte `i mod |key|` of `key` by exclusive or.
pub open spec fn xor_many(s: Seq<u8>, key: Seq<u8>) -> Seq<u8>
    recommends
        key.len() > 0,
{
    Seq::new(s.len(), |i: int| s[i] ^ key[i % key.len() as int])
}

/// `b` rotated left by `amount` bits within its eight.
pub open spec fn rotl8(b: u8, amount: u8) -> u8
    recommends
        amount <= 7,
{
    if amount == 0 {
        b
    } else {
        (b << amount) | (b >> ((8 - amount) as u8))
    }
}

/// Every byte of `s` rotated left by `amount` bits.
pub open spec fn rotate_left(s: Seq<u8>, amount: u8) -> Seq<u8>
    recommends
        amount <= 7,
{
    Seq::new(s.len(), |i: int| rotl8(s[i], amount))
}

/// Length of the longest prefix of `s` that does not end in `pad`.
pub open spec fn stripped_len(s: Seq<u8>, pad: u8) -> nat
    decreases s.len(),
{
    if s.len() == 0 || s.last() != pad {
        s.len()
    } else {
        stripped_len(s.drop_last(), pad)
    }
}

/// The longest prefix of `s` that does not end in `pad`.
pub open spec fn strip_right(s: Seq<u8>, pad: u8) -> Seq<u8> {
    s.take(stripped_len(s, pad) as int)
}

/// Index of the first `term` in `s` at or after `from`; `s.len()` if there is
/// none.
pub open spec fn first_index_from(s: Seq<u8>, from: nat, term: u8) -> nat
    decreases s.len() - from,
{
    if from >= s.len() {
        s.len()
    } else if s[from as int] == term {
        from
    } else {
        first_index_from(s, from + 1, term)
    }
}

/// The prefix of `s` up to its first `term`, with that terminator if
/// `include_term`; all of `s` where it holds no `term`.
pub open spec fn terminate(s: Seq<u8>, term: u8, include_term: bool) -> Seq<u8> {
    let m = first_index_from(s, 0, term);
    if include_term && m < s.len() {
        s.take(m as int + 1)
    } else {
        s.take(m as int)
    }
}

/// Stripping leaves a prefix that does not end in the padding byte, and takes
/// away nothing but padding bytes.
pub proof fn lemma_strip_right(s: Seq<u8>, pad: u8)
    ensures
        stripped_len(s, pad) <= s.len(),
        strip_right(s, pad).is_prefix_of(s),
        strip_right(s, pad).len() > 0 ==> strip_right(s, pad).last() != pad,
        forall|i: int| stripped_len(s, pad) <= i < s.len() ==> s[i] == pad,
    decreases s.len(),
{
    if s.len() == 0 || s.last() != pad {
    } else {
        lemma_strip_right(s.drop_last(), pad);
        let n = stripped_len(s, pad) as int;
        assert(s.drop_last().take(n) =~= s.take(n));
        assert forall|i: int| n <= i < s.len() implies s[i] == pad by {
            if i < s.len() - 1 {
                assert(s.drop_last()[i] == s[i]);
            }
        }
    }
}

/// `first_index_from` is where the first terminator at or after `from` lies:
/// nothing before it is the terminator, and it is one unless it is the end.
pub proof fn lemma_first_index_from(s: Seq<u8>, from: nat, term: u8)
    requires
        from <= s.len(),
    ensures
        from <= first_index_from(s, from, term) <= s.len(),
        first_index_from(s, from, term) < s.len() ==> s[first_index_from(s, from, term) as int]
            == term,
        forall|i: int| from <= i < first_index_from(s, from, term) ==> s[i] != term,
    decreases s.len() - from,
{
    if from < s.len() && s[from as int] != term {
        lemma_first_index_from(s, from + 1, term);
    }
}

/// A terminated run is a prefix; it ends in the terminator exactly when the
/// terminator was asked for and occurs, and otherwise holds no terminator.
pub proof fn lemma_terminate(s: Seq<u8>, term: u8, include_term: bool)
    ensures
        terminate(s, term, include_term).is_prefix_of(s),
        (include_term && s.contains(term)) ==> terminate(s, term, include_term).len() > 0
            && terminate(s, term, include_term).last() == term,
        !(include_term && s.contains(term)) ==> !terminate(s, term, include_term).contains(term),
        !s.contains(term) ==> terminate(s, term, include_term) == s,
{
    lemma_first_index_from(s, 0, term);
    let m = first_index_from(s, 0, term);
    let r = terminate(s, term, include_term);
    if s.contains(term) {
        let j = choose|j: int| 0 <= j < s.len() && s[j] == term;
        assert(m <= j);
    } else {
        assert(m == s.len()) by {
            if m < s.len() {
                assert(s[m as int] == term);
            }
        }
        assert(s.take(m as int) =~= s);
    }
    if !(include_term && s.contains(term)) {
        assert(r == s.take(m as int));
        assert forall|i: int| 0 <= i < r.len() implies r[i] != term by {
            assert(r[i] == s[i]);
        }
    }
}

/// Exclusive or with one key byte undoes itself.
pub proof fn lemma_xor_one_involution(s: Seq<u8>, key: u8)
    ensures
        xor_one(xor_one(s, key), key) == s,
{
    assert forall|i: int| 0 <= i < s.len() implies (s[i] ^ key) ^ key == s[i] by {
        let b = s[i];
        assert((b ^ key) ^ key == b) by (bit_vector);
    }
    assert(xor_one(xor_one(s, key), key) =~= s);
}

/// Exclusive or with a non-empty key sequence undoes itself.
pub proof fn lemma_xor_many_involution(s: Seq<u8>, key: Seq<u8>)
    requires
        key.len() > 0,
    ensures
        xor_many(xor_many(s, key), key) == s,
{
    assert forall|i: int| 0 <= i < s.len() implies (s[i] ^ key[i % key.len() as int]) ^ key[i
        % key.len() as int] == s[i] by {
        let b = s[i];
        let k = key[i % key.len() as int];
        assert((b ^ k) ^ k == b) by (bit_vector);
    }
    assert(xor_many(xor_many(s, key), key) =~= s);
}

} // verus!
