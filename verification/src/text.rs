//! Text helpers: decoding bytes by a named encoding, and reversing a string
//! by extended grapheme clusters.

use crate::error::{KError, KResult};
use encoding::label::encoding_from_whatwg_label;
use encoding::{DecoderTrap, Encoding};
use unicode_segmentation::UnicodeSegmentation;
use vstd::prelude::*;
use vstd::string::StringExecFns;

verus! {

/// What the WHATWG decoder named by `label` makes of `bytes`, malformed units
/// replaced: `None` where no encoding bears that label, else the text or the
/// decoder's complaint.
pub uninterp spec fn whatwg_decoded(bytes: Seq<u8>, label: Seq<char>) -> Option<
    Result<Seq<char>, Seq<char>>,
>;

/// `s` in lower case, as Unicode defines it.
pub uninterp spec fn lowercased(s: Seq<char>) -> Seq<char>;

/// The text that code page 437 gives the byte `b`.
pub uninterp spec fn cp437_text(b: u8) -> Seq<char>;

/// The extended grapheme clusters of `s`, first to last.
pub uninterp spec fn grapheme_clusters(s: Seq<char>) -> Seq<Seq<char>>;

/// The views of a run of strings.
pub open spec fn texts(parts: Seq<String>) -> Seq<Seq<char>> {
    Seq::new(parts.len(), |i: int| parts[i]@)
}

/// The pieces of `parts` one after another.
pub open spec fn concat(parts: Seq<Seq<char>>) -> Seq<char>
    decreases parts.len(),
{
    if parts.len() == 0 {
        Seq::empty()
    } else {
        concat(parts.drop_last()) + parts.last()
    }
}

/// The pieces of `parts` one after another, the last piece first.
pub open spec fn concat_rev(parts: Seq<Seq<char>>) -> Seq<char>
    decreases parts.len(),
{
    if parts.len() == 0 {
        Seq::empty()
    } else {
        parts.last() + concat_rev(parts.drop_last())
    }
}

/// What one byte decodes to under code page 437. The bytes below 5 have no
/// entry in the table and decode to the replacement character.
pub open spec fn cp437_unit(b: u8) -> Seq<char> {
    if b >= 5 {
        cp437_text(b)
    } else {
        "\u{FFFD}"@
    }
}

/// What `bytes` decode to under code page 437.
pub open spec fn cp437_decoded(bytes: Seq<u8>) -> Seq<char>
    decreases bytes.len(),
{
    if bytes.len() == 0 {
        Seq::empty()
    } else {
        cp437_decoded(bytes.drop_last()) + cp437_unit(bytes.last())
    }
}

/// The message for a label that names no encoding.
pub open spec fn unknown_label_text(label: Seq<char>) -> Seq<char> {
    "decode_string: unknown WHATWG Encoding standard: "@ + label
}

/// What `decode_string` returns, given what the WHATWG decoder made of the
/// input and the label in lower case.
pub open spec fn decode_outcome_spec(
    bytes: Seq<u8>,
    label: Seq<char>,
    whatwg: Option<Result<Seq<char>, Seq<char>>>,
    lowered: Seq<char>,
    r: KResult<String>,
) -> bool {
    match whatwg {
        Some(Ok(t)) => r matches Ok(s) && s@ == t,
        Some(Err(t)) => r matches Err(KError::Encoding { desc }) && desc@ == t,
        None => if lowered == "cp437"@ {
            r matches Ok(s) && s@ == cp437_decoded(bytes)
        } else {
            r matches Err(KError::Encoding { desc }) && desc@ == unknown_label_text(label)
        },
    }
}

/// `encoding::label::encoding_from_whatwg_label` on `label`, then
/// `encoding::Encoding::decode` of `bytes` with `DecoderTrap::Replace` on the
/// encoding found. `None` means that the lookup found none. The outcome
/// depends on the two arguments alone; the contract gives it its name.
#[verifier::external_body]
fn whatwg_decode(bytes: &[u8], label: &str) -> (r: Option<Result<String, String>>)
    ensures
        match r {
            None => whatwg_decoded(bytes@, label@) is None,
            Some(Ok(s)) => whatwg_decoded(bytes@, label@) matches Some(Ok(t)) && t == s@,
            Some(Err(e)) => whatwg_decoded(bytes@, label@) matches Some(Err(t)) && t == e@,
        },
{
    match encoding_from_whatwg_label(label) {
        Some(enc) => match enc.decode(bytes, DecoderTrap::Replace) {
            Ok(s) => Some(Ok(s)),
            Err(e) => Some(Err(e.into_owned())),
        },
        None => None,
    }
}

/// `str::to_lowercase`. The contract gives the result its name.
#[verifier::external_body]
fn lowercase(s: &str) -> (r: String)
    ensures
        r@ == lowercased(s@),
{
    s.to_lowercase()
}

/// `cp437::convert_byte`: the table entry of `b`. The table has no entry
/// below 5 and the function does not return there.
#[verifier::external_body]
fn cp437_char(b: u8) -> (s: &'static str)
    requires
        b >= 5,
    ensures
        s@ == cp437_text(b),
{
    cp437::convert_byte(&b)
}

/// `unicode_segmentation::UnicodeSegmentation::graphemes` with
/// `is_extended` set, each cluster copied into a `String`. The clusters are
/// consecutive slices of `s` from its start to its end, so one after
/// another they spell `s`.
#[verifier::external_body]
fn graphemes(s: &str) -> (r: Vec<String>)
    ensures
        texts(r@) == grapheme_clusters(s@),
        concat(texts(r@)) == s@,
{
    s.graphemes(true).map(|g| g.to_string()).collect()
}

/// Decodes `bytes` under code page 437, byte by byte.
pub fn decode_cp437(bytes: &[u8]) -> (r: String)
    ensures
        r@ == cp437_decoded(bytes@),
{
    let mut out = String::new();
    let mut i: usize = 0;
    while i < bytes.len()
        invariant
            i <= bytes@.len(),
            out@ == cp437_decoded(bytes@.take(i as int)),
        decreases bytes@.len() - i,
    {
        let b = bytes[i];
        if b >= 5 {
            out.append(cp437_char(b));
        } else {
            out.append("\u{FFFD}");
        }
        proof {
            assert(bytes@.take(i + 1).drop_last() =~= bytes@.take(i as int));
        }
        i += 1;
    }
    assert(bytes@.take(bytes@.len() as int) =~= bytes@);
    out
}

/// Chooses the result of a decode from what the WHATWG decoder made of the
/// input and from the label in lower case: the decoder's text or complaint
/// where it knew the label, code page 437 where the label says so, and an
/// `Encoding` error for any other label.
pub fn decode_outcome(
    bytes: &[u8],
    label: &str,
    whatwg: Option<Result<String, String>>,
    lowered: &str,
) -> (r: KResult<String>)
    ensures
        decode_outcome_spec(
            bytes@,
            label@,
            match whatwg {
                None => None,
                Some(Ok(s)) => Some(Ok(s@)),
                Some(Err(e)) => Some(Err(e@)),
            },
            lowered@,
            r,
        ),
{
    match whatwg {
        Some(Ok(s)) => Ok(s),
        Some(Err(e)) => Err(KError::Encoding { desc: e }),
        None => {
            if lowered.to_owned() == "cp437".to_owned() {
                Ok(decode_cp437(bytes))
            } else {
                let mut desc = "decode_string: unknown WHATWG Encoding standard: ".to_owned();
                desc.append(label);
                Err(KError::Encoding { desc })
            }
        },
    }
}

/// Decodes `bytes` by the encoding that `label` names: a WHATWG label, or
/// `cp437` in any case. Malformed units are replaced, not rejected; a label
/// that names no encoding is an `Encoding` error.
pub fn decode_string(bytes: &[u8], label: &str) -> (r: KResult<String>)
    ensures
        decode_outcome_spec(
            bytes@,
            label@,
            whatwg_decoded(bytes@, label@),
            lowercased(label@),
            r,
        ),
{
    let whatwg = whatwg_decode(bytes, label);
    let lowered = lowercase(label);
    decode_outcome(bytes, label, whatwg, lowered.as_str())
}

/// Puts `parts` together from the last to the first.
pub fn join_reversed(parts: &Vec<String>) -> (r: String)
    ensures
        r@ == concat_rev(texts(parts@)),
{
    let mut out = String::new();
    let mut i: usize = 0;
    while i < parts.len()
        invariant
            i <= parts@.len(),
            out@ == concat_rev(texts(parts@).take(i as int)),
        decreases parts@.len() - i,
    {
        let mut next = String::new();
        next.append(parts[i].as_str());
        next.append(out.as_str());
        proof {
            let t = texts(parts@);
            assert(t.take(i + 1).drop_last() =~= t.take(i as int));
            assert(t.take(i + 1).last() == parts@[i as int]@);
            assert(next@ =~= parts@[i as int]@ + out@);
        }
        out = next;
        i += 1;
    }
    proof {
        let t = texts(parts@);
        assert(t.take(t.len() as int) =~= t);
    }
    out
}

/// Reverses `s` by extended grapheme cluster: the clusters come out last to
/// first, each as it was.
pub fn reverse_string(s: &str) -> (r: KResult<String>)
    ensures
        r matches Ok(t) && t@ == concat_rev(grapheme_clusters(s@)),
{
    let parts = graphemes(s);
    Ok(join_reversed(&parts))
}

/// Putting the reversed run together backwards is putting the run together
/// forwards.
pub proof fn lemma_concat_rev_reverse(parts: Seq<Seq<char>>)
    ensures
        concat_rev(parts.reverse()) == concat(parts),
    decreases parts.len(),
{
    if parts.len() == 0 {
        assert(parts.reverse() =~= parts);
    } else {
        let head = parts.first();
        let tail = parts.drop_first();
        lemma_concat_rev_reverse(tail);
        lemma_concat_first(parts);
        let rev = parts.reverse();
        assert(rev.last() == head);
        assert(rev.drop_last() =~= tail.reverse());
    }
}

/// A run put together is its first piece, then the rest put together.
pub proof fn lemma_concat_first(parts: Seq<Seq<char>>)
    requires
        parts.len() > 0,
    ensures
        concat(parts) == parts.first() + concat(parts.drop_first()),
    decreases parts.len(),
{
    if parts.len() == 1 {
        assert(parts.drop_last() =~= Seq::<Seq<char>>::empty());
        assert(parts.drop_first() =~= Seq::<Seq<char>>::empty());
        assert(concat(parts) =~= parts.first() + concat(parts.drop_first()));
    } else {
        lemma_concat_first(parts.drop_last());
        assert(parts.drop_last().drop_first() =~= parts.drop_first().drop_last());
        assert(parts.drop_last().first() == parts.first());
        assert(parts.drop_first().last() == parts.last());
        assert(concat(parts) =~= parts.first() + concat(parts.drop_first()));
    }
}

/// Reversing twice gives the text back, for a text whose clusters spell it
/// out and whose reversal falls into the same clusters, last to first.
pub proof fn lemma_reverse_twice(s: Seq<char>)
    requires
        concat(grapheme_clusters(s)) == s,
        grapheme_clusters(concat_rev(grapheme_clusters(s))) == grapheme_clusters(s).reverse(),
    ensures
        concat_rev(grapheme_clusters(concat_rev(grapheme_clusters(s)))) == s,
{
    lemma_concat_rev_reverse(grapheme_clusters(s));
}

} // verus!
