//! The format's laws, stated over the codec's specification functions and
//! proved once for all inputs.

use vstd::prelude::*;
use crate::dec_file;
use crate::error::SpecError;
use crate::length::{dec_len, enc_len, min_len_bytes, lemma_dec_enc_len, lemma_min_len_bytes, lemma_le_bytes_len};
use crate::numbers::{
    SpecNumber, is_float_text, is_integer_text, is_unsigned_text, integer_val, number_from_text,
    unsigned_val,
};
use crate::text::bytes_text;
use crate::v0::{
    canonical_v0, enc_v0_file, enc_v0_items, lemma_dec_enc_v0_items, representable_v0,
};
use crate::v1::{
    canonical_v1, dec_v1_entries, dec_v1_value, enc_v1_file, enc_v1_value, lemma_dec_enc_v1_value,
    lemma_enc_v1_value_nonempty, representable_v1, lemma_tail_shift,
};
use crate::value::{SpecValue, wf_value};

verus! {

/// Round trip of the recursive generation: every well-formed, canonical
/// value it can write decodes from its own wire form, unchanged.
pub proof fn lemma_v1_round_trip(v: SpecValue)
    requires
        wf_value(v),
        canonical_v1(v),
        representable_v1(v),
    ensures
        dec_file(enc_v1_file(v)) == Ok::<SpecValue, SpecError>(v),
{
    let s = enc_v1_file(v);
    let e = enc_v1_value(v);
    lemma_enc_v1_value_nonempty(v);
    assert(s.len() == e.len() + 2);
    assert(s.subrange(0, s.len() as int) =~= s);
    assert(s == seq![1u8] + (e + seq![25u8])) by {
        assert(seq![1u8] + e + seq![25u8] =~= seq![1u8] + (e + seq![25u8]));
    }
    lemma_tail_shift(s, 0, seq![1u8], e + seq![25u8], 1);
    assert(s[0] == 1);
    assert(seq![1u8].skip(1) =~= Seq::<u8>::empty());
    assert(Seq::<u8>::empty() + (e + seq![25u8]) =~= e + seq![25u8]);
    assert(s.subrange(1, s.len() as int) =~= e + seq![25u8]);
    lemma_dec_enc_v1_value(s, 1, v, seq![25u8]);
    let j = 1 + e.len();
    assert(s[j as int] == (e + seq![25u8])[e.len() as int]);
    assert(s[j as int] == 25);
}

/// Round trip of the flat generation: every sequence of well-formed,
/// canonical flat values decodes from its own wire form, unchanged, as one
/// array value.
pub proof fn lemma_v0_round_trip(vs: Seq<SpecValue>)
    requires
        forall|q: int|
            0 <= q < vs.len() ==> wf_value(#[trigger] vs[q]) && canonical_v0(vs[q])
                && representable_v0(vs[q]),
    ensures
        dec_file(enc_v0_file(vs)) == Ok::<SpecValue, SpecError>(SpecValue::Array(vs)),
{
    let s = enc_v0_file(vs);
    let p = enc_v0_items(vs, false);
    assert(s.len() == p.len() + 2);
    assert(s == seq![0u8] + (p + seq![25u8])) by {
        assert(seq![0u8] + p + seq![25u8] =~= seq![0u8] + (p + seq![25u8]));
    }
    assert(s.subrange(0, s.len() as int) =~= s);
    lemma_tail_shift(s, 0, seq![0u8], p + seq![25u8], 1);
    assert(s[0] == 0);
    assert(seq![0u8].skip(1) =~= Seq::<u8>::empty());
    assert(Seq::<u8>::empty() + (p + seq![25u8]) =~= p + seq![25u8]);
    assert(s.subrange(1, s.len() as int) =~= p + seq![25u8]);
    lemma_dec_enc_v0_items(s, 1, vs, seq![25u8]);
}

/// Truncation is detected: dropping the final end-of-file marker from a
/// recursive-generation buffer turns its decode into a truncation error.
pub proof fn lemma_v1_truncation(v: SpecValue)
    requires
        wf_value(v),
        canonical_v1(v),
        representable_v1(v),
    ensures
        dec_file(enc_v1_file(v).drop_last()) == Err::<SpecValue, SpecError>(
            SpecError::Truncated(enc_v1_file(v).len() - 1),
        ),
{
    let s = enc_v1_file(v).drop_last();
    let e = enc_v1_value(v);
    lemma_enc_v1_value_nonempty(v);
    assert(s.len() == e.len() + 1);
    assert(s == seq![1u8] + (e + Seq::<u8>::empty())) by {
        assert(forall|q: int|
            0 <= q < s.len() ==> #[trigger] s[q] == enc_v1_file(v)[q]);
        assert(enc_v1_file(v) == seq![1u8] + e + seq![25u8]);
        assert(s =~= seq![1u8] + (e + Seq::<u8>::empty()));
    }
    assert(s.subrange(0, s.len() as int) =~= s);
    lemma_tail_shift(s, 0, seq![1u8], e + Seq::<u8>::empty(), 1);
    assert(s[0] == 1);
    assert(seq![1u8].skip(1) =~= Seq::<u8>::empty());
    assert(Seq::<u8>::empty() + (e + Seq::<u8>::empty()) =~= e + Seq::<u8>::empty());
    assert(s.subrange(1, s.len() as int) =~= e + Seq::<u8>::empty());
    lemma_dec_enc_v1_value(s, 1, v, Seq::empty());
    assert(1 + e.len() >= s.len());
}

/// Truncation is detected in the flat generation too: dropping the final
/// end-of-file marker from a non-empty flat buffer turns its decode into a
/// truncation error.
pub proof fn lemma_v0_truncation(vs: Seq<SpecValue>)
    requires
        forall|q: int|
            0 <= q < vs.len() ==> wf_value(#[trigger] vs[q]) && canonical_v0(vs[q])
                && representable_v0(vs[q]),
        enc_v0_items(vs, false).len() > 0,
    ensures
        dec_file(enc_v0_file(vs).drop_last()) == Err::<SpecValue, SpecError>(
            SpecError::Truncated(enc_v0_file(vs).len() - 1),
        ),
{
    let s = enc_v0_file(vs).drop_last();
    let p = enc_v0_items(vs, false);
    assert(s.len() == p.len() + 1);
    assert(s == seq![0u8] + (p + Seq::<u8>::empty())) by {
        assert(forall|q: int|
            0 <= q < s.len() ==> #[trigger] s[q] == enc_v0_file(vs)[q]);
        assert(enc_v0_file(vs) == seq![0u8] + p + seq![25u8]);
        assert(s =~= seq![0u8] + (p + Seq::<u8>::empty()));
    }
    assert(s.subrange(0, s.len() as int) =~= s);
    lemma_tail_shift(s, 0, seq![0u8], p + Seq::<u8>::empty(), 1);
    assert(s[0] == 0);
    assert(seq![0u8].skip(1) =~= Seq::<u8>::empty());
    assert(Seq::<u8>::empty() + (p + Seq::<u8>::empty()) =~= p + Seq::<u8>::empty());
    assert(s.subrange(1, s.len() as int) =~= p + Seq::<u8>::empty());
    lemma_dec_enc_v0_items(s, 1, vs, Seq::empty());
}

/// An unknown version byte fails the whole decode at once, whatever the
/// remaining bytes hold.
pub proof fn lemma_unknown_version(s: Seq<u8>)
    requires
        s.len() >= 2,
        s[0] != 0,
        s[0] != 1,
    ensures
        dec_file(s) == Err::<SpecValue, SpecError>(SpecError::UnknownVersion(s[0])),
{
}

/// Length fields are minimal and read back to the length they encode: the
/// descriptor byte names the fewest bytes the value fits in, and decoding an
/// encoded length is the identity.
pub proof fn lemma_length_round_trip(len: nat)
    requires
        len <= u64::MAX,
    ensures
        enc_len(len)[0] == min_len_bytes(len),
        enc_len(len).len() == 1 + min_len_bytes(len),
        dec_len(enc_len(len), 0) == Ok::<(nat, int), SpecError>(
            (len, 1 + min_len_bytes(len) as int),
        ),
{
    lemma_min_len_bytes(len);
    lemma_le_bytes_len(len, min_len_bytes(len));
    let s = enc_len(len);
    assert(s.subrange(0, s.len() as int) =~= s);
    assert(s == enc_len(len) + Seq::<u8>::empty()) by {
        assert(s =~= enc_len(len) + Seq::<u8>::empty());
    }
    lemma_dec_enc_len(s, 0, len, Seq::empty());
}

/// An object entry whose key decodes to anything but a text value is
/// rejected with the invalid-key error.
pub proof fn lemma_invalid_key(s: Seq<u8>, k: int, end: int, declared: int)
    requires
        0 <= k < end <= s.len(),
        s[k] == 29,
        dec_v1_value(s, k + 1) is Ok,
        !(dec_v1_value(s, k + 1)->Ok_0.0 is String),
    ensures
        dec_v1_entries(s, k, end, declared) == Err::<Seq<(Seq<char>, SpecValue)>, SpecError>(
            SpecError::InvalidKey(k + 1, dec_v1_value(s, k + 1)->Ok_0.0),
        ),
{
}

/// Whatever a buffer decodes to is well formed: texts lie in the accepted
/// ranges, numbers in their machine ranges, a blob's declared length is its
/// byte count, and object keys are sorted and unique — a mismatch is not a
/// representable outcome of decoding.
pub proof fn lemma_decode_well_formed(s: Seq<u8>)
    ensures
        dec_file(s) is Ok ==> wf_value(dec_file(s)->Ok_0),
{
    if s.len() >= 2 {
        if s[0] == 0 {
            crate::v0::lemma_dec_v0_items_wf(s, 1);
        } else if s[0] == 1 {
            crate::v1::lemma_dec_v1_value_wf(s, 1);
        }
    }
}

/// Numeric priority: a payload is read as an unsigned integer when that
/// grammar accepts it, else as a signed integer, else as a floating-point
/// literal, and is no number otherwise.
pub proof fn lemma_numeric_priority(t: Seq<u8>)
    ensures
        is_unsigned_text(t) ==> number_from_text(t) == Some(
            SpecNumber::Unsigned(unsigned_val(t)),
        ),
        !is_unsigned_text(t) && is_integer_text(t) ==> number_from_text(t) == Some(
            SpecNumber::Integer(integer_val(t)),
        ),
        !is_unsigned_text(t) && !is_integer_text(t) && is_float_text(t) ==> number_from_text(t)
            == Some(SpecNumber::Float(bytes_text(t))),
        !is_unsigned_text(t) && !is_integer_text(t) && !is_float_text(t) ==> number_from_text(t)
            is None,
{
}

} // verus!
