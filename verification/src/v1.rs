//! The recursive, length-prefixed generation.
//!
//! A file is `[1][value][EM]` with exactly one root value. Every value is
//! `[tag][length][payload][EV]`, except the booleans and null, which are a
//! single tag byte. Array payloads hold child values each followed by a
//! record separator; object payloads hold `GS key US value GS` entries also
//! separated by record separators, where each key is itself a full
//! length-prefixed text value.

use vstd::prelude::*;
use crate::error::{MarkerKind, NabuError, SpecError};
use crate::length::{dec_len, enc_len, deserialize_xff_v1_value_length, encode_length};
use crate::numbers::{num_text, number_from_text};
use crate::text::{bytes_text, text_bytes, valid_text_byte, text_byte_ok, latin1_string, latin1_bytes};
use crate::value::array::Array;
use crate::value::data::Data;
use crate::value::num::number_from_bytes;
use crate::value::object::{Object, obj_insert};
use crate::value::{SpecValue, XffValue, view_values, lemma_view_values, view_pairs, lemma_view_pairs, clone_value};

verus! {

/// The first position in `[k, end)` holding a byte the text ranges refuse,
/// or `end` when every byte is accepted.
pub open spec fn find_bad_text(s: Seq<u8>, k: int, end: int) -> int
    decreases end - k,
{
    if k >= end {
        end
    } else if !valid_text_byte(s[k]) {
        k
    } else {
        find_bad_text(s, k + 1, end)
    }
}

pub proof fn lemma_find_bad_text(s: Seq<u8>, k: int, end: int)
    requires
        k <= end,
    ensures
        k <= find_bad_text(s, k, end) <= end,
        forall|j: int| k <= j < find_bad_text(s, k, end) ==> valid_text_byte(#[trigger] s[j]),
        find_bad_text(s, k, end) < end ==> !valid_text_byte(s[find_bad_text(s, k, end)]),
    decreases end - k,
{
    if k < end && valid_text_byte(s[k]) {
        lemma_find_bad_text(s, k + 1, end);
    }
}

pub proof fn lemma_find_bad_text_unique(s: Seq<u8>, k: int, end: int, p: int)
    requires
        k <= p <= end,
        forall|j: int| k <= j < p ==> valid_text_byte(#[trigger] s[j]),
        p < end ==> !valid_text_byte(s[p]),
    ensures
        find_bad_text(s, k, end) == p,
{
    lemma_find_bad_text(s, k, end);
}

/// Moving the left edge of a window that starts with `a` drops the lead of
/// `a` from what the window shows.
pub proof fn lemma_tail_shift(s: Seq<u8>, i: int, a: Seq<u8>, rest: Seq<u8>, n: int)
    requires
        0 <= i <= s.len(),
        s.subrange(i, s.len() as int) == a + rest,
        0 <= n <= a.len(),
    ensures
        s.subrange(i + n, s.len() as int) =~= a.skip(n) + rest,
        forall|q: int| 0 <= q < a.len() ==> #[trigger] s[i + q] == a[q],
{
    let tail = s.subrange(i, s.len() as int);
    assert(tail.len() == a.len() + rest.len());
    assert forall|q: int| 0 <= q < a.len() implies #[trigger] s[i + q] == a[q] by {
        assert(s[i + q] == tail[q]);
        assert(tail[q] == (a + rest)[q]);
    }
    let lhs = s.subrange(i + n, s.len() as int);
    let rhs = a.skip(n) + rest;
    assert(lhs.len() == rhs.len());
    assert forall|q: int| 0 <= q < lhs.len() implies lhs[q] == rhs[q] by {
        assert(lhs[q] == s[i + n + q]);
        assert(s[i + n + q] == tail[n + q]);
        assert(tail[n + q] == (a + rest)[n + q]);
        if n + q < a.len() {
            assert(rhs[q] == a.skip(n)[q]);
            assert(a.skip(n)[q] == a[n + q]);
        } else {
            assert(rhs[q] == rest[n + q - a.len()]);
        }
    }
}

/// One byte of a window that starts with `a`.
pub proof fn lemma_tail_at(s: Seq<u8>, i: int, a: Seq<u8>, rest: Seq<u8>, q: int)
    requires
        0 <= i <= s.len(),
        s.subrange(i, s.len() as int) == a + rest,
        0 <= q < a.len(),
    ensures
        s[i + q] == a[q],
{
    let tail = s.subrange(i, s.len() as int);
    assert(tail.len() == a.len() + rest.len());
    assert(s[i + q] == tail[q]);
    assert(tail[q] == (a + rest)[q]);
}

/// The wire form of a text value: tag, length, the text's bytes, terminator.
pub open spec fn enc_v1_string(t: Seq<char>) -> Seq<u8> {
    seq![1u8] + enc_len(text_bytes(t).len()) + text_bytes(t) + seq![24u8]
}

/// The wire form of one value.
pub open spec fn enc_v1_value(v: SpecValue) -> Seq<u8>
    decreases v, 1int,
{
    match v {
        SpecValue::String(t) => enc_v1_string(t),
        SpecValue::Number(n) => seq![2u8] + enc_len(num_text(n).len()) + num_text(n) + seq![24u8],
        SpecValue::Array(items) => {
            let p = enc_v1_items(items);
            seq![3u8] + enc_len(p.len()) + p + seq![24u8]
        },
        SpecValue::Object(entries) => {
            let p = enc_v1_entries(entries);
            seq![4u8] + enc_len(p.len()) + p + seq![24u8]
        },
        SpecValue::Data(b, len) => seq![5u8] + enc_len(len as nat) + b + seq![24u8],
        SpecValue::Boolean(b) => if b {
            seq![16u8]
        } else {
            seq![17u8]
        },
        SpecValue::Null => seq![0u8],
        SpecValue::CommandCharacter(_) => Seq::empty(),
        SpecValue::ArrayCmdChar(_) => Seq::empty(),
    }
}

/// An array payload: each child value followed by a record separator.
pub open spec fn enc_v1_items(items: Seq<SpecValue>) -> Seq<u8>
    decreases items, 0int,
{
    if items.len() == 0 {
        Seq::empty()
    } else {
        enc_v1_value(items[0]) + seq![30u8] + enc_v1_items(items.drop_first())
    }
}

/// An object payload: each entry bracketed by group separators, the key a
/// full text value, then a record separator.
pub open spec fn enc_v1_entries(entries: Seq<(Seq<char>, SpecValue)>) -> Seq<u8>
    decreases entries, 0int,
{
    if entries.len() == 0 {
        Seq::empty()
    } else {
        seq![29u8] + enc_v1_string(entries[0].0) + seq![31u8] + enc_v1_value(entries[0].1)
            + seq![29u8, 30u8] + enc_v1_entries(entries.drop_first())
    }
}

/// A whole file of this generation: version byte, one value, end marker.
pub open spec fn enc_v1_file(v: SpecValue) -> Seq<u8> {
    seq![1u8] + enc_v1_value(v) + seq![25u8]
}

/// The object built from wire entries, in wire order: a repeated key
/// overwrites, and keys settle into sorted order.
pub open spec fn obj_from_entries(list: Seq<(Seq<char>, SpecValue)>) -> Seq<
    (Seq<char>, SpecValue),
>
    decreases list.len(),
{
    if list.len() == 0 {
        Seq::empty()
    } else {
        obj_insert(obj_from_entries(list.drop_last()), list.last().0, list.last().1)
    }
}

/// What decoding one value at `i` gives: the value and the position after
/// it, or the failure.
pub open spec fn dec_v1_value(s: Seq<u8>, i: int) -> Result<(SpecValue, int), SpecError>
    decreases s.len() - i, 0int,
{
    if i < 0 || i >= s.len() {
        Err(SpecError::Truncated(s.len() as int))
    } else {
        let tag = s[i];
        if tag == 0 {
            Ok((SpecValue::Null, i + 1))
        } else if tag == 16 {
            Ok((SpecValue::Boolean(true), i + 1))
        } else if tag == 17 {
            Ok((SpecValue::Boolean(false), i + 1))
        } else if tag == 1 || tag == 2 || tag == 5 {
            match dec_len(s, i + 1) {
                Err(e) => Err(e),
                Ok((len, j)) => {
                    if j + len + 1 > s.len() {
                        Err(SpecError::Truncated(s.len() as int))
                    } else if s[j + len] != 24 {
                        Err(SpecError::MissingMarker(MarkerKind::Ev, j + len))
                    } else {
                        let payload = s.subrange(j, j + len);
                        if tag == 1 {
                            let bad = find_bad_text(s, j, j + len);
                            if bad < j + len {
                                Err(SpecError::InvalidByte(s[bad], bad, 1))
                            } else {
                                Ok((SpecValue::String(bytes_text(payload)), j + len + 1))
                            }
                        } else if tag == 2 {
                            match number_from_text(payload) {
                                Some(n) => Ok((SpecValue::Number(n), j + len + 1)),
                                None => Err(SpecError::InvalidNumber(j, payload)),
                            }
                        } else {
                            Ok((SpecValue::Data(payload, len as int), j + len + 1))
                        }
                    }
                },
            }
        } else if tag == 3 {
            match dec_len(s, i + 1) {
                Err(e) => Err(e),
                Ok((len, j)) => {
                    if j + len + 1 > s.len() {
                        Err(SpecError::Truncated(s.len() as int))
                    } else {
                        match dec_v1_items(s, j, j + len, len as int) {
                            Err(e) => Err(e),
                            Ok(items) => {
                                if s[j + len] != 24 {
                                    Err(SpecError::MissingMarker(MarkerKind::Ev, j + len))
                                } else {
                                    Ok((SpecValue::Array(items), j + len + 1))
                                }
                            },
                        }
                    }
                },
            }
        } else if tag == 4 {
            match dec_len(s, i + 1) {
                Err(e) => Err(e),
                Ok((len, j)) => {
                    if j + len + 1 > s.len() {
                        Err(SpecError::Truncated(s.len() as int))
                    } else {
                        match dec_v1_entries(s, j, j + len, len as int) {
                            Err(e) => Err(e),
                            Ok(entries) => {
                                if s[j + len] != 24 {
                                    Err(SpecError::MissingMarker(MarkerKind::Ev, j + len))
                                } else {
                                    Ok((SpecValue::Object(obj_from_entries(entries)), j + len + 1))
                                }
                            },
                        }
                    }
                },
            }
        } else {
            Err(SpecError::InvalidByte(tag, i, 1))
        }
    }
}

/// What decoding the child values of an array payload spanning `[k, end)`
/// gives; `declared` is the payload length the wire declared, reported when
/// a child oversteps the span.
pub open spec fn dec_v1_items(s: Seq<u8>, k: int, end: int, declared: int) -> Result<
    Seq<SpecValue>,
    SpecError,
>
    decreases s.len() - k, 1int,
{
    if !(0 <= k <= end <= s.len()) {
        Err(SpecError::Truncated(s.len() as int))
    } else if k == end {
        Ok(Seq::empty())
    } else {
        match dec_v1_value(s, k) {
            Err(e) => Err(e),
            Ok((v, k2)) => {
                if k2 > end {
                    Err(SpecError::InvalidLength(declared))
                } else if k2 == end {
                    Ok(seq![v])
                } else if s[k2] != 30 {
                    Err(SpecError::InvalidStructure(k2, s[k2]))
                } else if k2 + 1 == end {
                    Ok(seq![v])
                } else {
                    let next = if k2 + 1 > k {
                        k2 + 1
                    } else {
                        k + 1
                    };
                    match dec_v1_items(s, next, end, declared) {
                        Err(e) => Err(e),
                        Ok(rest) => Ok(seq![v] + rest),
                    }
                }
            },
        }
    }
}

/// What decoding the entries of an object payload spanning `[k, end)` gives,
/// in wire order.
pub open spec fn dec_v1_entries(s: Seq<u8>, k: int, end: int, declared: int) -> Result<
    Seq<(Seq<char>, SpecValue)>,
    SpecError,
>
    decreases s.len() - k, 1int,
{
    if !(0 <= k <= end <= s.len()) {
        Err(SpecError::Truncated(s.len() as int))
    } else if k == end {
        Ok(Seq::empty())
    } else if s[k] != 29 {
        Err(SpecError::InvalidStructure(k, s[k]))
    } else {
        match dec_v1_value(s, k + 1) {
            Err(e) => Err(e),
            Ok((kv, k2r)) => {
                if !(kv is String) {
                    Err(SpecError::InvalidKey(k + 1, kv))
                } else {
                    let key = kv->String_0;
                    let k2 = if k2r >= k + 2 {
                        k2r
                    } else {
                        k + 2
                    };
                    if k2 >= end {
                        Err(SpecError::InvalidLength(declared))
                    } else if s[k2] != 31 {
                        Err(SpecError::InvalidStructure(k2, s[k2]))
                    } else {
                        match dec_v1_value(s, k2 + 1) {
                            Err(e) => Err(e),
                            Ok((vv, k3r)) => {
                                let k3 = if k3r >= k2 + 2 {
                                    k3r
                                } else {
                                    k2 + 2
                                };
                                if k3 >= end {
                                    Err(SpecError::InvalidLength(declared))
                                } else if s[k3] != 29 {
                                    Err(SpecError::InvalidStructure(k3, s[k3]))
                                } else if k3 + 1 == end {
                                    Ok(seq![(key, vv)])
                                } else if s[k3 + 1] != 30 {
                                    Err(SpecError::InvalidStructure(k3 + 1, s[k3 + 1]))
                                } else if k3 + 2 == end {
                                    Ok(seq![(key, vv)])
                                } else {
                                    match dec_v1_entries(s, k3 + 2, end, declared) {
                                        Err(e) => Err(e),
                                        Ok(rest) => Ok(seq![(key, vv)] + rest),
                                    }
                                }
                            },
                        }
                    }
                }
            },
        }
    }
}

/// A value decoded at `i` always moves the position forward and stays inside
/// the buffer.
pub proof fn lemma_dec_v1_value_progress(s: Seq<u8>, i: int)
    ensures
        dec_v1_value(s, i) is Ok ==> i < dec_v1_value(s, i)->Ok_0.1 <= s.len(),
{
}

/// A value this generation can write: no legacy command-character kinds
/// anywhere in it.
pub open spec fn representable_v1(v: SpecValue) -> bool
    decreases v,
{
    match v {
        SpecValue::CommandCharacter(_) => false,
        SpecValue::ArrayCmdChar(_) => false,
        SpecValue::Array(items) => forall|i: int|
            0 <= i < items.len() ==> representable_v1(#[trigger] items[i]),
        SpecValue::Object(entries) => forall|i: int|
            0 <= i < entries.len() ==> representable_v1((#[trigger] entries[i]).1),
        _ => true,
    }
}

/// A value whose wire form reads back as itself: its numbers are canonical,
/// and every part's wire form fits the length fields.
pub open spec fn canonical_v1(v: SpecValue) -> bool
    decreases v,
{
    &&& enc_v1_value(v).len() <= u64::MAX
    &&& match v {
        SpecValue::Number(n) => crate::numbers::canonical_number(n),
        SpecValue::Array(items) => forall|i: int|
            0 <= i < items.len() ==> canonical_v1(#[trigger] items[i]),
        SpecValue::Object(entries) => forall|i: int|
            0 <= i < entries.len() ==> canonical_v1((#[trigger] entries[i]).1) && entries[i].0.len()
                <= u64::MAX,
        _ => true,
    }
}

/// Every value this generation writes takes at least one byte.
pub proof fn lemma_enc_v1_value_nonempty(v: SpecValue)
    requires
        representable_v1(v),
    ensures
        enc_v1_value(v).len() >= 1,
        enc_v1_value(v)[0] != 30 && enc_v1_value(v)[0] != 24 && enc_v1_value(v)[0] != 29
            && enc_v1_value(v)[0] != 31,
{
}

/// Decoding an encoded text value gives the text back and stops right after
/// its terminator.
pub proof fn lemma_dec_enc_v1_string(s: Seq<u8>, i: int, t: Seq<char>, rest: Seq<u8>)
    requires
        crate::text::valid_text(t),
        t.len() <= u64::MAX,
        0 <= i <= s.len(),
        s.subrange(i, s.len() as int) == enc_v1_string(t) + rest,
    ensures
        dec_v1_value(s, i) == Ok::<(SpecValue, int), SpecError>(
            (SpecValue::String(t), i + enc_v1_string(t).len()),
        ),
{
    let b = text_bytes(t);
    let e = enc_v1_string(t);
    assert(b.len() == t.len());
    crate::length::lemma_min_len_bytes(b.len());
    crate::length::lemma_le_bytes_len(b.len(), crate::length::min_len_bytes(b.len()));
    let nl = 1 + crate::length::min_len_bytes(b.len()) as int;
    assert(enc_len(b.len()).len() == nl);
    assert(e =~= seq![1u8] + (enc_len(b.len()) + b + seq![24u8]));
    lemma_tail_shift(s, i, e, rest, 0);
    assert(s[i] == e[0]);
    assert(e[0] == 1);
    assert((seq![1u8] + (enc_len(b.len()) + b + seq![24u8])).skip(1) =~= enc_len(b.len()) + b
        + seq![24u8]);
    lemma_tail_shift(s, i, seq![1u8] + (enc_len(b.len()) + b + seq![24u8]), rest, 1);
    assert(s.subrange(i + 1, s.len() as int) =~= (enc_len(b.len()) + b + seq![24u8]) + rest);
    assert((enc_len(b.len()) + b + seq![24u8]) + rest =~= enc_len(b.len()) + (b + seq![24u8]
        + rest));
    crate::length::lemma_dec_enc_len(s, i + 1, b.len(), b + seq![24u8] + rest);
    let j = i + 1 + nl;
    assert(dec_len(s, i + 1) == Ok::<(nat, int), SpecError>((b.len(), j)));
    assert(j + b.len() + 1 <= s.len());
    // the payload bytes and the terminator
    lemma_tail_shift(s, i + 1, enc_len(b.len()), b + seq![24u8] + rest, enc_len(b.len()).len() as int);
    assert(enc_len(b.len()).skip(nl) =~= Seq::<u8>::empty());
    assert(s.subrange(j, s.len() as int) =~= (b + seq![24u8]) + rest) by {
        assert(s.subrange(j, s.len() as int) =~= Seq::<u8>::empty() + ((b + seq![24u8]) + rest));
    }
    lemma_tail_shift(s, j, b + seq![24u8], rest, 0);
    assert(forall|q: int| 0 <= q < b.len() ==> #[trigger] s[j + q] == b[q]);
    assert(s[j + b.len()] == (b + seq![24u8])[b.len() as int]);
    assert(s[j + b.len()] == 24);
    let payload = s.subrange(j, j + b.len());
    assert(payload =~= b) by {
        assert(forall|q: int| 0 <= q < b.len() ==> #[trigger] payload[q] == s[j + q]);
    }
    // every payload byte is a valid text byte
    assert forall|q: int| j <= q < j + b.len() implies valid_text_byte(#[trigger] s[q]) by {
        assert(s[q] == b[q - j]);
        assert(b[q - j] == t[q - j] as u8);
        crate::text::lemma_char_code(t[q - j]);
    }
    lemma_find_bad_text_unique(s, j, j + b.len(), j + b.len());
    crate::text::lemma_text_bytes_text(t);
    assert(bytes_text(payload) == t);
    assert(j + b.len() + 1 == i + e.len());
}

/// How a window beginning with a length-prefixed body reads: the tag, the
/// length field, the payload, and the terminator land where the encoder put
/// them.
pub proof fn lemma_dec_v1_shape(s: Seq<u8>, i: int, tag: u8, payload: Seq<u8>, rest: Seq<u8>)
    requires
        payload.len() <= u64::MAX,
        0 <= i <= s.len(),
        s.subrange(i, s.len() as int) == seq![tag] + enc_len(payload.len()) + payload + seq![24u8]
            + rest,
    ensures
        i < s.len(),
        s[i] == tag,
        dec_len(s, i + 1) == Ok::<(nat, int), SpecError>(
            (payload.len(), i + 2 + crate::length::min_len_bytes(payload.len())),
        ),
        ({
            let j = i + 2 + crate::length::min_len_bytes(payload.len());
            &&& j + payload.len() + 1 <= s.len()
            &&& s[j + payload.len()] == 24
            &&& s.subrange(j, j + payload.len()) =~= payload
            &&& s.subrange(j, s.len() as int) =~= payload + (seq![24u8] + rest)
            &&& (forall|q: int| 0 <= q < payload.len() ==> #[trigger] s[j + q] == payload[q])
            &&& j + payload.len() + 1 == i + (seq![tag] + enc_len(payload.len()) + payload
                + seq![24u8]).len()
        }),
{
    let lenf = enc_len(payload.len());
    crate::length::lemma_min_len_bytes(payload.len());
    crate::length::lemma_le_bytes_len(payload.len(), crate::length::min_len_bytes(payload.len()));
    let nl = lenf.len() as int;
    let e = seq![tag] + lenf + payload + seq![24u8];
    lemma_tail_shift(s, i, e, rest, 0);
    assert(s[i] == e[0]);
    lemma_tail_shift(s, i, e, rest, 1);
    assert(e.skip(1) =~= lenf + payload + seq![24u8]);
    assert(e.skip(1) + rest =~= lenf + (payload + seq![24u8] + rest));
    crate::length::lemma_dec_enc_len(s, i + 1, payload.len(), payload + seq![24u8] + rest);
    let j = i + 1 + nl;
    lemma_tail_shift(s, i, e, rest, 1 + nl);
    assert(e.skip(1 + nl) =~= payload + seq![24u8]);
    assert(e.skip(1 + nl) + rest =~= payload + (seq![24u8] + rest));
    assert(s.subrange(j, s.len() as int) =~= payload + (seq![24u8] + rest));
    lemma_tail_shift(s, j, payload, seq![24u8] + rest, 0);
    assert(s[j + payload.len()] == (payload + (seq![24u8] + rest))[payload.len() as int]);
    assert(s.subrange(j, j + payload.len()) =~= payload) by {
        assert(forall|q: int|
            0 <= q < payload.len() ==> #[trigger] s.subrange(j, j + payload.len())[q] == s[j + q]);
    }
}

/// Decoding the wire form of an array payload gives its values back.
#[verifier::rlimit(60)]
pub proof fn lemma_dec_enc_v1_items(
    s: Seq<u8>,
    k: int,
    items: Seq<SpecValue>,
    declared: int,
    rest: Seq<u8>,
)
    requires
        forall|q: int|
            0 <= q < items.len() ==> crate::value::wf_value(#[trigger] items[q]) && canonical_v1(
                items[q],
            ) && representable_v1(items[q]),
        0 <= k,
        k + enc_v1_items(items).len() <= s.len(),
        s.subrange(k, s.len() as int) == enc_v1_items(items) + rest,
    ensures
        dec_v1_items(s, k, k + enc_v1_items(items).len(), declared) == Ok::<
            Seq<SpecValue>,
            SpecError,
        >(items),
    decreases items,
{
    let p = enc_v1_items(items);
    let end = k + p.len();
    if items.len() == 0 {
        assert(p =~= Seq::<u8>::empty());
        assert(items =~= Seq::<SpecValue>::empty());
    } else {
        let head = items[0];
        let tailp = enc_v1_items(items.drop_first());
        let e0 = enc_v1_value(head);
        assert(p == e0 + seq![30u8] + tailp);
        assert(p.len() == e0.len() + 1 + tailp.len());
        let r1 = seq![30u8] + (tailp + rest);
        assert(p + rest =~= e0 + r1);
        lemma_dec_enc_v1_value(s, k, head, r1);
        lemma_enc_v1_value_nonempty(head);
        let k2 = k + e0.len();
        lemma_tail_shift(s, k, e0, r1, e0.len() as int);
        assert(e0.skip(e0.len() as int) =~= Seq::<u8>::empty());
        assert(Seq::<u8>::empty() + r1 =~= r1);
        assert(s.subrange(k2, s.len() as int) =~= seq![30u8] + (tailp + rest));
        lemma_tail_at(s, k2, seq![30u8], tailp + rest, 0);
        assert(s[k2] == 30);
        assert(k2 < end);
        lemma_tail_shift(s, k2, seq![30u8], tailp + rest, 1);
        assert(seq![30u8].skip(1) =~= Seq::<u8>::empty());
        assert(s.subrange(k2 + 1, s.len() as int) =~= tailp + rest);
        assert(dec_v1_value(s, k) == Ok::<(SpecValue, int), SpecError>((head, k2)));
        if items.len() == 1 {
            assert(tailp =~= Seq::<u8>::empty());
            assert(k2 + 1 == end);
            assert(items =~= seq![head]);
            assert(dec_v1_items(s, k, end, declared) == Ok::<Seq<SpecValue>, SpecError>(
                seq![head],
            ));
        } else {
            assert(items.drop_first()[0] == items[1]);
            lemma_enc_v1_value_nonempty(items[1]);
            assert(tailp.len() >= 1) by {
                assert(tailp == enc_v1_value(items.drop_first()[0]) + seq![30u8] + enc_v1_items(
                    items.drop_first().drop_first()));
            }
            assert(k2 + 1 < end);
            assert(forall|q: int|
                0 <= q < items.drop_first().len() ==> #[trigger] items.drop_first()[q] == items[q
                    + 1]);
            lemma_dec_enc_v1_items(s, k2 + 1, items.drop_first(), declared, rest);
            assert(k2 + 1 + tailp.len() == end);
            assert(dec_v1_items(s, k2 + 1, end, declared) == Ok::<Seq<SpecValue>, SpecError>(
                items.drop_first(),
            ));
            assert(dec_v1_items(s, k, end, declared) == Ok::<Seq<SpecValue>, SpecError>(
                seq![head] + items.drop_first(),
            ));
            assert(seq![head] + items.drop_first() =~= items);
        }
    }
}

/// Decoding the wire form of an object payload gives its entries back, in
/// order.
#[verifier::rlimit(60)]
pub proof fn lemma_dec_enc_v1_entries(
    s: Seq<u8>,
    k: int,
    entries: Seq<(Seq<char>, SpecValue)>,
    declared: int,
    rest: Seq<u8>,
)
    requires
        forall|q: int|
            0 <= q < entries.len() ==> crate::value::wf_value((#[trigger] entries[q]).1)
                && canonical_v1(entries[q].1) && representable_v1(entries[q].1) && crate::text::valid_text(
                entries[q].0,
            ) && entries[q].0.len() <= u64::MAX,
        0 <= k,
        k + enc_v1_entries(entries).len() <= s.len(),
        s.subrange(k, s.len() as int) == enc_v1_entries(entries) + rest,
    ensures
        dec_v1_entries(s, k, k + enc_v1_entries(entries).len(), declared) == Ok::<
            Seq<(Seq<char>, SpecValue)>,
            SpecError,
        >(entries),
    decreases entries,
{
    let p = enc_v1_entries(entries);
    let end = k + p.len();
    if entries.len() == 0 {
        assert(p =~= Seq::<u8>::empty());
        assert(entries =~= Seq::<(Seq<char>, SpecValue)>::empty());
    } else {
        let key = entries[0].0;
        let val = entries[0].1;
        let es = enc_v1_string(key);
        let ev = enc_v1_value(val);
        let tailp = enc_v1_entries(entries.drop_first());
        assert(p == seq![29u8] + es + seq![31u8] + ev + seq![29u8, 30u8] + tailp);
        assert(p.len() == 1 + es.len() + 1 + ev.len() + 2 + tailp.len());
        // the opening group separator
        let r1 = es + (seq![31u8] + (ev + (seq![29u8, 30u8] + (tailp + rest))));
        assert(p + rest =~= seq![29u8] + r1);
        lemma_tail_at(s, k, seq![29u8], r1, 0);
        assert(s[k] == 29);
        assert(k < end);
        lemma_tail_shift(s, k, seq![29u8], r1, 1);
        assert(seq![29u8].skip(1) =~= Seq::<u8>::empty());
        assert(s.subrange(k + 1, s.len() as int) =~= r1);
        // the key, a full text value
        let r2 = seq![31u8] + (ev + (seq![29u8, 30u8] + (tailp + rest)));
        lemma_dec_enc_v1_string(s, k + 1, key, r2);
        assert(es.len() >= 3);
        let k2 = k + 1 + es.len();
        lemma_tail_shift(s, k + 1, es, r2, es.len() as int);
        assert(es.skip(es.len() as int) =~= Seq::<u8>::empty());
        assert(s.subrange(k2, s.len() as int) =~= r2);
        let r3 = ev + (seq![29u8, 30u8] + (tailp + rest));
        lemma_tail_at(s, k2, seq![31u8], r3, 0);
        assert(s[k2] == 31);
        assert(k2 < end);
        lemma_tail_shift(s, k2, seq![31u8], r3, 1);
        assert(seq![31u8].skip(1) =~= Seq::<u8>::empty());
        assert(s.subrange(k2 + 1, s.len() as int) =~= r3);
        // the entry's value
        let r4 = seq![29u8, 30u8] + (tailp + rest);
        lemma_dec_enc_v1_value(s, k2 + 1, val, r4);
        lemma_enc_v1_value_nonempty(val);
        let k3 = k2 + 1 + ev.len();
        lemma_tail_shift(s, k2 + 1, ev, r4, ev.len() as int);
        assert(ev.skip(ev.len() as int) =~= Seq::<u8>::empty());
        assert(s.subrange(k3, s.len() as int) =~= r4);
        // the closing group separator and the record separator
        lemma_tail_at(s, k3, seq![29u8, 30u8], tailp + rest, 0);
        lemma_tail_at(s, k3, seq![29u8, 30u8], tailp + rest, 1);
        assert(s[k3] == 29);
        assert(s[k3 + 1] == 30);
        assert(k3 + 1 < end);
        lemma_tail_shift(s, k3, seq![29u8, 30u8], tailp + rest, 2);
        assert(seq![29u8, 30u8].skip(2) =~= Seq::<u8>::empty());
        assert(s.subrange(k3 + 2, s.len() as int) =~= tailp + rest);
        if entries.len() == 1 {
            assert(tailp =~= Seq::<u8>::empty());
            assert(k3 + 2 == end);
            assert(entries =~= seq![(key, val)]);
        } else {
            assert(entries.drop_first()[0] == entries[1]);
            assert(tailp.len() >= 1) by {
                assert(tailp == seq![29u8] + enc_v1_string(entries.drop_first()[0].0) + seq![31u8]
                    + enc_v1_value(entries.drop_first()[0].1) + seq![29u8, 30u8] + enc_v1_entries(
                    entries.drop_first().drop_first()));
            }
            assert(k3 + 2 < end);
            assert(forall|q: int|
                0 <= q < entries.drop_first().len() ==> #[trigger] entries.drop_first()[q]
                    == entries[q + 1]);
            lemma_dec_enc_v1_entries(s, k3 + 2, entries.drop_first(), declared, rest);
            assert(k3 + 2 + tailp.len() == end);
            assert(seq![(key, val)] + entries.drop_first() =~= entries);
        }
    }
}

/// Rebuilding an object from already-sorted entries gives the same entries.
pub proof fn lemma_obj_from_entries_sorted(entries: Seq<(Seq<char>, SpecValue)>)
    requires
        crate::value::wf_entries(entries),
    ensures
        obj_from_entries(entries) == entries,
    decreases entries.len(),
{
    if entries.len() > 0 {
        let dl = entries.drop_last();
        assert(crate::value::wf_entries(dl)) by {
            assert(forall|q: int| 0 <= q < dl.len() ==> #[trigger] dl[q] == entries[q]);
        }
        lemma_obj_from_entries_sorted(dl);
        assert forall|q: int| 0 <= q < dl.len() implies crate::text::lex_cmp(
            entries.last().0,
            (#[trigger] dl[q]).0,
        ) > 0 by {
            assert(dl[q] == entries[q]);
            assert(crate::text::lex_cmp(entries[q].0, entries.last().0) < 0);
            crate::text::lemma_lex_cmp_flip(entries.last().0, entries[q].0);
        }
        crate::value::object::lemma_obj_insert_append(dl, entries.last().0, entries.last().1);
        assert(dl + seq![(entries.last().0, entries.last().1)] =~= entries);
    }
}

/// The first legacy value inside `v`, in writing order: what the encoder
/// reports when asked to write `v` for this generation.
pub open spec fn v1_offender(v: SpecValue) -> SpecValue
    decreases v, 1int,
{
    match v {
        SpecValue::Array(items) => v1_items_offender(items),
        SpecValue::Object(entries) => v1_entries_offender(entries),
        _ => v,
    }
}

pub open spec fn v1_items_offender(items: Seq<SpecValue>) -> SpecValue
    decreases items, 0int,
{
    if items.len() == 0 {
        SpecValue::Null
    } else if !representable_v1(items[0]) {
        v1_offender(items[0])
    } else {
        v1_items_offender(items.drop_first())
    }
}

pub open spec fn v1_entries_offender(entries: Seq<(Seq<char>, SpecValue)>) -> SpecValue
    decreases entries, 0int,
{
    if entries.len() == 0 {
        SpecValue::Null
    } else if !representable_v1(entries[0].1) {
        v1_offender(entries[0].1)
    } else {
        v1_entries_offender(entries.drop_first())
    }
}

/// A copy of the bytes in `[lo, hi)`.
pub fn copy_range(s: &[u8], lo: usize, hi: usize) -> (r: Vec<u8>)
    requires
        lo <= hi <= s@.len(),
    ensures
        r@ == s@.subrange(lo as int, hi as int),
{
    let mut out: Vec<u8> = Vec::new();
    let mut i: usize = lo;
    while i < hi
        invariant
            lo <= i <= hi <= s@.len(),
            out@ == s@.subrange(lo as int, i as int),
        decreases hi - i,
    {
        out.push(s[i]);
        proof {
            assert(out@ =~= s@.subrange(lo as int, i + 1));
        }
        i = i + 1;
    }
    out
}

/// Decoding the wire form of a value gives the value back and stops right
/// after it: the round trip of this generation.
pub proof fn lemma_dec_enc_v1_value(s: Seq<u8>, i: int, v: SpecValue, rest: Seq<u8>)
    requires
        crate::value::wf_value(v),
        canonical_v1(v),
        representable_v1(v),
        0 <= i <= s.len(),
        s.subrange(i, s.len() as int) == enc_v1_value(v) + rest,
    ensures
        dec_v1_value(s, i) == Ok::<(SpecValue, int), SpecError>((v, i + enc_v1_value(v).len())),
    decreases v,
{
    let e = enc_v1_value(v);
    match v {
        SpecValue::String(t) => {
            crate::length::lemma_le_bytes_len(
                t.len(),
                crate::length::min_len_bytes(t.len()),
            );
            assert(e.len() == 1 + enc_len(text_bytes(t).len()).len() + t.len() + 1);
            lemma_dec_enc_v1_string(s, i, t, rest);
        },
        SpecValue::Number(n) => {
            let b = num_text(n);
            assert(e == seq![2u8] + enc_len(b.len()) + b + seq![24u8]);
            crate::length::lemma_le_bytes_len(b.len(), crate::length::min_len_bytes(b.len()));
            assert(b.len() <= u64::MAX);
            lemma_dec_v1_shape(s, i, 2, b, rest);
            crate::numbers::lemma_number_round_trip(n);
            let j = i + 2 + crate::length::min_len_bytes(b.len());
            assert(s.subrange(j, j + b.len()) =~= b);
        },
        SpecValue::Data(b, len) => {
            assert(len == b.len());
            assert(e == seq![5u8] + enc_len(b.len()) + b + seq![24u8]);
            crate::length::lemma_le_bytes_len(b.len(), crate::length::min_len_bytes(b.len()));
            assert(b.len() <= u64::MAX);
            lemma_dec_v1_shape(s, i, 5, b, rest);
            let j = i + 2 + crate::length::min_len_bytes(b.len());
            assert(s.subrange(j, j + b.len()) =~= b);
        },
        SpecValue::Array(items) => {
            let p = enc_v1_items(items);
            assert(e == seq![3u8] + enc_len(p.len()) + p + seq![24u8]);
            crate::length::lemma_le_bytes_len(p.len(), crate::length::min_len_bytes(p.len()));
            assert(p.len() <= u64::MAX);
            lemma_dec_v1_shape(s, i, 3, p, rest);
            let j = i + 2 + crate::length::min_len_bytes(p.len());
            assert forall|q: int| 0 <= q < items.len() implies crate::value::wf_value(
                #[trigger] items[q],
            ) && canonical_v1(items[q]) && representable_v1(items[q]) by {}
            lemma_dec_enc_v1_items(s, j, items, p.len() as int, seq![24u8] + rest);
        },
        SpecValue::Object(entries) => {
            let p = enc_v1_entries(entries);
            assert(e == seq![4u8] + enc_len(p.len()) + p + seq![24u8]);
            crate::length::lemma_le_bytes_len(p.len(), crate::length::min_len_bytes(p.len()));
            assert(p.len() <= u64::MAX);
            lemma_dec_v1_shape(s, i, 4, p, rest);
            let j = i + 2 + crate::length::min_len_bytes(p.len());
            assert forall|q: int| 0 <= q < entries.len() implies crate::value::wf_value(
                (#[trigger] entries[q]).1,
            ) && canonical_v1(entries[q].1) && representable_v1(entries[q].1)
                && crate::text::valid_text(entries[q].0) && entries[q].0.len() <= u64::MAX by {}
            lemma_dec_enc_v1_entries(s, j, entries, p.len() as int, seq![24u8] + rest);
            lemma_obj_from_entries_sorted(entries);
        },
        SpecValue::Boolean(b) => {
            lemma_tail_shift(s, i, e, rest, 0);
            assert(s[i] == e[0]);
        },
        SpecValue::Null => {
            lemma_tail_shift(s, i, e, rest, 0);
            assert(s[i] == e[0]);
        },
        SpecValue::CommandCharacter(_) => {
            assert(false);
        },
        SpecValue::ArrayCmdChar(_) => {
            assert(false);
        },
    }
}

/// An object rebuilt from any run of entries with valid keys and
/// well-formed values is itself well formed: keys sorted and unique, every
/// part intact.
pub proof fn lemma_obj_from_entries_wf(list: Seq<(Seq<char>, SpecValue)>)
    requires
        forall|q: int|
            0 <= q < list.len() ==> crate::text::valid_text((#[trigger] list[q]).0)
                && crate::value::wf_value(list[q].1),
    ensures
        crate::value::wf_entries(obj_from_entries(list)),
    decreases list.len(),
{
    if list.len() == 0 {
        assert(crate::value::wf_entries(Seq::<(Seq<char>, SpecValue)>::empty()));
    } else {
        let dl = list.drop_last();
        assert(forall|q: int| 0 <= q < dl.len() ==> #[trigger] dl[q] == list[q]);
        lemma_obj_from_entries_wf(dl);
        crate::value::object::lemma_obj_insert_wf(
            obj_from_entries(dl),
            list.last().0,
            list.last().1,
        );
    }
}

/// Every value the decoder hands back is well formed: its texts lie in the
/// accepted ranges, its numbers in their machine ranges, a blob's declared
/// length is its byte count, and object keys are sorted and unique.
pub proof fn lemma_dec_v1_value_wf(s: Seq<u8>, i: int)
    ensures
        dec_v1_value(s, i) is Ok ==> crate::value::wf_value(dec_v1_value(s, i)->Ok_0.0),
    decreases s.len() - i, 0int,
{
    if 0 <= i < s.len() {
        let tag = s[i];
        if tag == 1 {
            if let Ok((len, j)) = dec_len(s, i + 1) {
                if j + len + 1 <= s.len() && s[j + len] == 24 {
                    let bad = find_bad_text(s, j, j + len);
                    if bad >= j + len {
                        let payload = s.subrange(j, j + len);
                        lemma_find_bad_text(s, j, j + len);
                        assert forall|q: int| 0 <= q < payload.len() implies valid_text_byte(
                            #[trigger] payload[q],
                        ) by {
                            assert(payload[q] == s[j + q]);
                        }
                        crate::text::lemma_valid_bytes_valid_text(payload);
                    }
                }
            }
        } else if tag == 2 {
            if let Ok((len, j)) = dec_len(s, i + 1) {
                if j + len + 1 <= s.len() && s[j + len] == 24 {
                    crate::numbers::lemma_number_from_text_wf(s.subrange(j, j + len));
                }
            }
        } else if tag == 3 {
            if let Ok((len, j)) = dec_len(s, i + 1) {
                if j + len + 1 <= s.len() {
                    lemma_dec_v1_items_wf(s, j, j + len, len as int);
                }
            }
        } else if tag == 4 {
            if let Ok((len, j)) = dec_len(s, i + 1) {
                if j + len + 1 <= s.len() {
                    lemma_dec_v1_entries_wf(s, j, j + len, len as int);
                    if let Ok(entries) = dec_v1_entries(s, j, j + len, len as int) {
                        lemma_obj_from_entries_wf(entries);
                    }
                }
            }
        }
    }
}

pub proof fn lemma_dec_v1_items_wf(s: Seq<u8>, k: int, end: int, declared: int)
    ensures
        dec_v1_items(s, k, end, declared) is Ok ==> forall|q: int|
            0 <= q < dec_v1_items(s, k, end, declared)->Ok_0.len()
                ==> crate::value::wf_value(#[trigger] dec_v1_items(s, k, end, declared)->Ok_0[q]),
    decreases s.len() - k, 1int,
{
    if 0 <= k <= end <= s.len() && k != end {
        lemma_dec_v1_value_wf(s, k);
        if let Ok((v, k2)) = dec_v1_value(s, k) {
            if k2 < end && s[k2] == 30 && k2 + 1 != end {
                let next = if k2 + 1 > k {
                    k2 + 1
                } else {
                    k + 1
                };
                lemma_dec_v1_items_wf(s, next, end, declared);
                if let Ok(rest) = dec_v1_items(s, next, end, declared) {
                    assert(forall|q: int|
                        0 <= q < rest.len() ==> (seq![v] + rest)[q + 1] == #[trigger] rest[q]);
                    assert((seq![v] + rest)[0] == v);
                }
            }
        }
    }
}

pub proof fn lemma_dec_v1_entries_wf(s: Seq<u8>, k: int, end: int, declared: int)
    ensures
        dec_v1_entries(s, k, end, declared) is Ok ==> forall|q: int|
            0 <= q < dec_v1_entries(s, k, end, declared)->Ok_0.len()
                ==> crate::text::valid_text(
                (#[trigger] dec_v1_entries(s, k, end, declared)->Ok_0[q]).0,
            ) && crate::value::wf_value(dec_v1_entries(s, k, end, declared)->Ok_0[q].1),
    decreases s.len() - k, 1int,
{
    if 0 <= k <= end <= s.len() && k != end && s[k] == 29 {
        lemma_dec_v1_value_wf(s, k + 1);
        if let Ok((kv, k2r)) = dec_v1_value(s, k + 1) {
            if kv is String {
                let key = kv->String_0;
                let k2 = if k2r >= k + 2 {
                    k2r
                } else {
                    k + 2
                };
                if k2 < end && s[k2] == 31 {
                    lemma_dec_v1_value_wf(s, k2 + 1);
                    if let Ok((vv, k3r)) = dec_v1_value(s, k2 + 1) {
                        let k3 = if k3r >= k2 + 2 {
                            k3r
                        } else {
                            k2 + 2
                        };
                        if k3 < end && s[k3] == 29 && k3 + 1 != end && s[k3 + 1] == 30 && k3 + 2
                            != end {
                            lemma_dec_v1_entries_wf(s, k3 + 2, end, declared);
                            if let Ok(rest) = dec_v1_entries(s, k3 + 2, end, declared) {
                                assert(forall|q: int|
                                    0 <= q < rest.len() ==> (seq![(key, vv)] + rest)[q + 1]
                                        == #[trigger] rest[q]);
                                assert((seq![(key, vv)] + rest)[0] == (key, vv));
                            }
                        }
                    }
                }
            }
        }
    }
}

/// What a whole file of this generation decodes to: the root value between
/// the version byte and the end marker.
pub open spec fn dec_v1_file(s: Seq<u8>) -> Result<SpecValue, SpecError> {
    match dec_v1_value(s, 1) {
        Err(e) => Err(e),
        Ok((v, j)) => {
            if j >= s.len() {
                Err(SpecError::Truncated(s.len() as int))
            } else if s[j] != 25 {
                Err(SpecError::MissingMarker(MarkerKind::Em, j))
            } else {
                Ok(v)
            }
        },
    }
}

/// Reads one value at the cursor and moves the cursor past it.
#[verifier::loop_isolation(false)]
#[verifier::rlimit(100)]
pub fn deserialize_xff_v1_value(s: &[u8], pos: &mut usize) -> (r: Result<XffValue, NabuError>)
    requires
        *old(pos) <= s@.len(),
    ensures
        match dec_v1_value(s@, *old(pos) as int) {
            Ok((sv, p)) => r is Ok && r->Ok_0@ == sv && *final(pos) as int == p && *final(pos)
                <= s@.len(),
            Err(e) => r is Err && r->Err_0@ == e,
        },
    decreases s@.len() - *old(pos),
{
    let start = *pos;
    if start >= s.len() {
        return Err(NabuError::Truncated(s.len()));
    }
    let tag = s[start];
    if tag == 0 {
        *pos = start + 1;
        return Ok(XffValue::Null);
    }
    if tag == 16 {
        *pos = start + 1;
        return Ok(XffValue::Boolean(true));
    }
    if tag == 17 {
        *pos = start + 1;
        return Ok(XffValue::Boolean(false));
    }
    if tag == 1 || tag == 2 || tag == 5 {
        *pos = start + 1;
        let len = match deserialize_xff_v1_value_length(s, pos) {
            Ok(l) => l,
            Err(e) => {
                return Err(e);
            },
        };
        let j = *pos;
        let remaining = s.len() - j;
        if len >= remaining as u64 {
            return Err(NabuError::Truncated(s.len()));
        }
        let len_us = len as usize;
        proof {
            assert(j + len_us + 1 <= s@.len());
        }
        if s[j + len_us] != 24 {
            return Err(NabuError::MissingMarker(MarkerKind::Ev, j + len_us));
        }
        let ghost payload = s@.subrange(j as int, j + len_us);
        if tag == 1 {
            let mut q: usize = j;
            while q < j + len_us
                invariant
                    j <= q <= j + len_us,
                    forall|w: int| j <= w < q ==> valid_text_byte(#[trigger] s@[w]),
                decreases j + len_us - q,
            {
                if !text_byte_ok(s[q]) {
                    proof {
                        lemma_find_bad_text_unique(s@, j as int, j + len_us, q as int);
                    }
                    return Err(NabuError::InvalidByte(s[q], q, 1));
                }
                q = q + 1;
            }
            proof {
                lemma_find_bad_text_unique(s@, j as int, j + len_us, j + len_us);
            }
            let bytes = copy_range(s, j, j + len_us);
            let st = latin1_string(bytes.as_slice());
            *pos = j + len_us + 1;
            proof {
                assert(st@ =~= bytes_text(payload));
            }
            return Ok(XffValue::String(st));
        }
        if tag == 2 {
            let bytes = copy_range(s, j, j + len_us);
            match number_from_bytes(bytes.as_slice()) {
                Some(n) => {
                    *pos = j + len_us + 1;
                    return Ok(XffValue::Number(n));
                },
                None => {
                    let txt = latin1_string(bytes.as_slice());
                    proof {
                        crate::text::lemma_bytes_text_bytes(payload);
                        assert(text_bytes(txt@) =~= payload);
                    }
                    return Err(NabuError::InvalidNumber(j, txt));
                },
            }
        }
        // tag == 5: a byte blob
        let bytes = copy_range(s, j, j + len_us);
        *pos = j + len_us + 1;
        return Ok(XffValue::Data(Data { data: bytes, len: len_us }));
    }
    if tag == 3 {
        *pos = start + 1;
        let len = match deserialize_xff_v1_value_length(s, pos) {
            Ok(l) => l,
            Err(e) => {
                return Err(e);
            },
        };
        let j = *pos;
        let remaining = s.len() - j;
        if len >= remaining as u64 {
            return Err(NabuError::Truncated(s.len()));
        }
        let len_us = len as usize;
        let end = j + len_us;
        proof {
            assert(end + 1 <= s@.len());
        }
        let ghost full = dec_v1_items(s@, j as int, end as int, len_us as int);
        let mut out: Vec<XffValue> = Vec::new();
        proof {
            lemma_view_values(out@);
            assert(view_values(out@) =~= Seq::<SpecValue>::empty());
        }
        while *pos < end
            invariant
                j <= *pos <= end,
                match dec_v1_items(s@, *pos as int, end as int, len_us as int) {
                    Ok(rest) => full == Ok::<Seq<SpecValue>, SpecError>(view_values(out@) + rest),
                    Err(e) => full == Err::<Seq<SpecValue>, SpecError>(e),
                },
            decreases end - *pos,
        {
            let cur = *pos;
            let ghost views_old = view_values(out@);
            let child = match deserialize_xff_v1_value(s, pos) {
                Ok(v) => v,
                Err(e) => {
                    return Err(e);
                },
            };
            proof {
                lemma_dec_v1_value_progress(s@, cur as int);
            }
            let ghost k2 = *pos as int;
            if *pos > end {
                return Err(NabuError::InvalidLength(len_us));
            }
            proof {
                lemma_view_values(out@);
                lemma_view_values(out@.push(child));
                assert(view_values(out@.push(child)) =~= view_values(out@).push(child@));
            }
            out.push(child);
            if *pos < end {
                if s[*pos] != 30 {
                    return Err(NabuError::InvalidStructure(*pos, s[*pos]));
                }
                *pos = *pos + 1;
            }
            proof {
                let li = cur as int;
                let ei = end as int;
                let di = len_us as int;
                assert(dec_v1_value(s@, li) == Ok::<(SpecValue, int), SpecError>((child@, k2)));
                let step = dec_v1_items(s@, li, ei, di);
                assert(view_values(out@) =~= views_old + seq![child@]);
                if k2 == end {
                    assert(step == Ok::<Seq<SpecValue>, SpecError>(seq![child@]));
                    assert(dec_v1_items(s@, ei, ei, di) == Ok::<Seq<SpecValue>, SpecError>(
                        Seq::empty(),
                    ));
                    assert(views_old + seq![child@] =~= views_old + seq![child@]
                        + Seq::<SpecValue>::empty());
                } else if k2 + 1 == end {
                    assert(s@[k2] == 30);
                    assert(step == Ok::<Seq<SpecValue>, SpecError>(seq![child@]));
                    assert(dec_v1_items(s@, ei, ei, di) == Ok::<Seq<SpecValue>, SpecError>(
                        Seq::empty(),
                    ));
                    assert(views_old + seq![child@] =~= views_old + seq![child@]
                        + Seq::<SpecValue>::empty());
                } else {
                    assert(s@[k2] == 30);
                    assert(step == (match dec_v1_items(s@, k2 + 1, ei, di) {
                        Err(e) => Err::<Seq<SpecValue>, SpecError>(e),
                        Ok(rest) => Ok::<Seq<SpecValue>, SpecError>(seq![child@] + rest),
                    }));
                    match dec_v1_items(s@, k2 + 1, ei, di) {
                        Err(e) => {},
                        Ok(rest) => {
                            assert(views_old + (seq![child@] + rest) =~= (views_old
                                + seq![child@]) + rest);
                        },
                    }
                }
            }
        }
        proof {
            assert(dec_v1_items(s@, end as int, end as int, len_us as int) == Ok::<
                Seq<SpecValue>,
                SpecError,
            >(Seq::empty()));
            assert(full is Ok ==> full->Ok_0 == view_values(out@) + Seq::<SpecValue>::empty());
            assert(view_values(out@) + Seq::<SpecValue>::empty() =~= view_values(out@));
        }
        if s[end] != 24 {
            return Err(NabuError::MissingMarker(MarkerKind::Ev, end));
        }
        *pos = end + 1;
        return Ok(XffValue::Array(Array { values: out }));
    }
    if tag == 4 {
        *pos = start + 1;
        let len = match deserialize_xff_v1_value_length(s, pos) {
            Ok(l) => l,
            Err(e) => {
                return Err(e);
            },
        };
        let j = *pos;
        let remaining = s.len() - j;
        if len >= remaining as u64 {
            return Err(NabuError::Truncated(s.len()));
        }
        let len_us = len as usize;
        let end = j + len_us;
        proof {
            assert(end + 1 <= s@.len());
        }
        let ghost full = dec_v1_entries(s@, j as int, end as int, len_us as int);
        let mut obj = Object::new();
        let ghost mut wire: Seq<(Seq<char>, SpecValue)> = Seq::empty();
        proof {
            assert(obj@ == obj_from_entries(wire));
        }
        while *pos < end
            invariant
                j <= *pos <= end,
                obj@ == obj_from_entries(wire),
                match dec_v1_entries(s@, *pos as int, end as int, len_us as int) {
                    Ok(rest) => full == Ok::<Seq<(Seq<char>, SpecValue)>, SpecError>(wire + rest),
                    Err(e) => full == Err::<Seq<(Seq<char>, SpecValue)>, SpecError>(e),
                },
            decreases end - *pos,
        {
            let cur = *pos;
            let ghost wire_old = wire;
            if s[cur] != 29 {
                return Err(NabuError::InvalidStructure(cur, s[cur]));
            }
            *pos = cur + 1;
            let keyval = match deserialize_xff_v1_value(s, pos) {
                Ok(v) => v,
                Err(e) => {
                    return Err(e);
                },
            };
            proof {
                lemma_dec_v1_value_progress(s@, cur + 1);
            }
            let ghost kvview = keyval@;
            let ghost k2 = *pos as int;
            let key = match keyval {
                XffValue::String(st) => st,
                other => {
                    return Err(NabuError::InvalidKey(cur + 1, other));
                },
            };
            if *pos >= end {
                return Err(NabuError::InvalidLength(len_us));
            }
            if s[*pos] != 31 {
                return Err(NabuError::InvalidStructure(*pos, s[*pos]));
            }
            *pos = *pos + 1;
            let ghost vstart = *pos;
            let val = match deserialize_xff_v1_value(s, pos) {
                Ok(v) => v,
                Err(e) => {
                    return Err(e);
                },
            };
            proof {
                lemma_dec_v1_value_progress(s@, vstart as int);
            }
            let ghost k3 = *pos as int;
            if *pos >= end {
                return Err(NabuError::InvalidLength(len_us));
            }
            if s[*pos] != 29 {
                return Err(NabuError::InvalidStructure(*pos, s[*pos]));
            }
            *pos = *pos + 1;
            let ghost kview = key@;
            let ghost vview = val@;
            proof {
                assert(wire.push((kview, vview)).drop_last() =~= wire);
                assert(wire.push((kview, vview)).last() == (kview, vview));
                assert(wire.push((kview, vview)) =~= wire + seq![(kview, vview)]);
            }
            obj.insert(key, val);
            proof {
                wire = wire.push((kview, vview));
                assert(obj@ == obj_from_entries(wire));
            }
            if *pos < end {
                if s[*pos] != 30 {
                    return Err(NabuError::InvalidStructure(*pos, s[*pos]));
                }
                *pos = *pos + 1;
            }
            proof {
                let li = cur as int;
                let ei = end as int;
                let di = len_us as int;
                assert(s@[li] == 29);
                assert(dec_v1_value(s@, li + 1) == Ok::<(SpecValue, int), SpecError>(
                    (kvview, k2),
                ));
                assert(kvview == SpecValue::String(kview));
                assert(k2 >= li + 2);
                assert(s@[k2] == 31);
                assert(dec_v1_value(s@, k2 + 1) == Ok::<(SpecValue, int), SpecError>(
                    (vview, k3),
                ));
                assert(k3 >= k2 + 2);
                assert(s@[k3] == 29);
                let step = dec_v1_entries(s@, li, ei, di);
                assert(wire =~= wire_old + seq![(kview, vview)]);
                if k3 + 1 == end {
                    assert(step == Ok::<Seq<(Seq<char>, SpecValue)>, SpecError>(
                        seq![(kview, vview)],
                    ));
                    assert(dec_v1_entries(s@, ei, ei, di) == Ok::<
                        Seq<(Seq<char>, SpecValue)>,
                        SpecError,
                    >(Seq::empty()));
                    assert(wire_old + seq![(kview, vview)] =~= wire_old + seq![(kview, vview)]
                        + Seq::<(Seq<char>, SpecValue)>::empty());
                } else if k3 + 2 == end {
                    assert(s@[k3 + 1] == 30);
                    assert(step == Ok::<Seq<(Seq<char>, SpecValue)>, SpecError>(
                        seq![(kview, vview)],
                    ));
                    assert(dec_v1_entries(s@, ei, ei, di) == Ok::<
                        Seq<(Seq<char>, SpecValue)>,
                        SpecError,
                    >(Seq::empty()));
                    assert(wire_old + seq![(kview, vview)] =~= wire_old + seq![(kview, vview)]
                        + Seq::<(Seq<char>, SpecValue)>::empty());
                } else {
                    assert(s@[k3 + 1] == 30);
                    assert(step == (match dec_v1_entries(s@, k3 + 2, ei, di) {
                        Err(e) => Err::<Seq<(Seq<char>, SpecValue)>, SpecError>(e),
                        Ok(rest) => Ok::<Seq<(Seq<char>, SpecValue)>, SpecError>(
                            seq![(kview, vview)] + rest,
                        ),
                    }));
                    match dec_v1_entries(s@, k3 + 2, ei, di) {
                        Err(e) => {},
                        Ok(rest) => {
                            assert(wire_old + (seq![(kview, vview)] + rest) =~= (wire_old
                                + seq![(kview, vview)]) + rest);
                        },
                    }
                }
            }
        }
        proof {
            assert(dec_v1_entries(s@, end as int, end as int, len_us as int) == Ok::<
                Seq<(Seq<char>, SpecValue)>,
                SpecError,
            >(Seq::empty()));
            assert(full is Ok ==> full->Ok_0 == wire + Seq::<(Seq<char>, SpecValue)>::empty());
            assert(wire + Seq::<(Seq<char>, SpecValue)>::empty() =~= wire);
        }
        if s[end] != 24 {
            return Err(NabuError::MissingMarker(MarkerKind::Ev, end));
        }
        *pos = end + 1;
        return Ok(XffValue::Object(obj));
    }
    Err(NabuError::InvalidByte(tag, start, 1))
}

/// Appends every byte of the slice.
pub fn push_all(out: &mut Vec<u8>, src: &[u8])
    ensures
        final(out)@ == old(out)@ + src@,
{
    let mut i: usize = 0;
    while i < src.len()
        invariant
            i <= src@.len(),
            out@ == old(out)@ + src@.take(i as int),
        decreases src@.len() - i,
    {
        out.push(src[i]);
        proof {
            assert(old(out)@ + src@.take(i as int) + seq![src@[i as int]] =~= old(out)@
                + src@.take(i + 1));
        }
        i = i + 1;
    }
    proof {
        assert(old(out)@ + src@.take(src@.len() as int) =~= old(out)@ + src@);
    }
}

/// Writes a full text value: tag, length, the text's bytes, terminator.
fn write_string_value(t: &str) -> (r: Vec<u8>)
    ensures
        r@ == enc_v1_string(t@),
{
    let bytes = latin1_bytes(t);
    proof {
        assert(bytes@ =~= text_bytes(t@));
    }
    let mut out: Vec<u8> = Vec::new();
    out.push(1);
    let lenf = encode_length(bytes.len());
    push_all(&mut out, lenf.as_slice());
    push_all(&mut out, bytes.as_slice());
    out.push(24);
    proof {
        assert(out@ =~= enc_v1_string(t@));
    }
    out
}

/// A prefix of writable values does not hold the first legacy value.
proof fn lemma_items_offender_skip(items: Seq<SpecValue>, i: int)
    requires
        0 <= i <= items.len(),
        forall|j: int| 0 <= j < i ==> representable_v1(#[trigger] items[j]),
    ensures
        v1_items_offender(items) == v1_items_offender(items.skip(i)),
    decreases i,
{
    if i > 0 {
        assert(items.drop_first() =~= items.skip(1));
        assert(forall|j: int|
            0 <= j < items.drop_first().len() ==> #[trigger] items.drop_first()[j] == items[j + 1]);
        lemma_items_offender_skip(items.drop_first(), i - 1);
        assert(items.drop_first().skip(i - 1) =~= items.skip(i));
    } else {
        assert(items.skip(0) =~= items);
    }
}

proof fn lemma_entries_offender_skip(entries: Seq<(Seq<char>, SpecValue)>, i: int)
    requires
        0 <= i <= entries.len(),
        forall|j: int| 0 <= j < i ==> representable_v1((#[trigger] entries[j]).1),
    ensures
        v1_entries_offender(entries) == v1_entries_offender(entries.skip(i)),
    decreases i,
{
    if i > 0 {
        assert(entries.drop_first() =~= entries.skip(1));
        assert(forall|j: int|
            0 <= j < entries.drop_first().len() ==> #[trigger] entries.drop_first()[j] == entries[j
                + 1]);
        lemma_entries_offender_skip(entries.drop_first(), i - 1);
        assert(entries.drop_first().skip(i - 1) =~= entries.skip(i));
    } else {
        assert(entries.skip(0) =~= entries);
    }
}

/// Writes the wire form of one value, or reports the first legacy value in
/// it, which this generation cannot represent.
#[verifier::loop_isolation(false)]
#[verifier::rlimit(100)]
pub fn serialize_xff_v1_value(v: &XffValue) -> (r: Result<Vec<u8>, NabuError>)
    ensures
        representable_v1(v@) ==> r is Ok && r->Ok_0@ == enc_v1_value(v@),
        !representable_v1(v@) ==> r is Err && r->Err_0@ == SpecError::UnsupportedValueForVersion(
            v1_offender(v@),
            1,
        ),
    decreases *v,
{
    match v {
        XffValue::Null => {
            let mut out: Vec<u8> = Vec::new();
            out.push(0);
            proof {
                assert(out@ =~= seq![0u8]);
            }
            Ok(out)
        },
        XffValue::Boolean(b) => {
            let mut out: Vec<u8> = Vec::new();
            if *b {
                out.push(16);
                proof {
                    assert(out@ =~= seq![16u8]);
                }
            } else {
                out.push(17);
                proof {
                    assert(out@ =~= seq![17u8]);
                }
            }
            Ok(out)
        },
        XffValue::String(st) => Ok(write_string_value(st.as_str())),
        XffValue::Number(n) => {
            let bytes = n.text_bytes_vec();
            let mut out: Vec<u8> = Vec::new();
            out.push(2);
            let lenf = encode_length(bytes.len());
            push_all(&mut out, lenf.as_slice());
            push_all(&mut out, bytes.as_slice());
            out.push(24);
            proof {
                assert(out@ =~= enc_v1_value(v@));
            }
            Ok(out)
        },
        XffValue::Data(d) => {
            let mut out: Vec<u8> = Vec::new();
            out.push(5);
            let lenf = encode_length(d.len);
            push_all(&mut out, lenf.as_slice());
            push_all(&mut out, d.data.as_slice());
            out.push(24);
            proof {
                assert(out@ =~= enc_v1_value(v@));
            }
            Ok(out)
        },
        XffValue::Array(a) => {
            let ghost itemsv = view_values(a.values@);
            proof {
                lemma_view_values(a.values@);
            }
            let mut payload: Vec<u8> = Vec::new();
            let mut i: usize = 0;
            proof {
                assert(itemsv.skip(0) =~= itemsv);
                assert(payload@ + enc_v1_items(itemsv) =~= enc_v1_items(itemsv));
            }
            while i < a.values.len()
                invariant
                    i <= a.values@.len(),
                    payload@ + enc_v1_items(itemsv.skip(i as int)) == enc_v1_items(itemsv),
                    forall|j: int| 0 <= j < i ==> representable_v1(#[trigger] itemsv[j]),
                decreases a.values@.len() - i,
            {
                let child = match serialize_xff_v1_value(&a.values[i]) {
                    Ok(c) => c,
                    Err(e) => {
                        proof {
                            lemma_items_offender_skip(itemsv, i as int);
                            assert(itemsv.skip(i as int)[0] == itemsv[i as int]);
                            assert(!representable_v1(itemsv[i as int]));
                        }
                        return Err(e);
                    },
                };
                proof {
                    let sk = itemsv.skip(i as int);
                    assert(sk[0] == itemsv[i as int]);
                    assert(sk.drop_first() =~= itemsv.skip(i + 1));
                    assert(enc_v1_items(sk) == enc_v1_value(itemsv[i as int]) + seq![30u8]
                        + enc_v1_items(itemsv.skip(i + 1)));
                }
                push_all(&mut payload, child.as_slice());
                payload.push(30);
                proof {
                    assert(payload@ + enc_v1_items(itemsv.skip(i + 1)) =~= enc_v1_items(itemsv));
                }
                i = i + 1;
            }
            proof {
                assert(itemsv.skip(itemsv.len() as int) =~= Seq::<SpecValue>::empty());
                assert(payload@ + Seq::<u8>::empty() =~= payload@);
                assert(payload@ == enc_v1_items(itemsv));
            }
            let mut out: Vec<u8> = Vec::new();
            out.push(3);
            let lenf = encode_length(payload.len());
            push_all(&mut out, lenf.as_slice());
            push_all(&mut out, payload.as_slice());
            out.push(24);
            proof {
                assert(out@ =~= enc_v1_value(v@));
            }
            Ok(out)
        },
        XffValue::Object(o) => {
            let ghost entriesv = view_pairs(o.pairs@);
            proof {
                lemma_view_pairs(o.pairs@);
            }
            let mut payload: Vec<u8> = Vec::new();
            let mut i: usize = 0;
            proof {
                assert(entriesv.skip(0) =~= entriesv);
                assert(payload@ + enc_v1_entries(entriesv) =~= enc_v1_entries(entriesv));
            }
            while i < o.pairs.len()
                invariant
                    i <= o.pairs@.len(),
                    payload@ + enc_v1_entries(entriesv.skip(i as int)) == enc_v1_entries(entriesv),
                    forall|j: int| 0 <= j < i ==> representable_v1((#[trigger] entriesv[j]).1),
                decreases o.pairs@.len() - i,
            {
                let (key, val) = &o.pairs[i];
                let child = match serialize_xff_v1_value(val) {
                    Ok(c) => c,
                    Err(e) => {
                        proof {
                            lemma_entries_offender_skip(entriesv, i as int);
                            assert(entriesv.skip(i as int)[0] == entriesv[i as int]);
                            assert(!representable_v1(entriesv[i as int].1));
                        }
                        return Err(e);
                    },
                };
                let keyenc = write_string_value(key.as_str());
                proof {
                    let sk = entriesv.skip(i as int);
                    assert(sk[0] == entriesv[i as int]);
                    assert(sk.drop_first() =~= entriesv.skip(i + 1));
                    assert(enc_v1_entries(sk) == seq![29u8] + enc_v1_string(entriesv[i as int].0)
                        + seq![31u8] + enc_v1_value(entriesv[i as int].1) + seq![29u8, 30u8]
                        + enc_v1_entries(entriesv.skip(i + 1)));
                }
                payload.push(29);
                push_all(&mut payload, keyenc.as_slice());
                payload.push(31);
                push_all(&mut payload, child.as_slice());
                payload.push(29);
                payload.push(30);
                proof {
                    assert(payload@ + enc_v1_entries(entriesv.skip(i + 1)) =~= enc_v1_entries(
                        entriesv,
                    ));
                }
                i = i + 1;
            }
            proof {
                assert(entriesv.skip(entriesv.len() as int) =~= Seq::<
                    (Seq<char>, SpecValue),
                >::empty());
                assert(payload@ + Seq::<u8>::empty() =~= payload@);
                assert(payload@ == enc_v1_entries(entriesv));
            }
            let mut out: Vec<u8> = Vec::new();
            out.push(4);
            let lenf = encode_length(payload.len());
            push_all(&mut out, lenf.as_slice());
            push_all(&mut out, payload.as_slice());
            out.push(24);
            proof {
                assert(out@ =~= enc_v1_value(v@));
            }
            Ok(out)
        },
        XffValue::CommandCharacter(_) => Err(
            NabuError::UnsupportedValueForVersion(clone_value(v), 1),
        ),
        XffValue::ArrayCmdChar(_) => Err(NabuError::UnsupportedValueForVersion(clone_value(v), 1)),
    }
}

/// Writes a whole file of this generation around its single root value.
pub fn serialize_xff_v1(data: Vec<XffValue>) -> (r: Result<Vec<u8>, NabuError>)
    requires
        data@.len() == 1,
    ensures
        representable_v1(data@[0]@) ==> r is Ok && r->Ok_0@ == enc_v1_file(data@[0]@),
        !representable_v1(data@[0]@) ==> r is Err && r->Err_0@
            == SpecError::UnsupportedValueForVersion(v1_offender(data@[0]@), 1),
{
    let body = match serialize_xff_v1_value(&data[0]) {
        Ok(b) => b,
        Err(e) => {
            return Err(e);
        },
    };
    let mut out: Vec<u8> = Vec::new();
    out.push(1);
    push_all(&mut out, body.as_slice());
    out.push(25);
    proof {
        if representable_v1(data@[0]@) {
            assert(out@ =~= enc_v1_file(data@[0]@));
        }
    }
    Ok(out)
}

/// Reads a whole file of this generation: the single root value between the
/// version byte and the end marker.
pub fn deserialize_xff_v1(s: &[u8]) -> (r: Result<XffValue, NabuError>)
    requires
        s@.len() >= 1,
    ensures
        match dec_v1_file(s@) {
            Ok(sv) => r is Ok && r->Ok_0@ == sv,
            Err(e) => r is Err && r->Err_0@ == e,
        },
{
    let mut pos: usize = 1;
    let root = match deserialize_xff_v1_value(s, &mut pos) {
        Ok(v) => v,
        Err(e) => {
            return Err(e);
        },
    };
    if pos >= s.len() {
        return Err(NabuError::Truncated(s.len()));
    }
    if s[pos] != 25 {
        return Err(NabuError::MissingMarker(MarkerKind::Em, pos));
    }
    Ok(root)
}

} // verus!
