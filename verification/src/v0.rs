//! The flat, control-character-framed generation.
//!
//! A file is `[0][value]*[EM]`: a flat sequence of values, each introduced by
//! a control byte. Text runs sit between `STX` and `ETX` and are re-read as
//! numbers when they parse as one; blobs sit between two `DLE` bytes behind a
//! fixed five-byte length; legacy command characters travel in `ESC`-framed
//! runs, a literal escape doubled; `EM` ends the file.

use vstd::prelude::*;
use crate::error::{MarkerKind, NabuError, SpecError};
use crate::length::{le_value, le_bytes, pow256};
use crate::numbers::{num_text, number_from_text};
use crate::text::{bytes_text, text_bytes, valid_text_byte};
use crate::value::cmd_char::{CommandCharacter, cmd_byte, cmd_of_byte, valid_cmd_byte};
use crate::value::array::Array;
use crate::value::data::Data;
use crate::value::num::number_from_bytes;
use crate::value::{SpecValue, XffValue, view_values, lemma_view_values, clone_value};
use crate::text::{latin1_bytes, latin1_string, text_byte_ok};
use crate::length::{push_le_bytes, read_le_bytes};
use crate::v1::{find_bad_text, lemma_find_bad_text_unique, lemma_tail_shift, lemma_tail_at, copy_range, push_all};

verus! {

/// A value of the legacy command-character kinds.
pub open spec fn is_cmd_value(v: SpecValue) -> bool {
    v is CommandCharacter || v is ArrayCmdChar
}

/// The run bytes of one command character: a literal escape is doubled.
pub open spec fn esc_char(c: CommandCharacter) -> Seq<u8> {
    if c is Escape {
        seq![27u8, 27u8]
    } else {
        seq![cmd_byte(c)]
    }
}

pub open spec fn esc_chars(cs: Seq<CommandCharacter>) -> Seq<u8>
    decreases cs.len(),
{
    if cs.len() == 0 {
        Seq::empty()
    } else {
        esc_char(cs[0]) + esc_chars(cs.drop_first())
    }
}

/// The run bytes of one command-character value.
pub open spec fn esc_payload(v: SpecValue) -> Seq<u8> {
    match v {
        SpecValue::CommandCharacter(c) => esc_char(c),
        SpecValue::ArrayCmdChar(cs) => esc_chars(cs),
        _ => Seq::empty(),
    }
}

/// The framed bytes of one scalar value.
pub open spec fn plain_bytes(v: SpecValue) -> Seq<u8> {
    match v {
        SpecValue::String(t) => seq![2u8] + text_bytes(t) + seq![3u8],
        SpecValue::Number(n) => seq![2u8] + num_text(n) + seq![3u8],
        SpecValue::Data(b, len) => seq![16u8] + le_bytes(len as nat, 5) + b + seq![16u8],
        _ => Seq::empty(),
    }
}

/// The wire form of a value sequence. `esc_open` records that the writer is
/// inside a command run whose closing escape byte is still owed: a further
/// command value extends the run, anything else first closes it.
pub open spec fn enc_v0_items(vs: Seq<SpecValue>, esc_open: bool) -> Seq<u8>
    decreases vs.len(),
{
    if vs.len() == 0 {
        if esc_open {
            seq![27u8]
        } else {
            Seq::empty()
        }
    } else if is_cmd_value(vs[0]) {
        (if esc_open {
            Seq::empty()
        } else {
            seq![27u8]
        }) + esc_payload(vs[0]) + enc_v0_items(vs.drop_first(), true)
    } else {
        (if esc_open {
            seq![27u8]
        } else {
            Seq::empty()
        }) + plain_bytes(vs[0]) + enc_v0_items(vs.drop_first(), false)
    }
}

/// A whole file of this generation.
pub open spec fn enc_v0_file(vs: Seq<SpecValue>) -> Seq<u8> {
    seq![0u8] + enc_v0_items(vs, false) + seq![25u8]
}

/// A value this generation can write: the scalar kinds and the legacy
/// command kinds; containers, booleans and null have no flat form.
pub open spec fn representable_v0(v: SpecValue) -> bool {
    match v {
        SpecValue::String(_) => true,
        SpecValue::Number(_) => true,
        SpecValue::Data(_, _) => true,
        SpecValue::CommandCharacter(_) => true,
        SpecValue::ArrayCmdChar(_) => true,
        _ => false,
    }
}

/// A value whose flat wire form reads back as itself. A text that parses as
/// a number would come back as that number; a command run comes back one
/// character at a time, so a run value has no reading of its own; a blob
/// longer than the five-byte length field can carry would be mangled.
pub open spec fn canonical_v0(v: SpecValue) -> bool {
    match v {
        SpecValue::String(t) => number_from_text(text_bytes(t)) is None,
        SpecValue::Number(n) => crate::numbers::canonical_number(n),
        SpecValue::Data(_, len) => len < 0x100_0000_0000,
        SpecValue::CommandCharacter(_) => true,
        _ => false,
    }
}

/// How a closed text run reads back: as the number it parses as, else as the
/// text itself — the documented legacy quirk of this generation.
pub open spec fn v0_text_value(text: Seq<u8>) -> SpecValue {
    match number_from_text(text) {
        Some(n) => SpecValue::Number(n),
        None => SpecValue::String(bytes_text(text)),
    }
}

/// What reading an escape run at `j` gives: the command characters of the
/// run and the position after its closing escape byte.
pub open spec fn dec_v0_run(s: Seq<u8>, j: int) -> Result<(Seq<SpecValue>, int), SpecError>
    decreases s.len() - j,
{
    if j < 0 || j >= s.len() {
        Err(SpecError::Truncated(s.len() as int))
    } else {
        let c = s[j];
        if c == 27 {
            if j + 1 < s.len() && s[j + 1] == 27 {
                match dec_v0_run(s, j + 2) {
                    Err(e) => Err(e),
                    Ok((rest, nx)) => Ok(
                        (seq![SpecValue::CommandCharacter(CommandCharacter::Escape)] + rest, nx),
                    ),
                }
            } else {
                Ok((Seq::empty(), j + 1))
            }
        } else if valid_cmd_byte(c) {
            match dec_v0_run(s, j + 1) {
                Err(e) => Err(e),
                Ok((rest, nx)) => Ok(
                    (seq![SpecValue::CommandCharacter(cmd_of_byte(c))] + rest, nx),
                ),
            }
        } else {
            Err(SpecError::InvalidByte(c, j, 0))
        }
    }
}

/// What reading values at `i` gives: the sequence up to the end marker, or
/// the failure.
pub open spec fn dec_v0_items(s: Seq<u8>, i: int) -> Result<Seq<SpecValue>, SpecError>
    decreases s.len() - i,
{
    if i < 0 || i >= s.len() {
        Err(SpecError::Truncated(s.len() as int))
    } else {
        let b = s[i];
        if b == 25 {
            Ok(Seq::empty())
        } else if b == 2 {
            let k = find_bad_text(s, i + 1, s.len() as int);
            if k >= s.len() {
                Err(SpecError::Truncated(s.len() as int))
            } else if s[k] != 3 {
                Err(SpecError::InvalidByte(s[k], k, 0))
            } else {
                let text = s.subrange(i + 1, k);
                let next = if k + 1 > i {
                    k + 1
                } else {
                    i + 1
                };
                match dec_v0_items(s, next) {
                    Err(e) => Err(e),
                    Ok(rest) => Ok(seq![v0_text_value(text)] + rest),
                }
            }
        } else if b == 16 {
            if i + 6 > s.len() {
                Err(SpecError::Truncated(s.len() as int))
            } else {
                let dl = le_value(s.subrange(i + 1, i + 6));
                if i + 6 + dl + 1 > s.len() {
                    Err(SpecError::Truncated(s.len() as int))
                } else if s[i + 6 + dl] != 16 {
                    Err(SpecError::MissingMarker(MarkerKind::Dle, i + 6 + dl))
                } else {
                    let data = s.subrange(i + 6, i + 6 + dl);
                    match dec_v0_items(s, i + 7 + dl) {
                        Err(e) => Err(e),
                        Ok(rest) => Ok(seq![SpecValue::Data(data, dl as int)] + rest),
                    }
                }
            }
        } else if b == 27 {
            match dec_v0_run(s, i + 1) {
                Err(e) => Err(e),
                Ok((cmds, nx)) => {
                    let next = if i < nx && nx <= s.len() {
                        nx
                    } else {
                        i + 1
                    };
                    match dec_v0_items(s, next) {
                        Err(e) => Err(e),
                        Ok(rest) => Ok(cmds + rest),
                    }
                },
            }
        } else {
            Err(SpecError::InvalidByte(b, i, 0))
        }
    }
}

/// What a whole file of this generation decodes to: the flat value sequence,
/// handed back as one array value.
pub open spec fn dec_v0_file(s: Seq<u8>) -> Result<SpecValue, SpecError> {
    match dec_v0_items(s, 1) {
        Err(e) => Err(e),
        Ok(vs) => Ok(SpecValue::Array(vs)),
    }
}

/// The command values at the front of the sequence.
pub open spec fn lead_cmds(vs: Seq<SpecValue>) -> Seq<SpecValue>
    decreases vs.len(),
{
    if vs.len() == 0 || !is_cmd_value(vs[0]) {
        Seq::empty()
    } else {
        seq![vs[0]] + lead_cmds(vs.drop_first())
    }
}

/// The sequence after its leading command values.
pub open spec fn after_cmds(vs: Seq<SpecValue>) -> Seq<SpecValue>
    decreases vs.len(),
{
    if vs.len() == 0 || !is_cmd_value(vs[0]) {
        vs
    } else {
        after_cmds(vs.drop_first())
    }
}

pub proof fn lemma_cmds_split(vs: Seq<SpecValue>)
    ensures
        lead_cmds(vs) + after_cmds(vs) =~= vs,
    decreases vs.len(),
{
    if vs.len() > 0 && is_cmd_value(vs[0]) {
        lemma_cmds_split(vs.drop_first());
        assert(seq![vs[0]] + (lead_cmds(vs.drop_first()) + after_cmds(vs.drop_first()))
            =~= seq![vs[0]] + vs.drop_first());
        assert(seq![vs[0]] + vs.drop_first() =~= vs);
    }
}

/// The open form of a sequence always takes at least one byte: the owed
/// closing escape, or a value's own framing.
pub proof fn lemma_enc_v0_open_nonempty(vs: Seq<SpecValue>)
    requires
        forall|q: int| 0 <= q < vs.len() ==> representable_v0(#[trigger] vs[q]),
    ensures
        enc_v0_items(vs, true).len() >= 1,
    decreases vs.len(),
{
    if vs.len() > 0 {
        if is_cmd_value(vs[0]) {
            assert(forall|q: int|
                0 <= q < vs.drop_first().len() ==> #[trigger] vs.drop_first()[q] == vs[q + 1]);
            lemma_enc_v0_open_nonempty(vs.drop_first());
        }
    }
}

/// Reading what the encoder wrote gives the values back when the end marker
/// follows, and reports truncation when it is missing: the round trip of the
/// flat generation, and its failure without the marker.
#[verifier::rlimit(100)]
pub proof fn lemma_dec_enc_v0_items(s: Seq<u8>, i: int, vs: Seq<SpecValue>, rest: Seq<u8>)
    requires
        forall|q: int|
            0 <= q < vs.len() ==> representable_v0(#[trigger] vs[q]) && canonical_v0(vs[q])
                && crate::value::wf_value(vs[q]),
        0 <= i,
        i + enc_v0_items(vs, false).len() + rest.len() == s.len(),
        s.subrange(i, s.len() as int) == enc_v0_items(vs, false) + rest,
        rest.len() == 0 || rest[0] == 25,
    ensures
        dec_v0_items(s, i) == (if rest.len() == 0 {
            Err::<Seq<SpecValue>, SpecError>(SpecError::Truncated(s.len() as int))
        } else {
            Ok::<Seq<SpecValue>, SpecError>(vs)
        }),
    decreases vs.len(), (if vs.len() > 0 && is_cmd_value(vs[0]) {
        2int
    } else {
        0int
    }),
{
    let p = enc_v0_items(vs, false);
    if vs.len() == 0 {
        assert(p =~= Seq::<u8>::empty());
        if rest.len() == 0 {
            assert(i >= s.len());
        } else {
            lemma_tail_at(s, i, rest, Seq::empty(), 0);
            assert(rest + Seq::<u8>::empty() =~= rest);
            assert(s.subrange(i, s.len() as int) == rest + Seq::<u8>::empty());
            assert(s[i] == 25);
            assert(vs =~= Seq::<SpecValue>::empty());
        }
    } else if is_cmd_value(vs[0]) {
        // an escape run opens here
        assert(p == seq![27u8] + esc_payload(vs[0]) + enc_v0_items(vs.drop_first(), true));
        assert(p == seq![27u8] + enc_v0_items(vs, true)) by {
            assert(enc_v0_items(vs, true) == Seq::<u8>::empty() + esc_payload(vs[0])
                + enc_v0_items(vs.drop_first(), true));
            assert(Seq::<u8>::empty() + esc_payload(vs[0]) =~= esc_payload(vs[0]));
            assert(seq![27u8] + enc_v0_items(vs, true) =~= seq![27u8] + esc_payload(vs[0])
                + enc_v0_items(vs.drop_first(), true));
        }
        let r1 = enc_v0_items(vs, true) + rest;
        assert(p + rest =~= seq![27u8] + r1);
        lemma_tail_at(s, i, seq![27u8], r1, 0);
        assert(s[i] == 27);
        lemma_tail_shift(s, i, seq![27u8], r1, 1);
        assert(seq![27u8].skip(1) =~= Seq::<u8>::empty());
        assert(Seq::<u8>::empty() + r1 =~= r1);
        assert(s.subrange(i + 1, s.len() as int) =~= enc_v0_items(vs, true) + rest);
        lemma_dec_enc_v0_open(s, i + 1, vs, rest);
        let nx = dec_v0_run(s, i + 1)->Ok_0.1;
        lemma_cmds_split(vs);
    } else {
        let pb = plain_bytes(vs[0]);
        let tailp = enc_v0_items(vs.drop_first(), false);
        assert(p == Seq::<u8>::empty() + pb + tailp);
        assert(Seq::<u8>::empty() + pb =~= pb);
        assert(p =~= pb + tailp);
        let r1 = tailp + rest;
        assert(p + rest =~= pb + r1);
        assert(s.subrange(i, s.len() as int) == pb + r1);
        assert(forall|q: int|
            0 <= q < vs.drop_first().len() ==> #[trigger] vs.drop_first()[q] == vs[q + 1]);
        match vs[0] {
            SpecValue::String(t) => {
                lemma_v0_plain_text(s, i, text_bytes(t), r1);
                let k = i + 1 + t.len();
                crate::text::lemma_text_bytes_text(t);
                assert(v0_text_value(text_bytes(t)) == vs[0]);
                lemma_tail_shift(s, i, pb, r1, pb.len() as int);
                assert(pb.skip(pb.len() as int) =~= Seq::<u8>::empty());
                assert(Seq::<u8>::empty() + r1 =~= r1);
                assert(s.subrange(k + 1, s.len() as int) =~= tailp + rest);
                lemma_dec_enc_v0_items(s, k + 1, vs.drop_first(), rest);
                if rest.len() > 0 {
                    assert(seq![vs[0]] + vs.drop_first() =~= vs);
                }
            },
            SpecValue::Number(n) => {
                crate::numbers::lemma_num_text_range(n);
                lemma_v0_plain_text(s, i, num_text(n), r1);
                let k = i + 1 + num_text(n).len();
                crate::numbers::lemma_number_round_trip(n);
                assert(v0_text_value(num_text(n)) == vs[0]);
                lemma_tail_shift(s, i, pb, r1, pb.len() as int);
                assert(pb.skip(pb.len() as int) =~= Seq::<u8>::empty());
                assert(Seq::<u8>::empty() + r1 =~= r1);
                assert(s.subrange(k + 1, s.len() as int) =~= tailp + rest);
                lemma_dec_enc_v0_items(s, k + 1, vs.drop_first(), rest);
                if rest.len() > 0 {
                    assert(seq![vs[0]] + vs.drop_first() =~= vs);
                }
            },
            SpecValue::Data(b, len) => {
                assert(len == b.len());
                assert(0 <= len < 0x100_0000_0000);
                assert(pb == seq![16u8] + le_bytes(len as nat, 5) + b + seq![16u8]);
                crate::length::lemma_le_bytes_len(len as nat, 5);
                assert(pb.len() == 6 + b.len() + 1);
                lemma_tail_at(s, i, pb + r1, Seq::empty(), 0);
                assert((pb + r1) + Seq::<u8>::empty() =~= pb + r1);
                assert(s.subrange(i, s.len() as int) == (pb + r1) + Seq::<u8>::empty());
                lemma_tail_shift(s, i, pb, r1, 0);
                assert(s[i] == pb[0]);
                assert(pb[0] == 16);
                assert(i + 6 <= s.len());
                // the five length bytes
                let field = s.subrange(i + 1, i + 6);
                assert(field =~= le_bytes(len as nat, 5)) by {
                    assert(forall|q: int|
                        0 <= q < 5 ==> #[trigger] field[q] == s[i + (1 + q)]);
                    assert(forall|q: int|
                        0 <= q < 5 ==> s[i + (1 + q)] == #[trigger] pb[1 + q]);
                    assert(forall|q: int|
                        0 <= q < 5 ==> #[trigger] pb[1 + q] == le_bytes(len as nat, 5)[q]);
                }
                assert(pow256(5) == 0x100_0000_0000) by {
                    reveal_with_fuel(pow256, 6);
                }
                crate::length::lemma_le_bytes_value(len as nat, 5);
                assert(le_value(field) == len);
                assert(i + 6 + len + 1 <= s.len());
                let data = s.subrange(i + 6, i + 6 + len);
                assert(data =~= b) by {
                    assert(forall|q: int|
                        0 <= q < b.len() ==> #[trigger] data[q] == s[i + (6 + q)]);
                    assert(forall|q: int|
                        0 <= q < b.len() ==> s[i + (6 + q)] == #[trigger] pb[6 + q]);
                    assert(forall|q: int|
                        0 <= q < b.len() ==> #[trigger] pb[6 + q] == b[q]);
                }
                assert(s[i + (6 + len)] == pb[6 + len]);
                assert(pb[6 + len] == 16);
                lemma_tail_shift(s, i, pb, r1, pb.len() as int);
                assert(pb.skip(pb.len() as int) =~= Seq::<u8>::empty());
                assert(Seq::<u8>::empty() + r1 =~= r1);
                assert(s.subrange(i + 7 + len, s.len() as int) =~= tailp + rest);
                lemma_dec_enc_v0_items(s, i + 7 + len, vs.drop_first(), rest);
                if rest.len() > 0 {
                    assert(seq![vs[0]] + vs.drop_first() =~= vs);
                }
            },
            _ => {
                assert(false);
            },
        }
    }
}

/// A text run framed between the start and end control bytes: the scan stops
/// exactly at the closing byte and hands the text back.
proof fn lemma_v0_plain_text(s: Seq<u8>, i: int, body: Seq<u8>, r1: Seq<u8>)
    requires
        0 <= i,
        i + 2 + body.len() + r1.len() == s.len(),
        s.subrange(i, s.len() as int) == (seq![2u8] + body + seq![3u8]) + r1,
        forall|q: int| 0 <= q < body.len() ==> valid_text_byte(#[trigger] body[q]),
    ensures
        s[i] == 2,
        find_bad_text(s, i + 1, s.len() as int) == i + 1 + body.len(),
        s[i + 1 + body.len()] == 3,
        s.subrange(i + 1, i + 1 + body.len()) =~= body,
{
    let pb = seq![2u8] + body + seq![3u8];
    lemma_tail_shift(s, i, pb, r1, 0);
    assert(s[i] == pb[0]);
    let k = i + 1 + body.len();
    assert forall|q: int| i + 1 <= q < k implies valid_text_byte(#[trigger] s[q]) by {
        let w = q - i;
        assert(s[i + w] == pb[w]);
        assert(pb[w] == body[w - 1]);
        assert(s[q] == s[i + w]);
    }
    assert(s[i + (1 + body.len())] == pb[(1 + body.len()) as int]);
    assert(pb[(1 + body.len()) as int] == 3);
    assert(!valid_text_byte(3));
    lemma_find_bad_text_unique(s, i + 1, s.len() as int, k);
    assert forall|q: int| 0 <= q < body.len() implies s.subrange(i + 1, k)[q] == body[q] by {
        assert(s.subrange(i + 1, k)[q] == s[i + 1 + q]);
        assert(s[i + (1 + q)] == pb[1 + q]);
        assert(pb[1 + q] == body[q]);
    }
}

/// Reading a run the encoder left open: the run's command characters come
/// back one by one, and reading continues after the closing escape byte with
/// whatever values follow.
#[verifier::rlimit(100)]
pub proof fn lemma_dec_enc_v0_open(s: Seq<u8>, j: int, vs: Seq<SpecValue>, rest: Seq<u8>)
    requires
        forall|q: int|
            0 <= q < vs.len() ==> representable_v0(#[trigger] vs[q]) && canonical_v0(vs[q])
                && crate::value::wf_value(vs[q]),
        0 <= j,
        j + enc_v0_items(vs, true).len() + rest.len() == s.len(),
        s.subrange(j, s.len() as int) == enc_v0_items(vs, true) + rest,
        rest.len() == 0 || rest[0] == 25,
    ensures
        dec_v0_run(s, j) is Ok,
        dec_v0_run(s, j)->Ok_0.0 == lead_cmds(vs),
        j < dec_v0_run(s, j)->Ok_0.1 <= s.len(),
        dec_v0_items(s, dec_v0_run(s, j)->Ok_0.1) == (if rest.len() == 0 {
            Err::<Seq<SpecValue>, SpecError>(SpecError::Truncated(s.len() as int))
        } else {
            Ok::<Seq<SpecValue>, SpecError>(after_cmds(vs))
        }),
    decreases vs.len(), 1int,
{
    let p = enc_v0_items(vs, true);
    if vs.len() == 0 {
        assert(p =~= seq![27u8]);
        lemma_tail_at(s, j, seq![27u8], rest, 0);
        assert(s[j] == 27);
        if rest.len() == 0 {
            assert(j + 1 >= s.len());
            assert(dec_v0_run(s, j) == Ok::<(Seq<SpecValue>, int), SpecError>(
                (Seq::empty(), j + 1),
            ));
        } else {
            lemma_tail_at(s, j, seq![27u8] + rest, Seq::empty(), 1);
            assert((seq![27u8] + rest) + Seq::<u8>::empty() =~= seq![27u8] + rest);
            assert(s.subrange(j, s.len() as int) == (seq![27u8] + rest) + Seq::<u8>::empty());
            assert(s[j + 1] == rest[0]);
            assert(s[j + 1] == 25);
            assert(dec_v0_run(s, j) == Ok::<(Seq<SpecValue>, int), SpecError>(
                (Seq::empty(), j + 1),
            ));
        }
        assert(lead_cmds(vs) =~= Seq::<SpecValue>::empty());
        assert(after_cmds(vs) =~= Seq::<SpecValue>::empty());
    } else if is_cmd_value(vs[0]) {
        let tailp = enc_v0_items(vs.drop_first(), true);
        assert(p == Seq::<u8>::empty() + esc_payload(vs[0]) + tailp);
        assert(Seq::<u8>::empty() + esc_payload(vs[0]) =~= esc_payload(vs[0]));
        assert(p =~= esc_payload(vs[0]) + tailp);
        assert(forall|q: int|
            0 <= q < vs.drop_first().len() ==> #[trigger] vs.drop_first()[q] == vs[q + 1]);
        match vs[0] {
            SpecValue::CommandCharacter(c) => {
                let ec = esc_char(c);
                assert(p + rest =~= ec + (tailp + rest));
                lemma_tail_shift(s, j, ec, tailp + rest, ec.len() as int);
                assert(ec.skip(ec.len() as int) =~= Seq::<u8>::empty());
                assert(Seq::<u8>::empty() + (tailp + rest) =~= tailp + rest);
                if c is Escape {
                    lemma_tail_at(s, j, ec, tailp + rest, 0);
                    lemma_tail_at(s, j, ec, tailp + rest, 1);
                    assert(s[j] == 27);
                    assert(s[j + 1] == 27);
                    assert(s.subrange(j + 2, s.len() as int) =~= tailp + rest);
                    lemma_dec_enc_v0_open(s, j + 2, vs.drop_first(), rest);
                    assert(dec_v0_run(s, j)->Ok_0.0 =~= seq![vs[0]] + dec_v0_run(
                        s,
                        j + 2,
                    )->Ok_0.0);
                    assert(lead_cmds(vs) == seq![vs[0]] + lead_cmds(vs.drop_first()));
                } else {
                    lemma_tail_at(s, j, ec, tailp + rest, 0);
                    assert(s[j] == cmd_byte(c));
                    crate::value::cmd_char::lemma_cmd_byte_round_trip(c);
                    assert(s[j] != 27);
                    assert(s.subrange(j + 1, s.len() as int) =~= tailp + rest);
                    lemma_dec_enc_v0_open(s, j + 1, vs.drop_first(), rest);
                    assert(dec_v0_run(s, j)->Ok_0.0 =~= seq![vs[0]] + dec_v0_run(
                        s,
                        j + 1,
                    )->Ok_0.0);
                    assert(lead_cmds(vs) == seq![vs[0]] + lead_cmds(vs.drop_first()));
                }
            },
            SpecValue::ArrayCmdChar(_) => {
                // a run value is never canonical
                assert(!canonical_v0(vs[0]));
                assert(false);
            },
            _ => {
                assert(false);
            },
        }
    } else {
        // the owed escape byte closes the run, then a framed value follows
        let pb = plain_bytes(vs[0]);
        let tailp = enc_v0_items(vs.drop_first(), false);
        assert(p == seq![27u8] + pb + tailp);
        assert(pb.len() >= 1 && (pb[0] == 2 || pb[0] == 16)) by {
            match vs[0] {
                SpecValue::String(t) => {},
                SpecValue::Number(n) => {},
                SpecValue::Data(b, len) => {
                    crate::length::lemma_le_bytes_len(len as nat, 5);
                },
                _ => {
                    assert(false);
                },
            }
        }
        let r2 = pb + tailp + rest;
        assert(p + rest =~= seq![27u8] + (pb + tailp + rest));
        lemma_tail_at(s, j, seq![27u8], r2, 0);
        assert(s[j] == 27);
        lemma_tail_shift(s, j, seq![27u8], r2, 1);
        assert(seq![27u8].skip(1) =~= Seq::<u8>::empty());
        assert(Seq::<u8>::empty() + r2 =~= r2);
        assert(s.subrange(j + 1, s.len() as int) =~= r2);
        assert(r2 =~= pb + (tailp + rest));
        lemma_tail_at(s, j + 1, pb, tailp + rest, 0);
        assert(s[j + 1] == pb[0]);
        assert(s[j + 1] != 27);
        assert(j + 1 < s.len());
        assert(dec_v0_run(s, j) == Ok::<(Seq<SpecValue>, int), SpecError>(
            (Seq::empty(), j + 1),
        ));
        assert(lead_cmds(vs) =~= Seq::<SpecValue>::empty());
        assert(after_cmds(vs) == vs);
        assert(enc_v0_items(vs, false) =~= pb + tailp) by {
            assert(enc_v0_items(vs, false) == Seq::<u8>::empty() + pb + tailp);
            assert(Seq::<u8>::empty() + pb =~= pb);
        }
        assert(s.subrange(j + 1, s.len() as int) == enc_v0_items(vs, false) + rest) by {
            assert(r2 =~= (pb + tailp) + rest);
            assert(s.subrange(j + 1, s.len() as int) =~= (pb + tailp) + rest);
        }
        lemma_dec_enc_v0_items(s, j + 1, vs, rest);
    }
}

/// Every value an escape run hands back is a command character, which is
/// well formed as it stands.
pub proof fn lemma_dec_v0_run_wf(s: Seq<u8>, j: int)
    ensures
        dec_v0_run(s, j) is Ok ==> forall|q: int|
            0 <= q < dec_v0_run(s, j)->Ok_0.0.len() ==> crate::value::wf_value(
                #[trigger] dec_v0_run(s, j)->Ok_0.0[q],
            ) && (#[trigger] dec_v0_run(s, j)->Ok_0.0[q]) is CommandCharacter,
    decreases s.len() - j,
{
    if 0 <= j < s.len() {
        let c = s[j];
        if c == 27 {
            if j + 1 < s.len() && s[j + 1] == 27 {
                lemma_dec_v0_run_wf(s, j + 2);
                if let Ok((rest, _)) = dec_v0_run(s, j + 2) {
                    let whole = seq![
                        SpecValue::CommandCharacter(CommandCharacter::Escape),
                    ] + rest;
                    assert(forall|q: int|
                        0 <= q < rest.len() ==> whole[q + 1] == #[trigger] rest[q]);
                    assert(whole[0] == SpecValue::CommandCharacter(CommandCharacter::Escape));
                }
            }
        } else if valid_cmd_byte(c) {
            lemma_dec_v0_run_wf(s, j + 1);
            if let Ok((rest, _)) = dec_v0_run(s, j + 1) {
                let whole = seq![SpecValue::CommandCharacter(cmd_of_byte(c))] + rest;
                assert(forall|q: int| 0 <= q < rest.len() ==> whole[q + 1] == #[trigger] rest[q]);
                assert(whole[0] == SpecValue::CommandCharacter(cmd_of_byte(c)));
            }
        }
    }
}

/// Every value the flat decoder hands back is well formed.
pub proof fn lemma_dec_v0_items_wf(s: Seq<u8>, i: int)
    ensures
        dec_v0_items(s, i) is Ok ==> crate::value::wf_values(dec_v0_items(s, i)->Ok_0),
    decreases s.len() - i,
{
    if 0 <= i < s.len() {
        let b = s[i];
        if b == 2 {
            let k = find_bad_text(s, i + 1, s.len() as int);
            if k < s.len() && s[k] == 3 {
                let text = s.subrange(i + 1, k);
                crate::v1::lemma_find_bad_text(s, i + 1, s.len() as int);
                assert forall|q: int| 0 <= q < text.len() implies valid_text_byte(
                    #[trigger] text[q],
                ) by {
                    assert(text[q] == s[i + 1 + q]);
                }
                crate::numbers::lemma_number_from_text_wf(text);
                crate::text::lemma_valid_bytes_valid_text(text);
                let next = if k + 1 > i {
                    k + 1
                } else {
                    i + 1
                };
                lemma_dec_v0_items_wf(s, next);
                if let Ok(rest) = dec_v0_items(s, next) {
                    let whole = seq![v0_text_value(text)] + rest;
                    assert(forall|q: int|
                        0 <= q < rest.len() ==> whole[q + 1] == #[trigger] rest[q]);
                    assert(whole[0] == v0_text_value(text));
                }
            }
        } else if b == 16 {
            if i + 6 <= s.len() {
                let dl = le_value(s.subrange(i + 1, i + 6));
                if i + 6 + dl + 1 <= s.len() && s[i + 6 + dl] == 16 {
                    let data = s.subrange(i + 6, i + 6 + dl);
                    lemma_dec_v0_items_wf(s, i + 7 + dl);
                    if let Ok(rest) = dec_v0_items(s, i + 7 + dl) {
                        let whole = seq![SpecValue::Data(data, dl as int)] + rest;
                        assert(forall|q: int|
                            0 <= q < rest.len() ==> whole[q + 1] == #[trigger] rest[q]);
                        assert(whole[0] == SpecValue::Data(data, dl as int));
                    }
                }
            }
        } else if b == 27 {
            lemma_dec_v0_run_wf(s, i + 1);
            if let Ok((cmds, nx)) = dec_v0_run(s, i + 1) {
                let next = if i < nx && nx <= s.len() {
                    nx
                } else {
                    i + 1
                };
                lemma_dec_v0_items_wf(s, next);
                if let Ok(rest) = dec_v0_items(s, next) {
                    let whole = cmds + rest;
                    assert(forall|q: int|
                        0 <= q < rest.len() ==> whole[q + cmds.len()] == #[trigger] rest[q]);
                    assert(forall|q: int|
                        0 <= q < cmds.len() ==> #[trigger] whole[q] == cmds[q]);
                }
            }
        }
    }
}

/// The first value the flat generation cannot write, in writing order.
pub open spec fn v0_offender(vs: Seq<SpecValue>) -> SpecValue
    decreases vs.len(),
{
    if vs.len() == 0 {
        SpecValue::Null
    } else if !representable_v0(vs[0]) {
        vs[0]
    } else {
        v0_offender(vs.drop_first())
    }
}

proof fn lemma_v0_offender_skip(vs: Seq<SpecValue>, i: int)
    requires
        0 <= i <= vs.len(),
        forall|j: int| 0 <= j < i ==> representable_v0(#[trigger] vs[j]),
    ensures
        v0_offender(vs) == v0_offender(vs.skip(i)),
    decreases i,
{
    if i > 0 {
        assert(vs.drop_first() =~= vs.skip(1));
        assert(forall|j: int|
            0 <= j < vs.drop_first().len() ==> #[trigger] vs.drop_first()[j] == vs[j + 1]);
        lemma_v0_offender_skip(vs.drop_first(), i - 1);
        assert(vs.drop_first().skip(i - 1) =~= vs.skip(i));
    } else {
        assert(vs.skip(0) =~= vs);
    }
}

/// Writes a whole file of the flat generation, or reports the first value it
/// cannot carry.
#[verifier::loop_isolation(false)]
#[verifier::rlimit(100)]
pub fn serialize_xff_v0(data: Vec<XffValue>) -> (r: Result<Vec<u8>, NabuError>)
    ensures
        (forall|q: int| 0 <= q < data@.len() ==> representable_v0(crate::value::view_value(#[trigger] data@[q])))
            ==> r is Ok && r->Ok_0@ == enc_v0_file(view_values(data@)),
        !(forall|q: int| 0 <= q < data@.len() ==> representable_v0(crate::value::view_value(#[trigger] data@[q])))
            ==> r is Err && r->Err_0@ == SpecError::UnsupportedValueForVersion(
            v0_offender(view_values(data@)),
            0,
        ),
{
    let ghost vsv = view_values(data@);
    proof {
        lemma_view_values(data@);
    }
    let mut out: Vec<u8> = Vec::new();
    out.push(0);
    let mut esc_open: bool = false;
    let mut i: usize = 0;
    proof {
        assert(vsv.skip(0) =~= vsv);
        assert(out@ =~= seq![0u8]);
        assert(out@ + enc_v0_items(vsv, false) =~= seq![0u8] + enc_v0_items(vsv, false));
    }
    while i < data.len()
        invariant
            i <= data@.len(),
            out@ + enc_v0_items(vsv.skip(i as int), esc_open) == seq![0u8] + enc_v0_items(
                vsv,
                false,
            ),
            forall|j: int| 0 <= j < i ==> representable_v0(#[trigger] vsv[j]),
        decreases data@.len() - i,
    {
        let ghost sk = vsv.skip(i as int);
        proof {
            assert(sk[0] == vsv[i as int]);
            assert(sk.drop_first() =~= vsv.skip(i + 1));
        }
        match &data[i] {
            XffValue::String(st) => {
                if esc_open {
                    out.push(27);
                    esc_open = false;
                }
                out.push(2);
                let bytes = latin1_bytes(st.as_str());
                proof {
                    assert(bytes@ =~= text_bytes(st@));
                }
                push_all(&mut out, bytes.as_slice());
                out.push(3);
                proof {
                    assert(out@ + enc_v0_items(vsv.skip(i + 1), false) =~= seq![0u8]
                        + enc_v0_items(vsv, false));
                }
            },
            XffValue::Number(n) => {
                if esc_open {
                    out.push(27);
                    esc_open = false;
                }
                out.push(2);
                let bytes = n.text_bytes_vec();
                push_all(&mut out, bytes.as_slice());
                out.push(3);
                proof {
                    assert(out@ + enc_v0_items(vsv.skip(i + 1), false) =~= seq![0u8]
                        + enc_v0_items(vsv, false));
                }
            },
            XffValue::Data(d) => {
                if esc_open {
                    out.push(27);
                    esc_open = false;
                }
                out.push(16);
                push_le_bytes(d.len as u64, 5, &mut out);
                push_all(&mut out, d.data.as_slice());
                out.push(16);
                proof {
                    assert((d.len as u64) as nat == (d.len as int) as nat);
                    assert(out@ + enc_v0_items(vsv.skip(i + 1), false) =~= seq![0u8]
                        + enc_v0_items(vsv, false));
                }
            },
            XffValue::CommandCharacter(c) => {
                if !esc_open {
                    out.push(27);
                }
                if matches!(c, CommandCharacter::Escape) {
                    out.push(27);
                    out.push(27);
                } else {
                    proof {
                        crate::value::cmd_char::lemma_cmd_byte_round_trip(*c);
                    }
                    out.push(c.as_u8());
                }
                esc_open = true;
                proof {
                    assert(out@ + enc_v0_items(vsv.skip(i + 1), true) =~= seq![0u8]
                        + enc_v0_items(vsv, false));
                }
            },
            XffValue::ArrayCmdChar(cs) => {
                if !esc_open {
                    out.push(27);
                }
                let mut w: usize = 0;
                proof {
                    assert(cs@.skip(0) =~= cs@);
                }
                while w < cs.len()
                    invariant
                        w <= cs@.len(),
                        out@ + esc_chars(cs@.skip(w as int)) + enc_v0_items(
                            vsv.skip(i + 1),
                            true,
                        ) == seq![0u8] + enc_v0_items(vsv, false),
                    decreases cs@.len() - w,
                {
                    proof {
                        assert(cs@.skip(w as int)[0] == cs@[w as int]);
                        assert(cs@.skip(w as int).drop_first() =~= cs@.skip(w + 1));
                    }
                    let ch = cs[w];
                    if matches!(ch, CommandCharacter::Escape) {
                        out.push(27);
                        out.push(27);
                    } else {
                        proof {
                            crate::value::cmd_char::lemma_cmd_byte_round_trip(ch);
                        }
                        out.push(ch.as_u8());
                    }
                    proof {
                        assert(out@ + esc_chars(cs@.skip(w + 1)) + enc_v0_items(
                            vsv.skip(i + 1),
                            true,
                        ) =~= seq![0u8] + enc_v0_items(vsv, false));
                    }
                    w = w + 1;
                }
                esc_open = true;
                proof {
                    assert(esc_chars(cs@.skip(cs@.len() as int)) =~= Seq::<u8>::empty());
                    assert(out@ + Seq::<u8>::empty() + enc_v0_items(vsv.skip(i + 1), true)
                        =~= out@ + enc_v0_items(vsv.skip(i + 1), true));
                }
            },
            _ => {
                proof {
                    lemma_v0_offender_skip(vsv, i as int);
                    assert(!representable_v0(vsv[i as int]));
                }
                return Err(NabuError::UnsupportedValueForVersion(clone_value(&data[i]), 0));
            },
        }
        i = i + 1;
    }
    proof {
        assert(vsv.skip(vsv.len() as int) =~= Seq::<SpecValue>::empty());
    }
    if esc_open {
        out.push(27);
    }
    out.push(25);
    proof {
        assert(out@ =~= enc_v0_file(vsv));
    }
    Ok(out)
}

/// Reads a whole file of the flat generation: the value sequence up to the
/// end marker, handed back as one array value.
#[verifier::loop_isolation(false)]
#[verifier::rlimit(100)]
pub fn deserialize_xff_v0(s: &[u8]) -> (r: Result<XffValue, NabuError>)
    requires
        s@.len() >= 1,
    ensures
        match dec_v0_file(s@) {
            Ok(sv) => r is Ok && r->Ok_0@ == sv,
            Err(e) => r is Err && r->Err_0@ == e,
        },
{
    let ghost full = dec_v0_items(s@, 1);
    let mut out: Vec<XffValue> = Vec::new();
    let mut pos: usize = 1;
    proof {
        lemma_view_values(out@);
        assert(view_values(out@) =~= Seq::<SpecValue>::empty());
        assert(Seq::<SpecValue>::empty() + full->Ok_0 =~= full->Ok_0);
    }
    loop
        invariant
            1 <= pos <= s@.len() + 1,
            match dec_v0_items(s@, pos as int) {
                Ok(rest) => full == Ok::<Seq<SpecValue>, SpecError>(view_values(out@) + rest),
                Err(e) => full == Err::<Seq<SpecValue>, SpecError>(e),
            },
        decreases s@.len() + 1 - pos,
    {
        if pos >= s.len() {
            return Err(NabuError::Truncated(s.len()));
        }
        let b = s[pos];
        if b == 25 {
            proof {
                assert(dec_v0_items(s@, pos as int) == Ok::<Seq<SpecValue>, SpecError>(
                    Seq::empty(),
                ));
                assert(view_values(out@) + Seq::<SpecValue>::empty() =~= view_values(out@));
            }
            return Ok(XffValue::Array(Array { values: out }));
        }
        if b == 2 {
            let cur = pos;
            let ghost views_old = view_values(out@);
            let mut q: usize = pos + 1;
            while q < s.len() && text_byte_ok(s[q])
                invariant
                    pos + 1 <= q <= s@.len(),
                    forall|w: int| pos + 1 <= w < q ==> valid_text_byte(#[trigger] s@[w]),
                decreases s@.len() - q,
            {
                q = q + 1;
            }
            proof {
                lemma_find_bad_text_unique(s@, pos + 1, s@.len() as int, q as int);
            }
            if q >= s.len() {
                return Err(NabuError::Truncated(s.len()));
            }
            if s[q] != 3 {
                return Err(NabuError::InvalidByte(s[q], q, 0));
            }
            let text = copy_range(s, pos + 1, q);
            let value = match number_from_bytes(text.as_slice()) {
                Some(n) => XffValue::Number(n),
                None => {
                    let st = latin1_string(text.as_slice());
                    proof {
                        assert(st@ =~= bytes_text(text@));
                    }
                    XffValue::String(st)
                },
            };
            proof {
                assert(value@ == v0_text_value(s@.subrange(cur + 1, q as int)));
                lemma_view_values(out@);
                lemma_view_values(out@.push(value));
                assert(view_values(out@.push(value)) =~= views_old.push(value@));
            }
            out.push(value);
            pos = q + 1;
            proof {
                let step = dec_v0_items(s@, cur as int);
                assert(step == (match dec_v0_items(s@, pos as int) {
                    Err(e) => Err::<Seq<SpecValue>, SpecError>(e),
                    Ok(rest) => Ok::<Seq<SpecValue>, SpecError>(seq![value@] + rest),
                }));
                match dec_v0_items(s@, pos as int) {
                    Err(e) => {},
                    Ok(rest) => {
                        assert(views_old + (seq![value@] + rest) =~= views_old.push(value@)
                            + rest);
                    },
                }
            }
        } else if b == 16 {
            let cur = pos;
            let ghost views_old = view_values(out@);
            if s.len() - pos < 6 {
                return Err(NabuError::Truncated(s.len()));
            }
            let dl = read_le_bytes(s, pos + 1, 5);
            proof {
                assert(s@.subrange(cur + 1, cur + 1 + 5) =~= s@.subrange(cur + 1, cur + 6));
            }
            let rem = s.len() - (pos + 6);
            if dl >= rem as u64 {
                return Err(NabuError::Truncated(s.len()));
            }
            let dlu = dl as usize;
            if s[pos + 6 + dlu] != 16 {
                return Err(NabuError::MissingMarker(MarkerKind::Dle, pos + 6 + dlu));
            }
            let bytes = copy_range(s, pos + 6, pos + 6 + dlu);
            let value = XffValue::Data(Data { data: bytes, len: dlu });
            proof {
                lemma_view_values(out@);
                lemma_view_values(out@.push(value));
                assert(view_values(out@.push(value)) =~= views_old.push(value@));
            }
            out.push(value);
            pos = pos + 7 + dlu;
            proof {
                let step = dec_v0_items(s@, cur as int);
                assert(step == (match dec_v0_items(s@, pos as int) {
                    Err(e) => Err::<Seq<SpecValue>, SpecError>(e),
                    Ok(rest) => Ok::<Seq<SpecValue>, SpecError>(seq![value@] + rest),
                }));
                match dec_v0_items(s@, pos as int) {
                    Err(e) => {},
                    Ok(rest) => {
                        assert(views_old + (seq![value@] + rest) =~= views_old.push(value@)
                            + rest);
                    },
                }
            }
        } else if b == 27 {
            let cur = pos;
            let ghost views_entry = view_values(out@);
            let ghost runfull = dec_v0_run(s@, cur + 1);
            let mut rpos: usize = pos + 1;
            let ghost mut coll: Seq<SpecValue> = Seq::empty();
            let mut run_done: bool = false;
            proof {
                assert(Seq::<SpecValue>::empty() + runfull->Ok_0.0 =~= runfull->Ok_0.0);
            }
            while !run_done
                invariant
                    cur + 1 <= rpos <= s@.len() + 1,
                    view_values(out@) == views_entry + coll,
                    !run_done ==> match dec_v0_run(s@, rpos as int) {
                        Ok((cs, nx)) => runfull == Ok::<(Seq<SpecValue>, int), SpecError>(
                            (coll + cs, nx),
                        ),
                        Err(e) => runfull == Err::<(Seq<SpecValue>, int), SpecError>(e),
                    },
                    run_done ==> runfull is Ok && coll == runfull->Ok_0.0 && rpos as int
                        == runfull->Ok_0.1 && cur + 1 < rpos <= s@.len(),
                decreases 2 * (s@.len() + 1 - rpos) + (if run_done {
                    0int
                } else {
                    1int
                }),
            {
                if rpos >= s.len() {
                    return Err(NabuError::Truncated(s.len()));
                }
                let c = s[rpos];
                if c == 27 {
                    if rpos + 1 < s.len() && s[rpos + 1] == 27 {
                        let value = XffValue::CommandCharacter(CommandCharacter::Escape);
                        proof {
                            lemma_view_values(out@);
                            lemma_view_values(out@.push(value));
                            assert(view_values(out@.push(value)) =~= (views_entry + coll).push(
                                value@,
                            ));
                            assert((views_entry + coll).push(value@) =~= views_entry + coll.push(
                                value@,
                            ));
                        }
                        out.push(value);
                        let ghost rold = rpos as int;
                        rpos = rpos + 2;
                        proof {
                            let step = dec_v0_run(s@, rold);
                            assert(step == (match dec_v0_run(s@, rold + 2) {
                                Err(e) => Err::<(Seq<SpecValue>, int), SpecError>(e),
                                Ok((rest, nx)) => Ok::<(Seq<SpecValue>, int), SpecError>(
                                    (seq![value@] + rest, nx),
                                ),
                            }));
                            match dec_v0_run(s@, rpos as int) {
                                Err(e) => {},
                                Ok((cs, nx)) => {
                                    assert(coll + (seq![value@] + cs) =~= coll.push(value@) + cs);
                                },
                            }
                            coll = coll.push(value@);
                        }
                    } else {
                        proof {
                            assert(dec_v0_run(s@, rpos as int) == Ok::<
                                (Seq<SpecValue>, int),
                                SpecError,
                            >((Seq::empty(), rpos + 1)));
                            assert(coll + Seq::<SpecValue>::empty() =~= coll);
                        }
                        rpos = rpos + 1;
                        run_done = true;
                    }
                } else {
                    match CommandCharacter::from_u8_checked(c) {
                        Some(cc) => {
                            let value = XffValue::CommandCharacter(cc);
                            proof {
                                lemma_view_values(out@);
                                lemma_view_values(out@.push(value));
                                assert(view_values(out@.push(value)) =~= (views_entry
                                    + coll).push(value@));
                                assert((views_entry + coll).push(value@) =~= views_entry
                                    + coll.push(value@));
                            }
                            out.push(value);
                            let ghost rold = rpos as int;
                            rpos = rpos + 1;
                            proof {
                                let step = dec_v0_run(s@, rold);
                                assert(step == (match dec_v0_run(s@, rold + 1) {
                                    Err(e) => Err::<(Seq<SpecValue>, int), SpecError>(e),
                                    Ok((rest, nx)) => Ok::<(Seq<SpecValue>, int), SpecError>(
                                        (seq![value@] + rest, nx),
                                    ),
                                }));
                                match dec_v0_run(s@, rpos as int) {
                                    Err(e) => {},
                                    Ok((cs, nx)) => {
                                        assert(coll + (seq![value@] + cs) =~= coll.push(value@)
                                            + cs);
                                    },
                                }
                                coll = coll.push(value@);
                            }
                        },
                        None => {
                            return Err(NabuError::InvalidByte(c, rpos, 0));
                        },
                    }
                }
            }
            pos = rpos;
            proof {
                let step = dec_v0_items(s@, cur as int);
                assert(step == (match dec_v0_items(s@, pos as int) {
                    Err(e) => Err::<Seq<SpecValue>, SpecError>(e),
                    Ok(rest) => Ok::<Seq<SpecValue>, SpecError>(coll + rest),
                }));
                match dec_v0_items(s@, pos as int) {
                    Err(e) => {},
                    Ok(rest) => {
                        assert(views_entry + (coll + rest) =~= (views_entry + coll) + rest);
                    },
                }
            }
        } else {
            return Err(NabuError::InvalidByte(b, pos, 0));
        }
    }
}

} // verus!
