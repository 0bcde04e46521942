//! The variable-width length fields of the recursive generation.
//!
//! A length is written as one descriptor byte `n` between 1 and 8 — the
//! fewest bytes the value fits in — followed by exactly `n` little-endian
//! bytes. A descriptor of 0 or above 8 is malformed.

use vstd::prelude::*;
use crate::error::{NabuError, SpecError};

verus! {

/// 256 to the `n`.
pub open spec fn pow256(n: nat) -> nat
    decreases n,
{
    if n == 0 {
        1
    } else {
        256 * pow256((n - 1) as nat)
    }
}

/// The value of little-endian bytes.
pub open spec fn le_value(b: Seq<u8>) -> nat
    decreases b.len(),
{
    if b.len() == 0 {
        0
    } else {
        (b[0] + 256 * le_value(b.drop_first())) as nat
    }
}

pub proof fn lemma_pow256_pos(n: nat)
    ensures
        pow256(n) >= 1,
    decreases n,
{
    if n > 0 {
        lemma_pow256_pos((n - 1) as nat);
    }
}

pub proof fn lemma_pow256_mono(a: nat, b: nat)
    requires
        a <= b,
    ensures
        pow256(a) <= pow256(b),
    decreases b,
{
    if a < b {
        lemma_pow256_mono(a, (b - 1) as nat);
        lemma_pow256_pos((b - 1) as nat);
    }
}

/// Little-endian bytes never reach 256 to their count.
pub proof fn lemma_le_value_bound(b: Seq<u8>)
    ensures
        le_value(b) < pow256(b.len()),
    decreases b.len(),
{
    if b.len() > 0 {
        lemma_le_value_bound(b.drop_first());
    }
}

/// The fewest little-endian bytes the value fits in, capped at the eight the
/// format allows.
pub open spec fn min_len_bytes(len: nat) -> nat {
    if len <= 0xFF {
        1
    } else if len <= 0xFFFF {
        2
    } else if len <= 0xFF_FFFF {
        3
    } else if len <= 0xFFFF_FFFF {
        4
    } else if len <= 0xFF_FFFF_FFFF {
        5
    } else if len <= 0xFFFF_FFFF_FFFF {
        6
    } else if len <= 0xFF_FFFF_FFFF_FFFF {
        7
    } else {
        8
    }
}

/// The value split into `n` little-endian bytes.
pub open spec fn le_bytes(len: nat, n: nat) -> Seq<u8>
    decreases n,
{
    if n == 0 {
        Seq::empty()
    } else {
        seq![(len % 256) as u8] + le_bytes(len / 256, (n - 1) as nat)
    }
}

/// The wire form of a length: descriptor byte, then the bytes it counts.
pub open spec fn enc_len(len: nat) -> Seq<u8> {
    seq![min_len_bytes(len) as u8] + le_bytes(len, min_len_bytes(len))
}

pub proof fn lemma_le_bytes_len(len: nat, n: nat)
    ensures
        le_bytes(len, n).len() == n,
    decreases n,
{
    if n > 0 {
        lemma_le_bytes_len(len / 256, (n - 1) as nat);
    }
}

/// Splitting a value that fits into its bytes and reading them back is the
/// identity.
pub proof fn lemma_le_bytes_value(len: nat, n: nat)
    requires
        len < pow256(n),
    ensures
        le_value(le_bytes(len, n)) == len,
    decreases n,
{
    if n > 0 {
        assert(len / 256 < pow256((n - 1) as nat)) by (nonlinear_arith)
            requires
                len < pow256(n),
                pow256(n) == 256 * pow256((n - 1) as nat),
        ;
        lemma_le_bytes_value(len / 256, (n - 1) as nat);
        let b = le_bytes(len, n);
        assert(b.drop_first() =~= le_bytes(len / 256, (n - 1) as nat));
        assert(b[0] == len % 256);
    }
}

/// Every value fits in eight bytes, so the minimal count is within range.
pub proof fn lemma_min_len_bytes(len: nat)
    requires
        len <= u64::MAX,
    ensures
        1 <= min_len_bytes(len) <= 8,
        len < pow256(min_len_bytes(len)),
{
    reveal_with_fuel(pow256, 9);
}

/// The wire form of a length: one descriptor byte naming the fewest bytes
/// the value fits in, then exactly that many little-endian bytes.
pub fn encode_length(len: usize) -> (r: Vec<u8>)
    ensures
        r@ == enc_len(len as nat),
        r@.len() == 1 + min_len_bytes(len as nat),
        r@[0] == min_len_bytes(len as nat),
{
    let v: u64 = len as u64;
    let n: u8 = if v <= 0xFF {
        1
    } else if v <= 0xFFFF {
        2
    } else if v <= 0xFF_FFFF {
        3
    } else if v <= 0xFFFF_FFFF {
        4
    } else if v <= 0xFF_FFFF_FFFF {
        5
    } else if v <= 0xFFFF_FFFF_FFFF {
        6
    } else if v <= 0xFF_FFFF_FFFF_FFFF {
        7
    } else {
        8
    };
    let mut out: Vec<u8> = Vec::new();
    out.push(n);
    push_le_bytes(v, n as usize, &mut out);
    proof {
        lemma_le_bytes_len(len as nat, n as nat);
        assert(out@ =~= enc_len(len as nat));
    }
    out
}

/// Appends the low `n` little-endian bytes of the value.
pub fn push_le_bytes(v: u64, n: usize, out: &mut Vec<u8>)
    ensures
        final(out)@ == old(out)@ + le_bytes(v as nat, n as nat),
    decreases n,
{
    if n == 0 {
        proof {
            assert(final(out)@ =~= old(out)@ + le_bytes(v as nat, 0));
        }
        return ;
    }
    out.push((v % 256) as u8);
    push_le_bytes(v / 256, n - 1, out);
    proof {
        assert(final(out)@ =~= old(out)@ + le_bytes(v as nat, n as nat));
    }
}

/// What reading a length field at `i` gives: the length and the position
/// after it, or the failure.
pub open spec fn dec_len(s: Seq<u8>, i: int) -> Result<(nat, int), SpecError> {
    if i >= s.len() {
        Err(SpecError::Truncated(s.len() as int))
    } else {
        let n = s[i];
        if n == 0 || n > 8 {
            Err(SpecError::InvalidLength(n as int))
        } else if i + 1 + n > s.len() {
            Err(SpecError::Truncated(s.len() as int))
        } else {
            Ok((le_value(s.subrange(i + 1, i + 1 + n)), i + 1 + n))
        }
    }
}

/// Reading back a minimally written length gives the length and steps past
/// its bytes.
pub proof fn lemma_dec_enc_len(s: Seq<u8>, i: int, len: nat, rest: Seq<u8>)
    requires
        len <= u64::MAX,
        0 <= i <= s.len(),
        s.subrange(i, s.len() as int) == enc_len(len) + rest,
    ensures
        dec_len(s, i) == Ok::<(nat, int), SpecError>((len, i + 1 + min_len_bytes(len))),
    decreases s.len() - i,
{
    lemma_min_len_bytes(len);
    let n = min_len_bytes(len);
    lemma_le_bytes_len(len, n);
    let tail = s.subrange(i, s.len() as int);
    assert(enc_len(len).len() == 1 + n);
    assert(tail.len() == s.len() - i);
    assert(tail.len() == 1 + n + rest.len());
    assert(i + 1 + n <= s.len());
    assert(tail[0] == (enc_len(len) + rest)[0]);
    assert(tail[0] == enc_len(len)[0]);
    assert(s[i] == tail[0]);
    assert(s[i] == n);
    let field = s.subrange(i + 1, i + 1 + n);
    assert(field =~= le_bytes(len, n)) by {
        assert(forall|j: int|
            0 <= j < n ==> #[trigger] field[j] == tail[1 + j] && tail[1 + j] == (enc_len(len)
                + rest)[1 + j]);
    }
    lemma_le_bytes_value(len, n);
}

/// Reads a length field: the descriptor byte, then the bytes it counts.
pub fn deserialize_xff_v1_value_length(s: &[u8], pos: &mut usize) -> (r: Result<u64, NabuError>)
    requires
        *old(pos) <= s@.len(),
    ensures
        match dec_len(s@, *old(pos) as int) {
            Ok((len, p)) => r is Ok && r->Ok_0 as nat == len && *final(pos) == p && *final(pos)
                <= s@.len(),
            Err(e) => r is Err && r->Err_0@ == e,
        },
{
    if *pos >= s.len() {
        return Err(NabuError::Truncated(s.len()));
    }
    let n = s[*pos];
    if n == 0 || n > 8 {
        return Err(NabuError::InvalidLength(n as usize));
    }
    if s.len() - *pos - 1 < n as usize {
        return Err(NabuError::Truncated(s.len()));
    }
    let lo: usize = *pos + 1;
    let v = read_le_bytes(s, lo, n as usize);
    *pos = lo + n as usize;
    Ok(v)
}

/// The value of the `n` little-endian bytes at `lo`.
pub fn read_le_bytes(s: &[u8], lo: usize, n: usize) -> (r: u64)
    requires
        n <= 8,
        lo + n <= s@.len(),
    ensures
        r as nat == le_value(s@.subrange(lo as int, lo + n)),
    decreases n,
{
    let total = s.len();
    if n == 0 {
        proof {
            assert(s@.subrange(lo as int, lo as int) =~= Seq::<u8>::empty());
        }
        return 0;
    }
    let rest = read_le_bytes(s, lo + 1, n - 1);
    proof {
        let b = s@.subrange(lo as int, lo + n);
        assert(b.drop_first() =~= s@.subrange(lo + 1, lo + 1 + (n - 1)));
        lemma_le_value_bound(b.drop_first());
        reveal_with_fuel(pow256, 9);
        assert(rest < pow256((n - 1) as nat));
        assert(256 * rest + b[0] < 256 * pow256((n - 1) as nat)) by (nonlinear_arith)
            requires
                rest < pow256((n - 1) as nat),
                b[0] < 256,
        ;
        assert(pow256(8) == 0x1_0000_0000_0000_0000);
        lemma_pow256_mono((n - 1) as nat, 7);
    }
    s[lo] as u64 + 256 * rest
}

} // verus!
