//! Decimal number text: the grammars both generations use when a payload is
//! read back as a number, and the canonical rendering the encoder writes.
//!
//! A payload is tried as an unsigned integer first, then as a signed integer,
//! then as a floating-point literal; the first grammar that accepts it decides
//! the number's kind.

use vstd::prelude::*;
use crate::text::{bytes_text, text_bytes};

verus! {

pub open spec fn is_digit(b: u8) -> bool {
    48 <= b && b <= 57
}

pub open spec fn all_digits(t: Seq<u8>) -> bool {
    forall|i: int| 0 <= i < t.len() ==> is_digit(#[trigger] t[i])
}

/// The value of a digit string, most significant digit first.
pub open spec fn digits_val(t: Seq<u8>) -> int
    decreases t.len(),
{
    if t.len() == 0 {
        0
    } else {
        digits_val(t.drop_last()) * 10 + (t.last() - 48)
    }
}

pub proof fn lemma_digits_val_nonneg(t: Seq<u8>)
    requires
        all_digits(t),
    ensures
        digits_val(t) >= 0,
    decreases t.len(),
{
    if t.len() > 0 {
        assert(all_digits(t.drop_last())) by {
            assert(forall|i: int|
                0 <= i < t.len() - 1 ==> #[trigger] t.drop_last()[i] == t[i]);
        }
        lemma_digits_val_nonneg(t.drop_last());
    }
}

/// Extending a digit string to the right can only grow its value.
pub proof fn lemma_digits_val_take(t: Seq<u8>, k: int)
    requires
        all_digits(t),
        0 <= k <= t.len(),
    ensures
        digits_val(t) >= digits_val(t.take(k)),
    decreases t.len() - k,
{
    if k < t.len() {
        lemma_digits_val_take(t, k + 1);
        assert(t.take(k + 1).drop_last() =~= t.take(k));
        assert(digits_val(t.take(k + 1)) == digits_val(t.take(k)) * 10 + (t[k] - 48));
        assert(forall|i: int| 0 <= i < k ==> #[trigger] t.take(k)[i] == t[i]);
        lemma_digits_val_nonneg(t.take(k));
    } else {
        assert(t.take(k) =~= t);
    }
}

/// The canonical decimal text of a non-negative integer.
pub open spec fn u_text(n: nat) -> Seq<u8>
    decreases n,
{
    if n < 10 {
        seq![(n + 48) as u8]
    } else {
        u_text(n / 10) + seq![(n % 10 + 48) as u8]
    }
}

pub proof fn lemma_u_text(n: nat)
    ensures
        u_text(n).len() >= 1,
        all_digits(u_text(n)),
        digits_val(u_text(n)) == n,
    decreases n,
{
    if n < 10 {
        assert(u_text(n) =~= seq![(n + 48) as u8]);
        assert(digits_val(u_text(n)) == digits_val(u_text(n).drop_last()) * 10 + (n + 48) - 48);
        assert(u_text(n).drop_last() =~= Seq::<u8>::empty());
    } else {
        lemma_u_text(n / 10);
        let w = u_text(n);
        assert(w =~= u_text(n / 10) + seq![(n % 10 + 48) as u8]);
        assert(w.drop_last() =~= u_text(n / 10));
        assert(w.last() == (n % 10 + 48) as u8);
        assert(digits_val(w) == digits_val(u_text(n / 10)) * 10 + (n % 10 + 48) - 48);
        assert(forall|i: int|
            0 <= i < w.len() - 1 ==> #[trigger] w[i] == u_text(n / 10)[i]);
    }
}

/// The canonical decimal text of a signed integer: a minus sign for negative
/// values, then the magnitude's digits.
pub open spec fn i_text(i: int) -> Seq<u8> {
    if i < 0 {
        seq![45u8] + u_text((-i) as nat)
    } else {
        u_text(i as nat)
    }
}

/// The sign-stripped digit part of an unsigned literal: a single optional
/// leading plus sign.
pub open spec fn u_digits_part(t: Seq<u8>) -> Seq<u8> {
    if t.len() > 0 && t[0] == 43 {
        t.drop_first()
    } else {
        t
    }
}

/// The text parses as an unsigned integer that fits the native word.
pub open spec fn is_unsigned_text(t: Seq<u8>) -> bool {
    let d = u_digits_part(t);
    d.len() > 0 && all_digits(d) && digits_val(d) <= usize::MAX as int
}

pub open spec fn unsigned_val(t: Seq<u8>) -> int {
    digits_val(u_digits_part(t))
}

/// The sign-stripped digit part of a signed literal: one optional leading
/// plus or minus sign.
pub open spec fn i_digits_part(t: Seq<u8>) -> Seq<u8> {
    if t.len() > 0 && (t[0] == 43 || t[0] == 45) {
        t.drop_first()
    } else {
        t
    }
}

pub open spec fn i_sign(t: Seq<u8>) -> int {
    if t.len() > 0 && t[0] == 45 {
        -1
    } else {
        1
    }
}

/// The text parses as a signed integer that fits the native word.
pub open spec fn is_integer_text(t: Seq<u8>) -> bool {
    let d = i_digits_part(t);
    d.len() > 0 && all_digits(d) && isize::MIN as int <= i_sign(t) * digits_val(d)
        && i_sign(t) * digits_val(d) <= isize::MAX as int
}

pub open spec fn integer_val(t: Seq<u8>) -> int {
    i_sign(t) * digits_val(i_digits_part(t))
}

/// The canonical text of `n` reads back as the same unsigned value.
pub proof fn lemma_u_text_parses(n: nat)
    requires
        n <= usize::MAX,
    ensures
        is_unsigned_text(u_text(n)),
        unsigned_val(u_text(n)) == n,
{
    lemma_u_text(n);
    assert(u_text(n)[0] != 43) by {
        lemma_u_text_first_digit(n);
    }
    assert(u_digits_part(u_text(n)) =~= u_text(n));
}

pub proof fn lemma_u_text_first_digit(n: nat)
    ensures
        is_digit(u_text(n)[0]),
    decreases n,
{
    if n >= 10 {
        lemma_u_text_first_digit(n / 10);
        lemma_u_text(n / 10);
        assert(u_text(n)[0] == u_text(n / 10)[0]);
    }
}

/// The canonical text of a negative integer reads back as the same signed
/// value, and not as an unsigned one.
pub proof fn lemma_i_text_parses(i: int)
    requires
        isize::MIN <= i < 0,
    ensures
        !is_unsigned_text(i_text(i)),
        is_integer_text(i_text(i)),
        integer_val(i_text(i)) == i,
{
    let m = (-i) as nat;
    lemma_u_text(m);
    lemma_u_text_first_digit(m);
    let w = i_text(i);
    assert(w[0] == 45);
    assert(u_digits_part(w) =~= w);
    assert(!is_digit(w[0]));
    assert(!all_digits(w) || w.len() == 0);
    assert(i_digits_part(w) =~= u_text(m));
    assert(i_sign(w) == -1);
}

/// The index of the first exponent marker (`e` or `E`), or the length when
/// there is none.
pub open spec fn find_exp(t: Seq<u8>) -> int
    decreases t.len(),
{
    if t.len() == 0 {
        0
    } else if t[0] == 101 || t[0] == 69 {
        0
    } else {
        1 + find_exp(t.drop_first())
    }
}

/// The index of the first decimal point, or the length when there is none.
pub open spec fn find_dot(t: Seq<u8>) -> int
    decreases t.len(),
{
    if t.len() == 0 {
        0
    } else if t[0] == 46 {
        0
    } else {
        1 + find_dot(t.drop_first())
    }
}

pub proof fn lemma_find_exp(t: Seq<u8>)
    ensures
        0 <= find_exp(t) <= t.len(),
        forall|j: int| 0 <= j < find_exp(t) ==> #[trigger] t[j] != 101 && t[j] != 69,
        find_exp(t) < t.len() ==> t[find_exp(t)] == 101 || t[find_exp(t)] == 69,
    decreases t.len(),
{
    if t.len() > 0 && t[0] != 101 && t[0] != 69 {
        lemma_find_exp(t.drop_first());
        assert(forall|j: int|
            1 <= j < t.len() ==> #[trigger] t[j] == t.drop_first()[j - 1]);
    }
}

pub proof fn lemma_find_dot(t: Seq<u8>)
    ensures
        0 <= find_dot(t) <= t.len(),
        forall|j: int| 0 <= j < find_dot(t) ==> #[trigger] t[j] != 46,
        find_dot(t) < t.len() ==> t[find_dot(t)] == 46,
    decreases t.len(),
{
    if t.len() > 0 && t[0] != 46 {
        lemma_find_dot(t.drop_first());
        assert(forall|j: int|
            1 <= j < t.len() ==> #[trigger] t[j] == t.drop_first()[j - 1]);
    }
}

/// A first index is determined by its characterisation, so an index found by
/// a scan is the one the spec names.
pub proof fn lemma_find_exp_unique(t: Seq<u8>, k: int)
    requires
        0 <= k <= t.len(),
        forall|j: int| 0 <= j < k ==> #[trigger] t[j] != 101 && t[j] != 69,
        k < t.len() ==> t[k] == 101 || t[k] == 69,
    ensures
        find_exp(t) == k,
{
    lemma_find_exp(t);
}

pub proof fn lemma_find_dot_unique(t: Seq<u8>, k: int)
    requires
        0 <= k <= t.len(),
        forall|j: int| 0 <= j < k ==> #[trigger] t[j] != 46,
        k < t.len() ==> t[k] == 46,
    ensures
        find_dot(t) == k,
{
    lemma_find_dot(t);
}

pub open spec fn ascii_lower(b: u8) -> u8 {
    if 65 <= b && b <= 90 {
        (b + 32) as u8
    } else {
        b
    }
}

pub open spec fn seq_lower(t: Seq<u8>) -> Seq<u8> {
    t.map_values(|b: u8| ascii_lower(b))
}

/// One optional leading plus or minus sign removed.
pub open spec fn strip_sign(t: Seq<u8>) -> Seq<u8> {
    if t.len() > 0 && (t[0] == 43 || t[0] == 45) {
        t.drop_first()
    } else {
        t
    }
}

/// The case-insensitive special floating-point words.
pub open spec fn is_special_float(d: Seq<u8>) -> bool {
    seq_lower(d) == seq![105u8, 110u8, 102u8] || seq_lower(d) == seq![
        105u8,
        110u8,
        102u8,
        105u8,
        110u8,
        105u8,
        116u8,
        121u8,
    ] || seq_lower(d) == seq![110u8, 97u8, 110u8]
}

/// Digits with at most one decimal point and at least one digit.
pub open spec fn mantissa_ok(m: Seq<u8>) -> bool {
    let dot = find_dot(m);
    if dot == m.len() {
        m.len() > 0 && all_digits(m)
    } else {
        all_digits(m.take(dot)) && all_digits(m.skip(dot + 1)) && (dot > 0 || dot + 1 < m.len())
    }
}

/// An exponent part: an optional sign, then one or more digits.
pub open spec fn exp_ok(x: Seq<u8>) -> bool {
    let y = strip_sign(x);
    y.len() > 0 && all_digits(y)
}

/// A mantissa, optionally followed by an exponent marker and exponent.
pub open spec fn float_body_ok(d: Seq<u8>) -> bool {
    let e = find_exp(d);
    if e == d.len() {
        mantissa_ok(d)
    } else {
        mantissa_ok(d.take(e)) && exp_ok(d.skip(e + 1))
    }
}

/// The text is a floating-point literal: an optional sign, then either one of
/// the special words or a mantissa with an optional exponent.
pub open spec fn is_float_text(t: Seq<u8>) -> bool {
    let d = strip_sign(t);
    is_special_float(d) || float_body_ok(d)
}

/// Reads a run of decimal digits as a native unsigned word, detecting
/// overflow.
fn parse_digits(t: &[u8], lo: usize, hi: usize) -> (r: Option<usize>)
    requires
        lo <= hi <= t@.len(),
    ensures
        match r {
            Some(v) => {
                let d = t@.subrange(lo as int, hi as int);
                hi > lo && all_digits(d) && digits_val(d) == v as int
            },
            None => {
                let d = t@.subrange(lo as int, hi as int);
                !(d.len() > 0 && all_digits(d) && digits_val(d) <= usize::MAX as int)
            },
        },
{
    let ghost d = t@.subrange(lo as int, hi as int);
    if lo == hi {
        return None;
    }
    let mut acc: usize = 0;
    let mut i: usize = lo;
    while i < hi
        invariant
            lo <= i <= hi <= t@.len(),
            d == t@.subrange(lo as int, hi as int),
            all_digits(d.take(i - lo)),
            digits_val(d.take(i - lo)) == acc as int,
        decreases hi - i,
    {
        let b = t[i];
        if b < 48 || b > 57 {
            assert(d[i - lo] == b);
            return None;
        }
        let digit: usize = (b - 48) as usize;
        proof {
            assert(d.take(i + 1 - lo).drop_last() =~= d.take(i - lo));
            assert(d.take(i + 1 - lo).last() == d[i - lo]);
            assert(d[i - lo] == b);
            assert(forall|j: int|
                0 <= j < i + 1 - lo ==> #[trigger] d.take(i + 1 - lo)[j] == d[j]);
        }
        if acc > usize::MAX / 10 {
            proof {
                assert(digits_val(d.take(i + 1 - lo)) == acc * 10 + digit);
                assert(acc * 10 > usize::MAX) by (nonlinear_arith)
                    requires
                        acc > usize::MAX / 10,
                        usize::MAX >= 10,
                ;
                if all_digits(d) {
                    lemma_digits_val_take(d, i + 1 - lo);
                }
            }
            return None;
        }
        let acc10: usize = acc * 10;
        if digit > usize::MAX - acc10 {
            proof {
                if all_digits(d) {
                    lemma_digits_val_take(d, i + 1 - lo);
                }
            }
            return None;
        }
        acc = acc10 + digit;
        i = i + 1;
    }
    proof {
        assert(d.take(hi - lo) =~= d);
    }
    Some(acc)
}

/// Reads the text as an unsigned integer, exactly when the unsigned grammar
/// accepts it.
pub fn parse_unsigned(t: &[u8]) -> (r: Option<usize>)
    ensures
        r is Some <==> is_unsigned_text(t@),
        r is Some ==> r->0 as int == unsigned_val(t@),
{
    let lo: usize = if t.len() > 0 && t[0] == 43 {
        1
    } else {
        0
    };
    proof {
        assert(u_digits_part(t@) =~= t@.subrange(lo as int, t@.len() as int));
    }
    parse_digits(t, lo, t.len())
}

/// Reads the text as a signed integer, exactly when the signed grammar
/// accepts it.
pub fn parse_integer(t: &[u8]) -> (r: Option<isize>)
    ensures
        r is Some <==> is_integer_text(t@),
        r is Some ==> r->0 as int == integer_val(t@),
{
    let neg: bool = t.len() > 0 && t[0] == 45;
    let lo: usize = if t.len() > 0 && (t[0] == 43 || t[0] == 45) {
        1
    } else {
        0
    };
    proof {
        assert(i_digits_part(t@) =~= t@.subrange(lo as int, t@.len() as int));
    }
    let mag = parse_digits(t, lo, t.len());
    match mag {
        None => {
            proof {
                if is_integer_text(t@) {
                    let d = i_digits_part(t@);
                    lemma_digits_val_nonneg(d);
                    assert(digits_val(d) <= usize::MAX as int);
                }
            }
            None
        },
        Some(m) => {
            if neg {
                let half: usize = isize::MAX as usize;
                if m <= half {
                    Some(-(m as isize))
                } else if m == half + 1 {
                    Some(isize::MIN)
                } else {
                    None
                }
            } else {
                if m <= isize::MAX as usize {
                    Some(m as isize)
                } else {
                    None
                }
            }
        },
    }
}

/// Appends the canonical decimal digits of `n`.
fn render_unsigned(n: usize, out: &mut Vec<u8>)
    ensures
        final(out)@ == old(out)@ + u_text(n as nat),
    decreases n,
{
    if n < 10 {
        out.push((n as u8) + 48);
    } else {
        render_unsigned(n / 10, out);
        out.push(((n % 10) as u8) + 48);
    }
    proof {
        if n >= 10 {
            assert(final(out)@ =~= old(out)@ + u_text(n as nat));
        } else {
            assert(final(out)@ =~= old(out)@ + u_text(n as nat));
        }
    }
}

/// The canonical decimal text of an unsigned value.
pub fn unsigned_text(n: usize) -> (r: Vec<u8>)
    ensures
        r@ == u_text(n as nat),
{
    let mut out: Vec<u8> = Vec::new();
    render_unsigned(n, &mut out);
    proof {
        assert(out@ =~= u_text(n as nat));
    }
    out
}

/// The canonical decimal text of a signed value.
pub fn integer_text(i: isize) -> (r: Vec<u8>)
    ensures
        r@ == i_text(i as int),
{
    let mut out: Vec<u8> = Vec::new();
    if i < 0 {
        out.push(45);
        let mag: usize = if i == isize::MIN {
            (isize::MAX as usize) + 1
        } else {
            (-i) as usize
        };
        render_unsigned(mag, &mut out);
        proof {
            assert(out@ =~= i_text(i as int));
        }
    } else {
        render_unsigned(i as usize, &mut out);
        proof {
            assert(out@ =~= i_text(i as int));
        }
    }
    out
}

/// Whether every byte of `t[lo..hi]` is a decimal digit.
fn check_digits(t: &[u8], lo: usize, hi: usize) -> (r: bool)
    requires
        lo <= hi <= t@.len(),
    ensures
        r == all_digits(t@.subrange(lo as int, hi as int)),
{
    let ghost d = t@.subrange(lo as int, hi as int);
    let mut i: usize = lo;
    while i < hi
        invariant
            lo <= i <= hi <= t@.len(),
            d == t@.subrange(lo as int, hi as int),
            forall|j: int| 0 <= j < i - lo ==> is_digit(#[trigger] d[j]),
        decreases hi - i,
    {
        let b = t[i];
        if b < 48 || b > 57 {
            assert(d[i - lo] == b);
            return false;
        }
        assert(d[i - lo] == b);
        i = i + 1;
    }
    true
}

fn ascii_lower_byte(b: u8) -> (r: u8)
    ensures
        r == ascii_lower(b),
{
    if 65 <= b && b <= 90 {
        b + 32
    } else {
        b
    }
}

/// Whether `t[lo..]` is one of the special floating-point words, ignoring
/// case.
fn check_special_float(t: &[u8], lo: usize) -> (r: bool)
    requires
        lo <= t@.len(),
    ensures
        r == is_special_float(t@.subrange(lo as int, t@.len() as int)),
{
    let ghost d = t@.subrange(lo as int, t@.len() as int);
    let n = t.len() - lo;
    if n == 3 {
        let a0 = ascii_lower_byte(t[lo]);
        let a1 = ascii_lower_byte(t[lo + 1]);
        let a2 = ascii_lower_byte(t[lo + 2]);
        proof {
            assert(seq_lower(d).len() == 3);
            assert(seq_lower(d)[0] == ascii_lower(d[0]) && d[0] == t@[lo as int]);
            assert(seq_lower(d)[1] == ascii_lower(d[1]) && d[1] == t@[lo + 1]);
            assert(seq_lower(d)[2] == ascii_lower(d[2]) && d[2] == t@[lo + 2]);
        }
        let r = (a0 == 105 && a1 == 110 && a2 == 102) || (a0 == 110 && a1 == 97 && a2 == 110);
        proof {
            if r {
                if a0 == 105 {
                    assert(seq_lower(d) =~= seq![105u8, 110u8, 102u8]);
                } else {
                    assert(seq_lower(d) =~= seq![110u8, 97u8, 110u8]);
                }
            } else {
                assert(seq_lower(d) != seq![105u8, 110u8, 102u8]);
                assert(seq_lower(d) != seq![110u8, 97u8, 110u8]);
                assert(seq_lower(d).len() != 8);
            }
        }
        r
    } else if n == 8 {
        let a0 = ascii_lower_byte(t[lo]);
        let a1 = ascii_lower_byte(t[lo + 1]);
        let a2 = ascii_lower_byte(t[lo + 2]);
        let a3 = ascii_lower_byte(t[lo + 3]);
        let a4 = ascii_lower_byte(t[lo + 4]);
        let a5 = ascii_lower_byte(t[lo + 5]);
        let a6 = ascii_lower_byte(t[lo + 6]);
        let a7 = ascii_lower_byte(t[lo + 7]);
        proof {
            assert(seq_lower(d).len() == 8);
            assert(seq_lower(d)[0] == ascii_lower(d[0]) && d[0] == t@[lo as int]);
            assert(seq_lower(d)[1] == ascii_lower(d[1]) && d[1] == t@[lo + 1]);
            assert(seq_lower(d)[2] == ascii_lower(d[2]) && d[2] == t@[lo + 2]);
            assert(seq_lower(d)[3] == ascii_lower(d[3]) && d[3] == t@[lo + 3]);
            assert(seq_lower(d)[4] == ascii_lower(d[4]) && d[4] == t@[lo + 4]);
            assert(seq_lower(d)[5] == ascii_lower(d[5]) && d[5] == t@[lo + 5]);
            assert(seq_lower(d)[6] == ascii_lower(d[6]) && d[6] == t@[lo + 6]);
            assert(seq_lower(d)[7] == ascii_lower(d[7]) && d[7] == t@[lo + 7]);
        }
        let r = a0 == 105 && a1 == 110 && a2 == 102 && a3 == 105 && a4 == 110 && a5 == 105 && a6
            == 116 && a7 == 121;
        proof {
            if r {
                assert(seq_lower(d) =~= seq![105u8, 110u8, 102u8, 105u8, 110u8, 105u8, 116u8,
                    121u8]);
            } else {
                assert(seq_lower(d) != seq![105u8, 110u8, 102u8, 105u8, 110u8, 105u8, 116u8,
                    121u8]);
                assert(seq_lower(d).len() != 3);
            }
        }
        r
    } else {
        proof {
            assert(seq_lower(d).len() != 3 && seq_lower(d).len() != 8);
        }
        false
    }
}

/// Whether the text is a floating-point literal.
pub fn is_float_literal(t: &[u8]) -> (r: bool)
    ensures
        r == is_float_text(t@),
{
    let lo: usize = if t.len() > 0 && (t[0] == 43 || t[0] == 45) {
        1
    } else {
        0
    };
    let ghost d = t@.subrange(lo as int, t@.len() as int);
    proof {
        assert(strip_sign(t@) =~= d);
    }
    if check_special_float(t, lo) {
        return true;
    }
    // find the exponent marker
    let mut e: usize = lo;
    while e < t.len() && t[e] != 101 && t[e] != 69
        invariant
            lo <= e <= t@.len(),
            d == t@.subrange(lo as int, t@.len() as int),
            forall|j: int| 0 <= j < e - lo ==> #[trigger] d[j] != 101 && d[j] != 69,
        decreases t@.len() - e,
    {
        assert(d[e - lo] == t@[e as int]);
        e = e + 1;
    }
    proof {
        if e < t@.len() {
            assert(d[e - lo] == t@[e as int]);
        }
        lemma_find_exp_unique(d, e - lo);
    }
    // check the mantissa between lo and e
    let mut dot: usize = lo;
    while dot < e && t[dot] != 46
        invariant
            lo <= dot <= e <= t@.len(),
            d == t@.subrange(lo as int, t@.len() as int),
            forall|j: int| 0 <= j < dot - lo ==> #[trigger] d[j] != 46,
        decreases e - dot,
    {
        assert(d[dot - lo] == t@[dot as int]);
        dot = dot + 1;
    }
    let ghost m = d.take(e - lo);
    proof {
        assert(forall|j: int| 0 <= j < e - lo ==> #[trigger] m[j] == d[j]);
        if dot < e {
            assert(d[dot - lo] == t@[dot as int]);
        }
        lemma_find_dot_unique(m, dot - lo);
    }
    let mantissa_good: bool = if dot == e {
        proof {
            assert(m =~= t@.subrange(lo as int, e as int));
        }
        e > lo && check_digits(t, lo, e)
    } else {
        proof {
            assert(m.take(dot - lo) =~= t@.subrange(lo as int, dot as int));
            assert(m.skip(dot - lo + 1) =~= t@.subrange(dot + 1, e as int));
        }
        let before = check_digits(t, lo, dot);
        let after = check_digits(t, dot + 1, e);
        before && after && (dot > lo || dot + 1 < e)
    };
    proof {
        assert(mantissa_good == mantissa_ok(m));
        if e == t@.len() {
            assert(m =~= d);
        }
    }
    if !mantissa_good {
        return false;
    }
    if e == t.len() {
        return true;
    }
    // check the exponent after the marker
    let xlo: usize = if e + 1 < t.len() && (t[e + 1] == 43 || t[e + 1] == 45) {
        e + 2
    } else {
        e + 1
    };
    let ghost x = d.skip(e - lo + 1);
    proof {
        assert(forall|j: int|
            0 <= j < x.len() ==> #[trigger] x[j] == t@[e + 1 + j]);
        assert(strip_sign(x) =~= t@.subrange(xlo as int, t@.len() as int));
    }
    let r = xlo < t.len() && check_digits(t, xlo, t.len());
    proof {
        assert(r == exp_ok(x));
    }
    r
}

/// Every byte of a floating-point literal is printable, so a number's text
/// travels through a text run unharmed.
pub proof fn lemma_float_text_range(t: Seq<u8>)
    requires
        is_float_text(t),
    ensures
        forall|q: int| 0 <= q < t.len() ==> 32 <= #[trigger] t[q] <= 126,
{
    let d = strip_sign(t);
    assert(forall|q: int| 0 <= q < d.len() ==> #[trigger] d[q] == t[q + (t.len() - d.len())]);
    if is_special_float(d) {
        let p3a = seq![105u8, 110u8, 102u8];
        let p3b = seq![110u8, 97u8, 110u8];
        let p8 = seq![105u8, 110u8, 102u8, 105u8, 110u8, 105u8, 116u8, 121u8];
        assert(forall|w: int| 0 <= w < p3a.len() ==> 97 <= #[trigger] p3a[w] <= 122);
        assert(forall|w: int| 0 <= w < p3b.len() ==> 97 <= #[trigger] p3b[w] <= 122);
        assert(forall|w: int| 0 <= w < p8.len() ==> 97 <= #[trigger] p8[w] <= 122);
        assert forall|q: int| 0 <= q < d.len() implies 32 <= #[trigger] d[q] <= 126 by {
            assert(seq_lower(d)[q] == ascii_lower(d[q]));
            assert(97 <= ascii_lower(d[q]) <= 122);
        }
    } else {
        let e = find_exp(d);
        lemma_find_exp(d);
        let m = d.take(e);
        if e == d.len() {
            assert(m =~= d);
        }
        assert(forall|q: int| 0 <= q < e ==> #[trigger] m[q] == d[q]);
        let dot = find_dot(m);
        lemma_find_dot(m);
        assert forall|q: int| 0 <= q < d.len() implies 32 <= #[trigger] d[q] <= 126 by {
            if q < e {
                // inside the mantissa: a digit or the decimal point
                if dot == m.len() {
                    assert(is_digit(m[q]));
                } else {
                    if q < dot {
                        assert(m.take(dot)[q] == m[q]);
                        assert(is_digit(m[q]));
                    } else if q == dot {
                        assert(m[q] == 46);
                    } else {
                        assert(m.skip(dot + 1)[q - dot - 1] == m[q]);
                        assert(is_digit(m[q]));
                    }
                }
            } else if q == e {
                // the exponent marker
                assert(d[q] == 101 || d[q] == 69);
            } else {
                // the exponent: an optional sign, then digits
                let x = d.skip(e + 1);
                assert(x[q - e - 1] == d[q]);
                let y = strip_sign(x);
                assert(forall|w: int|
                    0 <= w < y.len() ==> #[trigger] y[w] == x[w + (x.len() - y.len())]);
                if q - e - 1 < x.len() - y.len() {
                    assert(x[0] == 43 || x[0] == 45);
                } else {
                    assert(is_digit(y[q - e - 1 - (x.len() - y.len())]));
                }
            }
        }
    }
    assert forall|q: int| 0 <= q < t.len() implies 32 <= #[trigger] t[q] <= 126 by {
        if q < t.len() - d.len() {
            assert(t[0] == 43 || t[0] == 45);
        } else {
            assert(d[q - (t.len() - d.len())] == t[q]);
        }
    }
}

/// Every byte of a number's canonical text is printable.
pub proof fn lemma_num_text_range(n: SpecNumber)
    requires
        wf_number(n),
    ensures
        forall|q: int| 0 <= q < num_text(n).len() ==> 32 <= #[trigger] num_text(n)[q] <= 126,
{
    match n {
        SpecNumber::Unsigned(u) => {
            lemma_u_text(u as nat);
        },
        SpecNumber::Integer(i) => {
            if i < 0 {
                lemma_u_text((-i) as nat);
                let w = num_text(n);
                assert(w[0] == 45);
                assert(forall|q: int|
                    1 <= q < w.len() ==> #[trigger] w[q] == u_text((-i) as nat)[q - 1]);
            } else {
                lemma_u_text(i as nat);
            }
        },
        SpecNumber::Float(t) => {
            lemma_float_text_range(text_bytes(t));
        },
    }
}

/// A number as the decoder classifies it: unsigned first, then signed, then
/// floating point, the latter kept as its literal text.
pub ghost enum SpecNumber {
    Unsigned(int),
    Integer(int),
    Float(Seq<char>),
}

/// The canonical text the encoder writes for a number.
pub open spec fn num_text(n: SpecNumber) -> Seq<u8> {
    match n {
        SpecNumber::Unsigned(u) => u_text(u as nat),
        SpecNumber::Integer(i) => i_text(i),
        SpecNumber::Float(t) => text_bytes(t),
    }
}

/// How a payload is read back as a number: the first grammar that accepts it
/// decides, and a text no grammar accepts is no number.
pub open spec fn number_from_text(t: Seq<u8>) -> Option<SpecNumber> {
    if is_unsigned_text(t) {
        Some(SpecNumber::Unsigned(unsigned_val(t)))
    } else if is_integer_text(t) {
        Some(SpecNumber::Integer(integer_val(t)))
    } else if is_float_text(t) {
        Some(SpecNumber::Float(bytes_text(t)))
    } else {
        None
    }
}

/// A number the model can hold: the machine ranges for the integer kinds, and
/// for a float a carried literal whose characters fit in one byte each.
pub open spec fn wf_number(n: SpecNumber) -> bool {
    match n {
        SpecNumber::Unsigned(u) => 0 <= u <= usize::MAX as int,
        SpecNumber::Integer(i) => isize::MIN as int <= i <= isize::MAX as int,
        SpecNumber::Float(t) => (forall|i: int|
            0 <= i < t.len() ==> (#[trigger] t[i]) as int <= 255) && is_float_text(text_bytes(t)),
    }
}

/// A number whose canonical text reads back as the same number: a signed
/// value is kept negative and a float literal is not also an integer literal,
/// since the reading grammars take those first.
pub open spec fn canonical_number(n: SpecNumber) -> bool {
    &&& wf_number(n)
    &&& match n {
        SpecNumber::Unsigned(_) => true,
        SpecNumber::Integer(i) => i < 0,
        SpecNumber::Float(t) => !is_unsigned_text(text_bytes(t)) && !is_integer_text(
            text_bytes(t),
        ),
    }
}

/// Whatever number a payload reads as lies within the model's ranges.
pub proof fn lemma_number_from_text_wf(t: Seq<u8>)
    ensures
        number_from_text(t) is Some ==> wf_number(number_from_text(t)->0),
{
    if is_unsigned_text(t) {
        lemma_digits_val_nonneg(u_digits_part(t));
    } else if is_integer_text(t) {
    } else if is_float_text(t) {
        crate::text::lemma_bytes_text_bytes(t);
        assert forall|i: int| 0 <= i < bytes_text(t).len() implies (#[trigger] bytes_text(t)[i])
            as int <= 255 by {
            assert(bytes_text(t)[i] == t[i] as char);
            crate::text::lemma_byte_char(t[i]);
        }
        assert(text_bytes(bytes_text(t)) == t);
    }
}

/// Reading the canonical text of a canonical number gives the number back.
pub proof fn lemma_number_round_trip(n: SpecNumber)
    requires
        canonical_number(n),
    ensures
        number_from_text(num_text(n)) == Some(n),
{
    match n {
        SpecNumber::Unsigned(u) => {
            lemma_u_text_parses(u as nat);
        },
        SpecNumber::Integer(i) => {
            lemma_i_text_parses(i);
        },
        SpecNumber::Float(t) => {
            crate::text::lemma_text_bytes_text(t);
        },
    }
}

} // verus!
