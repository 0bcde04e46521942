//! Text handling for the XFF codec.
//!
//! Both generations carry text as one byte per character: a character's code
//! point is written as a single byte, so only characters with code points
//! below 256 can travel through the format, and of those only the ranges the
//! format accepts (six control substitutions and the printable ranges).

use vstd::prelude::*;

verus! {

/// Whether a byte is accepted inside a text run.
pub fn text_byte_ok(b: u8) -> (r: bool)
    ensures
        r == valid_text_byte(b),
{
    (8 <= b && b <= 13) || (32 <= b && b <= 126) || b == 128 || (130 <= b && b <= 140) || b == 142
        || (145 <= b && b <= 156) || 158 <= b
}

/// The byte values accepted inside a text run: the six control substitutions
/// (backspace through carriage return) and the printable ranges.
pub open spec fn valid_text_byte(b: u8) -> bool {
    (8 <= b && b <= 13) || (32 <= b && b <= 126) || b == 128 || (130 <= b && b <= 140) || b == 142
        || (145 <= b && b <= 156) || 158 <= b
}

/// A character the format can carry in a text run: its code point is a valid
/// text byte.
pub open spec fn valid_text_char(c: char) -> bool {
    c as int <= 255 && valid_text_byte(c as u8)
}

/// All characters of a text are ones the format can carry.
pub open spec fn valid_text(t: Seq<char>) -> bool {
    forall|i: int| 0 <= i < t.len() ==> valid_text_char(#[trigger] t[i])
}

/// Bytes the text ranges accept read back as characters the text ranges
/// accept.
pub proof fn lemma_valid_bytes_valid_text(b: Seq<u8>)
    requires
        forall|i: int| 0 <= i < b.len() ==> valid_text_byte(#[trigger] b[i]),
    ensures
        valid_text(bytes_text(b)),
{
    assert forall|i: int| 0 <= i < bytes_text(b).len() implies valid_text_char(
        #[trigger] bytes_text(b)[i],
    ) by {
        assert(bytes_text(b)[i] == b[i] as char);
        lemma_byte_char(b[i]);
    }
}

/// The wire form of a text: one byte per character, the low byte of each code
/// point.
pub open spec fn text_bytes(t: Seq<char>) -> Seq<u8> {
    t.map_values(|c: char| c as u8)
}

/// The text read back from a payload: each byte becomes the character with
/// that code point.
pub open spec fn bytes_text(b: Seq<u8>) -> Seq<char> {
    b.map_values(|x: u8| x as char)
}

/// Reading bytes back as characters and writing them again is the identity.
pub proof fn lemma_bytes_text_bytes(b: Seq<u8>)
    ensures
        text_bytes(bytes_text(b)) =~= b,
        bytes_text(b).len() == b.len(),
{
    assert forall|i: int| 0 <= i < b.len() implies text_bytes(bytes_text(b))[i] == b[i] by {
        assert(bytes_text(b)[i] == b[i] as char);
        lemma_byte_char(b[i]);
    }
}

/// A valid text survives the trip through its wire form unchanged.
pub proof fn lemma_text_bytes_text(t: Seq<char>)
    requires
        forall|i: int| #![trigger t[i]] 0 <= i < t.len() ==> t[i] as int <= 255,
    ensures
        bytes_text(text_bytes(t)) =~= t,
        text_bytes(t).len() == t.len(),
{
    assert forall|i: int| 0 <= i < t.len() implies bytes_text(text_bytes(t))[i] == t[i] by {
        assert(text_bytes(t)[i] == t[i] as u8);
        lemma_char_code(t[i]);
    }
}

/// Builds the string whose characters are the given byte values.
///
/// Relies on std's `u8 as char` cast: each byte becomes the character with
/// that code point, and `String: FromIterator<char>` keeps the order.
#[verifier::external_body]
pub fn latin1_string(bytes: &[u8]) -> (r: String)
    ensures
        r@.len() == bytes@.len(),
        forall|i: int| 0 <= i < bytes@.len() ==> r@[i] == #[trigger] bytes@[i] as char,
{
    bytes.iter().map(|b| *b as char).collect()
}

/// Takes the low byte of each character of a string.
///
/// Relies on std's `char as u8` cast, which keeps the low byte of the code
/// point, and `Vec: FromIterator<u8>`, which keeps the order.
#[verifier::external_body]
pub fn latin1_bytes(s: &str) -> (r: Vec<u8>)
    ensures
        r@.len() == s@.len(),
        forall|i: int| 0 <= i < s@.len() ==> r@[i] == #[trigger] s@[i] as u8,
{
    s.chars().map(|c| c as u8).collect()
}

/// The facts a character's code point obeys: it is a Unicode scalar value,
/// and when it is small enough, casting through `u8` keeps it intact.
pub proof fn lemma_char_code(c: char)
    ensures
        0 <= c as int <= 0x10FFFF,
        c as int == (c as u32) as int,
        c as int <= 255 ==> (c as u8) as int == c as int,
        c as int <= 255 ==> (c as u8) as char == c,
{
    vstd::utf8::char_is_scalar(c);
    let u = c as u32;
    vstd::utf8::char_u32_cast(c, u);
    assert((u as char) as int == u as int);
    if c as int <= 255 {
        let b = c as u8;
        let c2 = b as char;
        vstd::utf8::char_is_scalar(c2);
        vstd::utf8::char_u32_cast(c2, c2 as u32);
        assert(c2 as int == b as int);
        assert(c2 as u32 == c as u32);
        assert((c2 as u32) as char == c2);
        assert((c as u32) as char == c);
    }
}

/// A byte cast to a character keeps its value as the code point.
pub proof fn lemma_byte_char(b: u8)
    ensures
        (b as char) as int == b as int,
        (b as char) as u8 == b,
{
    lemma_char_code(b as char);
}

/// Lexicographic order on character sequences, by code point: negative when
/// `a` comes first, zero when they are equal, positive when `b` comes first.
pub open spec fn lex_cmp(a: Seq<char>, b: Seq<char>) -> int
    decreases a.len(),
{
    if a.len() == 0 && b.len() == 0 {
        0
    } else if a.len() == 0 {
        -1
    } else if b.len() == 0 {
        1
    } else if (a[0] as int) < (b[0] as int) {
        -1
    } else if (a[0] as int) > (b[0] as int) {
        1
    } else {
        lex_cmp(a.drop_first(), b.drop_first())
    }
}

/// Two texts compare equal exactly when they are the same sequence.
pub proof fn lemma_lex_cmp_eq(a: Seq<char>, b: Seq<char>)
    ensures
        lex_cmp(a, b) == 0 <==> a =~= b,
    decreases a.len(),
{
    if a.len() != 0 && b.len() != 0 && a[0] == b[0] {
        lemma_lex_cmp_eq(a.drop_first(), b.drop_first());
        if lex_cmp(a, b) == 0 {
            assert(a =~= seq![a[0]] + a.drop_first());
            assert(b =~= seq![b[0]] + b.drop_first());
        }
        if a =~= b {
            assert(a.drop_first() =~= b.drop_first());
        }
    }
}

/// The order is antisymmetric: swapping the arguments flips the sign.
pub proof fn lemma_lex_cmp_flip(a: Seq<char>, b: Seq<char>)
    ensures
        lex_cmp(a, b) == -lex_cmp(b, a),
    decreases a.len(),
{
    if a.len() != 0 && b.len() != 0 && a[0] == b[0] {
        lemma_lex_cmp_flip(a.drop_first(), b.drop_first());
    }
}

/// The order is transitive.
pub proof fn lemma_lex_cmp_trans(a: Seq<char>, b: Seq<char>, c: Seq<char>)
    requires
        lex_cmp(a, b) < 0,
        lex_cmp(b, c) < 0,
    ensures
        lex_cmp(a, c) < 0,
    decreases a.len(),
{
    if a.len() != 0 && b.len() != 0 && c.len() != 0 {
        if a[0] == b[0] && b[0] == c[0] {
            lemma_lex_cmp_trans(a.drop_first(), b.drop_first(), c.drop_first());
        }
    }
}

/// Compares two strings, returning a sign in `{-1, 0, 1}`.
///
/// Relies on `str`'s `Ord` implementation: strings order lexicographically by
/// their bytes, which for UTF-8 is the lexicographic order of the code points.
#[verifier::external_body]
pub fn str_compare(a: &str, b: &str) -> (r: i8)
    ensures
        r as int == lex_cmp(a@, b@),
{
    match a.cmp(b) {
        core::cmp::Ordering::Less => -1,
        core::cmp::Ordering::Equal => 0,
        core::cmp::Ordering::Greater => 1,
    }
}

} // verus!
