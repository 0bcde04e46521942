//! The numeric value kind.
//!
//! A number is an unsigned word, a signed word, or a floating-point literal
//! kept as its decimal text; the wire carries every number as text, and
//! reading tries the three kinds in that order.

use vstd::prelude::*;
use crate::numbers::{
    SpecNumber, num_text, number_from_text, parse_unsigned, parse_integer, is_float_literal,
    unsigned_text, integer_text,
};
use crate::text::{bytes_text, latin1_string, text_bytes, latin1_bytes};

verus! {

/// A numeric value: an unsigned integer, a signed integer, or a
/// floating-point number carried as its decimal text.
#[derive(Debug)]
pub enum Number {
    Unsigned(usize),
    Integer(isize),
    Float(String),
}

impl View for Number {
    type V = SpecNumber;

    open spec fn view(&self) -> SpecNumber {
        match self {
            Number::Unsigned(u) => SpecNumber::Unsigned(*u as int),
            Number::Integer(i) => SpecNumber::Integer(*i as int),
            Number::Float(t) => SpecNumber::Float(t@),
        }
    }
}

impl Clone for Number {
    fn clone(&self) -> (r: Self)
        ensures
            r == *self,
    {
        match self {
            Number::Unsigned(u) => Number::Unsigned(*u),
            Number::Integer(i) => Number::Integer(*i),
            Number::Float(t) => Number::Float(t.clone()),
        }
    }
}

impl PartialEq for Number {
    fn eq(&self, other: &Self) -> (r: bool) {
        match (self, other) {
            (Number::Unsigned(a), Number::Unsigned(b)) => a == b,
            (Number::Integer(a), Number::Integer(b)) => a == b,
            (Number::Float(a), Number::Float(b)) => *a == *b,
            _ => false,
        }
    }
}

impl vstd::std_specs::cmp::PartialEqSpecImpl for Number {
    open spec fn obeys_eq_spec() -> bool {
        true
    }

    open spec fn eq_spec(&self, other: &Self) -> bool {
        self@ == other@
    }
}

/// The text a number shows as: a float shows its carried literal, the
/// integer kinds show their canonical decimal digits.
pub open spec fn num_string(n: SpecNumber) -> Seq<char> {
    match n {
        SpecNumber::Float(t) => t,
        _ => bytes_text(num_text(n)),
    }
}

impl Number {
    /// The unsigned value, when this is the unsigned kind.
    pub fn into_usize(self) -> (r: Option<usize>)
        ensures
            match self@ {
                SpecNumber::Unsigned(u) => r is Some && r->0 as int == u,
                _ => r is None,
            },
    {
        match self {
            Number::Unsigned(u) => Some(u),
            _ => None,
        }
    }

    /// The signed value, when this is the signed kind.
    pub fn into_isize(self) -> (r: Option<isize>)
        ensures
            match self@ {
                SpecNumber::Integer(i) => r is Some && r->0 as int == i,
                _ => r is None,
            },
    {
        match self {
            Number::Integer(i) => Some(i),
            _ => None,
        }
    }

    /// The carried literal, when this is the floating-point kind.
    pub fn into_float_text(self) -> (r: Option<String>)
        ensures
            match self@ {
                SpecNumber::Float(t) => r is Some && r->0@ == t,
                _ => r is None,
            },
    {
        match self {
            Number::Float(t) => Some(t),
            _ => None,
        }
    }

    pub fn is_unsigned(&self) -> (r: bool)
        ensures
            r == (self@ is Unsigned),
    {
        matches!(self, Number::Unsigned(_))
    }

    pub fn is_integer(&self) -> (r: bool)
        ensures
            r == (self@ is Integer),
    {
        matches!(self, Number::Integer(_))
    }

    pub fn is_float(&self) -> (r: bool)
        ensures
            r == (self@ is Float),
    {
        matches!(self, Number::Float(_))
    }

    /// The number formatted as text.
    pub fn as_string(&self) -> (r: String)
        ensures
            r@ == num_string(self@),
    {
        match self {
            Number::Unsigned(u) => {
                let bytes = unsigned_text(*u);
                let r = latin1_string(bytes.as_slice());
                proof {
                    assert(r@ =~= bytes_text(num_text(self@)));
                }
                r
            },
            Number::Integer(i) => {
                let bytes = integer_text(*i);
                let r = latin1_string(bytes.as_slice());
                proof {
                    assert(r@ =~= bytes_text(num_text(self@)));
                }
                r
            },
            Number::Float(t) => t.clone(),
        }
    }

    /// The canonical wire text of the number.
    pub fn text_bytes_vec(&self) -> (r: Vec<u8>)
        ensures
            r@ == num_text(self@),
    {
        match self {
            Number::Unsigned(u) => unsigned_text(*u),
            Number::Integer(i) => integer_text(*i),
            Number::Float(t) => {
                let r = latin1_bytes(t.as_str());
                proof {
                    assert(r@ =~= text_bytes(t@));
                }
                r
            },
        }
    }
}

impl From<usize> for Number {
    fn from(c: usize) -> (r: Self) {
        Number::Unsigned(c)
    }
}

impl vstd::std_specs::convert::FromSpecImpl<usize> for Number {
    open spec fn obeys_from_spec() -> bool {
        true
    }

    open spec fn from_spec(c: usize) -> Self {
        Number::Unsigned(c)
    }
}

impl From<isize> for Number {
    fn from(c: isize) -> (r: Self) {
        Number::Integer(c)
    }
}

impl vstd::std_specs::convert::FromSpecImpl<isize> for Number {
    open spec fn obeys_from_spec() -> bool {
        true
    }

    open spec fn from_spec(c: isize) -> Self {
        Number::Integer(c)
    }
}

impl From<u8> for Number {
    fn from(c: u8) -> (r: Self) {
        Number::Unsigned(c as usize)
    }
}

impl vstd::std_specs::convert::FromSpecImpl<u8> for Number {
    open spec fn obeys_from_spec() -> bool {
        true
    }

    open spec fn from_spec(c: u8) -> Self {
        Number::Unsigned(c as usize)
    }
}

impl From<u16> for Number {
    fn from(c: u16) -> (r: Self) {
        Number::Unsigned(c as usize)
    }
}

impl vstd::std_specs::convert::FromSpecImpl<u16> for Number {
    open spec fn obeys_from_spec() -> bool {
        true
    }

    open spec fn from_spec(c: u16) -> Self {
        Number::Unsigned(c as usize)
    }
}

impl From<u32> for Number {
    fn from(c: u32) -> (r: Self) {
        Number::Unsigned(c as usize)
    }
}

impl vstd::std_specs::convert::FromSpecImpl<u32> for Number {
    open spec fn obeys_from_spec() -> bool {
        true
    }

    open spec fn from_spec(c: u32) -> Self {
        Number::Unsigned(c as usize)
    }
}

impl From<i8> for Number {
    fn from(c: i8) -> (r: Self) {
        Number::Integer(c as isize)
    }
}

impl vstd::std_specs::convert::FromSpecImpl<i8> for Number {
    open spec fn obeys_from_spec() -> bool {
        true
    }

    open spec fn from_spec(c: i8) -> Self {
        Number::Integer(c as isize)
    }
}

impl From<i16> for Number {
    fn from(c: i16) -> (r: Self) {
        Number::Integer(c as isize)
    }
}

impl vstd::std_specs::convert::FromSpecImpl<i16> for Number {
    open spec fn obeys_from_spec() -> bool {
        true
    }

    open spec fn from_spec(c: i16) -> Self {
        Number::Integer(c as isize)
    }
}

impl From<i32> for Number {
    fn from(c: i32) -> (r: Self) {
        Number::Integer(c as isize)
    }
}

impl vstd::std_specs::convert::FromSpecImpl<i32> for Number {
    open spec fn obeys_from_spec() -> bool {
        true
    }

    open spec fn from_spec(c: i32) -> Self {
        Number::Integer(c as isize)
    }
}

/// Reads a payload as a number: unsigned first, then signed, then floating
/// point; a payload no grammar accepts is no number.
pub fn number_from_bytes(t: &[u8]) -> (r: Option<Number>)
    ensures
        match number_from_text(t@) {
            Some(n) => r is Some && r->0@ == n,
            None => r is None,
        },
{
    if let Some(u) = parse_unsigned(t) {
        return Some(Number::Unsigned(u));
    }
    if let Some(i) = parse_integer(t) {
        return Some(Number::Integer(i));
    }
    if is_float_literal(t) {
        let s = latin1_string(t);
        proof {
            assert(s@ =~= bytes_text(t@));
        }
        return Some(Number::Float(s));
    }
    None
}

} // verus!
