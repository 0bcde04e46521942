//! The error taxonomy of the codec.
//!
//! Every parse or encode failure is reported as a value of [`NabuError`],
//! positional errors carrying the byte offset at which decoding could not
//! continue.

use vstd::prelude::*;
use crate::text::text_bytes;
use crate::value::{SpecValue, XffValue};

verus! {

/// The framing byte that was expected but absent.
#[derive(Debug, Clone, Copy, PartialEq, Eq, Structural)]
pub enum MarkerKind {
    /// End-of-text, closing a flat-generation text run.
    Etx,
    /// Data-link-escape, closing a flat-generation blob.
    Dle,
    /// End-of-medium, closing a whole file.
    Em,
    /// End-of-value, closing a length-prefixed value.
    Ev,
    /// Group separator, bracketing an object entry.
    Gs,
    /// Record separator, between container entries.
    Rs,
    /// Unit separator, between an object key and its value.
    Us,
}

/// The mathematical form of an error.
pub ghost enum SpecError {
    EmptyInput,
    UnknownVersion(u8),
    Truncated(int),
    MissingMarker(MarkerKind, int),
    InvalidByte(u8, int, u8),
    InvalidNumber(int, Seq<u8>),
    InvalidStructure(int, u8),
    InvalidKey(int, SpecValue),
    InvalidLength(int),
    UnsupportedValueForVersion(SpecValue, u8),
}

/// A codec failure.
#[derive(Debug)]
pub enum NabuError {
    /// The buffer held no bytes at all.
    EmptyInput,
    /// The version byte named no known generation.
    UnknownVersion(u8),
    /// The buffer ended before a structurally required byte; carries the
    /// offset at which decoding could not continue.
    Truncated(usize),
    /// An expected framing byte was absent at the carried offset.
    MissingMarker(MarkerKind, usize),
    /// A byte outside the accepted ranges, or an unknown type tag: the byte,
    /// its offset, and the generation that rejected it.
    InvalidByte(u8, usize, u8),
    /// A number payload that none of the numeric grammars accepts: the
    /// payload's offset and its text.
    InvalidNumber(usize, String),
    /// A container separator out of place: the offset and the byte found.
    InvalidStructure(usize, u8),
    /// An object key that decoded to something other than text: the key's
    /// offset and the value it decoded to.
    InvalidKey(usize, XffValue),
    /// A length descriptor outside the accepted range, or a declared length
    /// disagreeing with the observed span.
    InvalidLength(usize),
    /// An encode was asked to write a value the target generation cannot
    /// represent.
    UnsupportedValueForVersion(XffValue, u8),
}

impl View for NabuError {
    type V = SpecError;

    open spec fn view(&self) -> SpecError {
        match self {
            NabuError::EmptyInput => SpecError::EmptyInput,
            NabuError::UnknownVersion(v) => SpecError::UnknownVersion(*v),
            NabuError::Truncated(p) => SpecError::Truncated(*p as int),
            NabuError::MissingMarker(m, p) => SpecError::MissingMarker(*m, *p as int),
            NabuError::InvalidByte(b, p, v) => SpecError::InvalidByte(*b, *p as int, *v),
            NabuError::InvalidNumber(p, t) => SpecError::InvalidNumber(*p as int, text_bytes(t@)),
            NabuError::InvalidStructure(p, b) => SpecError::InvalidStructure(*p as int, *b),
            NabuError::InvalidKey(p, v) => SpecError::InvalidKey(*p as int, v@),
            NabuError::InvalidLength(l) => SpecError::InvalidLength(*l as int),
            NabuError::UnsupportedValueForVersion(v, ver) => SpecError::UnsupportedValueForVersion(
                v@,
                *ver,
            ),
        }
    }
}

} // verus!
