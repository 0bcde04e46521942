//! A codec for the XFF binary file format.
//!
//! The format exists in two incompatible generations sharing one version
//! byte at offset 0: a flat, control-character-framed generation and a
//! recursive, length-prefixed one. This crate holds the value model, the two
//! encoders and decoders, the variable-width length scheme, and the error
//! taxonomy; every parse failure names the byte offset at which decoding
//! could not continue. Reading and writing files is left to the caller: the
//! codec's boundary is buffer in, buffer out.

use vstd::prelude::*;

pub mod error;
pub mod laws;
pub mod length;
pub mod numbers;
pub mod text;
pub mod v0;
pub mod v1;
pub mod value;

pub use error::MarkerKind;
pub use error::NabuError;
pub use value::XffValue;
pub use value::array::Array;
pub use value::cmd_char::CommandCharacter;
pub use value::data::Data;
pub use value::num::Number;
pub use value::object::Object;

use crate::error::SpecError;
use crate::value::{SpecValue, view_values, lemma_view_values};

verus! {

/// The newest finalised generation of the format.
pub const XFF_VERSION: u8 = 1;

/// What a whole buffer decodes to: the version byte routes to the matching
/// generation, a flat file's values coming back as one array value.
pub open spec fn dec_file(s: Seq<u8>) -> Result<SpecValue, SpecError> {
    if s.len() == 0 {
        Err(SpecError::EmptyInput)
    } else if s.len() == 1 {
        Err(SpecError::MissingMarker(error::MarkerKind::Em, 1))
    } else if s[0] == 0 {
        v0::dec_v0_file(s)
    } else if s[0] == 1 {
        v1::dec_v1_file(s)
    } else {
        Err(SpecError::UnknownVersion(s[0]))
    }
}

/// What encoding a value sequence for a generation gives: the bytes, or the
/// rejection of a value the generation cannot carry.
pub open spec fn enc_file(vs: Seq<SpecValue>, ver: u8) -> Result<Seq<u8>, SpecError> {
    if ver == 0 {
        if forall|q: int| 0 <= q < vs.len() ==> v0::representable_v0(#[trigger] vs[q]) {
            Ok(v0::enc_v0_file(vs))
        } else {
            Err(SpecError::UnsupportedValueForVersion(v0::v0_offender(vs), 0))
        }
    } else if ver == 1 {
        if vs.len() != 1 {
            Err(SpecError::UnsupportedValueForVersion(SpecValue::Array(vs), 1))
        } else if v1::representable_v1(vs[0]) {
            Ok(v1::enc_v1_file(vs[0]))
        } else {
            Err(SpecError::UnsupportedValueForVersion(v1::v1_offender(vs[0]), 1))
        }
    } else {
        Err(SpecError::UnknownVersion(ver))
    }
}

/// Decodes one buffer: reads the version byte and routes to the matching
/// generation's decoder. A buffer whose version byte names no known
/// generation is rejected without reading further.
pub fn deserialize_xff(bytes: &[u8]) -> (r: Result<XffValue, NabuError>)
    ensures
        match dec_file(bytes@) {
            Ok(sv) => r is Ok && r->Ok_0@ == sv,
            Err(e) => r is Err && r->Err_0@ == e,
        },
{
    if bytes.len() == 0 {
        return Err(NabuError::EmptyInput);
    }
    if bytes.len() == 1 {
        return Err(NabuError::MissingMarker(MarkerKind::Em, 1));
    }
    let ver = bytes[0];
    if ver == 0 {
        v0::deserialize_xff_v0(bytes)
    } else if ver == 1 {
        v1::deserialize_xff_v1(bytes)
    } else {
        Err(NabuError::UnknownVersion(ver))
    }
}

/// Encodes a value sequence for the asked-for generation. The recursive
/// generation takes exactly one root value; a value the target generation
/// cannot represent is rejected, never silently downgraded.
pub fn serialize_xff(data: Vec<XffValue>, ver: u8) -> (r: Result<Vec<u8>, NabuError>)
    ensures
        match enc_file(view_values(data@), ver) {
            Ok(b) => r is Ok && r->Ok_0@ == b,
            Err(e) => r is Err && r->Err_0@ == e,
        },
{
    proof {
        lemma_view_values(data@);
    }
    if ver == 0 {
        v0::serialize_xff_v0(data)
    } else if ver == 1 {
        if data.len() != 1 {
            return Err(
                NabuError::UnsupportedValueForVersion(XffValue::Array(Array { values: data }), 1),
            );
        }
        proof {
            assert(view_values(data@)[0] == value::view_value(data@[0]));
        }
        v1::serialize_xff_v1(data)
    } else {
        Err(NabuError::UnknownVersion(ver))
    }
}

} // verus!
