//! Byte-level scenarios for both generations: exact wire forms, error
//! reporting, and the length scheme.

use nabu::length::{deserialize_xff_v1_value_length, encode_length};
use nabu::value::num::number_from_bytes;
use nabu::{
    Array, CommandCharacter, Data, MarkerKind, NabuError, Number, Object, XffValue,
    deserialize_xff, serialize_xff,
};

fn string_value(s: &str) -> XffValue {
    XffValue::String(s.to_string())
}

#[test]
fn v1_string_exact_bytes() {
    // a two-character text: version, tag, length, payload, terminators
    let bytes = serialize_xff(vec![string_value("hi")], 1).unwrap();
    assert_eq!(bytes, vec![1, 1, 1, 2, b'h', b'i', 24, 25]);
    let back = deserialize_xff(&bytes).unwrap();
    assert_eq!(back, string_value("hi"));
}

#[test]
fn v1_array_order_kept() {
    let arr = XffValue::Array(Array {
        values: vec![XffValue::Number(Number::Unsigned(1)), string_value("a")],
    });
    let bytes = serialize_xff(vec![arr.clone()], 1).unwrap();
    let back = deserialize_xff(&bytes).unwrap();
    let items = back.into_array().unwrap();
    assert_eq!(items.len(), 2);
    assert_eq!(items.get(0).unwrap(), &XffValue::Number(Number::Unsigned(1)));
    assert_eq!(items.get(1).unwrap(), &string_value("a"));
    assert_eq!(back, arr);
}

#[test]
fn v0_line_feed_run() {
    // ESC, the line-feed code, ESC, EM: one command character comes back
    let back = deserialize_xff(&[0, 27, 10, 27, 25]).unwrap();
    let items = back.into_array().unwrap();
    assert_eq!(items.len(), 1);
    assert_eq!(
        items.get(0).unwrap(),
        &XffValue::CommandCharacter(CommandCharacter::LineFeed)
    );
}

#[test]
fn v0_escape_symmetry() {
    let val = XffValue::CommandCharacter(CommandCharacter::Escape);
    let bytes = serialize_xff(vec![val.clone()], 0).unwrap();
    assert_eq!(bytes, vec![0, 27, 27, 27, 27, 25]);
    let back = deserialize_xff(&bytes).unwrap();
    let items = back.into_array().unwrap();
    assert_eq!(items.len(), 1);
    assert_eq!(items.get(0).unwrap(), &val);
}

#[test]
fn truncation_detected() {
    for ver in [0u8, 1u8] {
        let data = vec![string_value("hello mom")];
        let mut bytes = serialize_xff(data, ver).unwrap();
        let cut = bytes.len() - 1;
        bytes.truncate(cut);
        match deserialize_xff(&bytes) {
            Err(NabuError::Truncated(p)) => assert_eq!(p, cut),
            other => panic!("expected truncation, got {:?}", other),
        }
    }
}

#[test]
fn unknown_version_rejected() {
    for v in [2u8, 7, 99, 255] {
        match deserialize_xff(&[v, 1, 2, 3]) {
            Err(NabuError::UnknownVersion(b)) => assert_eq!(b, v),
            other => panic!("expected unknown version, got {:?}", other),
        }
    }
}

#[test]
fn empty_and_single_byte_buffers() {
    assert!(matches!(deserialize_xff(&[]), Err(NabuError::EmptyInput)));
    assert!(matches!(
        deserialize_xff(&[1]),
        Err(NabuError::MissingMarker(MarkerKind::Em, 1))
    ));
}

#[test]
fn length_minimality() {
    let one = encode_length(200);
    assert_eq!(one[0], 1);
    assert_eq!(one, vec![1, 200]);
    let two = encode_length(1000);
    assert_eq!(two[0], 2);
    assert_eq!(two, vec![2, 232, 3]);
    let five = encode_length(4294967296);
    assert_eq!(five[0], 5);
    assert_eq!(five, vec![5, 0, 0, 0, 0, 1]);
    // decoding an encoded length is the identity
    for len in [0usize, 1, 200, 255, 256, 1000, 65535, 65536, 4294967296] {
        let field = encode_length(len);
        let mut pos = 0usize;
        let read = deserialize_xff_v1_value_length(field.as_slice(), &mut pos).unwrap();
        assert_eq!(read, len as u64);
        assert_eq!(pos, field.len());
    }
}

#[test]
fn length_descriptor_bounds() {
    let mut pos = 0usize;
    assert!(matches!(
        deserialize_xff_v1_value_length(&[0, 5], &mut pos),
        Err(NabuError::InvalidLength(0))
    ));
    let mut pos = 0usize;
    assert!(matches!(
        deserialize_xff_v1_value_length(&[9, 5], &mut pos),
        Err(NabuError::InvalidLength(9))
    ));
}

#[test]
fn numeric_priority() {
    match number_from_bytes(b"42") {
        Some(Number::Unsigned(u)) => assert_eq!(u, 42),
        other => panic!("expected unsigned, got {:?}", other),
    }
    match number_from_bytes(b"-42") {
        Some(Number::Integer(i)) => assert_eq!(i, -42),
        other => panic!("expected integer, got {:?}", other),
    }
    match number_from_bytes(b"42.5") {
        Some(Number::Float(t)) => assert_eq!(t, "42.5"),
        other => panic!("expected float, got {:?}", other),
    }
    assert!(number_from_bytes(b"abc").is_none());
}

#[test]
fn invalid_number_reported() {
    // version, number tag, length 3, "abc", EV, EM
    let bytes = vec![1u8, 2, 1, 3, b'a', b'b', b'c', 24, 25];
    match deserialize_xff(&bytes) {
        Err(NabuError::InvalidNumber(p, t)) => {
            assert_eq!(p, 4);
            assert_eq!(t, "abc");
        },
        other => panic!("expected invalid number, got {:?}", other),
    }
}

#[test]
fn invalid_key_rejected() {
    // an object whose single entry's key is a number value
    let key = vec![2u8, 1, 2, b'4', b'2', 24];
    let val = vec![0u8];
    let mut payload = vec![29u8];
    payload.extend(&key);
    payload.push(31);
    payload.extend(&val);
    payload.push(29);
    payload.push(30);
    let mut bytes = vec![1u8, 4, 1, payload.len() as u8];
    bytes.extend(&payload);
    bytes.push(24);
    bytes.push(25);
    match deserialize_xff(&bytes) {
        Err(NabuError::InvalidKey(p, v)) => {
            assert_eq!(p, 5);
            assert_eq!(v, XffValue::Number(Number::Unsigned(42)));
        },
        other => panic!("expected invalid key, got {:?}", other),
    }
}

#[test]
fn invalid_text_byte_reported() {
    // a v1 string payload holding byte 7, outside every accepted range
    let bytes = vec![1u8, 1, 1, 1, 7, 24, 25];
    match deserialize_xff(&bytes) {
        Err(NabuError::InvalidByte(b, p, ver)) => {
            assert_eq!(b, 7);
            assert_eq!(p, 4);
            assert_eq!(ver, 1);
        },
        other => panic!("expected invalid byte, got {:?}", other),
    }
    // the same byte as a v0 introducer
    match deserialize_xff(&[0, 7, 25]) {
        Err(NabuError::InvalidByte(b, p, ver)) => {
            assert_eq!(b, 7);
            assert_eq!(p, 1);
            assert_eq!(ver, 0);
        },
        other => panic!("expected invalid byte, got {:?}", other),
    }
}

#[test]
fn missing_markers_reported() {
    // a v1 string whose terminator byte is wrong
    let bytes = vec![1u8, 1, 1, 1, b'x', 99, 25];
    assert!(matches!(
        deserialize_xff(&bytes),
        Err(NabuError::MissingMarker(MarkerKind::Ev, 5))
    ));
    // a v0 blob whose closing marker is wrong
    let bytes = vec![0u8, 16, 1, 0, 0, 0, 0, 9, 99, 25];
    assert!(matches!(
        deserialize_xff(&bytes),
        Err(NabuError::MissingMarker(MarkerKind::Dle, 8))
    ));
}

#[test]
fn array_separator_mismatch() {
    // two nulls split by a wrong separator byte inside an array payload
    let bytes = vec![1u8, 3, 1, 3, 0, 99, 0, 24, 25];
    assert!(matches!(
        deserialize_xff(&bytes),
        Err(NabuError::InvalidStructure(5, 99))
    ));
}

#[test]
fn unsupported_values_rejected() {
    // a container has no flat form
    match serialize_xff(vec![XffValue::Null], 0) {
        Err(NabuError::UnsupportedValueForVersion(v, ver)) => {
            assert_eq!(v, XffValue::Null);
            assert_eq!(ver, 0);
        },
        other => panic!("expected rejection, got {:?}", other),
    }
    // a legacy command character has no recursive form
    let cmd = XffValue::CommandCharacter(CommandCharacter::LineFeed);
    match serialize_xff(vec![cmd.clone()], 1) {
        Err(NabuError::UnsupportedValueForVersion(v, ver)) => {
            assert_eq!(v, cmd);
            assert_eq!(ver, 1);
        },
        other => panic!("expected rejection, got {:?}", other),
    }
    // the recursive generation takes exactly one root value
    assert!(matches!(
        serialize_xff(vec![XffValue::Null, XffValue::Null], 1),
        Err(NabuError::UnsupportedValueForVersion(_, 1))
    ));
    // an unknown target generation
    assert!(matches!(
        serialize_xff(vec![XffValue::Null], 3),
        Err(NabuError::UnknownVersion(3))
    ));
}

#[test]
fn object_api_sorted_and_overwriting() {
    let mut obj = Object::new();
    obj.insert("beta".to_string(), XffValue::Number(Number::Unsigned(2)));
    obj.insert("alpha".to_string(), XffValue::Number(Number::Unsigned(1)));
    obj.insert("beta".to_string(), XffValue::Number(Number::Unsigned(3)));
    assert_eq!(obj.len(), 2);
    assert_eq!(obj.pairs[0].0, "alpha");
    assert_eq!(obj.pairs[1].0, "beta");
    assert_eq!(obj.get("beta"), Some(&XffValue::Number(Number::Unsigned(3))));
    assert!(obj.contains_key("alpha"));
    assert!(!obj.contains_key("gamma"));
    let removed = obj.remove("alpha");
    assert_eq!(removed, Some(XffValue::Number(Number::Unsigned(1))));
    assert_eq!(obj.len(), 1);
}

#[test]
fn value_accessors() {
    let s = string_value("hello mom");
    assert!(s.is_string());
    assert_eq!(s.into_string(), Some("hello mom".to_string()));
    let n = XffValue::Number(Number::Unsigned(42));
    assert!(n.is_number());
    assert_eq!(n.into_string(), Some("42".to_string()));
    assert_eq!(n.into_number().unwrap().into_usize(), Some(42));
    let ni = XffValue::Number(Number::Integer(-7));
    assert_eq!(ni.into_string(), Some("-7".to_string()));
    assert_eq!(ni.into_number().unwrap().into_isize(), Some(-7));
    let nf = XffValue::Number(Number::Float("42.69".to_string()));
    assert_eq!(nf.into_string(), Some("42.69".to_string()));
    let d = XffValue::Data(Data::new(vec![1, 2, 3]));
    assert!(d.is_data());
    assert_eq!(d.into_data().unwrap().into_vec(), vec![1, 2, 3]);
    assert!(XffValue::Boolean(true).is_true());
    assert!(XffValue::Boolean(false).is_false());
    assert_eq!(XffValue::Boolean(true).into_boolean(), Some(true));
    assert!(XffValue::Null.is_null());
    assert_eq!(XffValue::Null.into_null(), Some(()));
    assert_eq!(XffValue::Boolean(true).into_null(), None);
}

#[test]
fn command_character_codes() {
    for b in 0u8..=255 {
        match CommandCharacter::from_u8_checked(b) {
            Some(c) => {
                assert!(b <= 32 || b == 127 || b == 160 || b == 173);
                assert_eq!(c.as_u8(), b);
                assert_eq!(CommandCharacter::from_u8(b), c);
            },
            None => {
                assert!(!(b <= 32 || b == 127 || b == 160 || b == 173));
                assert_eq!(CommandCharacter::from_u8(b), CommandCharacter::Null);
            },
        }
    }
}

#[test]
fn latin1_text_round_trip() {
    // characters above ASCII travel as single bytes and come back unchanged
    let text = "caf\u{e9} na\u{ef}ve \u{fc}ber";
    let bytes = serialize_xff(vec![string_value(text)], 1).unwrap();
    let back = deserialize_xff(&bytes).unwrap();
    assert_eq!(back.into_string(), Some(text.to_string()));
}
