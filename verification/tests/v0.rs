//! Whole-buffer round trips through the flat generation.

use nabu::{CommandCharacter, Data, Number, XffValue, deserialize_xff, serialize_xff};

fn string_value(s: &str) -> XffValue {
    XffValue::String(s.to_string())
}

fn float_value(s: &str) -> XffValue {
    XffValue::Number(Number::Float(s.to_string()))
}

fn round_trip(data: Vec<XffValue>) -> Vec<XffValue> {
    let bytes = serialize_xff(data, 0).expect("values should encode");
    let back = deserialize_xff(&bytes).expect("encoded values should decode");
    back.into_array().expect("a flat file decodes to an array").into_vec()
}

fn pseudo_random_data(len: usize) -> Vec<u8> {
    let mut out = Vec::with_capacity(len);
    let mut state: u64 = 0x9E3779B97F4A7C15;
    for _ in 0..len {
        state = state.wrapping_mul(6364136223846793005).wrapping_add(1442695040888963407);
        out.push((state >> 33) as u8);
    }
    out
}

#[test]
fn v0_serializer_deserializer_bare_bones() {
    let data = vec![string_value("hello mom")];
    let ok = round_trip(data.clone());
    assert_eq!(ok[0], data[0]);
}

#[test]
fn v0_serializer_deserializer_basic() {
    let data = vec![
        string_value("hello mom"),
        XffValue::Number(Number::Unsigned(42)),
        XffValue::Number(Number::Integer(-42)),
        XffValue::Number(Number::Unsigned(u16::MAX as usize)),
        XffValue::Number(Number::Integer(i16::MIN as isize)),
        XffValue::Number(Number::Unsigned(u32::MAX as usize)),
        XffValue::Number(Number::Integer(i32::MIN as isize)),
        XffValue::Number(Number::Unsigned(u64::MAX as usize)),
        XffValue::Number(Number::Integer(i64::MIN as isize)),
        float_value("42.2"),
        float_value("-42.2"),
        float_value("4222.222"),
        float_value("0.4222222"),
        float_value("-4222.222"),
        float_value("-0.4222222"),
    ];
    let ok = round_trip(data.clone());
    assert_eq!(ok.len(), data.len());
    for n in 0..ok.len() {
        assert_eq!(ok[n], data[n]);
    }
}

#[test]
fn v0_string_to_number() {
    // a text that parses as a number comes back as that number: the
    // documented legacy quirk of the flat generation
    let texts = [
        "42.22222E2", "42.22222E+2", "42.22222E-2", "-42.22222E2", "-42.22222E-2",
        "-42.22222E+2", "42.22222e2", "42.22222e+2", "42.22222e-2", "-42.22222e2",
        "-42.22222e-2", "-42.22222e+2", "42.22222E222", "42.22222E+222", "42.22222E-222",
        "-42.22222E222", "-42.22222E-222", "-42.22222E+222",
    ];
    let data: Vec<XffValue> = texts.iter().map(|t| string_value(t)).collect();
    let checked_data: Vec<XffValue> = texts.iter().map(|t| float_value(t)).collect();
    let ok = round_trip(data);
    assert_eq!(ok.len(), checked_data.len());
    for n in 0..ok.len() {
        assert_eq!(ok[n], checked_data[n]);
    }
}

#[test]
fn v0_serializer_deserializer_cmd_chars() {
    let data = vec![
        XffValue::CommandCharacter(CommandCharacter::Null),
        XffValue::CommandCharacter(CommandCharacter::StartOfHeading),
        XffValue::CommandCharacter(CommandCharacter::StartOfText),
        XffValue::CommandCharacter(CommandCharacter::EndOfText),
        XffValue::CommandCharacter(CommandCharacter::EndOfTransmission),
        XffValue::CommandCharacter(CommandCharacter::Enquiry),
        XffValue::CommandCharacter(CommandCharacter::Acknowledge),
        XffValue::CommandCharacter(CommandCharacter::Bell),
        XffValue::CommandCharacter(CommandCharacter::Backspace),
        XffValue::CommandCharacter(CommandCharacter::HorizontalTab),
        XffValue::CommandCharacter(CommandCharacter::LineFeed),
        XffValue::CommandCharacter(CommandCharacter::VerticalTab),
        XffValue::CommandCharacter(CommandCharacter::FormFeed),
        XffValue::CommandCharacter(CommandCharacter::CarriageReturn),
        XffValue::CommandCharacter(CommandCharacter::ShiftOut),
        XffValue::CommandCharacter(CommandCharacter::ShiftIn),
        XffValue::CommandCharacter(CommandCharacter::DataLinkEscape),
        XffValue::CommandCharacter(CommandCharacter::DeviceControl1),
        XffValue::CommandCharacter(CommandCharacter::DeviceControl2),
        XffValue::CommandCharacter(CommandCharacter::DeviceControl3),
        XffValue::CommandCharacter(CommandCharacter::DeviceControl4),
        XffValue::CommandCharacter(CommandCharacter::NegativeAcknowledge),
        XffValue::CommandCharacter(CommandCharacter::SynchronousIdle),
        XffValue::CommandCharacter(CommandCharacter::EndOfTransmitBlock),
        XffValue::CommandCharacter(CommandCharacter::Cancel),
        XffValue::CommandCharacter(CommandCharacter::EndOfMedium),
        XffValue::CommandCharacter(CommandCharacter::Substitute),
        XffValue::CommandCharacter(CommandCharacter::Escape),
        XffValue::CommandCharacter(CommandCharacter::FileSeparator),
        XffValue::CommandCharacter(CommandCharacter::GroupSeparator),
        XffValue::CommandCharacter(CommandCharacter::RecordSeparator),
        XffValue::CommandCharacter(CommandCharacter::UnitSeparator),
        XffValue::CommandCharacter(CommandCharacter::Space),
        XffValue::CommandCharacter(CommandCharacter::Delete),
        XffValue::CommandCharacter(CommandCharacter::NonBreakingSpace),
        XffValue::CommandCharacter(CommandCharacter::SoftHyphen),
    ];
    let ok = round_trip(data.clone());
    assert_eq!(ok.len(), data.len());
    for n in 0..ok.len() {
        assert_eq!(ok[n], data[n]);
    }
}

#[test]
fn v0_data() {
    let bin_data0 = pseudo_random_data(4096);
    let bin_data1 = pseudo_random_data(1024);
    let bin_data2 = pseudo_random_data(16384);
    let data = vec![
        string_value("Padding"),
        XffValue::Data(Data { len: bin_data0.len(), data: bin_data0 }),
        float_value("4.222222e-221"),
        XffValue::CommandCharacter(CommandCharacter::UnitSeparator),
        XffValue::CommandCharacter(CommandCharacter::Space),
        XffValue::CommandCharacter(CommandCharacter::Delete),
        XffValue::CommandCharacter(CommandCharacter::NonBreakingSpace),
        XffValue::CommandCharacter(CommandCharacter::SoftHyphen),
        float_value("-4.222222e223"),
        string_value("Padding"),
        XffValue::Data(Data { len: bin_data1.len(), data: bin_data1 }),
        string_value("Padding"),
        float_value("-4.222222e-221"),
        float_value("4.222222e223"),
        string_value("Padding"),
        XffValue::Data(Data { len: bin_data2.len(), data: bin_data2 }),
        string_value("Padding"),
        XffValue::CommandCharacter(CommandCharacter::LineFeed),
        XffValue::CommandCharacter(CommandCharacter::VerticalTab),
        string_value("Padding"),
        XffValue::CommandCharacter(CommandCharacter::Escape),
    ];
    let ok = round_trip(data.clone());
    assert_eq!(ok.len(), data.len());
    for n in 0..ok.len() {
        assert_eq!(ok[n], data[n]);
    }
}

#[test]
fn v0_complex_data() {
    let data = vec![
        string_value("Padding"),
        XffValue::Data(Data::new(pseudo_random_data(100_000))),
        float_value("4.222222e-221"),
        XffValue::CommandCharacter(CommandCharacter::UnitSeparator),
        XffValue::Data(Data::new(pseudo_random_data(50_000))),
        XffValue::CommandCharacter(CommandCharacter::SoftHyphen),
        float_value("-4.222222e223"),
        string_value("Padding"),
        XffValue::Data(Data::new(pseudo_random_data(25_000))),
        string_value("Padding"),
        XffValue::CommandCharacter(CommandCharacter::LineFeed),
        XffValue::CommandCharacter(CommandCharacter::DeviceControl4),
        string_value("Padding"),
        XffValue::CommandCharacter(CommandCharacter::Escape),
        XffValue::Data(Data::new(pseudo_random_data(75_000))),
    ];
    let ok = round_trip(data.clone());
    assert_eq!(ok.len(), data.len());
    for n in 0..ok.len() {
        assert_eq!(ok[n], data[n]);
    }
}

#[test]
fn v0_create_simulated_data() {
    // a long flat sequence, deterministic stand-ins for generated data
    let mut data: Vec<XffValue> = Vec::new();
    let mut gen_len = 100_000;
    let mut state: u64 = 7;
    while gen_len > 0 {
        state = state.wrapping_mul(6364136223846793005).wrapping_add(1442695040888963407);
        let value = match (state >> 33) % 4 {
            0 => string_value("hello mom"),
            1 => XffValue::Number(Number::Unsigned((state >> 17) as usize)),
            2 => XffValue::CommandCharacter(CommandCharacter::from_u8((state % 33) as u8)),
            _ => XffValue::Data(Data::new(vec![(state % 256) as u8; (state % 10) as usize])),
        };
        data.push(value);
        gen_len -= 1;
    }
    let ok = round_trip(data.clone());
    assert_eq!(ok.len(), data.len());
    assert_eq!(ok, data);
}
