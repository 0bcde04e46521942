//! Whole-buffer round trips through the recursive generation.

use nabu::{Array, Data, Number, Object, XffValue, deserialize_xff, serialize_xff};

fn string_value(s: &str) -> XffValue {
    XffValue::String(s.to_string())
}

fn float_value(s: &str) -> XffValue {
    XffValue::Number(Number::Float(s.to_string()))
}

fn array_value(values: Vec<XffValue>) -> XffValue {
    XffValue::Array(Array { values })
}

fn object_value(pairs: Vec<(&str, XffValue)>) -> XffValue {
    let mut obj = Object::new();
    for (k, v) in pairs {
        obj.insert(k.to_string(), v);
    }
    XffValue::Object(obj)
}

fn round_trip(value: XffValue) -> XffValue {
    let bytes = serialize_xff(vec![value], 1).expect("value should encode");
    deserialize_xff(&bytes).expect("encoded value should decode")
}

fn pseudo_random_data(len: usize) -> Vec<u8> {
    let mut out = Vec::with_capacity(len);
    let mut state: u64 = 0x2545F4914F6CDD1D;
    for _ in 0..len {
        state = state.wrapping_mul(6364136223846793005).wrapping_add(1442695040888963407);
        out.push((state >> 33) as u8);
    }
    out
}

#[test]
fn primitive_values() {
    let lorem_short = "Lorem ipsum dolor sit amet, qui minim labore adipisicing minim sint cillum sint consectetur cupidatat.";
    let lorem_long = "Lorem ipsum dolor sit amet, officia excepteur ex fugiat reprehenderit enim labore culpa sint ad nisi Lorem pariatur mollit ex esse exercitation amet. Nisi anim cupidatat excepteur officia. Reprehenderit nostrud nostrud ipsum Lorem est aliquip amet voluptate voluptate dolor minim nulla est proident. Nostrud officia pariatur ut officia. Sit irure elit esse ea nulla sunt ex occaecat reprehenderit commodo officia dolor Lorem duis laboris cupidatat officia voluptate. Culpa proident adipisicing id nulla nisi laboris ex in Lorem sunt duis officia eiusmod. Aliqua reprehenderit commodo ex non excepteur duis sunt velit enim. Voluptate laboris sint cupidatat ullamco ut ea consectetur et est culpa et culpa duis.";
    let xff_val = array_value(vec![
        string_value("hello mom"),
        XffValue::Number(Number::Unsigned(255)),
        XffValue::Number(Number::Integer(-128)),
        float_value("42.69"),
        XffValue::Boolean(true),
        XffValue::Boolean(false),
        XffValue::Null,
        string_value(lorem_short),
        string_value(lorem_long),
    ]);
    assert!(xff_val.is_array());
    let read = round_trip(xff_val.clone());
    assert!(read.is_array());
    assert_eq!(read, xff_val);
}

#[test]
fn escape_chars() {
    let xff_val = array_value(vec![
        string_value("hello\x08mom"),
        string_value("hello\x09mom"),
        string_value("hello\x0Amom"),
        string_value("hello\x0Bmom"),
        string_value("hello\x0Cmom"),
        string_value("hello\x0Dmom"),
        string_value("hello\\mom"),
        string_value("hello\"mom"),
        string_value("hello'mom"),
    ]);
    assert!(xff_val.is_array());
    let read = round_trip(xff_val.clone());
    assert!(read.is_array());
    assert_eq!(read, xff_val);
}

#[test]
fn data() {
    let small_data = XffValue::Data(Data::new(pseudo_random_data(100)));
    let medium_data = XffValue::Data(Data::new(pseudo_random_data(10_000)));
    let large_data = XffValue::Data(Data::new(pseudo_random_data(1_000_000)));
    let xff_val = array_value(vec![small_data, medium_data, large_data]);
    assert!(xff_val.is_array());
    let read = round_trip(xff_val.clone());
    assert!(read.is_array());
    assert_eq!(read, xff_val);
}

#[test]
fn object() {
    let map_small = object_value(vec![
        ("key0", string_value("value0")),
        ("key1", XffValue::Number(Number::Integer(-42))),
        ("key2", XffValue::Data(Data::new(vec![0, 1, 2, 3, 4, 5, 6, 7, 8, 9]))),
    ]);
    let map_medium = object_value(vec![
        ("key0", string_value("value0")),
        ("key1", XffValue::Number(Number::Integer(-42))),
        ("key2", float_value("-420.69")),
        ("key3", XffValue::Data(Data::new(vec![0, 1, 2, 3, 4, 5, 6, 7, 8, 9]))),
        ("key4", object_value(vec![("key", float_value("42.69"))])),
        ("key5", float_value("42.69")),
        ("key6", XffValue::Boolean(true)),
        ("key7", XffValue::Boolean(false)),
        ("key8", array_value(vec![string_value("hello"), float_value("42.69")])),
        ("key9", XffValue::Null),
        ("key10", float_value("54642.69")),
        ("key11", string_value("lorem ipsum")),
        ("key12", string_value("Lorem ipsum dolor sit amet, qui minim labore.")),
        ("key13", string_value("Lorem ipsum dolor sit amet, officia excepteur ex fugiat.")),
        ("key14", string_value("Lorem ipsum dolor sit amet, consectetur adipisicing elit.")),
        ("key15", XffValue::Boolean(true)),
        ("key16", XffValue::Boolean(false)),
        ("key17", array_value(vec![string_value("hello"), float_value("42.69")])),
        ("key18", object_value(vec![("key", float_value("42.69"))])),
        ("key19", float_value("42.69")),
    ]);
    let xff_val = object_value(vec![("key0", map_small), ("key1", map_medium)]);
    assert!(xff_val.is_object());
    let read = round_trip(xff_val.clone());
    assert!(read.is_object());
    assert_eq!(read, xff_val);
}

#[test]
fn singeltons() {
    let xff_string = string_value("hello mom");
    let xff_number_f = float_value("42.69");
    let xff_number_i = XffValue::Number(Number::Integer(-42));
    let xff_number_u = XffValue::Number(Number::Unsigned(usize::MAX));
    let xff_boolean_t = XffValue::Boolean(true);
    let xff_boolean_f = XffValue::Boolean(false);
    let xff_null = XffValue::Null;
    let xff_data = XffValue::Data(Data::new(vec![0, 1, 2, 3, 4, 5, 6, 7, 8, 9]));
    let xff_array = array_value(vec![string_value("hello"), float_value("42.69")]);
    let xff_object = object_value(vec![("key", float_value("42.69"))]);

    assert_eq!(round_trip(xff_string.clone()), xff_string);
    assert_eq!(round_trip(xff_number_f.clone()), xff_number_f);
    assert_eq!(round_trip(xff_number_i.clone()), xff_number_i);
    assert_eq!(round_trip(xff_number_u.clone()), xff_number_u);
    assert_eq!(round_trip(xff_boolean_t.clone()), xff_boolean_t);
    assert_eq!(round_trip(xff_boolean_f.clone()), xff_boolean_f);
    assert_eq!(round_trip(xff_null.clone()), xff_null);
    assert_eq!(round_trip(xff_data.clone()), xff_data);
    assert_eq!(round_trip(xff_array.clone()), xff_array);
    assert_eq!(round_trip(xff_object.clone()), xff_object);
}

#[test]
fn complete_array() {
    let values = vec![
        string_value("hello"),
        float_value("42.69"),
        XffValue::Boolean(true),
        array_value(vec![string_value("hello"), float_value("42.69")]),
        object_value(vec![("key", float_value("42.69"))]),
        XffValue::Number(Number::Unsigned(u8::MAX as usize)),
        XffValue::Number(Number::Unsigned(u16::MAX as usize)),
        XffValue::Number(Number::Unsigned(u32::MAX as usize)),
        XffValue::Number(Number::Unsigned(u64::MAX as usize)),
        XffValue::Number(Number::Integer(i8::MIN as isize)),
        XffValue::Number(Number::Integer(i16::MIN as isize)),
        XffValue::Number(Number::Integer(i32::MIN as isize)),
        XffValue::Number(Number::Integer(i64::MIN as isize)),
        float_value("42.69"),
        float_value("69.42"),
        string_value("hello"),
        XffValue::Data(Data::new(vec![
            1, 2, 3, 4, 5, 6, 7, 8, 9, 10, 11, 12, 13, 14, 15, 16, 17, 18, 19, 20,
        ])),
        XffValue::Boolean(false),
        XffValue::Null,
    ];
    let root = array_value(values.clone());
    let read = round_trip(root);
    let arr = read.into_array().unwrap();
    assert_eq!(arr.len(), values.len());
    for (n, expected) in values.iter().enumerate() {
        assert_eq!(arr.get(n).unwrap(), expected);
    }
}

#[test]
fn create_simulated_data() {
    // a wide mix of values, deterministic stand-ins for generated data
    let mut data: Vec<XffValue> = Vec::new();
    let mut gen_len = 9000;
    let mut state: u64 = 42;
    while gen_len > 0 {
        state = state.wrapping_mul(6364136223846793005).wrapping_add(1442695040888963407);
        let pick = (state >> 33) % 7;
        let value = match pick {
            0 => string_value("hello mom"),
            1 => XffValue::Number(Number::Unsigned((state >> 17) as usize)),
            2 => XffValue::Number(Number::Integer(-((state >> 17) as isize) - 1)),
            3 => float_value("42.69"),
            4 => XffValue::Boolean(gen_len % 2 == 0),
            5 => XffValue::Null,
            _ => XffValue::Data(Data::new(pseudo_random_data((state % 50) as usize))),
        };
        data.push(value);
        gen_len -= 1;
    }
    let root = array_value(data);
    let read = round_trip(root.clone());
    assert_eq!(read, root);
}
