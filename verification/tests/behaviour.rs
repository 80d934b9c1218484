use amf0::double::millis_from_double;
use amf0::double::valid_millis;
use amf0::marker;
use amf0::read;
use amf0::table::ReferenceTable;
use amf0::Buffer;
use amf0::ByteSource;
use amf0::DecodeError;
use amf0::Decoder;
use amf0::DecodeResult;
use amf0::Embedded;
use amf0::IoFault;
use amf0::MAX_DEPTH;
use amf0::NoSibling;
use amf0::NoValue;
use amf0::Pair;
use amf0::SiblingDecoder;
use amf0::Value;
use std::io::Read;

type Plain = Value<NoValue>;

fn decode_bytes(bytes: &[u8]) -> DecodeResult<Plain> {
    Decoder::new(Buffer::from_slice(bytes)).decode()
}

fn number(bits: u64) -> Vec<u8> {
    let mut bytes = vec![marker::NUMBER];
    bytes.extend_from_slice(&bits.to_be_bytes());
    bytes
}

fn text(s: &str) -> Vec<u8> {
    let mut bytes = (s.len() as u16).to_be_bytes().to_vec();
    bytes.extend_from_slice(s.as_bytes());
    bytes
}

fn string(s: &str) -> Vec<u8> {
    let mut bytes = vec![marker::STRING];
    bytes.extend(text(s));
    bytes
}

fn date(millis: f64, time_zone: i16) -> Vec<u8> {
    let mut bytes = vec![marker::DATE];
    bytes.extend_from_slice(&millis.to_bits().to_be_bytes());
    bytes.extend_from_slice(&time_zone.to_be_bytes());
    bytes
}

fn reference(index: u16) -> Vec<u8> {
    let mut bytes = vec![marker::REFERENCE];
    bytes.extend_from_slice(&index.to_be_bytes());
    bytes
}

fn object(pairs: &[(&str, Vec<u8>)]) -> Vec<u8> {
    let mut bytes = vec![marker::OBJECT];
    for (key, value) in pairs {
        bytes.extend(text(key));
        bytes.extend_from_slice(value);
    }
    bytes.extend_from_slice(&[0, 0, marker::OBJECT_END_MARKER]);
    bytes
}

fn array(values: &[Vec<u8>]) -> Vec<u8> {
    let mut bytes = vec![marker::STRICT_ARRAY];
    bytes.extend_from_slice(&(values.len() as u32).to_be_bytes());
    for value in values {
        bytes.extend_from_slice(value);
    }
    bytes
}

fn pair(key: &str, value: Plain) -> Pair<String, Plain> {
    Pair { key: key.to_string(), value }
}

fn plain_object(entries: Vec<Pair<String, Plain>>) -> Plain {
    Value::Object { class_name: None, entries }
}

fn s(text: &str) -> Plain {
    Value::String(text.to_string())
}

fn eof<T>() -> DecodeResult<T> {
    Err(DecodeError::Io(IoFault::UnexpectedEof))
}

#[test]
fn number_keeps_every_bit() {
    let patterns = [
        0x0000_0000_0000_0000,
        0x8000_0000_0000_0000,
        0x0000_0000_0000_0001,
        0x800f_ffff_ffff_ffff,
        0x0010_0000_0000_0000,
        0x7fef_ffff_ffff_ffff,
        0x3ff0_0000_0000_0000,
        0x0102_0304_0506_0708,
        0xfedc_ba98_7654_3210,
    ];
    for bits in patterns {
        assert_eq!(decode_bytes(&number(bits)), Ok(Value::Number(bits)));
    }
    assert_eq!(decode_bytes(&number((-0.0f64).to_bits())), Ok(Value::Number(1 << 63)));
    assert_eq!(
        decode_bytes(&[0x00, 0x40, 0x09, 0x21, 0xfb, 0x54, 0x44, 0x2d, 0x18]),
        Ok(Value::Number(std::f64::consts::PI.to_bits()))
    );
}

#[test]
fn nan_and_infinity_are_not_normalized() {
    let patterns = [
        0x7ff0_0000_0000_0000,
        0xfff0_0000_0000_0000,
        0x7ff8_0000_0000_0000,
        0xfff8_0000_0000_0000,
        0x7ff0_0000_0000_0001,
        0x7ff4_0000_dead_beef,
        0xfff7_ffff_ffff_ffff,
        0x7fff_ffff_ffff_ffff,
    ];
    for bits in patterns {
        assert_eq!(decode_bytes(&number(bits)), Ok(Value::Number(bits)));
    }
}

#[test]
fn boolean_is_true_for_every_nonzero_byte() {
    assert_eq!(decode_bytes(&[marker::BOOLEAN, 0]), Ok(Value::Boolean(false)));
    for byte in 1..=255u8 {
        assert_eq!(decode_bytes(&[marker::BOOLEAN, byte]), Ok(Value::Boolean(true)));
    }
}

#[test]
fn null_and_undefined_read_only_their_marker() {
    let mut decoder = Decoder::new(Buffer::new(vec![
        marker::NULL,
        marker::UNDEFINED,
        marker::NULL,
        marker::BOOLEAN,
        1,
    ]));
    assert_eq!(decoder.decode(), Ok(Value::Null));
    assert_eq!(decoder.inner().remaining(), 4);
    assert_eq!(decoder.decode(), Ok(Value::Undefined));
    assert_eq!(decoder.inner().remaining(), 3);
    assert_eq!(decoder.decode(), Ok(Value::Null));
    assert_eq!(decoder.decode(), Ok(Value::Boolean(true)));
    assert_eq!(decoder.inner().remaining(), 0);
    assert_eq!(decoder.decode(), eof());
}

#[test]
fn references_stand_for_copies_of_a_finished_value() {
    let a = object(&[("foo", string("baz")), ("bar", number(7))]);
    let outer = object(&[("first", reference(0)), ("second", reference(0))]);
    let mut input = a.clone();
    input.extend(outer);
    let mut decoder = Decoder::new(Buffer::new(input));

    let expected_a = plain_object(vec![pair("foo", s("baz")), pair("bar", Value::Number(7))]);
    assert_eq!(decoder.decode(), Ok(expected_a.clone()));
    let outer = decoder.decode().unwrap();
    assert_eq!(
        outer,
        plain_object(vec![pair("first", expected_a.clone()), pair("second", expected_a.clone())])
    );

    if let Value::Object { mut entries, .. } = outer {
        let second = entries.pop().unwrap();
        let mut first = entries.pop().unwrap();
        if let Value::Object { entries, .. } = &mut first.value {
            entries.clear();
        }
        assert_eq!(first.value, plain_object(vec![]));
        assert_eq!(second.value, expected_a);
    } else {
        unreachable!();
    }
}

#[test]
fn reference_to_a_value_under_way_is_circular() {
    assert_eq!(
        decode_bytes(&object(&[("me", reference(0))])),
        Err(DecodeError::CircularReference { index: 0 })
    );
    let nested = object(&[("inner", array(&[reference(1)]))]);
    assert_eq!(decode_bytes(&nested), Err(DecodeError::CircularReference { index: 1 }));
    let to_outer = object(&[("inner", array(&[reference(0)]))]);
    assert_eq!(decode_bytes(&to_outer), Err(DecodeError::CircularReference { index: 0 }));
}

#[test]
fn reference_past_the_table_is_out_of_range() {
    assert_eq!(decode_bytes(&reference(0)), Err(DecodeError::OutOfRangeReference { index: 0 }));
    assert_eq!(
        decode_bytes(&object(&[("x", reference(1))])),
        Err(DecodeError::OutOfRangeReference { index: 1 })
    );
    assert_eq!(
        decode_bytes(&reference(0x0102)),
        Err(DecodeError::OutOfRangeReference { index: 258 })
    );
    assert_eq!(
        decode_bytes(&reference(0xffff)),
        Err(DecodeError::OutOfRangeReference { index: 65535 })
    );
}

#[test]
fn finished_null_is_not_taken_for_a_reserved_slot() {
    let input = array(&[array(&[]), reference(1)]);
    assert_eq!(
        decode_bytes(&input),
        Ok(Value::Array {
            entries: vec![Value::Array { entries: vec![] }, Value::Array { entries: vec![] }]
        })
    );
}

#[test]
fn table_lives_across_calls_until_it_is_cleared() {
    let mut input = array(&[Vec::from([marker::NULL])]);
    input.extend(reference(0));
    input.extend(reference(0));
    let mut decoder = Decoder::new(Buffer::new(input));
    let first = decoder.decode().unwrap();
    assert_eq!(first, Value::Array { entries: vec![Value::Null] });
    assert_eq!(decoder.decode(), Ok(first));
    decoder.clear_reference_table();
    assert_eq!(decoder.decode(), Err(DecodeError::OutOfRangeReference { index: 0 }));
}

#[test]
fn failed_value_leaves_its_slot_reserved() {
    let mut decoder = Decoder::new(Buffer::new(vec![marker::OBJECT, 0, 1, b'a']));
    assert_eq!(decoder.decode(), eof());
    *decoder.inner_mut() = Buffer::new(reference(0));
    assert_eq!(decoder.decode(), Err(DecodeError::CircularReference { index: 0 }));
    *decoder.inner_mut() = Buffer::new(reference(1));
    assert_eq!(decoder.decode(), Err(DecodeError::OutOfRangeReference { index: 1 }));
}

#[test]
fn empty_key_and_end_mark_close_the_pairs() {
    assert_eq!(decode_bytes(&[marker::OBJECT, 0, 0, 9]), Ok(plain_object(vec![])));
    assert_eq!(
        decode_bytes(&[marker::ECMA_ARRAY, 0, 0, 0, 7, 0, 0, 9]),
        Ok(Value::EcmaArray { entries: vec![] })
    );
    assert_eq!(
        decode_bytes(&object(&[("", Vec::from([marker::NULL]))])),
        Ok(plain_object(vec![pair("", Value::Null)]))
    );
}

#[test]
fn end_mark_after_a_key_is_an_error() {
    let mut input = vec![marker::OBJECT];
    input.extend(text("key"));
    input.push(marker::OBJECT_END_MARKER);
    assert_eq!(decode_bytes(&input), Err(DecodeError::UnexpectedObjectEnd));
    assert_eq!(decode_bytes(&[marker::OBJECT_END_MARKER]), Err(DecodeError::UnexpectedObjectEnd));
}

#[test]
fn end_mark_deep_under_an_empty_key_is_an_error() {
    let mut stray = vec![marker::STRICT_ARRAY, 0, 0, 0, 1, marker::OBJECT_END_MARKER];
    stray.extend_from_slice(&[0, 0, marker::OBJECT_END_MARKER]);
    let input = object(&[("", stray)]);
    assert_eq!(decode_bytes(&input), Err(DecodeError::UnexpectedObjectEnd));
}

#[test]
fn date_refuses_doubles_that_are_no_time() {
    let refused = [-1.0, f64::INFINITY, f64::NEG_INFINITY, f64::NAN, -f64::NAN, -1e-320, -5e-324];
    for millis in refused {
        assert_eq!(
            decode_bytes(&date(millis, 0)),
            Err(DecodeError::InvalidDate { millis: millis.to_bits() })
        );
    }
}

#[test]
fn date_takes_both_zeros() {
    for time_zone in [0, -1, 540] {
        assert_eq!(
            decode_bytes(&date(0.0, time_zone)),
            Ok(Value::Date { unix_time: 0, time_zone })
        );
        assert_eq!(
            decode_bytes(&date(-0.0, time_zone)),
            Ok(Value::Date { unix_time: 0, time_zone })
        );
    }
    assert_eq!(
        decode_bytes(&[marker::DATE, 0x80, 0, 0, 0, 0, 0, 0, 0, 0, 0]),
        Ok(Value::Date { unix_time: 0, time_zone: 0 })
    );
    assert_eq!(
        decode_bytes(&[marker::DATE, 0x80, 0, 0, 0, 0, 0, 0, 1, 0, 0]),
        Err(DecodeError::InvalidDate { millis: 0x8000_0000_0000_0001 })
    );
}

#[test]
fn date_keeps_the_offset_beside_the_time() {
    for time_zone in [0, 1, -1, 330, -480, 256, -256, i16::MAX, i16::MIN] {
        assert_eq!(
            decode_bytes(&date(0.0, time_zone)),
            Ok(Value::Date { unix_time: 0, time_zone })
        );
        assert_eq!(
            decode_bytes(&date(86_400_000.0, time_zone)),
            Ok(Value::Date { unix_time: 86_400_000, time_zone })
        );
    }
    assert_eq!(
        decode_bytes(&[marker::DATE, 0x40, 0x8f, 0x40, 0, 0, 0, 0, 0, 0xff, 0xfe]),
        Ok(Value::Date { unix_time: 1000, time_zone: -2 })
    );
}

#[test]
fn date_millis_are_the_double_rounded_towards_zero() {
    let doubles = [
        0.0,
        5e-324,
        0.5,
        0.999_999_999,
        1.0,
        1.5,
        1.999_999_999,
        2.0,
        1000.0,
        1_590_796_800_000.0,
        1_590_796_800_000.75,
        4_503_599_627_370_495.5,
        4_503_599_627_370_496.0,
        9_007_199_254_740_991.0,
        9_007_199_254_740_992.0,
        9_223_372_036_854_775_808.0,
        18_446_744_073_709_549_568.0,
        18_446_744_073_709_551_616.0,
        1e20,
        1e300,
        f64::MAX,
        f64::MIN_POSITIVE,
    ];
    for double in doubles {
        let bits = double.to_bits();
        assert!(valid_millis(bits));
        assert_eq!(millis_from_double(bits), double as u64, "for {}", double);
        assert_eq!(
            decode_bytes(&date(double, 7)),
            Ok(Value::Date { unix_time: double as u64, time_zone: 7 })
        );
    }
    assert!(valid_millis((-0.0f64).to_bits()));
    assert_eq!(millis_from_double((-0.0f64).to_bits()), 0);
    let others = [
        -5e-324,
        -0.5,
        -1.0,
        -1e300,
        f64::NEG_INFINITY,
        f64::INFINITY,
        f64::NAN,
        -f64::NAN,
        f64::from_bits(0x7ff0_0000_0000_0001),
        f64::from_bits(0xfff8_0000_0000_0001),
    ];
    for double in others {
        assert!(!valid_millis(double.to_bits()));
        assert_eq!(millis_from_double(double.to_bits()), double as u64, "for {}", double);
    }
    let mut bits: u64 = 0x9e37_79b9_7f4a_7c15;
    for _ in 0..10_000 {
        bits = bits.wrapping_mul(0x5851_f42d_4c95_7f2d).wrapping_add(0x1405_7b7e_f767_814f);
        let sample = bits ^ (bits >> 29);
        assert_eq!(millis_from_double(sample), f64::from_bits(sample) as u64, "for {:x}", sample);
        let double = f64::from_bits(sample);
        assert_eq!(valid_millis(sample), double.is_finite() && double >= 0.0);
        let near = (sample & 0x800f_ffff_ffff_ffff) | ((1000 + (sample >> 52) % 100) << 52);
        assert_eq!(millis_from_double(near), f64::from_bits(near) as u64, "for {:x}", near);
    }
    assert_eq!(millis_from_double(1.9f64.to_bits()), 1);
    assert_eq!(millis_from_double(1e300f64.to_bits()), u64::MAX);
    assert_eq!(
        millis_from_double(18_446_744_073_709_549_568.0f64.to_bits()),
        0xffff_ffff_ffff_f800
    );
    assert!(!valid_millis((-5e-324f64).to_bits()));
    assert!(!valid_millis(f64::NAN.to_bits()));
    assert!(!valid_millis(f64::INFINITY.to_bits()));
}

#[test]
fn every_truncation_of_a_value_ends_early() {
    let mut typed = vec![marker::TYPED_OBJECT];
    typed.extend(text("Class"));
    typed.extend(text("when"));
    typed.extend(date(12.0, -60));
    typed.extend_from_slice(&[0, 0, marker::OBJECT_END_MARKER]);
    let mut xml = vec![marker::XML_DOCUMENT, 0, 0, 0, 4];
    xml.extend_from_slice(b"<a/>");
    let mut long = vec![marker::LONG_STRING, 0, 0, 0, 3];
    long.extend_from_slice(b"abc");
    let mut ecma = vec![marker::ECMA_ARRAY, 0, 0, 0, 1];
    ecma.extend(text("k"));
    ecma.extend(reference(1));
    ecma.extend_from_slice(&[0, 0, marker::OBJECT_END_MARKER]);
    let input = object(&[
        ("n", number(1)),
        ("b", vec![marker::BOOLEAN, 1]),
        ("s", string("テスト")),
        ("t", typed),
        ("x", xml),
        ("l", long),
        ("a", array(&[Vec::from([marker::NULL]), Vec::from([marker::UNDEFINED])])),
        ("r", reference(2)),
        ("e", ecma),
    ]);
    let whole = decode_bytes(&input);
    assert!(whole.is_ok(), "{:?}", whole);
    for len in 0..input.len() {
        assert_eq!(decode_bytes(&input[..len]), eof(), "cut at {}", len);
    }
}

#[test]
fn value_reads_no_byte_of_what_follows() {
    let value = object(&[("k", array(&[string("v"), number(3)]))]);
    let expected = decode_bytes(&value).unwrap();
    for tail in [vec![], vec![0u8], vec![9, 9, 9], value.clone()] {
        let mut input = value.clone();
        input.extend_from_slice(&tail);
        let mut decoder = Decoder::new(Buffer::new(input));
        assert_eq!(decoder.decode().as_ref(), Ok(&expected));
        assert_eq!(decoder.into_inner().remaining(), tail.len());
    }
}

#[test]
fn strict_array_holds_its_values_in_order() {
    let input = array(&[number(1), string("two"), vec![marker::BOOLEAN, 3]]);
    assert_eq!(
        decode_bytes(&input),
        Ok(Value::Array { entries: vec![Value::Number(1), s("two"), Value::Boolean(true)] })
    );
    assert_eq!(
        decode_bytes(&[marker::STRICT_ARRAY, 0, 0, 0, 0]),
        Ok(Value::Array { entries: vec![] })
    );
    assert_eq!(
        decode_bytes(&[marker::STRICT_ARRAY, 0, 0, 0, 0, 0xff]),
        Ok(Value::Array { entries: vec![] })
    );
    let mut many = vec![marker::STRICT_ARRAY, 0, 0, 1, 0];
    many.extend(std::iter::repeat(marker::NULL).take(256));
    assert_eq!(decode_bytes(&many), Ok(Value::Array { entries: vec![Value::Null; 256] }));
    assert_eq!(decode_bytes(&[marker::STRICT_ARRAY, 1, 0, 0, 0, marker::NULL]), eof());
}

#[test]
fn byte_outside_the_markers_is_unknown() {
    for byte in 0x12..=0xffu8 {
        assert_eq!(decode_bytes(&[byte, 0, 0]), Err(DecodeError::Unknown { marker: byte }));
    }
    for byte in [marker::MOVIECLIP, marker::UNSUPPORTED, marker::RECORDSET] {
        assert_eq!(decode_bytes(&[byte, 0, 0]), Err(DecodeError::Unsupported { marker: byte }));
    }
    let inside = object(&[("k", vec![0x61])]);
    assert_eq!(decode_bytes(&inside), Err(DecodeError::Unknown { marker: 0x61 }));
}

#[test]
fn text_must_be_utf8() {
    assert_eq!(
        decode_bytes(&[marker::STRING, 0, 3, b'a', 0xff, b'b']),
        Err(DecodeError::String { valid_up_to: 1 })
    );
    assert_eq!(
        decode_bytes(&[marker::STRING, 0, 2, 0xc3, 0x28]),
        Err(DecodeError::String { valid_up_to: 0 })
    );
    assert_eq!(
        decode_bytes(&[marker::LONG_STRING, 0, 0, 0, 4, b'o', b'k', 0xe3, 0x83]),
        Err(DecodeError::String { valid_up_to: 2 })
    );
    assert_eq!(
        decode_bytes(&[marker::XML_DOCUMENT, 0, 0, 0, 1, 0x80]),
        Err(DecodeError::String { valid_up_to: 0 })
    );
    assert_eq!(
        decode_bytes(&[marker::OBJECT, 0, 1, 0xfe, marker::NULL]),
        Err(DecodeError::String { valid_up_to: 0 })
    );
    assert_eq!(
        decode_bytes(&[marker::TYPED_OBJECT, 0, 2, b'C', 0xc0, 0, 0, 9]),
        Err(DecodeError::String { valid_up_to: 1 })
    );
    assert_eq!(decode_bytes(&string("é漢🎈")), Ok(s("é漢🎈")));
    assert_eq!(decode_bytes(&[marker::STRING, 0, 0]), Ok(s("")));
}

#[test]
fn lengths_are_big_endian() {
    let long: String = std::iter::repeat('x').take(0x0102).collect();
    assert_eq!(decode_bytes(&string(&long)), Ok(s(&long)));
    let mut input = vec![marker::STRING, 0x01, 0x02];
    input.extend(std::iter::repeat(b'x').take(0x0102));
    assert_eq!(decode_bytes(&input), Ok(s(&long)));
    input.truncate(0x0104);
    assert_eq!(decode_bytes(&input), eof());

    let mut input = vec![marker::LONG_STRING, 0x00, 0x00, 0x01, 0x02];
    input.extend(std::iter::repeat(b'x').take(0x0102));
    assert_eq!(decode_bytes(&input), Ok(s(&long)));
    let mut input = vec![marker::LONG_STRING, 0x02, 0x01, 0x00, 0x00];
    input.extend(std::iter::repeat(b'x').take(0x0102));
    assert_eq!(decode_bytes(&input), eof());

    let mut input = vec![marker::STRICT_ARRAY, 0x00, 0x00, 0x01, 0x02];
    input.extend(std::iter::repeat(marker::NULL).take(0x0102));
    assert_eq!(decode_bytes(&input), Ok(Value::Array { entries: vec![Value::Null; 0x0102] }));

    assert_eq!(
        decode_bytes(&[marker::DATE, 0, 0, 0, 0, 0, 0, 0, 0, 0x01, 0x02]),
        Ok(Value::Date { unix_time: 0, time_zone: 0x0102 })
    );
    assert_eq!(
        decode_bytes(&[marker::DATE, 0, 0, 0, 0, 0, 0, 0, 0, 0x80, 0x01]),
        Ok(Value::Date { unix_time: 0, time_zone: -32767 })
    );
}

#[test]
fn associative_array_count_is_not_used() {
    for count in [0u32, 1, 2, 1000, u32::MAX] {
        let mut input = vec![marker::ECMA_ARRAY];
        input.extend_from_slice(&count.to_be_bytes());
        input.extend(text("a"));
        input.extend(string("b"));
        input.extend(text("a"));
        input.extend(string("c"));
        input.extend_from_slice(&[0, 0, marker::OBJECT_END_MARKER]);
        assert_eq!(
            decode_bytes(&input),
            Ok(Value::EcmaArray { entries: vec![pair("a", s("b")), pair("a", s("c"))] })
        );
    }
}

#[test]
fn typed_object_has_its_class_name() {
    let mut input = vec![marker::TYPED_OBJECT];
    input.extend(text("a.B"));
    input.extend(text("k"));
    input.extend(number(9));
    input.extend_from_slice(&[0, 0, marker::OBJECT_END_MARKER]);
    assert_eq!(
        decode_bytes(&input),
        Ok(Value::Object {
            class_name: Some("a.B".to_string()),
            entries: vec![pair("k", Value::Number(9))]
        })
    );
    let mut unnamed = vec![marker::TYPED_OBJECT];
    unnamed.extend(text(""));
    unnamed.extend_from_slice(&[0, 0, marker::OBJECT_END_MARKER]);
    assert_eq!(
        decode_bytes(&unnamed),
        Ok(Value::Object { class_name: Some(String::new()), entries: vec![] })
    );
}

#[test]
fn xml_document_differs_from_a_long_string_by_its_marker() {
    let mut xml = vec![marker::XML_DOCUMENT, 0, 0, 0, 4];
    xml.extend_from_slice(b"<a/>");
    let mut long = xml.clone();
    long[0] = marker::LONG_STRING;
    assert_eq!(decode_bytes(&xml), Ok(Value::XmlDocument("<a/>".to_string())));
    assert_eq!(decode_bytes(&long), Ok(s("<a/>")));
    assert_ne!(decode_bytes(&xml), decode_bytes(&long));
}

fn nested_arrays(levels: usize) -> Vec<u8> {
    let mut input = Vec::new();
    for _ in 0..levels {
        input.extend_from_slice(&[marker::STRICT_ARRAY, 0, 0, 0, 1]);
    }
    input.push(marker::NULL);
    input
}

#[test]
fn nesting_is_limited() {
    assert_eq!(MAX_DEPTH, 128);
    let mut expected: Plain = Value::Null;
    for _ in 0..MAX_DEPTH {
        expected = Value::Array { entries: vec![expected] };
    }
    assert_eq!(decode_bytes(&nested_arrays(MAX_DEPTH)), Ok(expected));
    assert_eq!(
        decode_bytes(&nested_arrays(MAX_DEPTH + 1)),
        Err(DecodeError::RecursionLimitExceeded)
    );
    assert_eq!(decode_bytes(&nested_arrays(100_000)), Err(DecodeError::RecursionLimitExceeded));

    let mut objects = Vec::new();
    for _ in 0..MAX_DEPTH + 1 {
        objects.push(marker::OBJECT);
        objects.extend(text("k"));
    }
    assert_eq!(decode_bytes(&objects), Err(DecodeError::RecursionLimitExceeded));
}

fn around(levels: usize, innermost: Vec<u8>) -> Vec<u8> {
    let mut input = Vec::new();
    for _ in 0..levels {
        input.extend_from_slice(&[marker::STRICT_ARRAY, 0, 0, 0, 1]);
    }
    input.extend(innermost);
    input
}

#[test]
fn references_count_towards_the_nesting() {
    let mut deepest: Plain = Value::Null;
    for _ in 0..MAX_DEPTH {
        deepest = Value::Array { entries: vec![deepest] };
    }
    let below = match &deepest {
        Value::Array { entries } => entries[0].clone(),
        _ => unreachable!(),
    };
    let last = MAX_DEPTH as u16 - 1;

    let mut decoder = Decoder::new(Buffer::new(nested_arrays(MAX_DEPTH)));
    assert_eq!(decoder.decode().as_ref(), Ok(&deepest));

    let cases: Vec<(Vec<u8>, DecodeResult<Plain>)> = vec![
        (reference(0), Ok(deepest.clone())),
        (around(1, reference(1)), Ok(Value::Array { entries: vec![below] })),
        (around(1, reference(0)), Err(DecodeError::RecursionLimitExceeded)),
        (object(&[("k", reference(0))]), Err(DecodeError::RecursionLimitExceeded)),
        (around(MAX_DEPTH - 1, reference(last)), Ok(deepest.clone())),
        (around(MAX_DEPTH, reference(last)), Err(DecodeError::RecursionLimitExceeded)),
        (around(MAX_DEPTH - 1, reference(last - 1)), Err(DecodeError::RecursionLimitExceeded)),
        (around(MAX_DEPTH, vec![marker::NULL]), Ok(deepest.clone())),
    ];
    for (input, expected) in cases {
        *decoder.inner_mut() = Buffer::new(input);
        assert_eq!(decoder.decode(), expected);
    }
}

#[test]
fn values_stand_within_their_height() {
    let flat: Plain = Value::Number(1);
    assert!(flat.stands_within(0));
    let empty: Plain = Value::Array { entries: vec![] };
    assert!(!empty.stands_within(0));
    assert!(empty.stands_within(1));
    let nested = plain_object(vec![
        pair("a", Value::Null),
        pair("b", Value::EcmaArray { entries: vec![pair("c", Value::Array { entries: vec![] })] }),
        pair("d", Value::Array { entries: vec![Value::Null] }),
    ]);
    assert!(!nested.stands_within(0));
    assert!(!nested.stands_within(2));
    assert!(nested.stands_within(3));
    assert!(nested.stands_within(usize::MAX));
}

#[test]
fn failures_leave_the_bytes_not_yet_read() {
    let cases: Vec<(Vec<u8>, DecodeError, usize)> = vec![
        (vec![0x61, 1, 2, 3], DecodeError::Unknown { marker: 0x61 }, 3),
        (vec![0xff], DecodeError::Unknown { marker: 0xff }, 0),
        (vec![marker::MOVIECLIP, 1, 2], DecodeError::Unsupported { marker: 4 }, 2),
        (vec![marker::UNSUPPORTED, 1], DecodeError::Unsupported { marker: 13 }, 1),
        (vec![marker::RECORDSET, 1, 2, 3, 4], DecodeError::Unsupported { marker: 14 }, 4),
        (vec![marker::OBJECT_END_MARKER, 1], DecodeError::UnexpectedObjectEnd, 1),
        (vec![marker::AVMPLUS_OBJECT, 1, 2], DecodeError::Unsupported { marker: 17 }, 2),
        (vec![marker::REFERENCE, 0, 3, 9, 9], DecodeError::OutOfRangeReference { index: 3 }, 2),
        (vec![marker::NUMBER, 1, 2, 3], DecodeError::Io(IoFault::UnexpectedEof), 3),
        (vec![marker::STRING, 0], DecodeError::Io(IoFault::UnexpectedEof), 1),
        (vec![marker::STRING, 0, 4, b'a', b'b'], DecodeError::Io(IoFault::UnexpectedEof), 2),
        (vec![marker::STRING, 0, 2, b'a', 0xff, 7], DecodeError::String { valid_up_to: 1 }, 1),
        (
            [date(-1.0, 5), vec![9, 9, 9]].concat(),
            DecodeError::InvalidDate { millis: (-1.0f64).to_bits() },
            3,
        ),
        (date(1.0, 5)[..10].to_vec(), DecodeError::Io(IoFault::UnexpectedEof), 1),
        (
            vec![marker::OBJECT, 0, 1, b'k', 0x61, 1, 2],
            DecodeError::Unknown { marker: 0x61 },
            2,
        ),
        (
            vec![marker::OBJECT, 0, 1, b'k', marker::OBJECT_END_MARKER, 1],
            DecodeError::UnexpectedObjectEnd,
            1,
        ),
        (
            vec![marker::OBJECT, 0, 1, b'k', marker::REFERENCE, 0, 0, 8],
            DecodeError::CircularReference { index: 0 },
            1,
        ),
        (
            vec![marker::STRICT_ARRAY, 0, 0, 0, 2, marker::NULL, 0x0d, 6, 7],
            DecodeError::Unsupported { marker: 13 },
            2,
        ),
        (
            [nested_arrays(MAX_DEPTH + 1), vec![1, 2]].concat(),
            DecodeError::RecursionLimitExceeded,
            7,
        ),
    ];
    for (input, error, left) in cases {
        let mut decoder = Decoder::new(Buffer::from_slice(&input));
        assert_eq!(decoder.decode(), Err(error));
        assert_eq!(decoder.inner().remaining(), left, "after {:?}", error);
    }

    let input = vec![0x61, marker::NULL, 0x0d, marker::BOOLEAN, 1];
    let mut decoder = Decoder::new(Buffer::new(input));
    assert_eq!(decoder.decode(), Err(DecodeError::Unknown { marker: 0x61 }));
    assert_eq!(decoder.decode(), Ok(Value::Null));
    assert_eq!(decoder.decode(), Err(DecodeError::Unsupported { marker: 0x0d }));
    assert_eq!(decoder.decode(), Ok(Value::Boolean(true)));
    assert_eq!(decoder.decode(), eof());
}

#[test]
fn decode_entire_reads_to_the_end() {
    let mut input = number(5);
    input.extend(string("x"));
    input.extend(array(&[Vec::from([marker::NULL])]));
    input.extend(reference(0));
    let mut decoder = Decoder::new_from_array(&input);
    assert_eq!(
        decoder.decode_entire(),
        Ok(vec![
            Value::Number(5),
            s("x"),
            Value::Array { entries: vec![Value::Null] },
            Value::Array { entries: vec![Value::Null] },
        ])
    );
    assert_eq!(decoder.inner().remaining(), 0);
    assert_eq!(decoder.decode_entire(), Ok(vec![]));

    assert_eq!(Decoder::new_from_array(&[]).decode_entire(), Ok(vec![]));
    assert_eq!(
        Decoder::new_from_array(&[marker::NULL, 0x61, marker::NULL]).decode_entire(),
        Err(DecodeError::Unknown { marker: 0x61 })
    );
    assert_eq!(Decoder::new_from_array(&[marker::NULL, marker::NUMBER, 1]).decode_entire(), eof());
    assert_eq!(
        Decoder::new_from_array(&[marker::AVMPLUS_OBJECT]).decode_entire(),
        Err(DecodeError::Unsupported { marker: marker::AVMPLUS_OBJECT })
    );
}

#[test]
fn decoder_hands_its_source_out() {
    let mut decoder = Decoder::new(Buffer::new(vec![marker::NULL, marker::NULL, marker::NULL]));
    assert_eq!(decoder.inner().remaining(), 3);
    assert_eq!(decoder.decode(), Ok(Value::Null));
    assert_eq!(decoder.inner_mut().read_u8(), Ok(marker::NULL));
    assert_eq!(decoder.inner().remaining(), 1);
    let mut source = decoder.into_inner();
    assert_eq!(source.read_exact(1), Ok(vec![marker::NULL]));
    assert_eq!(source.read_exact(1), Err(IoFault::UnexpectedEof));
    assert_eq!(source.read_u8(), Err(IoFault::UnexpectedEof));
    assert_eq!(source.read_exact(0), Ok(vec![]));
}

#[test]
fn buffer_reads_front_to_back() {
    let mut buffer = Buffer::from_slice(&[1, 2, 3, 4, 5]);
    assert_eq!(buffer.remaining(), 5);
    assert_eq!(buffer.read_exact(2), Ok(vec![1, 2]));
    assert_eq!(buffer.read_u8(), Ok(3));
    assert_eq!(buffer.read_exact(3), Err(IoFault::UnexpectedEof));
    assert_eq!(buffer.read_exact(usize::MAX), Err(IoFault::UnexpectedEof));
    assert_eq!(buffer.read_exact(2), Ok(vec![4, 5]));
    assert_eq!(buffer.remaining(), 0);
}

#[test]
fn fields_are_read_off_a_source() {
    let mut buffer = Buffer::from_slice(&[
        0x12, 0x34, 0xff, 0xfe, 0x01, 0x02, 0x03, 0x04, 1, 2, 3, 4, 5, 6, 7, 8, 0xaa, b'h', b'i',
    ]);
    assert_eq!(read::read_u16(&mut buffer), Ok(0x1234));
    assert_eq!(read::read_i16(&mut buffer), Ok(-2));
    assert_eq!(read::read_u32(&mut buffer), Ok(0x0102_0304));
    assert_eq!(read::read_u64(&mut buffer), Ok(0x0102_0304_0506_0708));
    assert_eq!(read::read_u8(&mut buffer), Ok(0xaa));
    assert_eq!(read::read_utf8(&mut buffer, 2), Ok("hi".to_string()));
    assert_eq!(read::read_utf8(&mut buffer, 0), Ok(String::new()));
    assert_eq!(read::take(&mut buffer, 0), Ok(vec![]));
    assert_eq!(read::read_u16(&mut buffer), eof());
    assert_eq!(read::read_u8(&mut buffer), eof());
    assert_eq!(read::take(&mut buffer, 1), eof());
}

#[test]
fn reference_table_reserves_then_fills() {
    let mut table: ReferenceTable<NoValue> = ReferenceTable::new();
    assert_eq!(table.len(), 0);
    assert_eq!(table.get(0, MAX_DEPTH), Err(DecodeError::OutOfRangeReference { index: 0 }));
    assert_eq!(table.reserve(), 0);
    assert_eq!(table.reserve(), 1);
    assert_eq!(table.len(), 2);
    assert_eq!(table.get(1, MAX_DEPTH), Err(DecodeError::CircularReference { index: 1 }));
    table.finalize(1, &Value::Null);
    assert_eq!(table.get(1, MAX_DEPTH), Ok(Value::Null));
    assert_eq!(table.get(0, MAX_DEPTH), Err(DecodeError::CircularReference { index: 0 }));
    table.finalize(0, &s("zero"));
    assert_eq!(table.get(0, MAX_DEPTH), Ok(s("zero")));
    assert_eq!(table.get(2, MAX_DEPTH), Err(DecodeError::OutOfRangeReference { index: 2 }));
    table.finalize(1, &Value::Array { entries: vec![Value::Array { entries: vec![] }] });
    assert_eq!(table.get(1, 1), Err(DecodeError::RecursionLimitExceeded));
    assert_eq!(
        table.get(1, 2),
        Ok(Value::Array { entries: vec![Value::Array { entries: vec![] }] })
    );
    assert_eq!(table.get(0, 0), Ok(s("zero")));
    assert_eq!(table.get(0, 0), Ok(s("zero")));
    table.clear();
    assert_eq!(table.len(), 0);
    assert_eq!(table.get(0, MAX_DEPTH), Err(DecodeError::OutOfRangeReference { index: 0 }));
}

#[test]
fn duplicate_is_equal_and_apart() {
    let value = plain_object(vec![
        pair("a", Value::Array { entries: vec![s("x"), Value::Number(1)] }),
        pair("b", Value::EcmaArray { entries: vec![pair("k", Value::Undefined)] }),
        pair("c", Value::Date { unix_time: 3, time_zone: -4 }),
        pair("d", Value::XmlDocument("<x/>".to_string())),
        pair("e", Value::Object { class_name: Some("C".to_string()), entries: vec![] }),
        pair("f", Value::Boolean(true)),
        pair("g", Value::AvmPlus(NoValue)),
    ]);
    let mut copy = value.duplicate();
    assert_eq!(copy, value);
    assert_eq!(value.clone(), value);
    if let Value::Object { entries, .. } = &mut copy {
        entries.truncate(1);
    }
    assert_ne!(copy, value);
}

#[test]
fn errors_tell_an_early_end_apart() {
    assert!(DecodeError::Io(IoFault::UnexpectedEof).is_unexpected_eof());
    assert!(!DecodeError::Io(IoFault::Other).is_unexpected_eof());
    assert!(!DecodeError::UnexpectedObjectEnd.is_unexpected_eof());
    assert!(!DecodeError::RecursionLimitExceeded.is_unexpected_eof());
}

/// A source over a reader of the standard library.
struct Stream<R> {
    reader: R,
}

impl<R: Read> ByteSource for Stream<R> {
    fn read_u8(&mut self) -> Result<u8, IoFault> {
        let mut byte = [0u8];
        match self.reader.read_exact(&mut byte) {
            Ok(()) => Ok(byte[0]),
            Err(e) if e.kind() == std::io::ErrorKind::UnexpectedEof => Err(IoFault::UnexpectedEof),
            Err(_) => Err(IoFault::Other),
        }
    }

    fn read_exact(&mut self, len: usize) -> Result<Vec<u8>, IoFault> {
        let mut bytes = Vec::new();
        match (&mut self.reader).take(len as u64).read_to_end(&mut bytes) {
            Ok(n) if n == len => Ok(bytes),
            Ok(_) => Err(IoFault::UnexpectedEof),
            Err(_) => Err(IoFault::Other),
        }
    }
}

#[test]
fn decodes_from_a_stream() {
    let mut input = object(&[("k", array(&[string("v"), number(3)]))]);
    input.extend(reference(0));
    input.extend_from_slice(&[marker::LONG_STRING, 0xff, 0xff, 0xff, 0xff, b'a']);
    let expected = decode_bytes(&input).unwrap();
    let mut decoder = Decoder::new(Stream { reader: &input[..] });
    assert_eq!(decoder.decode().as_ref(), Ok(&expected));
    assert_eq!(decoder.decode().as_ref(), Ok(&expected));
    assert_eq!(decoder.decode(), eof());
    assert_eq!(decoder.inner().reader.len(), 0);
}

/// A source that fails, or hands over fewer bytes than it was asked for.
struct Broken {
    short: bool,
}

impl ByteSource for Broken {
    fn read_u8(&mut self) -> Result<u8, IoFault> {
        if self.short {
            Ok(marker::STRING)
        } else {
            Err(IoFault::Other)
        }
    }

    fn read_exact(&mut self, len: usize) -> Result<Vec<u8>, IoFault> {
        if self.short {
            Ok(vec![0; len.saturating_sub(1)])
        } else {
            Err(IoFault::Other)
        }
    }
}

#[test]
fn faults_of_the_source_come_through() {
    let mut decoder = Decoder::new(Broken { short: false });
    assert_eq!(decoder.decode(), Err(DecodeError::Io(IoFault::Other)));
    let mut decoder = Decoder::new(Broken { short: true });
    assert_eq!(decoder.decode(), Err(DecodeError::Io(IoFault::Other)));
}

/// Embedded values of one byte each.
#[derive(Debug, PartialEq)]
struct Tiny(u8);

impl Embedded for Tiny {
    type Model = ();

    fn duplicate(&self) -> Self {
        Tiny(self.0)
    }
}

/// A sibling decoder that reads one byte, and refuses the byte zero.
struct TinyDecoder {
    calls: usize,
}

impl SiblingDecoder for TinyDecoder {
    type Value = Tiny;

    fn decode<R: ByteSource>(&mut self, source: &mut R) -> Result<Tiny, DecodeError> {
        self.calls += 1;
        match source.read_u8() {
            Ok(0) => Err(DecodeError::Unsupported { marker: 0 }),
            Ok(byte) => Ok(Tiny(byte)),
            Err(fault) => Err(DecodeError::Io(fault)),
        }
    }
}

#[test]
fn embedded_values_are_handed_to_the_sibling() {
    let mut input = vec![marker::AVMPLUS_OBJECT, 7, marker::NULL];
    input.extend(array(&[vec![marker::AVMPLUS_OBJECT, 8], vec![marker::BOOLEAN, 1]]));
    input.extend(reference(0));
    input.extend_from_slice(&[marker::AVMPLUS_OBJECT, 0, marker::AVMPLUS_OBJECT]);
    let mut decoder = Decoder::with_sibling(Buffer::new(input), TinyDecoder { calls: 0 });
    assert_eq!(decoder.decode(), Ok(Value::AvmPlus(Tiny(7))));
    assert_eq!(decoder.decode(), Ok(Value::Null));
    let array = decoder.decode().unwrap();
    assert_eq!(
        array,
        Value::Array { entries: vec![Value::AvmPlus(Tiny(8)), Value::Boolean(true)] }
    );
    assert_eq!(decoder.decode(), Ok(array));
    assert_eq!(decoder.decode(), Err(DecodeError::Unsupported { marker: 0 }));
    assert_eq!(decoder.decode(), eof());
}

#[test]
fn embedded_values_are_refused_without_a_sibling() {
    assert_eq!(
        decode_bytes(&[marker::AVMPLUS_OBJECT, 7]),
        Err(DecodeError::Unsupported { marker: marker::AVMPLUS_OBJECT })
    );
    let mut source = Buffer::new(vec![1, 2, 3]);
    assert_eq!(
        NoSibling.decode(&mut source),
        Err(DecodeError::Unsupported { marker: marker::AVMPLUS_OBJECT })
    );
    assert_eq!(source.remaining(), 3);
    let mut decoder = Decoder::new(Buffer::new(object(&[("k", vec![marker::AVMPLUS_OBJECT])])));
    assert_eq!(
        decoder.decode(),
        Err(DecodeError::Unsupported { marker: marker::AVMPLUS_OBJECT })
    );
}

/// A small generator of numbers in a fixed order.
struct Dice(u64);

impl Dice {
    fn roll(&mut self, sides: u64) -> u64 {
        self.0 = self.0.wrapping_mul(0x5851_f42d_4c95_7f2d).wrapping_add(0x1405_7b7e_f767_814f);
        (self.0 >> 33) % sides
    }

    fn word(&mut self) -> String {
        let words = ["", "a", "key", "テスト", "é", "length", "0", "🎈🎈", "x y"];
        words[self.roll(words.len() as u64) as usize].to_string()
    }

    fn value(&mut self, levels: u64) -> Plain {
        let kinds = if levels == 0 { 7 } else { 11 };
        match self.roll(kinds) {
            0 => Value::Number(self.roll(u64::MAX)),
            1 => Value::Boolean(self.roll(2) == 1),
            2 => Value::String(self.word()),
            3 => Value::Null,
            4 => Value::Undefined,
            5 => Value::Date {
                unix_time: self.roll(1 << 40),
                time_zone: self.roll(1 << 16) as u16 as i16,
            },
            6 => Value::XmlDocument(self.word()),
            7 => Value::Object { class_name: None, entries: self.pairs(levels - 1) },
            8 => Value::Object { class_name: Some(self.word()), entries: self.pairs(levels - 1) },
            9 => Value::EcmaArray { entries: self.pairs(levels - 1) },
            _ => {
                let count = self.roll(4);
                Value::Array { entries: (0..count).map(|_| self.value(levels - 1)).collect() }
            }
        }
    }

    fn pairs(&mut self, levels: u64) -> Vec<Pair<String, Plain>> {
        let count = self.roll(4);
        (0..count).map(|_| Pair { key: self.word(), value: self.value(levels) }).collect()
    }
}

fn write_pairs(entries: &[Pair<String, Plain>], out: &mut Vec<u8>) {
    for entry in entries {
        out.extend(text(&entry.key));
        write_value(&entry.value, out);
    }
    out.extend_from_slice(&[0, 0, marker::OBJECT_END_MARKER]);
}

fn write_value(value: &Plain, out: &mut Vec<u8>) {
    match value {
        Value::Number(bits) => out.extend(number(*bits)),
        Value::Boolean(b) => out.extend_from_slice(&[marker::BOOLEAN, *b as u8]),
        Value::String(s) => out.extend(string(s)),
        Value::Null => out.push(marker::NULL),
        Value::Undefined => out.push(marker::UNDEFINED),
        Value::Date { unix_time, time_zone } => out.extend(date(*unix_time as f64, *time_zone)),
        Value::XmlDocument(s) => {
            out.push(marker::XML_DOCUMENT);
            out.extend_from_slice(&(s.len() as u32).to_be_bytes());
            out.extend_from_slice(s.as_bytes());
        }
        Value::Object { class_name: None, entries } => {
            out.push(marker::OBJECT);
            write_pairs(entries, out);
        }
        Value::Object { class_name: Some(name), entries } => {
            out.push(marker::TYPED_OBJECT);
            out.extend(text(name));
            write_pairs(entries, out);
        }
        Value::EcmaArray { entries } => {
            out.push(marker::ECMA_ARRAY);
            out.extend_from_slice(&(entries.len() as u32).to_be_bytes());
            write_pairs(entries, out);
        }
        Value::Array { entries } => {
            out.push(marker::STRICT_ARRAY);
            out.extend_from_slice(&(entries.len() as u32).to_be_bytes());
            for entry in entries {
                write_value(entry, out);
            }
        }
        Value::AvmPlus(_) => unreachable!(),
    }
}

#[test]
fn written_values_are_read_back() {
    let mut dice = Dice(0x2545_f491_4f6c_dd1d);
    for round in 0..300 {
        let value = dice.value(4);
        let mut input = Vec::new();
        write_value(&value, &mut input);
        let tail = [marker::NULL, 0x61, 0xff];
        let mut followed = input.clone();
        followed.extend_from_slice(&tail);

        let mut decoder = Decoder::new(Buffer::from_slice(&followed));
        assert_eq!(decoder.decode().as_ref(), Ok(&value), "round {}", round);
        assert_eq!(decoder.inner().remaining(), tail.len());
        assert_eq!(decoder.decode(), Ok(Value::Null));

        assert_eq!(Decoder::new(Stream { reader: &input[..] }).decode().as_ref(), Ok(&value));
        assert_eq!(Decoder::new_from_array(&input).decode_entire(), Ok(vec![value.clone()]));

        let step = 1 + input.len() / 40;
        for len in (0..input.len()).step_by(step) {
            assert_eq!(decode_bytes(&input[..len]), eof(), "round {} cut at {}", round, len);
        }
    }
}

#[test]
fn arbitrary_bytes_never_break_the_decoder() {
    let mut dice = Dice(0x9e37_79b9_7f4a_7c15);
    for _ in 0..2000 {
        let len = dice.roll(40) as usize;
        let input: Vec<u8> = (0..len)
            .map(|_| if dice.roll(3) == 0 { dice.roll(256) as u8 } else { dice.roll(18) as u8 })
            .collect();
        let first = decode_bytes(&input);
        let again = decode_bytes(&input);
        assert_eq!(first, again);
        let mut decoder = Decoder::new(Buffer::from_slice(&input));
        if let Ok(value) = decoder.decode() {
            assert!(value.stands_within(MAX_DEPTH));
            let read = input.len() - decoder.inner().remaining();
            assert!(read >= 1);
            assert_eq!(decode_bytes(&input[..read]), Ok(value));
        }
        let _ = Decoder::new_from_array(&input).decode_entire();
    }
}
