use cord::{
    collect_set, deserialize, serialize, Bytes, CordError, CordSet, DateTime, CordDeserializer, CordSerializer,
    SetVisitor, Shape, Value,
};

fn str_bytes(s: &str) -> Vec<u8> {
    let mut e = CordSerializer::new();
    e.write_str(s);
    e.into_bytes()
}

#[test]
fn round_trip_integers() {
    let mut e = CordSerializer::new();
    e.write_u8(u8::MAX);
    e.write_u16(u16::MAX);
    e.write_u32(u32::MAX);
    e.write_u64(u64::MAX);
    e.write_i8(i8::MIN);
    e.write_i16(i16::MIN);
    e.write_i32(i32::MIN);
    e.write_i64(i64::MIN);
    e.write_i64(i64::MAX);
    e.serialize_usize(300);
    let bytes = e.into_bytes();
    let mut d = CordDeserializer::new(&bytes);
    assert_eq!(d.parse_u8().unwrap(), u8::MAX);
    assert_eq!(d.parse_u16().unwrap(), u16::MAX);
    assert_eq!(d.parse_u32().unwrap(), u32::MAX);
    assert_eq!(d.parse_u64().unwrap(), u64::MAX);
    assert_eq!(d.parse_i8().unwrap(), i8::MIN);
    assert_eq!(d.parse_i16().unwrap(), i16::MIN);
    assert_eq!(d.parse_i32().unwrap(), i32::MIN);
    assert_eq!(d.parse_i64().unwrap(), i64::MIN);
    assert_eq!(d.parse_i64().unwrap(), i64::MAX);
    assert_eq!(d.parse_len().unwrap(), 300);
    assert_eq!(d.end(), Ok(()));
}

#[test]
fn u64_max_takes_ten_bytes() {
    let mut e = CordSerializer::new();
    e.write_u64(u64::MAX);
    assert_eq!(e.into_bytes(), vec![255, 255, 255, 255, 255, 255, 255, 255, 255, 1]);
}

#[test]
fn round_trip_text_bytes_and_tags() {
    let mut e = CordSerializer::new();
    e.write_str("héllo ✓");
    e.write_bytes(&[9, 8, 7]);
    e.write_bool(true);
    e.write_none();
    e.write_some();
    e.write_u8(5);
    Bytes::from(vec![1, 2]).encode(&mut e);
    let bytes = e.into_bytes();
    let mut d = CordDeserializer::new(&bytes);
    assert_eq!(d.parse_string().unwrap(), "héllo ✓");
    assert_eq!(d.parse_bytes().unwrap(), &[9, 8, 7]);
    assert!(d.parse_bool().unwrap());
    assert!(!d.parse_option_tag().unwrap());
    assert!(d.parse_option_tag().unwrap());
    assert_eq!(d.parse_u8().unwrap(), 5);
    assert_eq!(Bytes::decode(&mut d).unwrap().to_vec(), vec![1, 2]);
    assert_eq!(d.end(), Ok(()));
}

#[test]
fn round_trip_datetime() {
    for millis in [0_i64, 1_696_516_200_123, -86_400_000] {
        let mut e = CordSerializer::new();
        DateTime::from_millis(millis).encode(&mut e);
        let bytes = e.into_bytes();
        let mut d = CordDeserializer::new(&bytes);
        assert_eq!(DateTime::decode(&mut d).unwrap().millis(), millis);
        assert_eq!(d.end(), Ok(()));
    }
}

#[test]
fn pre_epoch_fraction_of_a_second_does_not_decode() {
    let mut e = CordSerializer::new();
    DateTime::from_millis(-500).encode(&mut e);
    let bytes = e.into_bytes();
    let mut d = CordDeserializer::new(&bytes);
    assert!(matches!(
        DateTime::decode(&mut d),
        Err(CordError::DeserializationError(_))
    ));
}

#[test]
fn out_of_range_datetime_is_refused() {
    let mut e = CordSerializer::new();
    e.write_u64(i64::MAX as u64);
    let bytes = e.into_bytes();
    let mut d = CordDeserializer::new(&bytes);
    match DateTime::decode(&mut d) {
        Err(CordError::DeserializationError(m)) => {
            assert_eq!(m, format!("timestamp {} is invalid", i64::MAX))
        }
        other => panic!("unexpected {:?}", other),
    }
}

#[test]
fn set_encoding_ignores_insertion_order() {
    let words = ["test", "f", "a", "e", "b", "d", "c"];
    let forward = CordSet::from_encodings(words.iter().map(|w| str_bytes(w)).collect());
    let backward = CordSet::from_encodings(words.iter().rev().map(|w| str_bytes(w)).collect());
    let mut one_by_one = CordSet::new();
    for w in ["c", "test", "a", "a", "f", "b", "e", "d"] {
        one_by_one.insert(str_bytes(w));
    }
    assert_eq!(forward.to_bytes(), backward.to_bytes());
    assert_eq!(forward.to_bytes(), one_by_one.to_bytes());
    assert_eq!(
        forward.to_bytes(),
        vec![7, 1, 97, 1, 98, 1, 99, 1, 100, 1, 101, 1, 102, 4, 116, 101, 115, 116]
    );
    assert_eq!(one_by_one.len(), 7);
    assert!(one_by_one.contains(&str_bytes("test")));
    assert!(!one_by_one.contains(&str_bytes("g")));
}

#[test]
fn insert_reports_new_elements() {
    let mut set = CordSet::new();
    assert!(set.insert(vec![2]));
    assert!(set.insert(vec![1, 5]));
    assert!(!set.insert(vec![2]));
    assert_eq!(set.to_vec(), vec![vec![1, 5], vec![2]]);
}

#[test]
fn unordered_set_is_refused() {
    let encodings = vec![str_bytes("b"), str_bytes("a")];
    assert_eq!(
        collect_set(&encodings).unwrap_err(),
        CordError::ValidationError("unordered set")
    );
}

#[test]
fn equal_adjacent_set_elements_are_accepted() {
    let encodings = vec![str_bytes("a"), str_bytes("a"), str_bytes("b")];
    let set = collect_set(&encodings).unwrap();
    assert_eq!(set.to_vec(), vec![str_bytes("a"), str_bytes("b")]);
}

#[test]
fn set_visitor_checks_each_element() {
    let mut v = SetVisitor::new();
    assert_eq!(v.visit_element(vec![1, 2]), Ok(()));
    assert_eq!(v.visit_element(vec![1, 3]), Ok(()));
    assert_eq!(
        v.visit_element(vec![1]),
        Err(CordError::ValidationError("unordered set"))
    );
    assert_eq!(v.finish().to_vec(), vec![vec![1, 2], vec![1, 3]]);
}

#[test]
fn trailing_byte_is_refused() {
    let exact: Vec<u8> = vec![4, 116, 101, 115, 116];
    let mut d = CordDeserializer::new(&exact);
    d.parse_string().unwrap();
    assert_eq!(d.end(), Ok(()));

    let longer: Vec<u8> = vec![4, 116, 101, 115, 116, 0];
    let mut d = CordDeserializer::new(&longer);
    d.parse_string().unwrap();
    assert_eq!(
        d.end(),
        Err(CordError::ValidationError("Unexpected trailing bytes"))
    );

    let unit_with_byte: Vec<u8> = vec![0];
    assert_eq!(
        CordDeserializer::new(&unit_with_byte).end(),
        Err(CordError::ValidationError("Unexpected trailing bytes"))
    );
}

#[test]
fn invalid_tags_are_refused() {
    let input: Vec<u8> = vec![2];
    assert_eq!(
        CordDeserializer::new(&input).parse_bool(),
        Err(CordError::ValidationError("Invalid boolean variant"))
    );
    assert_eq!(
        CordDeserializer::new(&input).parse_option_tag(),
        Err(CordError::ValidationError("Invalid option variant"))
    );
}

#[test]
fn truncated_input_is_refused() {
    let empty: Vec<u8> = vec![];
    assert_eq!(
        CordDeserializer::new(&empty).parse_bool(),
        Err(CordError::ValidationError("Unexpected end of stream"))
    );
    assert_eq!(
        CordDeserializer::new(&empty).peek(),
        Err(CordError::ValidationError("Unexpected end of stream"))
    );
    assert_eq!(
        CordDeserializer::new(&empty).parse_u32(),
        Err(CordError::ValidationError("Invalid varint"))
    );
    let short: Vec<u8> = vec![3, 1, 2];
    assert_eq!(
        CordDeserializer::new(&short).parse_bytes(),
        Err(CordError::ValidationError("Unexpected end of bytestream"))
    );
    let unfinished_varint: Vec<u8> = vec![0x80, 0x80];
    assert_eq!(
        CordDeserializer::new(&unfinished_varint).parse_u64(),
        Err(CordError::ValidationError("Invalid varint"))
    );
}

#[test]
fn too_wide_varint_is_refused() {
    let input: Vec<u8> = vec![0x80, 0x02];
    let mut d = CordDeserializer::new(&input);
    assert_eq!(d.parse_u8(), Err(CordError::ValidationError("Invalid varint")));
    let mut d = CordDeserializer::new(&input);
    assert_eq!(d.parse_u16().unwrap(), 256);

    let eleven: Vec<u8> = vec![0x80, 0x80, 0x80, 0x80, 0x80, 0x80, 0x80, 0x80, 0x80, 0x02];
    assert_eq!(
        CordDeserializer::new(&eleven).parse_u64(),
        Err(CordError::ValidationError("Invalid varint"))
    );
    let signed: Vec<u8> = vec![0x80, 0x02];
    assert_eq!(
        CordDeserializer::new(&signed).parse_i8(),
        Err(CordError::ValidationError("Invalid varint"))
    );
}

#[test]
fn invalid_utf8_is_refused() {
    let input: Vec<u8> = vec![2, 0xC3, 0x28];
    assert_eq!(
        CordDeserializer::new(&input).parse_string(),
        Err(CordError::ValidationError("Invalid UTF-8 string"))
    );
    let bytes = CordDeserializer::new(&input).parse_bytes().unwrap().to_vec();
    assert_eq!(bytes, vec![0xC3, 0x28]);
}

#[test]
fn next_and_consume_move_forward() {
    let input: Vec<u8> = vec![10, 20, 30, 40];
    let mut d = CordDeserializer::new(&input);
    assert_eq!(d.peek(), Ok(10));
    assert_eq!(d.next(), Ok(10));
    d.consume(2);
    assert_eq!(d.next(), Ok(40));
    assert_eq!(d.end(), Ok(()));
}

#[test]
fn unsupported_kinds_write_nothing() {
    let mut e = CordSerializer::new();
    e.write_u8(1);
    assert_eq!(e.unsupported::<()>("map"), Err(CordError::NotSupported("map")));
    assert_eq!(e.into_bytes(), vec![1]);
}

#[test]
fn bytes_conversions_keep_contents() {
    let b = Bytes::new(vec![4, 5]);
    assert_eq!(b.to_vec(), vec![4, 5]);
    assert_eq!(b.into_vec(), vec![4, 5]);
}

#[test]
fn datetime_from_text() {
    let d = DateTime::parse("2023-10-05T14:30:00.000Z").unwrap();
    assert_eq!(d.millis(), 1_696_516_200_000);
    let d: DateTime = "2023-10-05T16:30:00.250+02:00".parse().unwrap();
    assert_eq!(d.millis(), 1_696_516_200_250);
    assert_eq!(
        DateTime::parse("yesterday"),
        Err(CordError::ValidationError("Failed to parse datetime"))
    );
}

#[test]
fn datetime_from_wire_value() {
    assert_eq!(DateTime::from_wire(1_696_516_200_000).unwrap().millis(), 1_696_516_200_000);
    assert_eq!(DateTime::from_wire((-2_000_i64) as u64).unwrap().millis(), -2_000);
    assert!(matches!(
        DateTime::from_wire((-1_i64) as u64),
        Err(CordError::DeserializationError(_))
    ));
}

#[test]
fn now_is_after_a_known_instant() {
    assert!(DateTime::now().millis() > 1_696_516_200_000);
}

#[test]
fn decoder_refuses_unsupported_kinds_without_reading() {
    let input: Vec<u8> = vec![7];
    let mut d = CordDeserializer::new(&input);
    assert_eq!(d.unsupported::<()>("f64"), Err(CordError::NotSupported("f64")));
    assert_eq!(d.unsupported::<()>("char"), Err(CordError::NotSupported("char")));
    assert_eq!(d.parse_u8(), Ok(7));
}

fn sample_shape() -> Shape {
    Shape::Tuple(vec![
        Shape::I64,
        Shape::Str,
        Shape::Bytes,
        Shape::List(Box::new(Shape::Opt(Box::new(Shape::I16)))),
        Shape::Enum(vec![Shape::Unit, Shape::Tuple(vec![Shape::Bool, Shape::U64])]),
        Shape::Unit,
    ])
}

fn sample_value() -> Value {
    Value::Tuple(vec![
        Value::I64(-5_000_000_000),
        Value::Str(String::from("ünïcode")),
        Value::Bytes(vec![0, 255, 128]),
        Value::List(vec![
            Value::Opt(Some(Box::new(Value::I16(-300)))),
            Value::Opt(None),
        ]),
        Value::Variant(
            1,
            Box::new(Value::Tuple(vec![Value::Bool(false), Value::U64(u64::MAX)])),
        ),
        Value::Unit,
    ])
}

#[test]
fn nested_value_round_trips() {
    let bytes = serialize(&sample_value());
    assert_eq!(deserialize(&bytes, &sample_shape()).unwrap(), sample_value());
}

#[test]
fn nested_value_with_extra_byte_is_refused() {
    let mut bytes = serialize(&sample_value());
    bytes.push(0);
    assert_eq!(
        deserialize(&bytes, &sample_shape()),
        Err(CordError::ValidationError("Unexpected trailing bytes"))
    );
}

#[test]
fn unit_scenario() {
    let empty: Vec<u8> = vec![];
    assert_eq!(deserialize(&empty, &Shape::Unit), Ok(Value::Unit));
    let one: Vec<u8> = vec![1];
    assert_eq!(
        deserialize(&one, &Shape::Unit),
        Err(CordError::ValidationError("Unexpected trailing bytes"))
    );
}

#[test]
fn unsupported_shapes_are_refused() {
    let input: Vec<u8> = vec![0, 0, 0, 0, 0, 0, 0, 0];
    assert_eq!(deserialize(&input, &Shape::F32), Err(CordError::NotSupported("f32")));
    assert_eq!(deserialize(&input, &Shape::F64), Err(CordError::NotSupported("f64")));
    assert_eq!(deserialize(&input, &Shape::Char), Err(CordError::NotSupported("char")));
    assert_eq!(deserialize(&input, &Shape::Mapping), Err(CordError::NotSupported("map")));
}

#[test]
fn unknown_variant_is_refused() {
    let input: Vec<u8> = vec![2];
    let shape = Shape::Enum(vec![Shape::Unit, Shape::Unit]);
    assert_eq!(
        deserialize(&input, &shape),
        Err(CordError::ValidationError("Invalid variant index"))
    );
}

#[test]
fn truncated_list_is_refused() {
    let input: Vec<u8> = vec![3, 1, 2];
    assert_eq!(
        deserialize(&input, &Shape::List(Box::new(Shape::U8))),
        Err(CordError::ValidationError("Invalid varint"))
    );
    let tag: Vec<u8> = vec![7];
    assert_eq!(
        deserialize(&tag, &Shape::Opt(Box::new(Shape::U8))),
        Err(CordError::ValidationError("Invalid option variant"))
    );
}
