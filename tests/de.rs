use cord::{collect_set, deserialize, Bytes, CordSet, DateTime, CordDeserializer, CordSerializer, Shape, Value};

fn enum_shape() -> Shape {
    Shape::Enum(vec![
        Shape::Unit,
        Shape::U16,
        Shape::Tuple(vec![Shape::U16, Shape::U16]),
        Shape::Tuple(vec![Shape::U32]),
    ])
}

fn struct_shape() -> Shape {
    Shape::Tuple(vec![
        Shape::U16,
        Shape::Opt(Box::new(Shape::U8)),
        Shape::List(Box::new(Shape::Str)),
        Shape::Bool,
    ])
}

#[test]
fn deserialize_unit() {
    let unit_input: Vec<u8> = vec![];
    assert_eq!(deserialize(&unit_input, &Shape::Unit).unwrap(), Value::Unit);
}

#[test]
fn deserialize_booleans() {
    let false_input: Vec<u8> = vec![0];
    assert_eq!(deserialize(&false_input, &Shape::Bool).unwrap(), Value::Bool(false));

    let true_input: Vec<u8> = vec![1];
    assert_eq!(deserialize(&true_input, &Shape::Bool).unwrap(), Value::Bool(true));
}

#[test]
fn deserialize_numbers() {
    let unsigned_8: Vec<u8> = vec![62];
    assert_eq!(deserialize(&unsigned_8, &Shape::U8).unwrap(), Value::U8(62));

    let signed_8: Vec<u8> = vec![59];
    assert_eq!(deserialize(&signed_8, &Shape::I8).unwrap(), Value::I8(-30));

    let unsigned_32: Vec<u8> = vec![212, 245, 78];
    assert_eq!(deserialize(&unsigned_32, &Shape::U32).unwrap(), Value::U32(1293012));

    let signed_32: Vec<u8> = vec![139, 151, 151, 1];
    assert_eq!(deserialize(&signed_32, &Shape::I32).unwrap(), Value::I32(-1238470));

    let small_unsigned_32: Vec<u8> = vec![12];
    assert_eq!(deserialize(&small_unsigned_32, &Shape::U32).unwrap(), Value::U32(12));
}

#[test]
fn deserialize_strings() {
    let string: Vec<u8> = vec![4, 116, 101, 115, 116];
    assert_eq!(
        deserialize(&string, &Shape::Str).unwrap(),
        Value::Str(String::from("test"))
    );
}

#[test]
fn deserialize_empty_strings() {
    let string: Vec<u8> = vec![0];
    assert_eq!(deserialize(&string, &Shape::Str).unwrap(), Value::Str(String::new()));
}

#[test]
fn deserialize_large_bytearrays() {
    let length = 300;

    let mut input: Vec<u8> = vec![172, 2];
    input.extend(vec![b'0'; length]);

    let expected = Value::List((0..length).map(|_| Value::U8(b'0')).collect());
    assert_eq!(
        deserialize(&input, &Shape::List(Box::new(Shape::U8))).unwrap(),
        expected
    );
}

#[test]
fn deserialize_empty_bytearrays() {
    let input: Vec<u8> = vec![0];
    assert_eq!(
        deserialize(&input, &Shape::List(Box::new(Shape::U8))).unwrap(),
        Value::List(vec![])
    );
}

#[test]
fn deserialize_bytes() {
    let input: Vec<u8> = vec![3, 0, 1, 2];
    let mut d = CordDeserializer::new(&input);
    assert_eq!(Bytes::decode(&mut d).unwrap(), Bytes::from(vec![0, 1, 2]));
    d.end().unwrap();
    assert_eq!(
        deserialize(&input, &Shape::Bytes).unwrap(),
        Value::Bytes(vec![0, 1, 2])
    );
}

#[test]
fn deserialize_datetime() {
    let input: Vec<u8> = vec![192, 172, 251, 129, 176, 49];
    let expected_millis = chrono::DateTime::parse_from_rfc3339("2023-10-05T14:30:00.000Z")
        .unwrap()
        .with_timezone(&chrono::Utc)
        .timestamp_millis();
    let expected_datetime = DateTime::from_millis(expected_millis);

    let mut d = CordDeserializer::new(&input);
    assert_eq!(DateTime::decode(&mut d).unwrap(), expected_datetime);
    d.end().unwrap();
}

fn string_encoding(s: &str) -> Vec<u8> {
    let mut e = CordSerializer::new();
    e.write_str(s);
    e.into_bytes()
}

#[test]
fn deserialize_set() {
    let input: Vec<u8> = vec![
        7, 1, 97, 1, 98, 1, 99, 1, 100, 1, 101, 1, 102, 4, 116, 101, 115, 116,
    ];
    let expected = CordSet::from_encodings(
        vec!["a", "b", "c", "d", "e", "f", "test"]
            .into_iter()
            .map(string_encoding)
            .collect(),
    );

    let mut d = CordDeserializer::new(&input);
    let len = d.parse_len().unwrap();
    let mut encodings = Vec::new();
    for _ in 0..len {
        encodings.push(string_encoding(d.parse_string().unwrap()));
    }
    d.end().unwrap();
    let set = collect_set(&encodings).unwrap();
    assert_eq!(set.to_vec(), expected.to_vec());
}

#[test]
fn deserialize_enum() {
    let input: Vec<u8> = vec![0];
    assert_eq!(
        deserialize(&input, &enum_shape()).unwrap(),
        Value::Variant(0, Box::new(Value::Unit))
    );

    let input: Vec<u8> = vec![1, 1];
    assert_eq!(
        deserialize(&input, &enum_shape()).unwrap(),
        Value::Variant(1, Box::new(Value::U16(1)))
    );

    let input: Vec<u8> = vec![2, 1, 2];
    assert_eq!(
        deserialize(&input, &enum_shape()).unwrap(),
        Value::Variant(2, Box::new(Value::Tuple(vec![Value::U16(1), Value::U16(2)])))
    );

    let input: Vec<u8> = vec![3, 1];
    assert_eq!(
        deserialize(&input, &enum_shape()).unwrap(),
        Value::Variant(3, Box::new(Value::Tuple(vec![Value::U32(1)])))
    );
}

#[test]
fn deserialize_struct() {
    let input: Vec<u8> = vec![
        99, 1, 7, 2, 5, 102, 105, 114, 115, 116, 6, 115, 101, 99, 111, 110, 100, 1,
    ];

    assert_eq!(
        deserialize(&input, &struct_shape()).unwrap(),
        Value::Tuple(vec![
            Value::U16(99),
            Value::Opt(Some(Box::new(Value::U8(7)))),
            Value::List(vec![
                Value::Str(String::from("first")),
                Value::Str(String::from("second"))
            ]),
            Value::Bool(true),
        ])
    );
}
