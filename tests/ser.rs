use cord::{serialize, Bytes, CordError, CordSet, DateTime, CordSerializer, Value};
use integer_encoding::VarInt;

fn encoded(f: impl FnOnce(&mut CordSerializer)) -> Vec<u8> {
    let mut e = CordSerializer::new();
    f(&mut e);
    e.into_bytes()
}

fn u8_list(bytes: &[u8]) -> Value {
    Value::List(bytes.iter().map(|b| Value::U8(*b)).collect())
}

#[test]
fn serialize_unit() {
    assert_eq!(serialize(&Value::Unit), Vec::<u8>::new());
    assert_eq!(CordSerializer::new().into_bytes(), Vec::<u8>::new());
}

#[test]
fn serialize_booleans() {
    assert_eq!(serialize(&Value::Bool(true)), [1]);
    assert_eq!(serialize(&Value::Bool(false)), [0]);
}

#[test]
fn serialize_numbers_as_varints() {
    let u8: u8 = 62;
    assert_eq!(serialize(&Value::U8(u8)), [62]);
    assert_eq!(serialize(&Value::U8(u8)), u8.encode_var_vec().as_slice());

    let i8: i8 = -30;
    assert_eq!(serialize(&Value::I8(i8)), [59]);
    assert_eq!(serialize(&Value::I8(i8)), i8.encode_var_vec().as_slice());

    let u32: u32 = 1293012;
    assert_eq!(serialize(&Value::U32(u32)), [212, 245, 78]);
    assert_eq!(serialize(&Value::U32(u32)), u32.encode_var_vec().as_slice());

    let i32: i32 = -1238470;
    assert_eq!(serialize(&Value::I32(i32)), [139, 151, 151, 1]);
    assert_eq!(serialize(&Value::I32(i32)), i32.encode_var_vec().as_slice());

    let u32_xs: u32 = 12;
    assert_eq!(serialize(&Value::U32(u32_xs)), [12]);
    assert_eq!(
        serialize(&Value::U32(u32_xs)),
        u32_xs.encode_var_vec().as_slice()
    );
}

#[test]
fn serialize_strings() {
    assert_eq!(
        serialize(&Value::Str(String::from("test"))),
        [4, 116, 101, 115, 116]
    );
}

#[test]
fn serialize_empty_strings() {
    assert_eq!(serialize(&Value::Str(String::new())), [0]);
}

#[test]
fn serialize_large_bytearrays() {
    let length = 300;
    let value = vec![b'0'; length];

    let mut expected: Vec<u8> = serialize(&Value::U64(length as u64));
    expected.extend(vec![b'0'; length]);

    assert_eq!(serialize(&u8_list(&value)), expected);
}

#[test]
fn serialize_empty_bytearrays() {
    let value: Vec<u8> = vec![];
    assert_eq!(serialize(&u8_list(&value)), [0]);
}

#[test]
fn serialize_bytes() {
    let bytes = Bytes::from(vec![0, 1, 2]);
    assert_eq!(encoded(|e| bytes.encode(e)), vec![3, 0, 1, 2]);
}

#[test]
fn serialize_raw_bytes() {
    let bytes: Vec<u8> = vec![0, 1, 2];
    assert_eq!(serialize(&u8_list(&bytes)), [3, 0, 1, 2]);
    assert_eq!(serialize(&Value::Bytes(bytes)), [3, 0, 1, 2]);
}

#[test]
fn serialize_tuple() {
    // A fixed-size tuple is its fields one after another, with no length.
    let bytes: [u8; 3] = [0, 1, 2];
    let tuple = Value::Tuple(bytes.iter().map(|b| Value::U8(*b)).collect());
    assert_eq!(serialize(&tuple), vec![0, 1, 2]);
}

#[test]
fn serialize_datetime() {
    let millis = chrono::DateTime::parse_from_rfc3339("2023-10-05T14:30:00.000Z")
        .unwrap()
        .with_timezone(&chrono::Utc)
        .timestamp_millis();
    let datetime = DateTime::from_millis(millis);

    assert_eq!(
        encoded(|e| datetime.encode(e)),
        vec![192, 172, 251, 129, 176, 49]
    );
}

fn encoded_str(s: &str) -> Vec<u8> {
    encoded(|e| e.write_str(s))
}

#[test]
fn serialize_set() {
    let set = CordSet::from_encodings(
        vec!["a", "b", "c", "d", "e", "f", "test"]
            .into_iter()
            .map(encoded_str)
            .collect(),
    );

    assert_eq!(
        set.to_bytes(),
        [7, 1, 97, 1, 98, 1, 99, 1, 100, 1, 101, 1, 102, 4, 116, 101, 115, 116]
    );
}

#[test]
fn serialize_enum() {
    let unit = Value::Variant(0, Box::new(Value::Unit));
    let container = Value::Variant(1, Box::new(Value::U16(1)));
    let tuple_container = Value::Variant(
        2,
        Box::new(Value::Tuple(vec![Value::U16(1), Value::U16(2)])),
    );
    let strukt = Value::Variant(3, Box::new(Value::Tuple(vec![Value::U32(1)])));
    assert_eq!(serialize(&unit), vec![0]);
    assert_eq!(serialize(&container), vec![1, 1]);
    assert_eq!(serialize(&tuple_container), vec![2, 1, 2]);
    assert_eq!(serialize(&strukt), vec![3, 1]);
}

#[test]
fn serialize_option() {
    let missing = Value::Opt(None);
    assert_eq!(
        serialize(&Value::Opt(Some(Box::new(Value::U8(7))))),
        vec![1, 7]
    );
    assert_eq!(serialize(&missing), vec![0]);
}

#[test]
fn serialize_struct() {
    let value = Value::Tuple(vec![
        Value::U16(99),
        Value::Opt(Some(Box::new(Value::U8(7)))),
        Value::List(vec![
            Value::Str(String::from("first")),
            Value::Str(String::from("second")),
        ]),
        Value::Bool(true),
    ]);
    assert_eq!(
        serialize(&value),
        vec![
            99, // int
            1, 7, // option
            2, // length of seq
            5, 102, 105, 114, 115, 116, // seq[0]
            6, 115, 101, 99, 111, 110, 100, // seq[1]
            1  // boolean
        ]
    );
}

#[test]
fn serialize_unsupported_f64() {
    let value: f64 = 2.71828;
    let e = CordSerializer::new();
    assert!(value > 0.0);
    assert_eq!(e.unsupported::<()>("f64").unwrap_err(), CordError::NotSupported("f64"));
    assert_eq!(e.into_bytes(), Vec::<u8>::new());
}

#[test]
fn serialize_unsupported_char() {
    let value: char = 'A';
    let e = CordSerializer::new();
    assert_eq!(value, 'A');
    assert_eq!(e.unsupported::<()>("char").unwrap_err(), CordError::NotSupported("char"));
    assert_eq!(e.into_bytes(), Vec::<u8>::new());
}
