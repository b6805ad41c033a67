use krpc_mars::codec::{decode_value, encode_value, values_equal, CodecError, Kind, Value};

fn round_trip(k: &Kind, v: &Value) {
    let bytes = encode_value(v);
    let back = decode_value(k, &bytes).expect("decodes");
    assert!(values_equal(v, &back), "{:?} came back as {:?}", v, back);
}

fn boxed(k: Kind) -> Box<Kind> {
    Box::new(k)
}

#[test]
fn scalar_round_trips() {
    round_trip(&Kind::Unit, &Value::Unit);
    round_trip(&Kind::Bool, &Value::Bool(true));
    round_trip(&Kind::Bool, &Value::Bool(false));
    for x in [0u32, 1, 127, 128, 300, u32::MAX] {
        round_trip(&Kind::U32, &Value::U32(x));
    }
    for x in [0u64, 1, 16384, u64::MAX] {
        round_trip(&Kind::U64, &Value::U64(x));
    }
    for x in [0i32, -1, 1, i32::MIN, i32::MAX] {
        round_trip(&Kind::I32, &Value::I32(x));
    }
    for x in [0i64, -1, 1, i64::MIN, i64::MAX] {
        round_trip(&Kind::I64, &Value::I64(x));
    }
    round_trip(&Kind::Float, &Value::Float(1.5f32.to_bits()));
    round_trip(&Kind::Double, &Value::Double((-2.25f64).to_bits()));
    round_trip(&Kind::Str, &Value::Str(String::from("héllo, wörld")));
    round_trip(&Kind::Str, &Value::Str(String::new()));
    round_trip(&Kind::Stream(boxed(Kind::U32)), &Value::Stream(42));
}

#[test]
fn scalar_wire_bytes() {
    assert_eq!(encode_value(&Value::U64(300)), vec![0xAC, 0x02]);
    assert_eq!(encode_value(&Value::U32(1)), vec![0x01]);
    assert_eq!(encode_value(&Value::Bool(true)), vec![0x01]);
    assert_eq!(encode_value(&Value::Bool(false)), vec![0x00]);
    assert_eq!(encode_value(&Value::I32(-1)), vec![0x01]);
    assert_eq!(encode_value(&Value::I32(1)), vec![0x02]);
    assert_eq!(encode_value(&Value::I64(-2)), vec![0x03]);
    assert_eq!(encode_value(&Value::Unit), Vec::<u8>::new());
    assert_eq!(encode_value(&Value::Str(String::from("hi"))), vec![0x02, b'h', b'i']);
    assert_eq!(encode_value(&Value::Str(String::from("ab"))), vec![0x02, 0x61, 0x62]);
    assert_eq!(encode_value(&Value::Str(String::new())), vec![0x00]);
    assert_eq!(encode_value(&Value::Double(1.0f64.to_bits())), 1.0f64.to_le_bytes().to_vec());
    assert_eq!(encode_value(&Value::Float(2.5f32.to_bits())), 2.5f32.to_le_bytes().to_vec());
    assert_eq!(encode_value(&Value::Stream(5)), vec![0x08, 0x05]);
}

#[test]
fn container_wire_bytes() {
    let list = Value::List(vec![Value::U32(1), Value::U32(300)]);
    assert_eq!(encode_value(&list), vec![0x0A, 0x01, 0x01, 0x0A, 0x02, 0xAC, 0x02]);
    let empty = Value::List(vec![]);
    assert_eq!(encode_value(&empty), Vec::<u8>::new());
    let dict = Value::Dict(vec![(Value::U32(1), Value::Bool(true))]);
    assert_eq!(encode_value(&dict), vec![0x0A, 0x06, 0x0A, 0x01, 0x01, 0x12, 0x01, 0x01]);
}

#[test]
fn nested_round_trip() {
    // List<Dictionary<String, Tuple<i32, bool>>>
    let kind = Kind::List(boxed(Kind::Dict(
        boxed(Kind::Str),
        boxed(Kind::Tuple2(boxed(Kind::I32), boxed(Kind::Bool))),
    )));
    let entry = |name: &str, n: i32, b: bool| {
        (Value::Str(String::from(name)), Value::Tuple(vec![Value::I32(n), Value::Bool(b)]))
    };
    let v = Value::List(vec![
        Value::Dict(vec![entry("a", -5, true), entry("b", 7, false)]),
        Value::Dict(vec![]),
        Value::Dict(vec![entry("", i32::MIN, true)]),
    ]);
    round_trip(&kind, &v);
    round_trip(&kind, &Value::List(vec![]));
}

#[test]
fn set_and_tuple_round_trip() {
    let kind = Kind::SetOf(boxed(Kind::List(boxed(Kind::U64))));
    let v = Value::SetOf(vec![
        Value::List(vec![Value::U64(1), Value::U64(2)]),
        Value::List(vec![]),
    ]);
    round_trip(&kind, &v);
    let kind3 = Kind::Tuple3(boxed(Kind::Str), boxed(Kind::U32), boxed(Kind::Double));
    round_trip(
        &kind3,
        &Value::Tuple(vec![Value::Str(String::from("x")), Value::U32(9), Value::Double(0)]),
    );
    let kind4 = Kind::Tuple4(boxed(Kind::Bool), boxed(Kind::Bool), boxed(Kind::I64), boxed(Kind::Unit));
    round_trip(
        &kind4,
        &Value::Tuple(vec![Value::Bool(true), Value::Bool(false), Value::I64(-9), Value::Unit]),
    );
}

#[test]
fn string_is_read_after_its_length() {
    let v = decode_value(&Kind::Str, &[0x05, 0x68, 0x65, 0x6c, 0x6c, 0x6f]).unwrap();
    assert!(values_equal(&v, &Value::Str(String::from("hello"))));
    let empty = decode_value(&Kind::Str, &[0x00]).unwrap();
    assert!(values_equal(&empty, &Value::Str(String::new())));
}

#[test]
fn set_collapses_duplicates() {
    let bytes = encode_value(&Value::List(vec![Value::U32(1), Value::U32(1), Value::U32(2)]));
    let v = decode_value(&Kind::SetOf(boxed(Kind::U32)), &bytes).unwrap();
    assert!(values_equal(&v, &Value::SetOf(vec![Value::U32(1), Value::U32(2)])));
}

#[test]
fn dictionary_last_write_wins() {
    let bytes = encode_value(&Value::Dict(vec![
        (Value::U32(1), Value::Str(String::from("old"))),
        (Value::U32(2), Value::Str(String::from("two"))),
        (Value::U32(1), Value::Str(String::from("new"))),
    ]));
    let v = decode_value(&Kind::Dict(boxed(Kind::U32), boxed(Kind::Str)), &bytes).unwrap();
    let expected = Value::Dict(vec![
        (Value::U32(1), Value::Str(String::from("new"))),
        (Value::U32(2), Value::Str(String::from("two"))),
    ]);
    assert!(values_equal(&v, &expected), "{:?}", v);
}

#[test]
fn malformed_payloads_are_refused() {
    let bad = Err(CodecError::Malformed);
    assert_eq!(decode_value(&Kind::U32, &[0x80]).map(|_| ()), bad);
    assert_eq!(decode_value(&Kind::U32, &[0x01, 0x01]).map(|_| ()), bad);
    assert_eq!(decode_value(&Kind::U32, &[0x80, 0x80, 0x80, 0x80, 0x10]).map(|_| ()), bad);
    assert_eq!(decode_value(&Kind::Unit, &[0x00]).map(|_| ()), bad);
    assert_eq!(decode_value(&Kind::Double, &[0; 7]).map(|_| ()), bad);
    assert_eq!(decode_value(&Kind::Float, &[0; 5]).map(|_| ()), bad);
    assert_eq!(decode_value(&Kind::Str, &[0xFF, 0xFE]).map(|_| ()), bad);
    assert_eq!(decode_value(&Kind::Str, &[0x02, 0xFF, 0xFE]).map(|_| ()), bad);
    assert_eq!(decode_value(&Kind::Str, &[0x03, b'a', b'b']).map(|_| ()), bad);
    assert_eq!(decode_value(&Kind::Str, &[0x01, b'a', b'b']).map(|_| ()), bad);
    assert_eq!(decode_value(&Kind::Str, &[]).map(|_| ()), bad);
    assert_eq!(decode_value(&Kind::List(boxed(Kind::U32)), &[0x0A, 0x05, 0x01]).map(|_| ()), bad);
    assert_eq!(decode_value(&Kind::List(boxed(Kind::U32)), &[0x08, 0x01]).map(|_| ()), bad);
    let pair = encode_value(&Value::Tuple(vec![Value::U32(1), Value::U32(2)]));
    let triple = Kind::Tuple3(boxed(Kind::U32), boxed(Kind::U32), boxed(Kind::U32));
    assert_eq!(decode_value(&triple, &pair).map(|_| ()), bad);
    let one = Value::U64(1);
    assert!(decode_value(&Kind::Tuple2(boxed(Kind::U32), boxed(Kind::U32)), &encode_value(&one)).is_err());
}

#[test]
fn unknown_fields_are_skipped() {
    // a list message with an extra varint field 2 between its items
    let bytes = vec![0x0A, 0x01, 0x07, 0x10, 0x63, 0x0A, 0x01, 0x08];
    let v = decode_value(&Kind::List(boxed(Kind::U32)), &bytes).unwrap();
    assert!(values_equal(&v, &Value::List(vec![Value::U32(7), Value::U32(8)])));
}

#[test]
fn kinds_copy_and_values_compare() {
    let k = Kind::Dict(boxed(Kind::Str), boxed(Kind::Tuple2(boxed(Kind::I32), boxed(Kind::Bool))));
    let c = k.copy();
    assert_eq!(format!("{:?}", k), format!("{:?}", c));
    assert!(!values_equal(&Value::U32(1), &Value::U64(1)));
    assert!(!values_equal(&Value::Str(String::from("a")), &Value::Str(String::from("b"))));
    assert!(values_equal(
        &Value::List(vec![Value::Str(String::from("a"))]),
        &Value::List(vec![Value::Str(String::from("a"))])
    ));
}
