use mudwire::{from_slice, to_vec, Deserializer, Error, Expected, Nom, ScanKind, Serializer, Shape, Value, Width};

fn b(s: &str) -> Vec<u8> {
    s.as_bytes().to_vec()
}

fn same(a: &Value, e: &Value) -> bool {
    format!("{:?}", a) == format!("{:?}", e)
}

fn err_name(r: Result<Value, Error>) -> String {
    match r {
        Ok(v) => format!("Ok({:?})", v),
        Err(e) => format!("{:?}", e),
    }
}

fn user() -> Value {
    Value::Table(vec![
        (b("username"), Value::Str(b("Silverflower"))),
        (b("tag"), Value::Int(8414)),
    ])
}

#[test]
fn ser_test_struct() {
    let expected = &b"\x03\x01USERNAME\x02Silverflower\x01TAG\x028414\x04"[..];
    assert_eq!(to_vec(&user()).unwrap(), expected.to_vec())
}

#[test]
fn de_test_struct() {
    let input = &b"\x03\x01SUS\x02TRUE\x01ID\x0269\x04"[..];
    let shape = Shape::Record(vec![
        (b("sus"), Shape::Bool),
        (b("id"), Shape::Signed(Width::W32)),
    ]);
    let value = from_slice(input, &shape).expect("Failed deserialization");
    let expected = Value::Table(vec![(b("sus"), Value::Bool(true)), (b("id"), Value::Int(69))]);
    assert!(same(&value, &expected))
}

#[test]
fn union_bare_name() {
    let shape = Shape::Union(vec![(b("idle"), Shape::Unit), (b("move"), Shape::Signed(Width::W32))]);
    let v = from_slice(b"Idle", &shape).unwrap();
    assert!(same(&v, &Value::Tag(b("Idle"))));
}

#[test]
fn union_single_payload() {
    let shape = Shape::Union(vec![(b("idle"), Shape::Unit), (b("move"), Shape::Signed(Width::W32))]);
    let v = from_slice(b"\x03\x01Move\x025\x04", &shape).unwrap();
    assert!(same(&v, &Value::Variant(b("move"), Box::new(Value::Int(5)))));
}

#[test]
fn union_second_entry_rejected() {
    let shape = Shape::Union(vec![(b("move"), Shape::Signed(Width::W32))]);
    let r = from_slice(b"\x03\x01Move\x025\x01Stop\x026\x04", &shape);
    assert!(matches!(r, Err(Error::ExpectedMapEnd)));
}

#[test]
fn union_variant_encoding_keeps_name() {
    let v = Value::Variant(b("Move"), Box::new(Value::Int(5)));
    assert_eq!(to_vec(&v).unwrap(), b"\x03\x01Move\x025\x04".to_vec());
    let t = Value::Tag(b("Idle"));
    assert_eq!(to_vec(&t).unwrap(), b"Idle".to_vec());
}

#[test]
fn empty_table_and_array() {
    assert_eq!(to_vec(&Value::Table(vec![])).unwrap(), vec![3u8, 4]);
    assert_eq!(to_vec(&Value::Array(vec![])).unwrap(), vec![5u8, 6]);
    let t = from_slice(&[3u8, 4], &Shape::Table(Box::new(Shape::Any))).unwrap();
    assert!(same(&t, &Value::Table(vec![])));
    let a = from_slice(&[5u8, 6], &Shape::Array(Box::new(Shape::Any))).unwrap();
    assert!(same(&a, &Value::Array(vec![])));
}

#[test]
fn truncated_table() {
    let mut bytes = to_vec(&user()).unwrap();
    bytes.pop();
    let shape = Shape::Record(vec![(b("username"), Shape::Str), (b("tag"), Shape::Signed(Width::W32))]);
    assert!(matches!(from_slice(&bytes, &shape), Err(Error::ExpectedMapEnd)));
    assert!(matches!(from_slice(&[3u8], &shape), Err(Error::ExpectedMapEnd)));
}

#[test]
fn truncated_array() {
    assert!(matches!(
        from_slice(b"\x05\x021\x022", &Shape::Array(Box::new(Shape::Unsigned(Width::W8)))),
        Err(Error::ExpectedVal)
    ));
    assert!(matches!(from_slice(&[5u8], &Shape::Array(Box::new(Shape::Any))), Err(Error::ExpectedVal)));
}

#[test]
fn trailing_bytes() {
    let mut bytes = to_vec(&user()).unwrap();
    bytes.push(b'x');
    let shape = Shape::Record(vec![]);
    assert!(matches!(from_slice(&bytes, &shape), Err(Error::TrailingBytes)));
    assert!(matches!(from_slice(b"TRUEX", &Shape::Bool), Err(Error::TrailingBytes)));
    assert!(matches!(from_slice(b"12\x04", &Shape::Unsigned(Width::W32)), Err(Error::TrailingBytes)));
    assert!(matches!(from_slice(b"ab\x06", &Shape::Str), Err(Error::TrailingBytes)));
}

#[test]
fn round_trip_lowercases_keys() {
    let v = Value::Table(vec![
        (b("Name"), Value::Str(b("Bob"))),
        (b("HP"), Value::UInt(12)),
        (b("delta"), Value::Int(-3)),
        (b("Flags"), Value::Array(vec![Value::Bool(true), Value::Bool(false)])),
        (b("Pet"), Value::Null),
        (b("inner"), Value::Table(vec![(b("X"), Value::Str(b("")))])),
    ]);
    let shape = Shape::Record(vec![
        (b("name"), Shape::Str),
        (b("hp"), Shape::Unsigned(Width::W16)),
        (b("delta"), Shape::Signed(Width::W8)),
        (b("flags"), Shape::Array(Box::new(Shape::Bool))),
        (b("pet"), Shape::Optional(Box::new(Shape::Str))),
        (b("inner"), Shape::Table(Box::new(Shape::Str))),
    ]);
    let bytes = to_vec(&v).unwrap();
    let back = from_slice(&bytes, &shape).unwrap();
    let expected = Value::Table(vec![
        (b("name"), Value::Str(b("Bob"))),
        (b("hp"), Value::UInt(12)),
        (b("delta"), Value::Int(-3)),
        (b("flags"), Value::Array(vec![Value::Bool(true), Value::Bool(false)])),
        (b("pet"), Value::Null),
        (b("inner"), Value::Table(vec![(b("x"), Value::Str(b("")))])),
    ]);
    assert!(same(&back, &expected));
}

#[test]
fn key_case_canonical() {
    let a = Value::Table(vec![(b("hp"), Value::UInt(1))]);
    let c = Value::Table(vec![(b("Hp"), Value::UInt(1))]);
    assert_eq!(to_vec(&a).unwrap(), to_vec(&c).unwrap());
    assert_eq!(to_vec(&a).unwrap(), b"\x03\x01HP\x021\x04".to_vec());
    let shape = Shape::Table(Box::new(Shape::Unsigned(Width::W8)));
    let once = from_slice(b"\x03\x01hP\x021\x04", &shape).unwrap();
    let twice = from_slice(&to_vec(&once).unwrap(), &shape).unwrap();
    assert!(same(&once, &a));
    assert!(same(&twice, &a));
}

#[test]
fn integers_and_widths() {
    let i8s = Shape::Signed(Width::W8);
    assert!(same(&from_slice(b"-128", &i8s).unwrap(), &Value::Int(-128)));
    assert!(same(&from_slice(b"127", &i8s).unwrap(), &Value::Int(127)));
    assert!(matches!(from_slice(b"-129", &i8s), Err(Error::Parse(Expected::Integer))));
    assert!(matches!(from_slice(b"128", &i8s), Err(Error::Parse(Expected::Integer))));
    let u64s = Shape::Unsigned(Width::W64);
    assert!(same(&from_slice(b"18446744073709551615", &u64s).unwrap(), &Value::UInt(u64::MAX)));
    assert!(matches!(from_slice(b"18446744073709551616", &u64s), Err(Error::Parse(Expected::Integer))));
    assert!(matches!(from_slice(b"256", &Shape::Unsigned(Width::W8)), Err(Error::Parse(Expected::Integer))));
    assert!(matches!(from_slice(b"-1", &Shape::Unsigned(Width::W8)), Err(Error::Parse(Expected::Integer))));
    let i64s = Shape::Signed(Width::W64);
    assert!(same(&from_slice(b"-9223372036854775808", &i64s).unwrap(), &Value::Int(i64::MIN)));
    assert_eq!(to_vec(&Value::Int(i64::MIN)).unwrap(), b"-9223372036854775808".to_vec());
    assert_eq!(to_vec(&Value::UInt(u64::MAX)).unwrap(), b"18446744073709551615".to_vec());
    assert_eq!(to_vec(&Value::Int(0)).unwrap(), b"0".to_vec());
}

#[test]
fn scalar_errors() {
    assert!(matches!(from_slice(b"True", &Shape::Bool), Err(Error::Parse(Expected::Boolean))));
    assert!(matches!(from_slice(b"nil", &Shape::Unit), Err(Error::Parse(Expected::Null))));
    assert!(matches!(from_slice(b"", &Shape::Any), Err(Error::Eof)));
    assert!(matches!(from_slice(b"\x05", &Shape::Union(vec![])), Err(Error::Parse(Expected::Union))));
    assert!(matches!(from_slice(b"x", &Shape::Signed(Width::W32)), Err(Error::Parse(Expected::Integer))));
}

#[test]
fn structural_errors() {
    let arr = Shape::Array(Box::new(Shape::Str));
    let tab = Shape::Table(Box::new(Shape::Str));
    assert_eq!(err_name(from_slice(b"\x03\x06", &arr)), "ExpectedArrayStart");
    assert_eq!(err_name(from_slice(b"\x05a\x06", &arr)), "ExpectedVal");
    assert_eq!(err_name(from_slice(b"\x05\x02a", &arr)), "ExpectedVal");
    assert_eq!(err_name(from_slice(b"\x05\x02a\x04", &arr)), "ExpectedVal");
    assert_eq!(err_name(from_slice(b"\x05\x06", &tab)), "ExpectedMapStart");
    assert_eq!(err_name(from_slice(b"\x03\x02a\x04", &tab)), "ExpectedVar");
    assert_eq!(err_name(from_slice(b"\x03\x01K\x01a\x04", &tab)), "ExpectedVal");
}

#[test]
fn self_describing() {
    let v = from_slice(b"\x03\x01A\x02NULL\x01B\x02FALSE\x01C\x0242\x01D\x02-7\x01E\x02hi\x01F\x02\x05\x021\x06\x04", &Shape::Any).unwrap();
    let expected = Value::Table(vec![
        (b("a"), Value::Null),
        (b("b"), Value::Bool(false)),
        (b("c"), Value::UInt(42)),
        (b("d"), Value::Int(-7)),
        (b("e"), Value::Str(b("hi"))),
        (b("f"), Value::Array(vec![Value::UInt(1)])),
    ]);
    assert!(same(&v, &expected));
}

#[test]
fn optional_values() {
    let sh = Shape::Optional(Box::new(Shape::Unsigned(Width::W8)));
    assert!(same(&from_slice(b"NULL", &sh).unwrap(), &Value::Null));
    assert!(same(&from_slice(b"7", &sh).unwrap(), &Value::UInt(7)));
    assert_eq!(to_vec(&Value::Null).unwrap(), b"NULL".to_vec());
}

#[test]
fn empty_string_value() {
    let v = from_slice(b"\x03\x01S\x02\x04", &Shape::Record(vec![(b("s"), Shape::Str)])).unwrap();
    assert!(same(&v, &Value::Table(vec![(b("s"), Value::Str(vec![]))])));
}

#[test]
fn cursor_bytes() {
    let input = [3u8, 4];
    let mut d = Deserializer::from_slice(&input);
    assert_eq!(d.peek_byte().unwrap(), 3);
    assert_eq!(d.next_byte().unwrap(), 3);
    assert_eq!(d.peek_byte().unwrap(), 4);
    assert_eq!(d.next_byte().unwrap(), 4);
    assert!(matches!(d.peek_byte(), Err(Error::Eof)));
    assert!(matches!(d.next_byte(), Err(Error::Eof)));
    assert!(d.end().is_ok());
}

#[test]
fn cursor_reads_in_turn() {
    let input = b"TRUE12";
    let mut d = Deserializer::from_slice(input);
    assert!(same(&d.deserialize(&Shape::Bool).unwrap(), &Value::Bool(true)));
    assert!(matches!(d.end(), Err(Error::TrailingBytes)));
    assert!(same(&d.deserialize(&Shape::Unsigned(Width::W8)).unwrap(), &Value::UInt(12)));
    assert!(d.end().is_ok());
}

#[test]
fn serializer_appends() {
    let mut s = Serializer::new();
    s.serialize(&Value::Bool(true));
    s.serialize(&Value::Array(vec![Value::Str(b("a")), Value::UInt(2)]));
    assert_eq!(s.to_bytes(), b"TRUE\x05\x02a\x022\x06".to_vec());
}

#[test]
fn scan_errors_stack() {
    let one = Error::from_error_kind(b"ab", ScanKind::IsNot);
    assert!(matches!(&one, Error::Nom(Nom { input, kind: ScanKind::IsNot }) if input == b"ab"));
    let two = Error::append(b"b", ScanKind::Digit, one);
    match &two {
        Error::MultiNom(v) => {
            assert_eq!(v.len(), 2);
            assert_eq!(v[0].input, b"b".to_vec());
            assert_eq!(v[1].input, b"ab".to_vec());
        }
        _ => panic!("expected a stack"),
    }
    let three = Error::append(b"", ScanKind::Eof, two);
    match &three {
        Error::MultiNom(v) => {
            assert_eq!(v.len(), 3);
            assert_eq!(v[2].kind, ScanKind::Eof);
        }
        _ => panic!("expected a stack"),
    }
    let other = Error::append(b"z", ScanKind::Digit, Error::Eof);
    assert!(matches!(&other, Error::Nom(Nom { kind: ScanKind::Tag, .. })));
    assert!(matches!(Error::custom("missing field `id`".to_string()), Error::Message(m) if m == "missing field `id`"));
}

#[test]
fn empty_key_accepted() {
    let tab = Shape::Table(Box::new(Shape::Str));
    let v = from_slice(b"\x03\x01\x02a\x04", &tab).unwrap();
    assert!(same(&v, &Value::Table(vec![(vec![], Value::Str(b("a")))])));
    let e = Value::Table(vec![(vec![], Value::UInt(1))]);
    assert_eq!(to_vec(&e).unwrap(), b"\x03\x01\x021\x04".to_vec());
}

#[test]
fn cursor_table_and_array_steps() {
    let input = b"\x03\x01Sus\x02TRUE\x01Ids\x02\x05\x021\x06\x04";
    let mut d = Deserializer::from_slice(input);
    assert!(d.open_table().is_ok());
    assert_eq!(d.next_key().unwrap(), Some(b("sus")));
    assert!(same(&d.deserialize(&Shape::Bool).unwrap(), &Value::Bool(true)));
    assert_eq!(d.next_key().unwrap(), Some(b("ids")));
    assert!(matches!(d.open_table(), Err(Error::ExpectedMapStart)));
    assert!(d.open_array().is_ok());
    assert_eq!(d.next_item().unwrap(), true);
    assert!(same(&d.deserialize(&Shape::Unsigned(Width::W8)).unwrap(), &Value::UInt(1)));
    assert_eq!(d.next_item().unwrap(), false);
    assert_eq!(d.next_item().unwrap(), false);
    assert!(matches!(d.close_table(), Err(Error::ExpectedMapEnd)));
    assert!(d.close_array().is_ok());
    assert!(matches!(d.close_array(), Err(Error::ExpectedArrayEnd)));
    assert_eq!(d.next_key().unwrap(), None);
    assert_eq!(d.next_key().unwrap(), None);
    assert!(matches!(d.end(), Err(Error::TrailingBytes)));
    assert!(d.close_table().is_ok());
    assert!(matches!(d.next_key(), Err(Error::ExpectedMapEnd)));
    assert!(matches!(d.next_item(), Err(Error::ExpectedVal)));
    assert!(matches!(d.close_table(), Err(Error::ExpectedMapEnd)));
    assert!(d.end().is_ok());
}

#[test]
fn cursor_union_steps() {
    let mut d = Deserializer::from_slice(b"\x03\x01Move\x025\x04");
    assert_eq!(d.open_union().unwrap(), (b("move"), true));
    assert!(same(&d.deserialize(&Shape::Signed(Width::W32)).unwrap(), &Value::Int(5)));
    assert!(d.close_union().is_ok());
    assert!(d.end().is_ok());
    let mut e = Deserializer::from_slice(b"Idle");
    assert_eq!(e.open_union().unwrap(), (b("Idle"), false));
    assert!(matches!(e.open_union(), Err(Error::Eof)));
    let mut f = Deserializer::from_slice(b"\x05");
    assert!(matches!(f.open_union(), Err(Error::Parse(Expected::Union))));
    assert!(matches!(f.close_union(), Err(Error::ExpectedMapEnd)));
}

#[test]
fn cursor_null_test() {
    let mut d = Deserializer::from_slice(b"NULL7");
    assert!(d.take_null());
    assert!(!d.take_null());
    assert!(same(&d.deserialize(&Shape::Unsigned(Width::W8)).unwrap(), &Value::UInt(7)));
}

#[test]
fn key_case_does_not_change_decoding() {
    let shape = Shape::Record(vec![(b("hp"), Shape::Unsigned(Width::W8)), (b("name"), Shape::Str)]);
    let upper = from_slice(b"\x03\x01HP\x027\x01Name\x02Bob\x04", &shape).unwrap();
    let lower = from_slice(b"\x03\x01hp\x027\x01name\x02Bob\x04", &shape).unwrap();
    assert!(same(&upper, &lower));
    let u = Shape::Union(vec![(b("move"), Shape::Signed(Width::W32))]);
    let a = from_slice(b"\x03\x01MOVE\x025\x04", &u).unwrap();
    let c = from_slice(b"\x03\x01move\x025\x04", &u).unwrap();
    assert!(same(&a, &c));
}
