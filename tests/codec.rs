use mcf::{base64, base64bcrypt, from_str, to_string, Error, Field, Kind, Shape, Value, Variant};

fn field(name: &str, shape: Shape) -> Field {
    Field { name: name.to_string(), shape }
}

fn text(s: &str) -> Value {
    Value::Str(s.to_string())
}

fn test_struct_shape() -> Shape {
    Shape::Struct(vec![
        field("p", Shape::Scalar(Kind::U8)),
        field("r", Shape::Optional(Box::new(Shape::Scalar(Kind::U8)))),
        field(
            "params",
            Shape::Mapping(Box::new(Shape::Scalar(Kind::Str)), Box::new(Shape::Scalar(Kind::Str))),
        ),
        field("hash", Shape::Bytes),
    ])
}

fn first_enum_shape() -> Shape {
    Shape::Enum(vec![Variant {
        name: "First".to_string(),
        fields: vec![field("a", Shape::Scalar(Kind::U8)), field("b", Shape::Scalar(Kind::U8))],
    }])
}

#[test]
fn test_deserialize() {
    let t = Value::Record(vec![
        Value::UInt(12),
        Value::Present(Box::new(Value::UInt(5))),
        Value::Dict(vec![(text("x"), text("xylo")), (text("y"), text("yell"))]),
        Value::Bytes(vec![0x12, 0x23, 0x34]),
    ]);
    let ts = "$12$5$x=xylo,y=yell$EiM0";
    assert_eq!(from_str(ts, &test_struct_shape()).unwrap(), t);

    let t = Value::Tagged("First".to_string(), vec![Value::UInt(38), Value::UInt(128)]);
    let ts = "$First$38$128";
    assert_eq!(from_str(ts, &first_enum_shape()).unwrap(), t);
}

#[test]
fn test_serialize() {
    let shape = Shape::Struct(vec![
        field("p", Shape::Scalar(Kind::U8)),
        field("r", Shape::Scalar(Kind::U8)),
        field("hash", Shape::Bytes),
    ]);
    let t = Value::Record(vec![Value::UInt(12), Value::UInt(5), Value::Bytes(vec![0x12, 0x23, 0x34])]);
    let ts = to_string(&t, &shape).unwrap();
    assert_eq!(ts, "$12$5$EiM0");

    let t = Value::Tagged("First".to_string(), vec![Value::UInt(38), Value::UInt(128)]);
    let ts = to_string(&t, &first_enum_shape()).unwrap();
    assert_eq!(ts, "$First$38$128");
}

#[test]
fn unknown_variant_is_refused() {
    let r = from_str("$bogus$1", &first_enum_shape());
    assert_eq!(r, Err(Error::UnknownVariant("bogus".to_string())));
}

#[test]
fn empty_field_is_absent_and_back() {
    let shape = Shape::Struct(vec![
        field("p", Shape::Scalar(Kind::U8)),
        field("r", Shape::Optional(Box::new(Shape::Scalar(Kind::U8)))),
        field("q", Shape::Scalar(Kind::U8)),
    ]);
    let v = from_str("$1$$3", &shape).unwrap();
    assert_eq!(v, Value::Record(vec![Value::UInt(1), Value::Absent, Value::UInt(3)]));
    assert_eq!(to_string(&v, &shape).unwrap(), "$1$$3");
}

#[test]
fn legacy_field_splits_at_the_salt_run() {
    let salt: Vec<u8> = (0u8..16).collect();
    let hash: Vec<u8> = (100u8..116).collect();
    let enc = base64bcrypt::serialize(&(salt.clone(), hash.clone()), 16, 16).unwrap();
    assert_eq!(enc.len(), 44);
    let (a, b) = base64bcrypt::deserialize(&enc, 16, 16).unwrap();
    assert_eq!(a, salt);
    assert_eq!(b, hash);
    // the same 22 characters give the same salt, whatever follows them
    let other = base64bcrypt::serialize(&(salt.clone(), vec![7u8; 16]), 16, 16).unwrap();
    assert_eq!(&other[..22], &enc[..22]);
    assert_eq!(base64bcrypt::deserialize(&other, 16, 16).unwrap().0, salt);
}

#[test]
fn legacy_field_of_another_length_fails() {
    let salt: Vec<u8> = (0u8..16).collect();
    let enc = base64bcrypt::serialize(&(salt.clone(), salt.clone()), 16, 16).unwrap();
    assert_eq!(base64bcrypt::deserialize(&enc[..43], 16, 16), Err(Error::Encoding));
    let longer = format!("{}A", enc);
    assert_eq!(base64bcrypt::deserialize(&longer, 16, 16), Err(Error::Encoding));
    assert_eq!(base64bcrypt::deserialize("", 16, 16), Err(Error::Encoding));
}

#[test]
fn base64_round_trip_and_errors() {
    assert_eq!(base64::serialize(&vec![0x12, 0x23, 0x34]).unwrap(), "EiM0");
    assert_eq!(base64::deserialize("EiM0").unwrap(), vec![0x12, 0x23, 0x34]);
    assert_eq!(base64::serialize(&vec![]).unwrap(), "");
    assert_eq!(base64::deserialize("EiM0=").unwrap_err(), Error::Encoding);
    assert_eq!(base64::deserialize("E").unwrap_err(), Error::Encoding);
    assert_eq!(base64::deserialize("EiM$").unwrap_err(), Error::Encoding);
    // non-zero trailing bits are not canonical
    assert_eq!(base64::deserialize("EiN").unwrap_err(), Error::Encoding);
}

#[test]
fn missing_field_and_parse_errors() {
    let shape = Shape::Struct(vec![field("p", Shape::Scalar(Kind::U8)), field("q", Shape::Scalar(Kind::U8))]);
    assert_eq!(from_str("$1", &shape), Err(Error::MissingField));
    assert_eq!(from_str("$1$256", &shape), Err(Error::Parse(Kind::U8, "256".to_string())));
    assert_eq!(from_str("$1$-1", &shape), Err(Error::Parse(Kind::U8, "-1".to_string())));
    assert_eq!(from_str("$+1$2", &shape).unwrap(), Value::Record(vec![Value::UInt(1), Value::UInt(2)]));
}

#[test]
fn signed_and_bool_and_char_scalars() {
    let shape = Shape::Struct(vec![
        field("a", Shape::Scalar(Kind::I8)),
        field("b", Shape::Scalar(Kind::Bool)),
        field("c", Shape::Scalar(Kind::Char)),
        field("d", Shape::Scalar(Kind::I64)),
    ]);
    let v = from_str("$-128$true$x$-9223372036854775808", &shape).unwrap();
    assert_eq!(
        v,
        Value::Record(vec![Value::Int(-128), Value::Bool(true), Value::Char('x'), Value::Int(i64::MIN)])
    );
    assert_eq!(to_string(&v, &shape).unwrap(), "$-128$true$x$-9223372036854775808");
    assert_eq!(from_str("$-129$true$x$0", &shape), Err(Error::Parse(Kind::I8, "-129".to_string())));
    assert_eq!(from_str("$1$yes$x$0", &shape), Err(Error::Parse(Kind::Bool, "yes".to_string())));
    assert_eq!(from_str("$1$false$xy$0", &shape), Err(Error::Parse(Kind::Char, "xy".to_string())));
}

#[test]
fn sequences_and_maps() {
    let shape = Shape::Struct(vec![
        field("xs", Shape::Sequence(Box::new(Shape::Scalar(Kind::U16)))),
        field(
            "m",
            Shape::Mapping(Box::new(Shape::Scalar(Kind::Str)), Box::new(Shape::Scalar(Kind::U32))),
        ),
    ]);
    let v = from_str("$1,2,300$a=1,b=2", &shape).unwrap();
    assert_eq!(
        v,
        Value::Record(vec![
            Value::List(vec![Value::UInt(1), Value::UInt(2), Value::UInt(300)]),
            Value::Dict(vec![(text("a"), Value::UInt(1)), (text("b"), Value::UInt(2))]),
        ])
    );
    assert_eq!(to_string(&v, &shape).unwrap(), "$1,2,300$a=1,b=2");
    assert_eq!(from_str("$1$a=1,a=2", &shape), Err(Error::DuplicateKey("a".to_string())));
    assert_eq!(from_str("$1$a=1,b", &shape), Err(Error::MissingField));
}

#[test]
fn encoder_refuses_ambiguous_values() {
    let shape = Shape::Struct(vec![field("s", Shape::Scalar(Kind::Str))]);
    let v = Value::Record(vec![text("a$b")]);
    assert_eq!(to_string(&v, &shape), Err(Error::Unsupported));
    let seq = Shape::Struct(vec![field("xs", Shape::Sequence(Box::new(Shape::Scalar(Kind::U8))))]);
    assert_eq!(to_string(&Value::Record(vec![Value::List(vec![])]), &seq), Err(Error::Unsupported));
    let bare = Shape::Optional(Box::new(Shape::Scalar(Kind::U8)));
    assert_eq!(to_string(&Value::Absent, &bare), Err(Error::Unsupported));
    let small = Shape::Struct(vec![field("p", Shape::Scalar(Kind::U8))]);
    assert_eq!(to_string(&Value::Record(vec![Value::UInt(256)]), &small), Err(Error::Unsupported));
}

#[test]
fn decoding_twice_gives_equal_values() {
    let ts = "$12$5$x=xylo,y=yell$EiM0";
    let a = from_str(ts, &test_struct_shape()).unwrap();
    let b = from_str(ts, &test_struct_shape()).unwrap();
    assert_eq!(a, b);
    let e1 = from_str("$12$x", &test_struct_shape());
    let e2 = from_str("$12$x", &test_struct_shape());
    assert_eq!(e1, e2);
}

#[test]
fn round_trip_of_a_nested_value() {
    let shape = Shape::Struct(vec![
        field("n", Shape::Scalar(Kind::U64)),
        field("o", Shape::Optional(Box::new(Shape::Sequence(Box::new(Shape::Scalar(Kind::I32)))))),
        field(
            "tag",
            Shape::Enum(vec![
                Variant { name: "Unit".to_string(), fields: vec![] },
                Variant {
                    name: "Pair".to_string(),
                    fields: vec![field("a", Shape::Scalar(Kind::Char)), field("b", Shape::Scalar(Kind::Bool))],
                },
            ]),
        ),
        field("s", Shape::Scalar(Kind::Str)),
    ]);
    let v = Value::Record(vec![
        Value::UInt(u64::MAX),
        Value::Present(Box::new(Value::List(vec![Value::Int(-3), Value::Int(0), Value::Int(i32::MAX as i64)]))),
        Value::Tagged("Pair".to_string(), vec![Value::Char('z'), Value::Bool(false)]),
        text("end"),
    ]);
    let t = to_string(&v, &shape).unwrap();
    assert_eq!(t, "$18446744073709551615$-3,0,2147483647$Pair$z$false$end");
    assert_eq!(from_str(&t, &shape).unwrap(), v);

    let unit = Value::Record(vec![
        Value::UInt(0),
        Value::Absent,
        Value::Tagged("Unit".to_string(), vec![]),
        text(""),
    ]);
    let t = to_string(&unit, &shape).unwrap();
    assert_eq!(t, "$0$$Unit$");
    assert_eq!(from_str(&t, &shape).unwrap(), unit);
}

#[test]
fn edge_inputs() {
    let shape = Shape::Struct(vec![field("p", Shape::Scalar(Kind::U64))]);
    assert_eq!(from_str("", &shape), Err(Error::MissingField));
    assert_eq!(from_str("$", &shape), Err(Error::Parse(Kind::U64, "".to_string())));
    assert_eq!(
        from_str("$18446744073709551616", &shape),
        Err(Error::Parse(Kind::U64, "18446744073709551616".to_string()))
    );
    // fields after the shape's last are not read
    assert_eq!(from_str("$7$extra", &shape).unwrap(), Value::Record(vec![Value::UInt(7)]));
    // an empty record takes no field
    let empty = Shape::Struct(vec![]);
    assert_eq!(to_string(&Value::Record(vec![]), &empty).unwrap(), "$");
    assert_eq!(from_str("$", &empty).unwrap(), Value::Record(vec![]));
}

#[test]
fn cursor_reads_values_one_after_another() {
    let mut d = mcf::McfDeserializer::new("$argon2i$m=1$3");
    let alg = d.deserialize(&Shape::Scalar(Kind::Str)).unwrap();
    assert_eq!(alg, text("argon2i"));
    let m = Shape::Mapping(Box::new(Shape::Scalar(Kind::Str)), Box::new(Shape::Scalar(Kind::U8)));
    assert_eq!(d.deserialize(&m).unwrap(), Value::Dict(vec![(text("m"), Value::UInt(1))]));
    // a failed read leaves the cursor in place
    assert_eq!(d.deserialize(&Shape::Scalar(Kind::Bool)), Err(Error::Parse(Kind::Bool, "3".to_string())));
    assert_eq!(d.deserialize(&Shape::Scalar(Kind::U8)).unwrap(), Value::UInt(3));
    assert_eq!(d.deserialize(&Shape::Scalar(Kind::U8)), Err(Error::MissingField));
}

#[test]
fn serializer_buffer_starts_with_the_delimiter() {
    let mut w = mcf::McfSerializer::new();
    w.serialize(&Value::UInt(5), &Shape::Scalar(Kind::U8)).unwrap();
    assert_eq!(w.serialize(&Value::Bool(true), &Shape::Scalar(Kind::U8)), Err(Error::Unsupported));
    assert_eq!(w.into_string(), "$5");
}

#[test]
fn byte_fields_in_a_record() {
    let shape = Shape::Struct(vec![
        field("salt", Shape::Bytes),
        field("pair", Shape::Legacy { salt: 16, hash: 23 }),
    ]);
    let v = Value::Record(vec![
        Value::Bytes(b"somesalt".to_vec()),
        Value::Pair(vec![1u8; 16], vec![2u8; 23]),
    ]);
    let t = to_string(&v, &shape).unwrap();
    assert!(t.starts_with("$c29tZXNhbHQ$"));
    assert_eq!(t.len(), 1 + 11 + 1 + 22 + 31);
    assert_eq!(from_str(&t, &shape).unwrap(), v);
    let wrong = Value::Record(vec![Value::Bytes(vec![]), Value::Pair(vec![1u8; 15], vec![2u8; 23])]);
    assert_eq!(to_string(&wrong, &shape), Err(Error::Unsupported));
}

#[test]
fn cursor_hands_back_the_rest() {
    let mut d = mcf::McfDeserializer::new("$2a$10$abc$def");
    assert_eq!(d.deserialize(&Shape::Scalar(Kind::Str)).unwrap(), text("2a"));
    assert_eq!(d.rest(), "10$abc$def");
    assert_eq!(d.rest(), "");
    assert_eq!(d.deserialize(&Shape::Scalar(Kind::Str)), Err(Error::MissingField));
}

#[test]
fn map_keys_equal_in_value_are_refused() {
    let shape = Shape::Struct(vec![field(
        "m",
        Shape::Mapping(Box::new(Shape::Scalar(Kind::U8)), Box::new(Shape::Scalar(Kind::Str))),
    )]);
    assert_eq!(from_str("$1=a,01=b", &shape), Err(Error::DuplicateKey("01".to_string())));
    assert_eq!(from_str("$+1=a,1=b", &shape), Err(Error::DuplicateKey("1".to_string())));
    assert_eq!(
        from_str("$1=a,2=b", &shape).unwrap(),
        Value::Record(vec![Value::Dict(vec![(Value::UInt(1), text("a")), (Value::UInt(2), text("b"))])])
    );
}

#[test]
fn malformed_byte_texts_fail_with_encoding() {
    assert_eq!(base64bcrypt::deserialize("x", 16, 23), Err(Error::Encoding));
    assert_eq!(base64::deserialize("!!!!").unwrap_err(), Error::Encoding);
}
