use binlayout::builder::{BuildError, Scalar};
use binlayout::decode::DecodeError;
use binlayout::hex::as_hex;
use binlayout::layout::{Expr, LayoutId, Type};
use binlayout::parser::ParseError;
use binlayout::value::Value;

const POINTS: &str = "struct Point { x: i32, y: i32 }\nstruct Outer { p: Point, z: i8 }\n";

fn field(name: &str, v: Value) -> (String, Value) {
    (name.to_string(), v)
}

fn int_of(v: &Value) -> i64 {
    match v {
        Value::I8(x) | Value::I16(x) | Value::I32(x) | Value::I64(x) => *x,
        _ => panic!("not an integer leaf"),
    }
}

#[test]
fn unknown_type_is_named() {
    match Expr::parse("struct Foo { x: Bar }") {
        Err(ParseError::UnknownType(name)) => assert_eq!(name, "Bar"),
        other => panic!("unexpected: {:?}", other),
    }
}

#[test]
fn decode_point() {
    let expr = Expr::parse(POINTS).unwrap();
    let id = expr.get_id("Point").unwrap();
    assert_eq!(id, LayoutId::new(0));
    let buf = [0x01u8, 0, 0, 0, 0x02, 0, 0, 0];
    let v = expr.read_value(&buf, id).unwrap();
    match &v {
        Value::Struct { fields } => {
            assert_eq!(fields.len(), 2);
            assert_eq!(fields[0].0, "x");
            assert_eq!(int_of(&fields[0].1), 1);
            assert_eq!(fields[1].0, "y");
            assert_eq!(int_of(&fields[1].1), 2);
        }
        _ => panic!("expected a struct"),
    }
    assert_eq!(v.size(), 8);
    assert_eq!(expr.size_of(id), Some(8));
}

#[test]
fn encode_outer() {
    let expr = Expr::parse(POINTS).unwrap();
    let outer = expr.get_id("Outer").unwrap();
    let v = Value::Struct {
        fields: vec![
            field(
                "p",
                Value::Struct { fields: vec![field("x", Value::I32(5)), field("y", Value::I32(7))] },
            ),
            field("z", Value::I8(9)),
        ],
    };
    let bytes = v.encode_value();
    assert_eq!(bytes, vec![0x05, 0, 0, 0, 0x07, 0, 0, 0, 0x09]);
    assert_eq!(expr.size_of(outer), Some(bytes.len()));
}

#[test]
fn short_buffer_is_insufficient() {
    let expr = Expr::parse(POINTS).unwrap();
    let id = expr.get_id("Point").unwrap();
    let buf = [0x01u8, 0, 0, 0, 0x02, 0];
    assert!(matches!(expr.read_value(&buf, id), Err(DecodeError::InsufficientData)));
}

#[test]
fn hex_two_bytes() {
    assert_eq!(as_hex(&[0x0A, 0xFF]), "0AFF");
    assert_eq!(as_hex(&[]), "");
}

#[test]
fn round_trip_all_widths() {
    let schema = "struct In { a: i8, b: i16 }\nstruct All { i: In, c: i32, d: i64, e: f32, f: f64 }";
    let expr = Expr::parse(schema).unwrap();
    let id = expr.get_id("All").unwrap();
    let v = Value::Struct {
        fields: vec![
            field("i", Value::Struct { fields: vec![field("a", Value::I8(-128)), field("b", Value::I16(-2))] }),
            field("c", Value::I32(2147483647)),
            field("d", Value::I64(i64::MIN)),
            field("e", Value::F32(1.5f32.to_bits())),
            field("f", Value::F64((-0.25f64).to_bits())),
        ],
    };
    let bytes = v.encode_value();
    assert_eq!(Some(bytes.len()), expr.size_of(id));
    assert_eq!(bytes.len(), 27);
    assert_eq!(&bytes[0..3], &[0x80, 0xFE, 0xFF]);
    let back = expr.read_value(&bytes, id).unwrap();
    assert_eq!(back.encode_value(), bytes);
    match &back {
        Value::Struct { fields } => {
            match &fields[0].1 {
                Value::Struct { fields: inner } => {
                    assert_eq!(int_of(&inner[0].1), -128);
                    assert_eq!(int_of(&inner[1].1), -2);
                }
                _ => panic!("expected a struct"),
            }
            assert_eq!(int_of(&fields[1].1), 2147483647);
            assert_eq!(int_of(&fields[2].1), i64::MIN);
            assert!(matches!(fields[3].1, Value::F32(b) if f32::from_bits(b) == 1.5));
            assert!(matches!(fields[4].1, Value::F64(b) if f64::from_bits(b) == -0.25));
        }
        _ => panic!("expected a struct"),
    }
}

#[test]
fn out_of_range_leaf_is_truncated() {
    let v = Value::Struct { fields: vec![field("a", Value::I8(300)), field("b", Value::I16(-1))] };
    assert_eq!(v.encode_value(), vec![0x2C, 0xFF, 0xFF]);
}

#[test]
fn syntax_error_position() {
    match Expr::parse("struct Foo { x: }") {
        Err(ParseError::Syntax(p)) => assert_eq!(p, 13),
        other => panic!("unexpected: {:?}", other),
    }
    assert!(matches!(Expr::parse("struct Foo { x: i8 } junk"), Err(ParseError::Syntax(21))));
}

#[test]
fn duplicate_struct_rejected() {
    match Expr::parse("struct A { }\nstruct A { x: i8 }") {
        Err(ParseError::DuplicateStruct(name)) => assert_eq!(name, "A"),
        other => panic!("unexpected: {:?}", other),
    }
}

#[test]
fn forward_reference_and_whitespace() {
    let expr = Expr::parse("\tstruct A {\n  b: B,\n  c: i16\n}\nstruct B { x: i64 y: f32, }\n").unwrap();
    assert_eq!(expr.layout_count(), 2);
    let a = expr.get_id("A").unwrap();
    let b = expr.get_id("B").unwrap();
    assert_eq!(b, LayoutId::new(1));
    assert_eq!(expr.size_of(a), Some(14));
    assert_eq!(expr.size_of(b), Some(12));
    let sa = expr.get("A").unwrap();
    assert_eq!(sa.fields.len(), 2);
    assert_eq!(sa.fields[0].0, "b");
    assert_eq!(sa.fields[0].1, Type::Struct(b));
    assert_eq!(sa.fields[1].1, Type::I16);
    assert_eq!(expr.name_of(b).unwrap(), "B");
}

#[test]
fn empty_schema_and_missing_names() {
    let expr = Expr::parse("  \n").unwrap();
    assert_eq!(expr.layout_count(), 0);
    assert_eq!(expr.get_id("A"), None);
    assert!(expr.get("A").is_none());
    assert!(expr.get_type(LayoutId::new(0)).is_none());
    assert_eq!(expr.size_of(LayoutId::new(0)), None);
    assert!(matches!(expr.read_value(&[], LayoutId::new(0)), Err(DecodeError::UnresolvedLayout)));
}

#[test]
fn cyclic_layout_is_unresolved() {
    let expr = Expr::parse("struct A { b: B }\nstruct B { a: A }").unwrap();
    let a = expr.get_id("A").unwrap();
    assert_eq!(expr.size_of(a), None);
    let buf = [0u8; 64];
    assert!(matches!(expr.read_value(&buf, a), Err(DecodeError::UnresolvedLayout)));
}

#[test]
fn empty_struct_has_size_zero() {
    let expr = Expr::parse("struct E {}").unwrap();
    let e = expr.get_id("E").unwrap();
    assert_eq!(expr.size_of(e), Some(0));
    let v = expr.read_value(&[], e).unwrap();
    assert!(v.encode_value().is_empty());
}

#[test]
fn leaves_in_declaration_order() {
    let expr = Expr::parse(POINTS).unwrap();
    let outer = expr.get_id("Outer").unwrap();
    let leaves = expr.leaf_fields(outer).unwrap();
    let paths: Vec<String> = leaves.iter().map(|(p, _)| p.join(".")).collect();
    assert_eq!(paths, vec!["p.x", "p.y", "z"]);
    assert_eq!(leaves[2].1, Type::I8);
    assert_eq!(expr.leaf_fields(LayoutId::new(7)).unwrap_err(), BuildError::UnresolvedLayout);
}

#[test]
fn build_then_encode() {
    let expr = Expr::parse(POINTS).unwrap();
    let outer = expr.get_id("Outer").unwrap();
    let v = expr.build_value(outer, &[Scalar::Int(5), Scalar::Int(7), Scalar::Int(9)]).unwrap();
    assert_eq!(v.encode_value(), vec![0x05, 0, 0, 0, 0x07, 0, 0, 0, 0x09]);
    match &v {
        Value::Struct { fields } => {
            assert_eq!(fields[0].0, "p");
            assert_eq!(fields[1].0, "z");
        }
        _ => panic!("expected a struct"),
    }
}

#[test]
fn build_rejects_bad_leaves() {
    let expr = Expr::parse("struct F { a: i8, b: f32 }").unwrap();
    let f = expr.get_id("F").unwrap();
    let bits = 2.0f32.to_bits();
    assert!(expr.build_value(f, &[Scalar::Int(1), Scalar::Float32(bits)]).is_ok());
    assert_eq!(expr.build_value(f, &[Scalar::Int(1), Scalar::Int(2)]).unwrap_err(), BuildError::InvalidInput);
    assert_eq!(expr.build_value(f, &[Scalar::Int(1)]).unwrap_err(), BuildError::InvalidInput);
    assert_eq!(
        expr.build_value(f, &[Scalar::Int(1), Scalar::Float32(bits), Scalar::Int(3)]).unwrap_err(),
        BuildError::InvalidInput
    );
    assert_eq!(expr.build_value(LayoutId::new(3), &[]).unwrap_err(), BuildError::UnresolvedLayout);
}
