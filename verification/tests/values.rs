use byte::types::{arithmetic_output, numeric_output, FloatType, StringValue, Type};
use byte::values::{IntType, IntValue, NumericConversion};

#[test]
fn int_types() {
    assert_eq!(IntType::get_by_min_bits(1, false), IntType::U8);
    assert_eq!(IntType::get_by_min_bits(9, true), IntType::I16);
    assert_eq!(IntType::get_by_min_bits(64, true), IntType::I64);
    assert_eq!(IntType::get_by_min_bits(200, false), IntType::U128);
    assert_eq!(IntType::merge_for_upcast(IntType::U8, IntType::U32), IntType::U32);
    assert_eq!(IntType::merge_for_upcast(IntType::I64, IntType::U8), IntType::I64);
    assert_eq!(IntType::merge_for_upcast(IntType::U64, IntType::I8), IntType::I64);
    assert_eq!(IntType::I16.max_value(), 32767);
    assert_eq!(IntType::I16.min_value(), -32768);
    assert_eq!(IntType::U8.min_value(), 0);
    assert_eq!(IntType::U128.name(), "U128");
}

#[test]
fn int_values() {
    let v = IntValue::new(200, IntType::U8).ok().unwrap();
    assert_eq!(v, IntValue::U8(200));
    let e = IntValue::new(300, IntType::U8).unwrap_err();
    assert_eq!(e.get(0).message(), "value overflows an U8 (value is 300)");
    let e = IntValue::new_signed(-1, IntType::U16).unwrap_err();
    assert_eq!(e.get(0).message(), "invalid negative value for U16 (value is -1)");
    let e = IntValue::new_signed(-200, IntType::I8).unwrap_err();
    assert_eq!(e.get(0).message(), "value underflows I8 (value is -200)");
    let e = IntValue::new_signed(200, IntType::I8).unwrap_err();
    assert_eq!(e.get(0).message(), "value overflows I8 (value is 200)");
    assert_eq!(IntValue::new_signed(-5, IntType::I32).ok().unwrap(), IntValue::I32(-5));
    assert_eq!(IntValue::I8(-1).unsigned(), u128::MAX);
    assert_eq!(IntValue::U128(u128::MAX).signed(), -1);
    assert_eq!(IntValue::I8(-3).cast_to(&IntType::I64).ok().unwrap(), IntValue::I64(-3));
    assert!(IntValue::I8(-3).cast_to(&IntType::U64).is_err());
    assert!(IntValue::U16(0).is_zero());
    assert!(!IntValue::I64(2).is_zero());
    assert_eq!(IntValue::U32(9).get_type(), IntType::U32);
}

#[test]
fn type_names() {
    let t = Type::Or(Box::new(Type::Int(IntType::I32)), Box::new(Type::Ref(Box::new(Type::String))));
    assert_eq!(t.name(), "I32 | &(string)");
    assert_eq!(Type::Float(FloatType::F32).name(), "F32");
}

#[test]
fn type_merge() {
    let m = Type::merge_for_upcast(Type::Int(IntType::U8), Type::Int(IntType::I16));
    assert!(m.equals(&Type::Int(IntType::I16)));
    let m = Type::merge_for_upcast(Type::Bool, Type::Int(IntType::U16));
    assert!(m.equals(&Type::Int(IntType::U16)));
    let m = Type::merge_for_upcast(Type::Never, Type::String);
    assert!(m.equals(&Type::String));
    let m = Type::merge_for_upcast(Type::String, Type::Any);
    assert!(m.equals(&Type::Any));
    let m = Type::merge_for_upcast(Type::Float(FloatType::F32), Type::Bool);
    assert!(m.equals(&Type::Float(FloatType::F64)));
    let m = Type::merge_for_upcast(Type::String, Type::Bool);
    assert!(m.equals(&Type::Or(Box::new(Type::String), Box::new(Type::Bool))));
}

#[test]
fn type_conversions() {
    let r = Type::Ref(Box::new(Type::Bool));
    assert!(r.is_bool());
    assert_eq!(r.get_int_type(NumericConversion::NoConversion), None);
    assert_eq!(r.get_int_type(NumericConversion::BoolToInt), Some(IntType::U8));
    assert_eq!(Type::String.get_int_type(NumericConversion::Parse), Some(IntType::I64));
    assert!(Type::Unknown.bool_output().is_none());
    assert!(Type::Or(Box::new(Type::Bool), Box::new(Type::Any)).bool_output().is_none());
    let out = arithmetic_output(&Type::Int(IntType::U8), &Type::Int(IntType::I8)).unwrap();
    assert!(out.equals(&Type::Int(IntType::I8)));
    assert!(arithmetic_output(&Type::Bool, &Type::Int(IntType::I8)).is_none());
    let (t, signed) = numeric_output(&Type::Int(IntType::I32), NumericConversion::NoConversion).unwrap();
    assert!(t.equals(&Type::Int(IntType::I32)) && signed);
}

#[test]
fn string_values() {
    let s = StringValue::new("héllo");
    assert_eq!(s.as_str(), "héllo");
    assert_eq!(s.len(), 6);
}

#[test]
fn string_output() {
    let mut out = byte::runtime::StringOutput::new();
    assert_eq!(out.write(b"ab"), 2);
    out.write(&[0xFF, b'c']);
    assert_eq!(out.read(), "ab\u{FFFD}c");
}

#[test]
fn token_text() {
    assert_eq!(byte::token::Token::Break(2).to_text(), "line break");
    assert_eq!(byte::token::Token::Literal("a\"b".to_string()).to_text(), "\"a\\\"b\"");
    assert_eq!(byte::token::Token::Integer(120).to_text(), "120");
    assert_eq!(byte::offset::CodeOffset::At(12).to_text(), "offset 12");
    assert_eq!(byte::offset::CodeOffset::Static.to_text(), "static scope");
    assert_eq!(byte::values::IntValue::I8(-7).to_text(), "-7");
}

#[test]
fn cast_round_trip() {
    let v = IntValue::I16(-300);
    let w = v.cast_to(&IntType::I64).ok().unwrap();
    assert_eq!(w.cast_to(&IntType::I16).ok().unwrap(), v);
    let u = IntValue::U8(200);
    let x = u.cast_to(&IntType::U128).ok().unwrap();
    assert_eq!(x.cast_to(&IntType::U8).ok().unwrap(), u);
}

#[test]
fn upcast_symmetric() {
    let all = [
        IntType::I8, IntType::U8, IntType::I16, IntType::U16, IntType::I32,
        IntType::U32, IntType::I64, IntType::U64, IntType::I128, IntType::U128,
    ];
    for a in all {
        for b in all {
            let m = IntType::merge_for_upcast(a, b);
            assert_eq!(m, IntType::merge_for_upcast(b, a));
            assert!(m.bits() >= a.bits() && m.bits() >= b.bits());
        }
    }
}
