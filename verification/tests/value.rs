use knf::value::{Kind, Number, Value};

#[test]
fn u64_that_fits_normalises_to_i64() {
    assert_eq!(Number::from_u64(5), Number::I64(5));
    assert_eq!(Number::from_u64(u64::MAX), Number::U64(u64::MAX));
    assert_eq!(Number::from_u64(i64::MAX as u64), Number::I64(i64::MAX));
}

#[test]
fn int_and_float_share_a_kind_but_datetime_does_not() {
    assert_eq!(Value::Number(Number::I64(1)).kind(), "number");
    assert_eq!(Value::Number(Number::F64(1.5f64.to_bits())).kind(), "number");
    assert_eq!(Value::Datetime("1979-05-27".into()).kind(), "datetime");
    assert_eq!(Value::String("x".into()).kind_of(), Kind::String);
}

#[test]
fn non_finite_numbers_are_recognised() {
    assert!(Number::F64(f64::INFINITY.to_bits()).non_finite());
    assert!(Number::F64(f64::NAN.to_bits()).non_finite());
    assert!(!Number::F64(1.0f64.to_bits()).non_finite());
    assert!(!Number::I64(3).non_finite());
}

#[test]
fn a_copy_is_equal() {
    let v = Value::Object(vec![("a".into(), Value::Array(vec![Value::Null, Value::Bool(true)]))]);
    assert_eq!(v.duplicate(), v);
    assert_eq!(v.clone(), v);
}
