use handybars::{Object, Value};

#[test]
fn value_from_hex() {
    assert_eq!(Value::Text("42".to_string()), Value::from_i32(0x0000002a));
}

#[test]
fn value_from_option() {
    let t: Option<Value> = None;
    assert_eq!(Value::Text("".to_string()), Value::from_opt(t));
    assert_eq!(Value::Text("42".to_string()), Value::from_opt(Some(Value::text("42"))));
    assert_eq!(Value::Text("42".to_string()), Value::from_opt(Some(Value::from_i32(42))));
}

#[test]
fn value_from_unsigned_int() {
    assert_eq!(Value::Text("42".to_string()), Value::from_u8(42u8));
    assert_eq!(Value::Text("42".to_string()), Value::from_u16(42u16));
    assert_eq!(Value::Text("42".to_string()), Value::from_u32(42u32));
    assert_eq!(Value::Text("42".to_string()), Value::from_u64(42u64));
    assert_eq!(Value::Text("42".to_string()), Value::from_u128(42u128));
}

#[test]
fn value_from_signed_int() {
    assert_eq!(Value::Text("-42".to_string()), Value::from_i8(-42i8));
    assert_eq!(Value::Text("-42".to_string()), Value::from_i16(-42i16));
    assert_eq!(Value::Text("-42".to_string()), Value::from_i32(-42i32));
    assert_eq!(Value::Text("-42".to_string()), Value::from_i64(-42i64));
    assert_eq!(Value::Text("-42".to_string()), Value::from_i128(-42i128));
}

#[test]
fn value_from_bool() {
    assert_eq!(Value::Text("true".to_string()), Value::from_bool(true));
    assert_eq!(Value::Text("false".to_string()), Value::from_bool(false));
}

#[test]
fn value_from_ptr() {
    assert_eq!(Value::Text("42".to_string()), Value::from_usize(42usize));
    assert_eq!(Value::Text("42".to_string()), Value::from_isize(42isize));
}

#[test]
fn value_from_char() {
    assert_eq!(Value::Text("*".to_string()), Value::from_char('*'));
}

#[test]
fn value_extreme_integers_display_in_full() {
    assert_eq!(Value::Text("0".to_string()), Value::from_u8(0));
    assert_eq!(Value::Text("-128".to_string()), Value::from_i8(i8::MIN));
    assert_eq!(
        Value::Text("-170141183460469231731687303715884105728".to_string()),
        Value::from_i128(i128::MIN)
    );
}

#[test]
fn object_properties_read_back() {
    let mut obj = Object::new();
    obj.add_property("a".to_string(), Value::text("x"));
    obj.add_property("b".to_string(), Value::text("y"));
    obj.add_property("a".to_string(), Value::text("z"));
    assert_eq!(obj.property("a"), Some(&Value::Text("z".to_string())));
    assert_eq!(obj.property("b"), Some(&Value::Text("y".to_string())));
    assert_eq!(obj.property("c"), None);
}

#[test]
fn value_variant_predicates_match() {
    let leaf = Value::text("x");
    let obj = Value::Object(Object::new());
    assert!(leaf.is_string());
    assert!(!leaf.is_object());
    assert!(obj.is_object());
    assert!(!obj.is_string());
    assert_eq!(leaf.as_string(), Some(&"x".to_string()));
    assert_eq!(leaf.as_object(), None);
    assert_eq!(obj.as_object(), Some(&Object::new()));
    assert_eq!(obj.as_string(), None);
}
