use entity_values::BigInt;
use entity_values::SchemaType;
use entity_values::UntypedValue;
use entity_values::Value;
use entity_values::ValueError;

#[test]
fn value_bytes() {
    let graphql_value = UntypedValue::String("0x8f494c66afc1d3f8ac1b45df21f02a46".to_owned());
    let ty = SchemaType::Named("Bytes".to_owned());
    let from_query = Value::from_query_value(&graphql_value, &ty).unwrap();
    assert_eq!(
        from_query,
        Value::Bytes(vec![
            143, 73, 76, 102, 175, 193, 211, 248, 172, 27, 69, 223, 33, 240, 42, 70
        ])
    );
    assert_eq!(from_query.to_query_value(), graphql_value);
}

#[test]
fn value_bigint() {
    let big_num = "340282366920938463463374607431768211456";
    let graphql_value = UntypedValue::String(big_num.to_owned());
    let ty = SchemaType::Named("BigInt".to_owned());
    let from_query = Value::from_query_value(&graphql_value, &ty).unwrap();
    assert_eq!(from_query, Value::BigInt(BigInt::from_str(big_num).unwrap()));
    assert_eq!(from_query.to_query_value(), graphql_value);
}

#[test]
fn bytes_hex_case_insensitive_output_lowercase() {
    let upper = UntypedValue::String("0x8F494C66AFC1D3F8AC1B45DF21F02A46".to_owned());
    let ty = SchemaType::Named("Bytes".to_owned());
    let decoded = Value::from_query_value(&upper, &ty).unwrap();
    assert_eq!(
        decoded,
        Value::Bytes(vec![
            143, 73, 76, 102, 175, 193, 211, 248, 172, 27, 69, 223, 33, 240, 42, 70
        ])
    );
    assert_eq!(
        decoded.to_query_value(),
        UntypedValue::String("0x8f494c66afc1d3f8ac1b45df21f02a46".to_owned())
    );
}

#[test]
fn bytes_without_prefix_and_empty() {
    let ty = SchemaType::Named("Bytes".to_owned());
    let bare = UntypedValue::String("00ff".to_owned());
    assert_eq!(
        Value::from_query_value(&bare, &ty).unwrap(),
        Value::Bytes(vec![0, 255])
    );
    let empty = UntypedValue::String("0x".to_owned());
    assert_eq!(
        Value::from_query_value(&empty, &ty).unwrap(),
        Value::Bytes(vec![])
    );
    assert_eq!(
        Value::Bytes(vec![]).to_query_value(),
        UntypedValue::String("0x".to_owned())
    );
}

#[test]
fn bytes_invalid_hex_is_rejected() {
    let ty = SchemaType::Named("Bytes".to_owned());
    let bad_digit = UntypedValue::String("0xzz".to_owned());
    assert_eq!(
        Value::from_query_value(&bad_digit, &ty),
        Err(ValueError::InvalidHex)
    );
    let odd_length = UntypedValue::String("0x123".to_owned());
    assert_eq!(
        Value::from_query_value(&odd_length, &ty),
        Err(ValueError::InvalidHex)
    );
}

#[test]
fn bigint_invalid_number_is_rejected() {
    let ty = SchemaType::Named("BigInt".to_owned());
    for text in ["", "-", "12a", "+5", "1_0", " 7"] {
        let value = UntypedValue::String(text.to_owned());
        assert_eq!(
            Value::from_query_value(&value, &ty),
            Err(ValueError::InvalidNumber),
            "expected {text:?} to be rejected"
        );
    }
}

#[test]
fn bigint_canonical_decimal_rendering() {
    assert_eq!(BigInt::from_str("007").unwrap().to_text(), "7");
    assert_eq!(BigInt::from_str("-0").unwrap().to_text(), "0");
    assert_eq!(BigInt::from_str("-42").unwrap().to_text(), "-42");
    assert_eq!(BigInt::from_str("0").unwrap().to_text(), "0");
}

#[test]
fn bigint_from_signed_bytes_le() {
    assert_eq!(BigInt::from_signed_bytes_le(&[]).to_text(), "0");
    assert_eq!(BigInt::from_signed_bytes_le(&[0, 1]).to_text(), "256");
    assert_eq!(BigInt::from_signed_bytes_le(&[0xff]).to_text(), "-1");
    assert_eq!(BigInt::from_signed_bytes_le(&[0x2a, 0]).to_text(), "42");
    assert_eq!(
        BigInt::from_signed_bytes_le(&[0, 0, 0, 0, 0, 0, 0, 0, 0, 0, 0, 0, 0, 0, 0, 0, 1])
            .to_text(),
        "340282366920938463463374607431768211456"
    );
}

#[test]
fn int_narrows_and_overflows() {
    let ty = SchemaType::Named("Int".to_owned());
    assert_eq!(
        Value::from_query_value(&UntypedValue::Int(7), &ty).unwrap(),
        Value::Int(7)
    );
    assert_eq!(
        Value::from_query_value(&UntypedValue::Int(-2147483648), &ty).unwrap(),
        Value::Int(i32::MIN)
    );
    assert_eq!(
        Value::from_query_value(&UntypedValue::Int(2147483647), &ty).unwrap(),
        Value::Int(i32::MAX)
    );
    assert_eq!(
        Value::from_query_value(&UntypedValue::Int(4294967296), &ty),
        Err(ValueError::IntOverflow)
    );
    assert_eq!(
        Value::from_query_value(&UntypedValue::Int(-2147483649), &ty),
        Err(ValueError::IntOverflow)
    );
}

#[test]
fn unsupported_combination_is_rejected() {
    let scalar = SchemaType::Named("String".to_owned());
    let list_value = UntypedValue::List(vec![UntypedValue::Int(1)]);
    assert_eq!(
        Value::from_query_value(&list_value, &scalar),
        Err(ValueError::UnsupportedValueTypeCombination)
    );
    let list_type = SchemaType::List(Box::new(SchemaType::Named("String".to_owned())));
    let string_value = UntypedValue::String("hello".to_owned());
    assert_eq!(
        Value::from_query_value(&string_value, &list_type),
        Err(ValueError::UnsupportedValueTypeCombination)
    );
}

#[test]
fn string_fallback_is_verbatim() {
    let ty = SchemaType::Named("SomeCustomScalar".to_owned());
    let value = UntypedValue::String("anything at all".to_owned());
    assert_eq!(
        Value::from_query_value(&value, &ty).unwrap(),
        Value::String("anything at all".to_owned())
    );
}

#[test]
fn bool_null_and_float_pass_through() {
    let ty = SchemaType::Named("Boolean".to_owned());
    assert_eq!(
        Value::from_query_value(&UntypedValue::Bool(true), &ty).unwrap(),
        Value::Bool(true)
    );
    assert_eq!(
        Value::from_query_value(&UntypedValue::Null, &ty).unwrap(),
        Value::Null
    );
    let bits = 1.5f32.to_bits();
    let converted = Value::from_query_value(&UntypedValue::Float(bits), &ty).unwrap();
    assert_eq!(converted, Value::Float(bits));
    assert_eq!(converted.to_query_value(), UntypedValue::Float(bits));
}

#[test]
fn list_converts_elementwise_and_keeps_order() {
    let ty = SchemaType::List(Box::new(SchemaType::Named("BigInt".to_owned())));
    let value = UntypedValue::List(vec![
        UntypedValue::String("12".to_owned()),
        UntypedValue::String("-3".to_owned()),
    ]);
    let converted = Value::from_query_value(&value, &ty).unwrap();
    assert_eq!(
        converted,
        Value::List(vec![
            Value::BigInt(BigInt::from_str("12").unwrap()),
            Value::BigInt(BigInt::from_str("-3").unwrap()),
        ])
    );
    assert_eq!(converted.to_query_value(), value);
}

#[test]
fn list_reports_first_element_error() {
    let ty = SchemaType::List(Box::new(SchemaType::Named("Int".to_owned())));
    let value = UntypedValue::List(vec![
        UntypedValue::Int(1),
        UntypedValue::Int(4294967296),
        UntypedValue::List(vec![]),
    ]);
    assert_eq!(
        Value::from_query_value(&value, &ty),
        Err(ValueError::IntOverflow)
    );
}
