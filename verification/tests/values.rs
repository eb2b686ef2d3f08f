use netconf_language_server::valcheck::{check, default_value, DefaultValue, ValueType};

fn s(lengths: Vec<&str>, patterns: Vec<&str>) -> ValueType {
    ValueType::String {
        lengths: lengths.into_iter().map(str::to_owned).collect(),
        patterns: patterns.into_iter().map(str::to_owned).collect(),
    }
}

fn i(signed: bool, bits: u8, ranges: Vec<&str>) -> ValueType {
    ValueType::Integer {
        signed,
        bits,
        ranges: ranges.into_iter().map(str::to_owned).collect(),
    }
}

#[test]
fn string_length_and_pattern() {
    let t = s(vec!["1..32"], vec!["[a-z]+"]);
    assert!(check(&t, "abc").is_none());
    assert!(check(&t, "").is_some());
    assert!(check(&t, "a".repeat(33).as_str()).is_some());
    assert!(check(&t, "abc1").is_some());
    let t = s(vec!["1..2 | 5..6"], vec![]);
    assert!(check(&t, "abcde").is_none());
    assert!(check(&t, "abcd").is_some());
}

#[test]
fn integer_bounds_and_ranges() {
    let t = i(false, 16, vec!["1..65535"]);
    assert!(check(&t, "1").is_none());
    assert!(check(&t, "65535").is_none());
    assert!(check(&t, "0").is_some());
    assert!(check(&t, "70000").is_some());
    assert!(check(&t, "abc").is_some());
    let t = i(true, 8, vec![]);
    assert!(check(&t, "-128").is_none());
    assert!(check(&t, "127").is_none());
    assert!(check(&t, "-129").is_some());
    assert!(check(&t, "128").is_some());
}

#[test]
fn scalars_and_refs() {
    assert!(check(&ValueType::Boolean, "true").is_none());
    assert!(check(&ValueType::Boolean, "yes").is_some());
    assert!(check(&ValueType::Empty, "").is_none());
    assert!(check(&ValueType::Empty, "x").is_some());
    assert!(check(&ValueType::Binary, "aGVsbG8=").is_none());
    assert!(check(&ValueType::Binary, "!!!").is_some());
    // Pads only at the tail, at most two of them.
    assert!(check(&ValueType::Binary, "=abc").is_some());
    assert!(check(&ValueType::Binary, "ab=c").is_some());
    assert!(check(&ValueType::Binary, "ab==").is_none());
    assert!(check(&ValueType::Binary, "a===").is_some());
    let en = ValueType::Enumeration {
        members: vec!["red".into(), "green".into()],
    };
    assert!(check(&en, "red").is_none());
    assert!(check(&en, "blue").is_some());
    let bits = ValueType::Bits {
        members: vec!["a".into(), "b".into()],
    };
    assert!(check(&bits, "a b").is_none());
    assert!(check(&bits, "").is_none());
    assert!(check(&bits, "a c").is_some());
    assert!(check(&ValueType::Union, "123").is_none());
    assert!(check(
        &ValueType::Leafref {
            path: None,
            require_instance: true
        },
        "anything"
    )
    .is_none());
}

#[test]
fn decimal_lexical() {
    let t = ValueType::Decimal64 { ranges: vec![] };
    assert!(check(&t, "1").is_none());
    assert!(check(&t, "-1.5").is_none());
    assert!(check(&t, "1e3").is_none());
    assert!(check(&t, "1.2.3").is_some());
    assert!(check(&t, "--1").is_some());
}

#[test]
fn decimal_range_enforced() {
    let t = ValueType::Decimal64 {
        ranges: vec!["-1.5..1.5".to_owned()],
    };
    assert!(check(&t, "1.25").is_none());
    assert!(check(&t, "-1.5").is_none());
    assert!(check(&t, "0").is_none());
    assert!(check(&t, "2").is_some());
    assert!(check(&t, "-2").is_some());
    let t = ValueType::Decimal64 {
        ranges: vec!["min..1.5".to_owned()],
    };
    assert!(check(&t, "-100").is_none());
    assert!(check(&t, "1.5").is_none());
    assert!(check(&t, "1.6").is_some());
}

#[test]
fn completion_defaults_by_type() {
    assert_eq!(default_value(&ValueType::Boolean), Some(DefaultValue::Bare("true")));
    assert_eq!(default_value(&i(false, 8, vec![])), Some(DefaultValue::Bare("0")));
    assert_eq!(default_value(&ValueType::Empty), Some(DefaultValue::Empty));
    let en = ValueType::Enumeration {
        members: vec!["red".into(), "green".into()],
    };
    assert_eq!(default_value(&en), Some(DefaultValue::Quoted("red".to_owned())));
    assert_eq!(default_value(&s(vec![], vec![])), None);
    assert_eq!(default_value(&ValueType::Union), None);
}

#[test]
fn more_ranges_never_accept_more() {
    let t1 = ValueType::Integer { signed: true, bits: 8, ranges: vec!["1..10".to_string()] };
    let t2 = ValueType::Integer { signed: true, bits: 8, ranges: vec!["1..10".to_string(), "5..6".to_string()] };
    assert!(check(&t1, "7").is_none());
    assert!(check(&t2, "7").is_some());
    assert!(check(&t2, "5").is_none());
    assert!(check(&t1, "5").is_none());
    assert!(check(&t1, "11").is_some());
    assert!(check(&t2, "11").is_some());
}
