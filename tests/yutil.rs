use pipeline::value::{Float, Mapping, Sequence, Value};
use pipeline::yutil::{get_typed_value_by_path, get_value_by_path, FromYaml};

fn map_of(entries: Vec<(&str, Value)>) -> Value {
    let mut m = Mapping::new();
    for (k, v) in entries {
        m.insert(k.to_string(), v);
    }
    Value::Mapping(m)
}

fn text(s: &str) -> Value {
    Value::String(s.to_string())
}

// name: "John Doe"
// adult: true
// age: 22
// score: 214.67
// rank_delta: -10
// cars_owned:
//     - name: "Ford Mustang"
//       age: 5
//       last_inspection:
//         date: "2020-01-05"
fn car() -> Value {
    map_of(vec![
        ("name", text("Ford Mustang")),
        ("age", Value::Unsigned(5)),
        ("last_inspection", map_of(vec![("date", text("2020-01-05"))])),
    ])
}

fn test_yaml() -> Value {
    map_of(vec![
        ("name", text("John Doe")),
        ("adult", Value::Bool(true)),
        ("age", Value::Unsigned(22)),
        ("score", Value::Float(Float::from_bits(214.67f64.to_bits()))),
        ("rank_delta", Value::Integer(-10)),
        ("cars_owned", Value::Sequence(vec![car()])),
    ])
}

#[test]
fn get_value_by_path_returns_error_when_empty_path_is_passed() {
    let y = test_yaml();
    assert!(get_value_by_path(&y, "").is_err());
}

#[test]
fn get_value_by_path_returns_error_when_invalid_path_is_passed() {
    let y = test_yaml();
    for path in [".", "..", ".key", "key1.key2."] {
        assert!(get_value_by_path(&y, path).is_err(), "{}", path);
    }
}

#[test]
fn get_value_by_path_returns_error_when_non_existing_path_is_passed() {
    let y = test_yaml();
    for path in [
        "invalid.invalid",
        "name.invalid",
        "cars_owned.invalid",
        "cars_owned.0.name",
        "cars_owned.0.last_inspection",
    ] {
        assert!(get_value_by_path(&y, path).is_err(), "{}", path);
    }
}

#[test]
fn get_value_by_path_returns_reference_when_existing_path_is_passed() {
    let y = test_yaml();
    get_value_by_path(&y, "name").unwrap();
    get_value_by_path(&y, "cars_owned").unwrap();
    let c = car();
    for path in ["name", "age", "last_inspection", "last_inspection.date"] {
        get_value_by_path(&c, path).unwrap();
    }
}

#[test]
fn get_typed_value_by_path_returns_error_when_invalid_type_requested() {
    let y = test_yaml();
    assert!(get_typed_value_by_path::<bool>(&y, "age").is_err());
    assert!(get_typed_value_by_path::<i64>(&y, "adult").is_err());
    assert!(get_typed_value_by_path::<u64>(&y, "adult").is_err());
    assert!(get_typed_value_by_path::<Float>(&y, "adult").is_err());
    assert!(get_typed_value_by_path::<str>(&y, "age").is_err());
    assert!(get_typed_value_by_path::<Mapping>(&y, "name").is_err());
    assert!(get_typed_value_by_path::<Sequence>(&y, "name").is_err());
}

#[test]
fn get_typed_value_by_path_valid_value_returned_when_bool_requested() {
    let y = test_yaml();
    assert_eq!(get_typed_value_by_path::<bool>(&y, "adult").unwrap(), true);
}

#[test]
fn get_typed_value_by_path_valid_value_returned_when_i64_requested() {
    let y = test_yaml();
    assert_eq!(get_typed_value_by_path::<i64>(&y, "rank_delta").unwrap(), -10);
}

#[test]
fn get_typed_value_by_path_valid_value_returned_when_u64_requested() {
    let y = test_yaml();
    assert_eq!(get_typed_value_by_path::<u64>(&y, "age").unwrap(), 22);
}

#[test]
fn get_typed_value_by_path_valid_value_returned_when_f64_requested() {
    let y = test_yaml();
    let x = get_typed_value_by_path::<Float>(&y, "score").unwrap();
    assert_eq!(f64::from_bits(x.to_bits()), 214.67);
}

#[test]
fn get_typed_value_by_path_valid_value_returned_when_str_requested() {
    let y = test_yaml();
    assert_eq!(get_typed_value_by_path::<str>(&y, "name").unwrap(), "John Doe");
}

#[test]
fn get_typed_value_by_path_valid_value_returned_when_mapping_requested() {
    let c = car();
    let expected = match map_of(vec![("date", text("2020-01-05"))]) {
        Value::Mapping(m) => m,
        _ => unreachable!(),
    };
    assert_eq!(
        get_typed_value_by_path::<Mapping>(&c, "last_inspection").unwrap(),
        &expected
    );
}

#[test]
fn get_typed_value_by_path_valid_value_returned_when_sequence_requested() {
    let y = test_yaml();
    let s = get_typed_value_by_path::<Sequence>(&y, "cars_owned").unwrap();
    assert_eq!(s, &vec![car()]);
}

#[test]
fn nested_path_reaches_terminal_value() {
    let root = map_of(vec![("a", map_of(vec![("b", map_of(vec![("c", Value::Unsigned(7))]))]))]);
    assert_eq!(get_value_by_path(&root, "a.b.c").unwrap(), &Value::Unsigned(7));
    assert_eq!(get_value_by_path(&root, "a.b").unwrap(), &map_of(vec![("c", Value::Unsigned(7))]));
    assert!(get_value_by_path(&root, "a.b.c.d").is_err());
}

#[test]
fn empty_key_is_rejected_even_when_present() {
    let root = map_of(vec![("", map_of(vec![("", Value::Null)])), ("k", Value::Null)]);
    for path in ["", ".", "..", ".k", "k.", "k..k"] {
        assert!(get_value_by_path(&root, path).is_err(), "{}", path);
    }
    assert_eq!(get_value_by_path(&root, "k").unwrap(), &Value::Null);
}

#[test]
fn sequence_is_not_indexed_by_numeric_segment() {
    let root = map_of(vec![
        ("list", Value::Sequence(vec![map_of(vec![("name", text("x"))])])),
        ("0", text("zero")),
    ]);
    assert!(get_value_by_path(&root, "list.0").is_err());
    assert!(get_value_by_path(&root, "list.0.name").is_err());
    assert_eq!(get_typed_value_by_path::<str>(&root, "0").unwrap(), "zero");
}

#[test]
fn not_found_error_names_the_path() {
    let y = test_yaml();
    let e = get_value_by_path(&y, "cars_owned.0.name").unwrap_err();
    assert_eq!(
        e.message_str(),
        "Path `cars_owned.0.name` was not found within the input object"
    );
    let d = e.diagnostic_str().unwrap();
    assert!(d.starts_with("Input object: "));
    assert!(d.contains("John Doe"));
}

#[test]
fn mismatch_error_names_the_requested_type() {
    let y = test_yaml();
    let cases: Vec<(String, &str)> = vec![
        (get_typed_value_by_path::<bool>(&y, "age").unwrap_err().message_str().to_string(), "$bool"),
        (get_typed_value_by_path::<i64>(&y, "name").unwrap_err().message_str().to_string(), "$i64"),
        (get_typed_value_by_path::<u64>(&y, "rank_delta").unwrap_err().message_str().to_string(), "$u64"),
        (get_typed_value_by_path::<Float>(&y, "age").unwrap_err().message_str().to_string(), "$f64"),
        (get_typed_value_by_path::<str>(&y, "adult").unwrap_err().message_str().to_string(), "str"),
        (get_typed_value_by_path::<Mapping>(&y, "cars_owned").unwrap_err().message_str().to_string(), "Mapping"),
        (get_typed_value_by_path::<Sequence>(&y, "age").unwrap_err().message_str().to_string(), "Sequence"),
    ];
    for (message, kind) in cases {
        assert_eq!(message, format!("Could not parse requested value as {}", kind));
    }
    let e = get_typed_value_by_path::<bool>(&y, "name").unwrap_err();
    let d = e.diagnostic_str().unwrap();
    assert!(d.starts_with("Input object: "));
    assert!(d.contains("John Doe"));
    assert!(!d.contains("rank_delta"));
}

#[test]
fn missing_path_fails_before_type_check() {
    let y = test_yaml();
    let e = get_typed_value_by_path::<bool>(&y, "missing").unwrap_err();
    assert_eq!(e.message_str(), "Path `missing` was not found within the input object");
}

#[test]
fn repeated_calls_agree() {
    let y = test_yaml();
    assert_eq!(get_value_by_path(&y, "cars_owned").unwrap(), get_value_by_path(&y, "cars_owned").unwrap());
    let a = get_value_by_path(&y, "nope").unwrap_err();
    let b = get_value_by_path(&y, "nope").unwrap_err();
    assert_eq!(a.message_str(), b.message_str());
    assert_eq!(a.diagnostic_str(), b.diagnostic_str());
    assert_eq!(
        get_typed_value_by_path::<i64>(&y, "rank_delta").unwrap(),
        get_typed_value_by_path::<i64>(&y, "rank_delta").unwrap()
    );
}

#[test]
fn integers_convert_across_sign_variants_where_they_fit() {
    let root = map_of(vec![
        ("small", Value::Unsigned(5)),
        ("huge", Value::Unsigned(u64::MAX)),
        ("neg", Value::Integer(-1)),
        ("pos", Value::Integer(9)),
        ("float", Value::Float(Float::from_bits(1.0f64.to_bits()))),
    ]);
    assert_eq!(get_typed_value_by_path::<i64>(&root, "small").unwrap(), 5);
    assert!(get_typed_value_by_path::<i64>(&root, "huge").is_err());
    assert_eq!(get_typed_value_by_path::<u64>(&root, "huge").unwrap(), u64::MAX);
    assert!(get_typed_value_by_path::<u64>(&root, "neg").is_err());
    assert_eq!(get_typed_value_by_path::<u64>(&root, "pos").unwrap(), 9);
    assert!(get_typed_value_by_path::<Float>(&root, "small").is_err());
    assert!(get_typed_value_by_path::<i64>(&root, "float").is_err());
}

#[test]
fn conversion_strategies_parse_and_name_types() {
    let v = Value::Bool(false);
    assert_eq!(<bool as FromYaml>::parse(&v), Some(false));
    assert_eq!(<i64 as FromYaml>::parse(&v), None);
    assert_eq!(<bool as FromYaml>::type_str(), "$bool");
    assert_eq!(<str as FromYaml>::type_str(), "str");
    assert!(<Mapping as FromYaml>::try_from(&v).is_err());
    assert_eq!(<bool as FromYaml>::try_from(&v).unwrap(), false);
}

#[test]
fn mapping_insert_replaces_in_place() {
    let mut m = Mapping::new();
    assert_eq!(m.len(), 0);
    m.insert("a".to_string(), Value::Unsigned(1));
    m.insert("b".to_string(), Value::Unsigned(2));
    m.insert("a".to_string(), Value::Unsigned(3));
    assert_eq!(m.len(), 2);
    assert_eq!(m.get("a"), Some(&Value::Unsigned(3)));
    assert_eq!(m.get("b"), Some(&Value::Unsigned(2)));
    assert_eq!(m.get("c"), None);
}

#[test]
fn try_from_mismatch_message_uses_type_label() {
    let v = Value::Bool(true);
    let e = <i64 as FromYaml>::try_from(&v).unwrap_err();
    assert_eq!(e.message_str(), "Could not parse requested value as $i64");
    let w = Value::Unsigned(22);
    let e = <str as FromYaml>::try_from(&w).unwrap_err();
    assert_eq!(e.message_str(), "Could not parse requested value as str");
    assert_eq!(e.diagnostic_str(), Some("Input object: Unsigned(22)"));
}
