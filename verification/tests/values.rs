use cel::common::types::CelDouble;
use mcpg_expr::json::{cel_to_serde, serde_to_cel};
use mcpg_expr::convert::cel_value_to_string;
use mcpg_expr::{cel_value_to_json, json_to_cel, CelKey, CelValue, JsonNumber, JsonValue};

fn parsed(text: &str) -> serde_json::Value {
    serde_json::from_str(text).unwrap()
}

fn double(x: f64) -> CelDouble {
    CelDouble::from(x)
}

#[test]
fn json_cel_roundtrip_primitives() {
    let cases = vec![parsed("null"), parsed("true"), parsed("42"), parsed("\"hello\"")];
    for input in cases {
        let cel = json_to_cel(&JsonValue::from_serde(&input));
        let back = cel_value_to_json(&cel);
        assert_eq!(input, back.to_serde(), "roundtrip failed for {:?}", input);
    }
}

#[test]
fn json_cel_roundtrip_nested() {
    let input = parsed(r#"{"nested": {"count": 5}, "items": [1, 2, 3]}"#);
    let cel = json_to_cel(&JsonValue::from_serde(&input));
    let back = cel_value_to_json(&cel);
    assert_eq!(input, back.to_serde());
}

#[test]
fn json_comes_back_through_the_engine() {
    let input = parsed(
        r#"{"a": [null, true, -1, 9223372036854775807, 9223372036854775808, 2.5, "s", {}], "b": {"c": []}}"#,
    );
    let engine: cel::Value = json_to_cel(&JsonValue::from_serde(&input)).to_cel();
    let back = cel_value_to_json(&CelValue::from_cel(&engine));
    assert_eq!(input, back.to_serde());
}

#[test]
fn numbers_take_the_narrowest_type() {
    let cel = |text: &str| json_to_cel(&JsonValue::from_serde(&parsed(text)));
    assert_eq!(cel("9223372036854775807"), CelValue::Int(i64::MAX));
    assert_eq!(cel("9223372036854775808"), CelValue::UInt(9223372036854775808));
    assert_eq!(cel("-9223372036854775808"), CelValue::Int(i64::MIN));
    assert_eq!(cel("1.5"), CelValue::Float(double(1.5)));
    assert_eq!(cel("1.0"), CelValue::Float(double(1.0)));
    assert_eq!(
        json_to_cel(&JsonValue::Number(JsonNumber::NegInt(3))),
        CelValue::Int(3)
    );
}

#[test]
fn numbers_know_their_integers() {
    assert_eq!(JsonNumber::PosInt(u64::MAX).as_i64(), None);
    assert_eq!(JsonNumber::PosInt(5).as_i64(), Some(5));
    assert_eq!(JsonNumber::NegInt(-5).as_u64(), None);
    assert_eq!(JsonNumber::PosInt(u64::MAX).as_u64(), Some(u64::MAX));
    assert_eq!(JsonNumber::Float(double(1.0)).as_i64(), None);
    assert_eq!(JsonNumber::Float(double(1.0)).as_u64(), None);
}

#[test]
fn what_json_cannot_write_becomes_null() {
    assert_eq!(cel_value_to_json(&CelValue::Float(double(f64::NAN))), JsonValue::Null);
    assert_eq!(
        cel_value_to_json(&CelValue::Float(double(f64::INFINITY))),
        JsonValue::Null
    );
    assert_eq!(
        cel_value_to_json(&CelValue::List(vec![CelValue::Other, CelValue::Int(-1)])),
        JsonValue::Array(vec![
            JsonValue::Null,
            JsonValue::Number(JsonNumber::NegInt(-1))
        ])
    );
    assert_eq!(
        cel_value_to_json(&CelValue::Float(double(0.5))),
        JsonValue::Number(JsonNumber::Float(double(0.5)))
    );
}

#[test]
fn keys_become_names() {
    let map = CelValue::Mapping(vec![
        (CelKey::Int(-1), CelValue::Null),
        (CelKey::Uint(2), CelValue::Bool(true)),
        (CelKey::Bool(false), CelValue::Int(0)),
        (CelKey::String("s".to_owned()), CelValue::String("t".to_owned())),
    ]);
    assert_eq!(
        cel_value_to_json(&map).to_serde(),
        parsed(r#"{"-1": null, "2": true, "false": 0, "s": "t"}"#)
    );
}

#[test]
fn a_later_entry_replaces_an_earlier_one() {
    let map = CelValue::Mapping(vec![
        (CelKey::Int(1), CelValue::Int(10)),
        (CelKey::String("1".to_owned()), CelValue::Int(20)),
    ]);
    assert_eq!(cel_value_to_json(&map).to_serde(), parsed(r#"{"1": 20}"#));
    let object = JsonValue::Object(vec![
        ("k".to_owned(), JsonValue::Bool(false)),
        ("k".to_owned(), JsonValue::Bool(true)),
    ]);
    assert_eq!(object.to_serde(), parsed(r#"{"k": true}"#));
    let engine = json_to_cel(&object).to_cel();
    assert_eq!(
        CelValue::from_cel(&engine),
        CelValue::Mapping(vec![(CelKey::String("k".to_owned()), CelValue::Bool(true))])
    );
}

#[test]
fn engine_values_are_read() {
    let program = cel::Program::compile("[1, 2u, 2.5, 'x', true, null, {1: b'z'}, duration('1s')]").unwrap();
    let value = program.execute(&cel::Context::default()).unwrap();
    assert_eq!(
        CelValue::from_cel(&value),
        CelValue::List(vec![
            CelValue::Int(1),
            CelValue::UInt(2),
            CelValue::Float(double(2.5)),
            CelValue::String("x".to_owned()),
            CelValue::Bool(true),
            CelValue::Null,
            CelValue::Mapping(vec![(CelKey::Int(1), CelValue::Other)]),
            CelValue::Other,
        ])
    );
    let program = cel::Program::compile("{2u: 1}[2u] == 1 && {true: 1}[true] == 1").unwrap();
    assert_eq!(
        program.execute(&cel::Context::default()).unwrap(),
        cel::Value::Bool(true)
    );
}

#[test]
fn engine_values_are_made() {
    let value = CelValue::Mapping(vec![
        (CelKey::Uint(1), CelValue::UInt(7)),
        (CelKey::Bool(true), CelValue::Float(double(0.5))),
        (CelKey::Int(-1), CelValue::List(vec![CelValue::Null])),
    ]);
    let engine = value.to_cel();
    if let cel::Value::Map(map) = &engine {
        assert_eq!(map.map.len(), 3);
        assert_eq!(map.map[&cel::objects::Key::Uint(1)], cel::Value::UInt(7));
        assert_eq!(map.map[&cel::objects::Key::Bool(true)], cel::Value::Float(0.5));
    } else {
        panic!("not a map");
    }
    let back = cel_value_to_json(&CelValue::from_cel(&engine));
    assert_eq!(back.to_serde(), parsed(r#"{"1": 7, "true": 0.5, "-1": [null]}"#));
}

#[test]
fn only_scalars_have_text() {
    assert_eq!(cel_value_to_string(&CelValue::Int(i64::MIN)).unwrap(), "-9223372036854775808");
    assert_eq!(cel_value_to_string(&CelValue::UInt(0)).unwrap(), "0");
    assert_eq!(cel_value_to_string(&CelValue::Float(double(1234.567))).unwrap(), "1234.57");
    assert_eq!(cel_value_to_string(&CelValue::Float(double(-0.5))).unwrap(), "-0.50");
    assert_eq!(cel_value_to_string(&CelValue::Bool(false)).unwrap(), "false");
    assert_eq!(cel_value_to_string(&CelValue::Null).unwrap(), "");
    assert_eq!(cel_value_to_string(&CelValue::String("é".to_owned())).unwrap(), "é");
    assert_eq!(cel_value_to_string(&CelValue::List(Vec::new())), None);
    assert_eq!(cel_value_to_string(&CelValue::Mapping(Vec::new())), None);
    assert_eq!(cel_value_to_string(&CelValue::Other), None);
}

#[test]
fn json_values_are_copied() {
    let value = JsonValue::from_serde(&parsed(r#"{"a": [1, -2, 0.5, "x", null, {"b": false}]}"#));
    assert_eq!(value.clone(), value);
}

#[test]
fn raw_values_are_converted() {
    let input = parsed(r#"{"a": [1, 18446744073709551615, -0.5, "x", null, false], "b": {}}"#);
    let inside = serde_to_cel(&input);
    assert!(matches!(&inside, cel::Value::Map(_)));
    assert_eq!(cel_to_serde(&inside), input);
    assert_eq!(serde_to_cel(&parsed("3")), cel::Value::Int(3));
    assert_eq!(
        serde_to_cel(&parsed("18446744073709551615")),
        cel::Value::UInt(u64::MAX)
    );
    assert_eq!(serde_to_cel(&parsed("0.25")), cel::Value::Float(0.25));
    assert_eq!(cel_to_serde(&cel::Value::Float(f64::NAN)), serde_json::Value::Null);
    assert_eq!(
        cel_to_serde(&cel::Value::Bytes(std::sync::Arc::new(vec![1]))),
        serde_json::Value::Null
    );
}

#[test]
fn doubles_that_json_cannot_write_are_written_as_null() {
    let value = JsonValue::Array(vec![
        JsonValue::Number(JsonNumber::Float(double(f64::NEG_INFINITY))),
        JsonValue::Number(JsonNumber::Float(double(1.5))),
        JsonValue::Number(JsonNumber::NegInt(-2)),
    ]);
    assert_eq!(value.to_serde(), parsed("[null, 1.5, -2]"));
}

#[test]
fn the_order_of_entries_makes_no_difference() {
    let a = (CelKey::Int(1), CelValue::List(vec![CelValue::Null]));
    let b = (CelKey::String("b".to_owned()), CelValue::Int(2));
    let one = CelValue::Mapping(vec![
        (CelKey::Int(1), CelValue::List(vec![CelValue::Null])),
        (CelKey::String("b".to_owned()), CelValue::Int(2)),
    ]);
    let two = CelValue::Mapping(vec![b, a]);
    assert_eq!(
        cel_value_to_json(&one).to_serde(),
        cel_value_to_json(&two).to_serde()
    );
}
