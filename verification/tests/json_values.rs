use gun::json::{Json, JsonNumber};

fn s(x: &str) -> Json {
    Json::Str(x.to_string())
}

fn n(u: u64) -> Json {
    Json::Number(JsonNumber::PosInt(u))
}

fn obj(entries: Vec<(&str, Json)>) -> Json {
    Json::Object(entries.into_iter().map(|(k, v)| (k.to_string(), v)).collect())
}

#[test]
fn text_of_nested_value() {
    let v = obj(vec![
        ("a", n(1)),
        ("b", Json::Array(vec![Json::Bool(true), Json::Null, Json::Number(JsonNumber::NegInt(-5))])),
        ("c", s("x\"y")),
    ]);
    assert_eq!(v.to_text(), r#"{"a":1,"b":[true,null,-5],"c":"x\"y"}"#);
}

#[test]
fn text_escapes_strings_as_json_does() {
    assert_eq!(s("a\\b\nc").to_text(), r#""a\\b\nc""#);
    assert_eq!(s("").to_text(), r#""""#);
    assert_eq!(s("q\"\u{8}\t\u{c}\r/").to_text(), r#""q\"\b\t\f\r/""#);
    assert_eq!(s("\u{1}\u{1f}\u{7f}é").to_text(), "\"\\u0001\\u001f\u{7f}é\"");
}

#[test]
fn text_of_numbers() {
    assert_eq!(n(0).to_text(), "0");
    assert_eq!(n(18446744073709551615).to_text(), "18446744073709551615");
    assert_eq!(Json::Number(JsonNumber::NegInt(-9223372036854775808)).to_text(), "-9223372036854775808");
    assert_eq!(Json::Number(JsonNumber::Float("1.5".to_string())).to_text(), "1.5");
    assert_eq!(Json::Array(vec![]).to_text(), "[]");
    assert_eq!(Json::new_object().to_text(), "{}");
}

#[test]
fn insert_keeps_keys_in_order() {
    let mut v = Json::new_object();
    assert!(v.insert("b".to_string(), n(2)));
    assert!(v.insert("a".to_string(), n(1)));
    assert!(v.insert("_".to_string(), n(0)));
    assert!(v.insert("B".to_string(), n(3)));
    assert_eq!(v.to_text(), r#"{"B":3,"_":0,"a":1,"b":2}"#);
    assert!(v.insert("a".to_string(), s("one")));
    assert_eq!(v.to_text(), r#"{"B":3,"_":0,"a":"one","b":2}"#);
}

#[test]
fn insert_into_non_object_is_refused() {
    let mut v = s("x");
    assert!(!v.insert("a".to_string(), n(1)));
    assert_eq!(v.to_text(), r#""x""#);
}

#[test]
fn assign_turns_null_into_object() {
    let mut v = Json::Null;
    assert!(v.assign("k".to_string(), n(7)));
    assert_eq!(v.to_text(), r#"{"k":7}"#);
    let mut w = Json::Array(vec![]);
    assert!(!w.assign("k".to_string(), n(7)));
}

#[test]
fn get_and_conversions() {
    let v = obj(vec![("a", n(5)), ("b", s("t")), ("c", Json::Number(JsonNumber::NegInt(-1)))]);
    assert_eq!(v.get("a").unwrap().as_u64(), Some(5));
    assert_eq!(v.get("b").unwrap().as_str(), Some("t"));
    assert_eq!(v.get("c").unwrap().as_u64(), None);
    assert_eq!(v.get("c").unwrap().as_i64(), Some(-1));
    assert!(v.get("z").is_none());
    assert!(s("a").get("a").is_none());
    assert_eq!(n(18446744073709551615).as_i64(), None);
    assert_eq!(n(9223372036854775807).as_i64(), Some(9223372036854775807));
}

#[test]
fn equality_and_copies() {
    let v = obj(vec![("a", Json::Array(vec![n(1), s("x")])), ("b", Json::Null)]);
    let w = v.deep_copy();
    assert!(v.equals(&w));
    assert!(!v.equals(&obj(vec![("a", Json::Array(vec![n(1), s("y")])), ("b", Json::Null)])));
    assert!(!n(1).equals(&Json::Number(JsonNumber::NegInt(1))));
    assert!(Json::from_i64(-3).equals(&Json::Number(JsonNumber::NegInt(-3))));
    assert!(Json::from_i64(3).equals(&n(3)));
}

#[test]
fn float_zeros_are_equal() {
    let f = |t: &str| Json::Number(JsonNumber::Float(t.to_string()));
    assert!(f("0.0").equals(&f("-0.0")));
    assert!(f("-0.0").equals(&f("0.0")));
    assert!(f("1.5").equals(&f("1.5")));
    assert!(!f("1.5").equals(&f("-1.5")));
    assert!(!f("0.5").equals(&f("0.0")));
    assert!(!f("0.0").equals(&n(0)));
}
