use span_circuit_info::json::{apply_abs, find, get_string_field, Json, Number};

const SIGN: u64 = 1 << 63;

fn float(f: f64) -> Json {
    let bits = f.to_bits();
    Json::Number(Number::Float {
        negative: bits & SIGN != 0,
        magnitude: bits & !SIGN,
    })
}

fn unsigned(n: u64) -> Json {
    Json::Number(Number::Unsigned(n))
}

fn negative(n: i64) -> Json {
    Json::Number(Number::Negative(n))
}

fn text(s: &str) -> Json {
    Json::String(s.to_string())
}

fn object(fields: Vec<(&str, Json)>) -> Json {
    Json::Object(
        fields
            .into_iter()
            .map(|(k, v)| (k.to_string(), v))
            .collect(),
    )
}

fn abs_of(mut v: Json) -> Json {
    apply_abs(&mut v);
    v
}

#[test]
fn abs_of_integers() {
    assert_eq!(abs_of(negative(-5)), unsigned(5));
    assert_eq!(abs_of(unsigned(5)), unsigned(5));
    assert_eq!(abs_of(unsigned(0)), unsigned(0));
    assert_eq!(abs_of(unsigned(u64::MAX)), unsigned(u64::MAX));
    assert_eq!(abs_of(negative(-i64::MAX)), unsigned(i64::MAX as u64));
}

#[test]
fn abs_of_the_least_integer() {
    assert_eq!(abs_of(negative(i64::MIN)), unsigned(9223372036854775808));
}

#[test]
fn abs_of_floats() {
    assert_eq!(abs_of(float(-12.5)), float(12.5));
    assert_eq!(abs_of(float(12.5)), float(12.5));
    assert_eq!(abs_of(float(-5e-324)), float(5e-324));
    assert_eq!(abs_of(float(f64::MIN)), float(f64::MAX));
    assert_eq!(abs_of(float(0.0)), float(0.0));
}

#[test]
fn abs_keeps_negative_zero() {
    assert_eq!(abs_of(float(-0.0)), float(-0.0));
    assert_ne!(abs_of(float(-0.0)), float(0.0));
}

#[test]
fn abs_reaches_every_depth() {
    let before = object(vec![
        ("a", Json::Array(vec![negative(-1), Json::Array(vec![float(-2.5)])])),
        ("b", object(vec![("c", negative(-3)), ("d", text("-4"))])),
        ("e", Json::Null),
        ("f", Json::Bool(true)),
    ]);
    let after = object(vec![
        ("a", Json::Array(vec![unsigned(1), Json::Array(vec![float(2.5)])])),
        ("b", object(vec![("c", unsigned(3)), ("d", text("-4"))])),
        ("e", Json::Null),
        ("f", Json::Bool(true)),
    ]);
    assert_eq!(abs_of(before), after);
}

#[test]
fn abs_twice_is_abs_once() {
    let once = abs_of(object(vec![("p", negative(-7)), ("q", float(-0.25))]));
    let twice = abs_of(once.clone());
    assert_eq!(once, twice);
}

#[test]
fn abs_leaves_what_is_not_below_zero() {
    let v = object(vec![("p", unsigned(7)), ("q", Json::Array(vec![float(0.25), text("x")]))]);
    assert_eq!(abs_of(v.clone()), v);
}

#[test]
fn abs_of_a_field_is_the_field_of_the_abs() {
    let v = object(vec![("p", negative(-7)), ("q", text("x"))]);
    let after = abs_of(v.clone());
    assert_eq!(after.get("p"), Some(&unsigned(7)));
    assert_eq!(after.get("q"), v.get("q"));
    assert_eq!(after.get("r"), None);
}

#[test]
fn a_clone_holds_the_same() {
    let v = object(vec![
        ("a", Json::Array(vec![Json::Null, Json::Bool(false), text("t"), negative(-1)])),
        ("b", object(vec![("c", float(1.5))])),
    ]);
    assert_eq!(v.clone(), v);
}

#[test]
fn fields_are_found_by_key() {
    let v = object(vec![("id", text("1")), ("name", text("Oven"))]);
    assert_eq!(v.get("name"), Some(&text("Oven")));
    assert_eq!(v.get("Name"), None);
    assert_eq!(v.get("nam"), None);
    assert_eq!(text("name").get("name"), None);
    assert_eq!(Json::Array(vec![]).get("name"), None);
    match v.as_object() {
        Some(fields) => assert_eq!(find(fields, "id"), Some(&text("1"))),
        None => panic!("an object has fields"),
    }
    assert!(Json::Null.as_object().is_none());
}

#[test]
fn string_fields() {
    let v = object(vec![("name", text("Oven")), ("tabs", unsigned(3)), ("gone", Json::Null)]);
    assert_eq!(get_string_field(&v, "name"), Some("Oven".to_string()));
    assert_eq!(get_string_field(&v, "tabs"), None);
    assert_eq!(get_string_field(&v, "gone"), None);
    assert_eq!(get_string_field(&v, "other"), None);
    assert_eq!(get_string_field(&Json::Null, "name"), None);
}
