use span_circuit_info::api::{
    authorization, circuits_of, circuits_url, InvalidToken, UnexpectedStructure,
};
use span_circuit_info::json::Json;

fn object(fields: Vec<(&str, Json)>) -> Json {
    Json::Object(
        fields
            .into_iter()
            .map(|(k, v)| (k.to_string(), v))
            .collect(),
    )
}

fn flag(b: bool) -> Json {
    Json::Bool(b)
}

#[test]
fn addresses() {
    assert_eq!(circuits_url("10.0.0.7", None, true), "https://10.0.0.7/api/v1/circuits");
    assert_eq!(circuits_url("10.0.0.7", None, false), "http://10.0.0.7/api/v1/circuits");
    assert_eq!(
        circuits_url("span-abc.local", Some(8443), true),
        "https://span-abc.local:8443/api/v1/circuits"
    );
    assert_eq!(circuits_url("h", Some(0), false), "http://h:0/api/v1/circuits");
    assert_eq!(circuits_url("h", Some(65535), false), "http://h:65535/api/v1/circuits");
}

#[test]
fn a_token_becomes_a_header() {
    let value = authorization(Some("abc.def")).unwrap().unwrap();
    assert_eq!(value.as_bytes(), b"Bearer abc.def");
    let value = authorization(Some("")).unwrap().unwrap();
    assert_eq!(value.as_bytes(), b"Bearer ");
    let value = authorization(Some("a\tb é")).unwrap().unwrap();
    assert_eq!(value.as_bytes(), "Bearer a\tb é".as_bytes());
}

#[test]
fn without_a_token_there_is_no_header() {
    assert_eq!(authorization(None), Ok(None));
}

#[test]
fn control_characters_are_refused() {
    assert_eq!(authorization(Some("abc\n")), Err(InvalidToken));
    assert_eq!(authorization(Some("\r")), Err(InvalidToken));
    assert_eq!(authorization(Some("a\u{0}b")), Err(InvalidToken));
    assert_eq!(authorization(Some("a\u{7f}b")), Err(InvalidToken));
}

#[test]
fn circuits_are_found_under_circuits() {
    let root = object(vec![
        ("spaces", object(vec![("9", flag(false))])),
        ("circuits", object(vec![("1", flag(true)), ("2", Json::Null)])),
    ]);
    let circuits = circuits_of(&root).unwrap();
    assert_eq!(circuits.keys().len(), 2);
    assert_eq!(circuits.get("1"), Some(&flag(true)));
    assert_eq!(circuits.get("2"), Some(&Json::Null));
}

#[test]
fn circuits_are_found_under_spaces() {
    let root = object(vec![
        ("circuits", Json::Array(vec![])),
        ("spaces", object(vec![("9", flag(false))])),
    ]);
    let circuits = circuits_of(&root).unwrap();
    assert_eq!(circuits.keys(), vec!["9".to_string()]);
    assert_eq!(circuits.get("9"), Some(&flag(false)));
}

#[test]
fn circuits_are_found_at_the_root() {
    let root = object(vec![("circuits", Json::Null), ("7", object(vec![]))]);
    let circuits = circuits_of(&root).unwrap();
    assert_eq!(circuits.keys().len(), 2);
    assert_eq!(circuits.get("7"), Some(&object(vec![])));
    assert_eq!(circuits.get("circuits"), Some(&Json::Null));
    assert_eq!(circuits_of(&object(vec![])).unwrap().keys().len(), 0);
}

#[test]
fn other_answers_are_refused() {
    for root in [Json::Null, flag(true), Json::Array(vec![]), Json::String("x".to_string())] {
        assert_eq!(circuits_of(&root).err(), Some(UnexpectedStructure));
    }
    assert_eq!(
        UnexpectedStructure.message(),
        "Unexpected JSON structure: expected a JSON object from the SPAN API"
    );
}
