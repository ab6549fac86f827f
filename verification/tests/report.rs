use span_circuit_info::json::{Json, Number};
use span_circuit_info::report::{
    attribute_cell, key_cells, key_line, report, Cell, Outcome, Request,
};
use span_circuit_info::select::Warning;
use span_circuit_info::table::Table;

fn object(fields: Vec<(&str, Json)>) -> Json {
    Json::Object(
        fields
            .into_iter()
            .map(|(k, v)| (k.to_string(), v))
            .collect(),
    )
}

fn text(s: &str) -> Json {
    Json::String(s.to_string())
}

fn negative(n: i64) -> Json {
    Json::Number(Number::Negative(n))
}

fn unsigned(n: u64) -> Json {
    Json::Number(Number::Unsigned(n))
}

fn cell(s: &str) -> Cell {
    Cell::Text(s.to_string())
}

fn sample() -> Table<Json> {
    let mut table = Table::new();
    table.insert(
        "2".to_string(),
        object(vec![("name", text("Bob's")), ("instantPowerW", negative(-40))]),
    );
    table.insert(
        "1".to_string(),
        object(vec![("name", text("Oven")), ("instantPowerW", unsigned(7))]),
    );
    table
}

fn request(all: bool, abs: bool, key: Option<&str>) -> Request {
    Request {
        all,
        ids: vec![],
        names: vec![],
        abs,
        key: key.map(|k| k.to_string()),
    }
}

#[test]
fn cells_of_values() {
    assert_eq!(attribute_cell(None), cell("null"));
    assert_eq!(attribute_cell(Some(&Json::Null)), cell("null"));
    assert_eq!(attribute_cell(Some(&Json::Bool(true))), cell("true"));
    assert_eq!(attribute_cell(Some(&Json::Bool(false))), cell("false"));
    assert_eq!(attribute_cell(Some(&text("a b"))), cell("a b"));
    assert_eq!(attribute_cell(Some(&unsigned(120))), cell("120"));
    assert_eq!(attribute_cell(Some(&negative(-120))), cell("-120"));
    assert_eq!(attribute_cell(Some(&negative(i64::MIN))), cell("-9223372036854775808"));
}

#[test]
fn other_values_are_serialized() {
    let half = Json::Number(Number::Float { negative: true, magnitude: 0.5f64.to_bits() });
    assert_eq!(attribute_cell(Some(&half)), Cell::Serialize(half.clone()));
    let items = Json::Array(vec![Json::Null]);
    assert_eq!(attribute_cell(Some(&items)), Cell::Serialize(items.clone()));
    let fields = object(vec![("a", Json::Null)]);
    assert_eq!(attribute_cell(Some(&fields)), Cell::Serialize(fields.clone()));
}

#[test]
fn integers_read_as_json_writes_them() {
    for n in [0, 5, 1_000_000, u64::MAX] {
        assert_eq!(
            attribute_cell(Some(&unsigned(n))),
            Cell::Text(serde_json::Number::from(n).to_string())
        );
    }
    for n in [-1, -10, i64::MIN] {
        assert_eq!(
            attribute_cell(Some(&negative(n))),
            Cell::Text(serde_json::Number::from(n).to_string())
        );
    }
}

#[test]
fn one_cell_of_each_circuit() {
    let circuits = vec![
        ("1".to_string(), object(vec![("relayState", text("CLOSED"))])),
        ("2".to_string(), object(vec![])),
    ];
    assert_eq!(key_cells(&circuits, "relay_state"), vec![cell("CLOSED"), cell("null")]);
}

#[test]
fn lines_of_values() {
    let values = || vec!["7".to_string(), "-40".to_string()];
    assert_eq!(key_line(None, values(), false, " "), "7 -40");
    assert_eq!(key_line(Some("12.5".to_string()), values(), false, ","), "12.5,7,-40");
    assert_eq!(key_line(Some("12.5".to_string()), values(), true, " "), "'12.5' '7' ' -40'");
    assert_eq!(key_line(None, vec![], true, " "), "");
}

#[test]
fn a_report_of_one_attribute() {
    let r = report(&request(true, false, Some("instant_power_w")), &sample());
    assert_eq!(r.outcome, Outcome::Cells(vec![cell("7"), cell("-40")]));
    assert_eq!(r.warnings, vec![]);
}

#[test]
fn a_report_of_absolute_values() {
    let r = report(&request(true, true, Some("instantPowerW")), &sample());
    assert_eq!(r.outcome, Outcome::Cells(vec![cell("7"), cell("40")]));
}

#[test]
fn a_report_of_labels() {
    let r = report(&request(true, false, Some("name")), &sample());
    assert_eq!(r.outcome, Outcome::Cells(vec![cell("Oven"), cell("Bob's")]));
    let line = key_line(None, vec!["Oven".to_string(), "Bob's".to_string()], true, " ");
    assert_eq!(line, r#"'Oven' 'Bob'\''s'"#);
}

#[test]
fn a_report_of_whole_circuits() {
    let r = report(&request(true, true, None), &sample());
    let expected = object(vec![
        ("1", object(vec![("name", text("Oven")), ("instantPowerW", unsigned(7))])),
        ("2", object(vec![("name", text("Bob's")), ("instantPowerW", unsigned(40))])),
    ]);
    assert_eq!(r.outcome, Outcome::Document(expected));
}

#[test]
fn a_document_holds_each_circuit() {
    let mut asked = request(false, false, None);
    asked.ids = vec!["2".to_string(), "1".to_string(), "2".to_string()];
    asked.names = vec!["Oven".to_string()];
    match report(&asked, &sample()).outcome {
        Outcome::Document(document) => {
            assert_eq!(document.get("1"), sample().get("1"));
            assert_eq!(document.get("2"), sample().get("2"));
            assert_eq!(document.as_object().unwrap().len(), 2);
            assert_eq!(document.as_object().unwrap()[0].0, "2");
        }
        _ => panic!("a document is asked for"),
    }
}

#[test]
fn a_report_of_nothing() {
    let mut asked = request(false, false, None);
    asked.ids = vec!["9".to_string()];
    let r = report(&asked, &sample());
    assert_eq!(r.outcome, Outcome::NothingSelected);
    assert_eq!(r.warnings, vec![Warning::UnknownId("9".to_string())]);
    assert_eq!(
        report(&request(false, false, Some("name")), &sample()).outcome,
        Outcome::NothingSelected
    );
}
