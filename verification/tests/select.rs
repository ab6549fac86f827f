use span_circuit_info::json::Json;
use span_circuit_info::select::{select_circuits, Warning};
use span_circuit_info::table::Table;

fn circuit(name: &str) -> Json {
    Json::Object(vec![("name".to_string(), Json::String(name.to_string()))])
}

fn circuits(entries: &[(&str, &str)]) -> Table<Json> {
    let mut table = Table::new();
    for (id, name) in entries {
        table.insert(id.to_string(), circuit(name));
    }
    table
}

fn list(items: &[&str]) -> Vec<String> {
    items.iter().map(|s| s.to_string()).collect()
}

fn sample() -> Table<Json> {
    circuits(&[("c3", "Oven"), ("c1", "Pool"), ("c10", "Oven"), ("c2", "Attic")])
}

fn selected(all: bool, ids: &[&str], names: &[&str]) -> Vec<String> {
    select_circuits(&sample(), all, &list(ids), &list(names))
        .circuits
        .into_iter()
        .map(|(id, _)| id)
        .collect()
}

#[test]
fn all_circuits_by_ascending_ids() {
    let selection = select_circuits(&sample(), true, &list(&[]), &list(&[]));
    let expected = vec![
        ("c1".to_string(), circuit("Pool")),
        ("c10".to_string(), circuit("Oven")),
        ("c2".to_string(), circuit("Attic")),
        ("c3".to_string(), circuit("Oven")),
    ];
    assert_eq!(selection.circuits, expected);
    assert_eq!(selection.warnings, vec![]);
}

#[test]
fn all_overrides_ids_and_names() {
    assert_eq!(selected(true, &["c3", "none"], &["Pool"]), ["c1", "c10", "c2", "c3"]);
    let selection = select_circuits(&sample(), true, &list(&["none"]), &list(&["none"]));
    assert_eq!(selection.warnings, vec![]);
}

#[test]
fn ids_keep_the_order_of_the_request() {
    assert_eq!(selected(false, &["c3", "c1", "c2"], &[]), ["c3", "c1", "c2"]);
}

#[test]
fn no_circuit_is_selected_twice() {
    assert_eq!(selected(false, &["c3", "c1", "c3"], &["Pool", "Attic", "Attic"]), ["c3", "c1", "c2"]);
}

#[test]
fn names_come_after_ids() {
    assert_eq!(selected(false, &["c3"], &["Attic", "Pool"]), ["c3", "c2", "c1"]);
}

#[test]
fn a_name_stands_for_its_least_circuit() {
    assert_eq!(selected(false, &[], &["Oven"]), ["c10"]);
    assert_eq!(selected(false, &["c3"], &["Oven"]), ["c3", "c10"]);
    assert_eq!(selected(false, &["c10"], &["Oven"]), ["c10"]);
}

#[test]
fn the_order_of_storage_does_not_matter() {
    let other = circuits(&[("c2", "Attic"), ("c10", "Oven"), ("c1", "Pool"), ("c3", "Oven")]);
    for all in [true, false] {
        let ids = list(&["c3", "zz"]);
        let names = list(&["Oven", "Pool", "yy"]);
        let a = select_circuits(&sample(), all, &ids, &names);
        let b = select_circuits(&other, all, &ids, &names);
        assert_eq!(a, b);
    }
}

#[test]
fn circuits_keep_their_place_whatever_they_hold() {
    let renamed = circuits(&[("c10", "x"), ("c1", "y"), ("c3", "z"), ("c2", "x")]);
    let a = select_circuits(&sample(), true, &list(&[]), &list(&[]));
    let b = select_circuits(&renamed, true, &list(&[]), &list(&[]));
    let ids_a: Vec<String> = a.circuits.into_iter().map(|c| c.0).collect();
    let ids_b: Vec<String> = b.circuits.into_iter().map(|c| c.0).collect();
    assert_eq!(ids_a, ids_b);
}

#[test]
fn what_is_unknown_gives_a_warning() {
    let ids = list(&["zz", "c1", "zz"]);
    let names = list(&["oven", "Oven", "yy"]);
    let selection = select_circuits(&sample(), false, &ids, &names);
    let expected = vec![
        Warning::UnknownId("zz".to_string()),
        Warning::UnknownId("zz".to_string()),
        Warning::UnknownName("oven".to_string()),
        Warning::UnknownName("yy".to_string()),
    ];
    assert_eq!(selection.warnings, expected);
    let chosen: Vec<String> = selection.circuits.into_iter().map(|c| c.0).collect();
    assert_eq!(chosen, ["c1", "c10"]);
}

#[test]
fn warnings_in_words() {
    assert_eq!(
        Warning::UnknownId("zz".to_string()).message(),
        "Warning: Circuit ID 'zz' not found"
    );
    assert_eq!(
        Warning::UnknownName("Oven".to_string()).message(),
        "Warning: Circuit Name 'Oven' not found"
    );
}

#[test]
fn circuits_without_a_name_have_none() {
    let mut table = Table::new();
    table.insert("a".to_string(), Json::Null);
    table.insert("b".to_string(), Json::Object(vec![("name".to_string(), Json::Null)]));
    table.insert("c".to_string(), circuit(""));
    let selection = select_circuits(&table, false, &list(&[]), &list(&[""]));
    assert_eq!(selection.circuits, vec![("c".to_string(), circuit(""))]);
}

#[test]
fn an_empty_request_selects_nothing() {
    let selection = select_circuits(&sample(), false, &list(&[]), &list(&[]));
    assert_eq!(selection.circuits, vec![]);
    assert_eq!(selection.warnings, vec![]);
    let selection = select_circuits(&Table::new(), true, &list(&[]), &list(&[]));
    assert_eq!(selection.circuits, vec![]);
}
