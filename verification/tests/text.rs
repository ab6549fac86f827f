use span_circuit_info::table::Table;
use span_circuit_info::text::{
    chars_of, decimal_text, is_before, join, same_text, string_between,
};

#[test]
fn characters_of_a_string() {
    assert_eq!(chars_of("aé-"), vec!['a', 'é', '-']);
    assert_eq!(string_between(&chars_of("panel"), 1, 4), "ane");
    assert_eq!(string_between(&chars_of("panel"), 2, 2), "");
}

#[test]
fn strings_are_ordered_by_characters() {
    let words = ["", "1", "10", "2", "A", "AA", "a", "z", "é", "中", "😀"];
    for (i, a) in words.iter().enumerate() {
        for (j, b) in words.iter().enumerate() {
            assert_eq!(is_before(a, b), i < j);
            assert_eq!(is_before(a, b), a < b);
            assert_eq!(same_text(a, b), i == j);
        }
    }
}

#[test]
fn decimal_numerals() {
    assert_eq!(decimal_text(0), "0");
    assert_eq!(decimal_text(9), "9");
    assert_eq!(decimal_text(10), "10");
    assert_eq!(decimal_text(8080), "8080");
    assert_eq!(decimal_text(u64::MAX), "18446744073709551615");
}

#[test]
fn joined_parts() {
    let parts = vec!["a".to_string(), "".to_string(), "c".to_string()];
    assert_eq!(join(&parts, ", "), "a, , c");
    assert_eq!(join(&vec![], ", "), "");
    assert_eq!(join(&vec!["x".to_string()], ", "), "x");
}

#[test]
fn a_table_is_a_map() {
    let mut table: Table<u32> = Table::new();
    assert_eq!(table.get("a"), None);
    table.insert("a".to_string(), 1);
    table.insert("b".to_string(), 2);
    table.insert("a".to_string(), 3);
    assert_eq!(table.get("a"), Some(&3));
    assert_eq!(table.get("b"), Some(&2));
    assert!(table.contains_key("b"));
    assert!(!table.contains_key("c"));
    let mut keys = table.keys();
    keys.sort();
    assert_eq!(keys, vec!["a".to_string(), "b".to_string()]);
    let copy = table.clone();
    assert_eq!(copy.get("a"), Some(&3));
    assert_eq!(copy.keys().len(), 2);
}
