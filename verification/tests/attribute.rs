use span_circuit_info::attribute::{
    find_by_alias, get_attribute_resilient, normalize, strip_separators,
};
use span_circuit_info::json::{apply_abs, Json, Number};

fn n(v: u64) -> Json {
    Json::Number(Number::Unsigned(v))
}

fn circuit(fields: &[(&str, u64)]) -> Json {
    Json::Object(fields.iter().map(|(k, v)| (k.to_string(), n(*v))).collect())
}

#[test]
fn names_are_normalized() {
    assert_eq!(normalize("instantPowerW"), "instantpowerw");
    assert_eq!(normalize("instant_power-W"), "instantpowerw");
    assert_eq!(normalize("_-_"), "");
    assert_eq!(normalize("ÉTÉ_Σx"), "étéσx");
    assert_eq!(strip_separators("A_b-C d"), "AbC d");
}

#[test]
fn an_exact_name_is_found() {
    let c = circuit(&[("relayState", 1), ("instantPowerW", 2)]);
    assert_eq!(get_attribute_resilient(&c, "instantPowerW"), Some(&n(2)));
    assert_eq!(get_attribute_resilient(&c, "relayState"), Some(&n(1)));
}

#[test]
fn an_exact_name_comes_first() {
    let c = circuit(&[("instant_power_w", 1), ("instantPowerW", 2), ("INSTANTPOWERW", 3)]);
    assert_eq!(get_attribute_resilient(&c, "instantPowerW"), Some(&n(2)));
    assert_eq!(get_attribute_resilient(&c, "INSTANTPOWERW"), Some(&n(3)));
}

#[test]
fn variants_of_a_name_are_found() {
    let c = circuit(&[("id", 1), ("instantPowerW", 2)]);
    for name in ["instantpowerw", "INSTANT_POWER_W", "instant-power-w", "-instantPower_W-"] {
        assert_eq!(get_attribute_resilient(&c, name), Some(&n(2)));
    }
    assert_eq!(get_attribute_resilient(&c, "instantPower"), None);
    assert_eq!(get_attribute_resilient(&c, "instant Power W"), None);
}

#[test]
fn the_first_of_several_alike_is_found() {
    let c = circuit(&[("a_b", 1), ("aB", 2)]);
    assert_eq!(get_attribute_resilient(&c, "A-B"), Some(&n(1)));
    assert_eq!(get_attribute_resilient(&c, "ab"), Some(&n(1)));
}

#[test]
fn names_beyond_ascii_are_lowered_too() {
    let c = circuit(&[("Größe", 4)]);
    assert_eq!(get_attribute_resilient(&c, "GRÖßE"), Some(&n(4)));
    assert_eq!(get_attribute_resilient(&c, "grosse"), None);
}

#[test]
fn only_objects_have_attributes() {
    assert_eq!(get_attribute_resilient(&Json::Null, "a"), None);
    assert_eq!(get_attribute_resilient(&Json::Array(vec![circuit(&[("a", 1)])]), "a"), None);
    assert_eq!(get_attribute_resilient(&Json::String("a".to_string()), "a"), None);
}

#[test]
fn aliases_stand_for_names() {
    let fields = vec![("x".to_string(), n(1)), ("y".to_string(), n(2))];
    let aliases = vec!["p".to_string(), "q".to_string()];
    assert_eq!(find_by_alias(&fields, &aliases, "q"), Some(&n(2)));
    assert_eq!(find_by_alias(&fields, &aliases, "x"), None);
}

#[test]
fn abs_of_an_attribute_is_the_attribute_of_the_abs() {
    let mut c = Json::Object(vec![(
        "instantPowerW".to_string(),
        Json::Number(Number::Negative(-40)),
    )]);
    apply_abs(&mut c);
    assert_eq!(get_attribute_resilient(&c, "instant_power_w"), Some(&n(40)));
}
