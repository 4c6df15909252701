use settings_guessr::entropy::FP_ONE;
use settings_guessr::json::{clone_value, value_eq};
use settings_guessr::{entropy_of, entropy_of_counts, look_like_id, FieldAccumulator, JsonElem,
    JsonValue};

#[test]
fn entropy_of_trivial_strings_is_zero() {
    assert_eq!(entropy_of(""), 0);
    assert_eq!(entropy_of("x"), 0);
    assert_eq!(entropy_of("aaaa"), 0);
}

#[test]
fn entropy_of_two_symbols_is_one_bit() {
    assert_eq!(entropy_of("ab"), FP_ONE);
    assert_eq!(entropy_of("aabb"), FP_ONE);
    assert_eq!(entropy_of("abab"), FP_ONE);
}

#[test]
fn entropy_of_eight_symbols_is_three_bits() {
    assert_eq!(entropy_of("abcdefgh"), 3 * FP_ONE);
}

#[test]
fn entropy_of_counts_matches_uniform_distributions() {
    assert_eq!(entropy_of_counts(&vec![]), 0);
    assert_eq!(entropy_of_counts(&vec![7]), 0);
    assert_eq!(entropy_of_counts(&vec![1, 1, 1, 1]), 2 * FP_ONE);
    assert_eq!(entropy_of_counts(&vec![5, 5, 5, 5, 5, 5, 5, 5]), 3 * FP_ONE);
}

#[test]
fn entropy_ignores_zero_counts() {
    assert_eq!(entropy_of_counts(&vec![2, 0, 2]), entropy_of_counts(&vec![2, 2]));
}

#[test]
fn look_like_id_counts_hex_against_alphabetic() {
    assert!(look_like_id("1"));
    assert!(look_like_id("123456"));
    assert!(look_like_id("a1b2c3d4"));
    assert!(!look_like_id("x"));
    assert!(!look_like_id("abc"));
    assert!(!look_like_id("hello world"));
}

#[test]
fn value_equality_is_structural() {
    let a = JsonValue::Num("10".to_string());
    let b = JsonValue::Num("10".to_string());
    let c = JsonValue::Num("10.0".to_string());
    assert!(value_eq(&a, &b));
    assert!(!value_eq(&a, &c));
    assert!(!value_eq(&a, &JsonValue::Str("10".to_string())));
    let arr1 = JsonValue::Arr(vec![JsonElem::Str("x".to_string()), JsonElem::Null]);
    let arr2 = JsonValue::Arr(vec![JsonElem::Str("x".to_string()), JsonElem::Null]);
    let arr3 = JsonValue::Arr(vec![JsonElem::Str("y".to_string()), JsonElem::Null]);
    assert!(value_eq(&arr1, &arr2));
    assert!(!value_eq(&arr1, &arr3));
    let copy = clone_value(&arr1);
    assert!(value_eq(&arr1, &copy));
}

#[test]
fn accumulator_scores_a_numeric_field() {
    let mut acc = FieldAccumulator::new();
    acc.push("price".to_string(), JsonValue::Num("10".to_string()));
    acc.push("price".to_string(), JsonValue::Num("20".to_string()));
    acc.push("price".to_string(), JsonValue::Num("5".to_string()));
    let settings = acc.finish();
    assert_eq!(settings.filterable_attributes, vec!["price".to_string()]);
    assert_eq!(settings.sortable_attributes, vec!["price".to_string()]);
    assert!(settings.searchable_attributes.is_empty());
    assert!(settings.displayed_attributes.is_empty());
}

#[test]
fn accumulator_deduplicates_repeated_values() {
    let mut acc = FieldAccumulator::new();
    for _ in 0..3 {
        acc.push("flag".to_string(), JsonValue::Bool(true));
    }
    let settings = acc.finish();
    assert_eq!(settings.filterable_attributes, vec!["flag".to_string()]);
    assert_eq!(settings.sortable_attributes, vec!["flag".to_string()]);
}

#[test]
fn empty_accumulator_yields_empty_settings() {
    let acc = FieldAccumulator::new();
    let settings = acc.finish();
    assert!(settings.searchable_attributes.is_empty());
    assert!(settings.filterable_attributes.is_empty());
    assert!(settings.sortable_attributes.is_empty());
    assert!(settings.displayed_attributes.is_empty());
}

#[test]
fn searchable_keeps_discovery_order() {
    let mut acc = FieldAccumulator::new();
    let s1 = "A calm bright morning wind drifts over the wide green meadow and carries the \
              distant sound of church bells along";
    let s2 = "Late in the evening the old keeper walks slowly around the silent harbour and \
              watches small boats return home again";
    acc.push("zeta".to_string(), JsonValue::Str(s1.to_string()));
    acc.push("alpha".to_string(), JsonValue::Str(s2.to_string()));
    let settings = acc.finish();
    assert_eq!(
        settings.searchable_attributes,
        vec!["zeta".to_string(), "alpha".to_string()]
    );
}
