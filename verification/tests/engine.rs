use settings_guessr::{guess, ArrayEntry, Document, FinalSettings, GuessError, InputValue,
    JsonValue};

fn doc(pairs: Vec<(&str, JsonValue)>) -> Document {
    pairs.into_iter().map(|(k, v)| (k.to_string(), v)).collect()
}

fn num(s: &str) -> JsonValue {
    JsonValue::Num(s.to_string())
}

fn st(s: &str) -> JsonValue {
    JsonValue::Str(s.to_string())
}

fn array_input(docs: Vec<Document>) -> Vec<InputValue> {
    vec![InputValue::Array(docs.into_iter().map(ArrayEntry::Object).collect())]
}

fn run(docs: Vec<Document>) -> FinalSettings {
    guess(array_input(docs)).expect("valid input")
}

#[test]
fn empty_stream_is_empty_input() {
    assert_eq!(guess(vec![]).unwrap_err(), GuessError::EmptyInput);
}

#[test]
fn scalar_first_value_is_invalid() {
    assert_eq!(guess(vec![InputValue::Other]).unwrap_err(), GuessError::InvalidDocument);
}

#[test]
fn array_with_non_object_element_is_invalid() {
    let vs = vec![InputValue::Array(vec![
        ArrayEntry::Object(doc(vec![("a", num("1"))])),
        ArrayEntry::Other,
    ])];
    assert_eq!(guess(vs).unwrap_err(), GuessError::InvalidDocument);
}

#[test]
fn stream_with_non_object_value_is_invalid() {
    let vs = vec![
        InputValue::Object(doc(vec![("a", num("1"))])),
        InputValue::Other,
    ];
    assert_eq!(guess(vs).unwrap_err(), GuessError::InvalidDocument);
}

#[test]
fn id_strings_are_filterable_not_searchable() {
    let settings = run(vec![
        doc(vec![("id", st("1"))]),
        doc(vec![("id", st("2"))]),
        doc(vec![("id", st("3"))]),
    ]);
    assert!(settings.filterable_attributes.contains(&"id".to_string()));
    assert!(!settings.searchable_attributes.contains(&"id".to_string()));
}

#[test]
fn numeric_tokens_make_a_field_sortable() {
    let settings = run(vec![
        doc(vec![("id", st("1"))]),
        doc(vec![("id", st("2"))]),
        doc(vec![("id", st("3"))]),
    ]);
    assert!(settings.sortable_attributes.contains(&"id".to_string()));
}

#[test]
fn numbers_are_filterable_and_sortable() {
    let settings = run(vec![
        doc(vec![("price", num("10"))]),
        doc(vec![("price", num("20"))]),
        doc(vec![("price", num("5"))]),
    ]);
    assert!(settings.filterable_attributes.contains(&"price".to_string()));
    assert!(settings.sortable_attributes.contains(&"price".to_string()));
    assert!(!settings.searchable_attributes.contains(&"price".to_string()));
}

#[test]
fn uuids_are_filterable_not_searchable() {
    let settings = run(vec![
        doc(vec![("u", st("a1b2c3d4-e5f6-47a8-b9c0-d1e2f3a4b5c6"))]),
        doc(vec![("u", st("0f8fad5b-d9cb-469f-a165-70867728950e"))]),
        doc(vec![("u", st("7c9e6679-7425-40de-944b-e07fc1f90ae7"))]),
    ]);
    assert!(settings.filterable_attributes.contains(&"u".to_string()));
    assert!(!settings.searchable_attributes.contains(&"u".to_string()));
}

#[test]
fn letter_only_uuid_is_still_not_searchable() {
    let settings = run(vec![doc(vec![("w", st("aabbccdd-eeff-aabb-ccdd-eeffaabbccdd"))])]);
    assert!(!settings.searchable_attributes.contains(&"w".to_string()));
}

#[test]
fn long_prose_is_searchable_not_sortable() {
    let sentence = "The quick brown fox jumps over the lazy dog while the calm river flows \
                    gently through the quiet ancient valley tonight";
    assert!(sentence.chars().count() > 100);
    let alpha = sentence.chars().filter(|c| c.is_alphabetic()).count();
    assert!(5 * alpha > 4 * sentence.chars().count());
    let settings = run(vec![doc(vec![("story", st(sentence))])]);
    assert!(settings.searchable_attributes.contains(&"story".to_string()));
    assert!(!settings.sortable_attributes.contains(&"story".to_string()));
}

#[test]
fn paths_are_not_searchable() {
    let settings = run(vec![doc(vec![("p", st("/usr/bin"))])]);
    assert!(!settings.searchable_attributes.contains(&"p".to_string()));
}

#[test]
fn a_url_costs_the_filterable_margin() {
    let mut docs = Vec::new();
    for i in 0..9 {
        docs.push(doc(vec![("u", num(&i.to_string()))]));
    }
    docs.push(doc(vec![("u", st("http://ab.cd"))]));
    let settings = run(docs);
    assert!(!settings.filterable_attributes.contains(&"u".to_string()));
}

#[test]
fn output_sets_are_sorted_without_duplicates() {
    let settings = run(vec![
        doc(vec![("zeta", num("1")), ("alpha", num("2")), ("mid", num("3"))]),
        doc(vec![("zeta", num("4")), ("alpha", num("5"))]),
    ]);
    let f = &settings.filterable_attributes;
    assert_eq!(f, &vec!["alpha".to_string(), "mid".to_string(), "zeta".to_string()]);
    for w in f.windows(2) {
        assert!(w[0] < w[1]);
    }
    let s = &settings.sortable_attributes;
    assert_eq!(s, &vec!["alpha".to_string(), "mid".to_string(), "zeta".to_string()]);
    assert!(settings.displayed_attributes.is_empty());
}

#[test]
fn same_documents_give_identical_settings() {
    let docs = || {
        vec![
            doc(vec![("price", num("10")), ("name", st("a"))]),
            doc(vec![("price", num("20"))]),
        ]
    };
    let a = run(docs());
    let b = run(docs());
    assert_eq!(a.searchable_attributes, b.searchable_attributes);
    assert_eq!(a.filterable_attributes, b.filterable_attributes);
    assert_eq!(a.sortable_attributes, b.sortable_attributes);
    assert_eq!(a.displayed_attributes, b.displayed_attributes);
}

#[test]
fn document_order_does_not_change_the_sets() {
    let d1 = || doc(vec![("a", num("1")), ("b", st("x"))]);
    let d2 = || doc(vec![("a", num("2"))]);
    let fwd = run(vec![d1(), d2()]);
    let rev = run(vec![d2(), d1()]);
    assert_eq!(fwd.filterable_attributes, rev.filterable_attributes);
    assert_eq!(fwd.sortable_attributes, rev.sortable_attributes);
    let mut sf: Vec<String> = fwd.searchable_attributes.clone();
    let mut sr: Vec<String> = rev.searchable_attributes.clone();
    sf.sort();
    sr.sort();
    assert_eq!(sf, sr);
}

#[test]
fn stream_of_objects_accumulates_like_an_array() {
    let a = guess(vec![
        InputValue::Object(doc(vec![("price", num("10"))])),
        InputValue::Object(doc(vec![("price", num("20"))])),
        InputValue::Object(doc(vec![("price", num("5"))])),
    ])
    .unwrap();
    let b = run(vec![
        doc(vec![("price", num("10"))]),
        doc(vec![("price", num("20"))]),
        doc(vec![("price", num("5"))]),
    ]);
    assert_eq!(a.filterable_attributes, b.filterable_attributes);
    assert_eq!(a.sortable_attributes, b.sortable_attributes);
    assert_eq!(a.searchable_attributes, b.searchable_attributes);
}

#[test]
fn a_string_array_element_earns_the_flat_filterable_point() {
    let settings = run(vec![doc(vec![("t", JsonValue::Arr(vec![
        settings_guessr::JsonElem::Str("x".to_string()),
    ]))])]);
    assert!(settings.filterable_attributes.contains(&"t".to_string()));
}

#[test]
fn arrays_are_never_sortable() {
    let settings = run(vec![
        doc(vec![("tags", JsonValue::Arr(vec![
            settings_guessr::JsonElem::Num("1".to_string()),
            settings_guessr::JsonElem::Num("2".to_string()),
        ]))]),
    ]);
    assert!(!settings.sortable_attributes.contains(&"tags".to_string()));
}
