use nova_forms_demo::path::BindingPath;
use nova_forms_demo::store::{FieldTemplate, FormStateStore, StoreError};
use nova_forms_demo::value::{ErrorKind, FieldKind, FieldValue};

fn p(text: &str) -> BindingPath {
    BindingPath::parse(text).unwrap()
}

fn errors(store: &FormStateStore, prefix: &str) -> Vec<(String, ErrorKind)> {
    store.errors_under(&p(prefix)).iter().map(|e| (e.path.serialize(), e.kind)).collect()
}

#[test]
fn a_fresh_field_holds_the_starting_text_of_its_kind() {
    let mut store = FormStateStore::new();
    store.register_field(p("me.first_name"), FieldKind::NonEmptyText, true).unwrap();
    store.register_field(p("me.note"), FieldKind::Text, false).unwrap();
    store.register_field(p("me.newsletter"), FieldKind::Boolean, false).unwrap();
    store.register_field(p("me.terms"), FieldKind::Accepted, true).unwrap();
    assert_eq!(store.field_count(), 4);

    assert_eq!(store.error(&p("me.first_name")), Some(ErrorKind::EmptyValue));
    assert_eq!(store.raw(&p("me.first_name")), Some(String::new()));
    assert!(store.get(&p("me.first_name")).is_none());

    assert_eq!(store.error(&p("me.note")), None);
    assert_eq!(store.raw(&p("me.note")), None);
    assert!(matches!(store.get(&p("me.note")), Some(FieldValue::Text(t)) if t.is_empty()));

    assert!(matches!(store.get(&p("me.newsletter")), Some(FieldValue::Boolean(false))));
    assert_eq!(store.error(&p("me.terms")), Some(ErrorKind::NotAccepted));
    assert_eq!(store.raw(&p("me.terms")), Some("false".to_string()));
    assert!(!store.is_valid());
}

#[test]
fn a_good_input_is_committed_and_clears_the_error() {
    let mut store = FormStateStore::new();
    store.register_field(p("me.first_name"), FieldKind::NonEmptyText, true).unwrap();
    assert_eq!(store.set_raw(&p("me.first_name"), "Ada"), Ok(()));
    assert!(matches!(store.get(&p("me.first_name")), Some(FieldValue::NonEmptyText(t)) if t == "Ada"));
    assert_eq!(store.error(&p("me.first_name")), None);
    assert_eq!(store.raw(&p("me.first_name")), None);
    assert!(store.is_valid());
}

#[test]
fn a_bad_input_is_held_and_the_last_value_stays() {
    let mut store = FormStateStore::new();
    store.register_field(p("age"), FieldKind::IntegerU32, true).unwrap();
    store.set_raw(&p("age"), "41").unwrap();
    assert_eq!(store.set_raw(&p("age"), "forty-two"), Ok(()));
    assert!(matches!(store.get(&p("age")), Some(FieldValue::IntegerU32(41))));
    assert_eq!(store.error(&p("age")), Some(ErrorKind::ParseFailure));
    assert_eq!(store.raw(&p("age")), Some("forty-two".to_string()));
    assert!(!store.is_valid());
    store.set_raw(&p("age"), "42").unwrap();
    assert!(matches!(store.get(&p("age")), Some(FieldValue::IntegerU32(42))));
    assert_eq!(store.error(&p("age")), None);
    assert_eq!(store.raw(&p("age")), None);
}

#[test]
fn refusals_change_nothing() {
    let mut store = FormStateStore::new();
    store.register_field(p("a"), FieldKind::Text, false).unwrap();
    assert_eq!(store.set_raw(&p("b"), "x"), Err(StoreError::UnknownField));
    assert_eq!(
        store.register_field(p("a"), FieldKind::Email, true),
        Err(StoreError::DuplicateField)
    );
    // `a` holds a leaf, so nothing can be committed below it
    assert_eq!(
        store.register_field(p("a.b"), FieldKind::Text, false),
        Err(StoreError::PathBlocked)
    );
    // a field that starts in error can be registered there, but never committed
    store.register_field(p("a.c"), FieldKind::NonEmptyText, true).unwrap();
    assert_eq!(store.set_raw(&p("a.c"), "x"), Err(StoreError::PathBlocked));
    assert_eq!(store.error(&p("a.c")), Some(ErrorKind::EmptyValue));
    assert_eq!(store.raw(&p("a.c")), Some(String::new()));
    assert_eq!(store.field_count(), 2);
    assert!(matches!(store.get(&p("a")), Some(FieldValue::Text(t)) if t.is_empty()));
}

#[test]
fn errors_under_a_prefix_in_registration_order() {
    let mut store = FormStateStore::new();
    store.register_field(p("me.first_name"), FieldKind::NonEmptyText, true).unwrap();
    store.register_field(p("me.email"), FieldKind::Email, true).unwrap();
    store.register_field(p("you.email"), FieldKind::Email, true).unwrap();
    store.register_field(p("me.note"), FieldKind::Text, false).unwrap();
    assert_eq!(
        errors(&store, "me"),
        vec![
            ("me.first_name".to_string(), ErrorKind::EmptyValue),
            ("me.email".to_string(), ErrorKind::InvalidFormat),
        ]
    );
    assert_eq!(errors(&store, "you"), vec![("you.email".to_string(), ErrorKind::InvalidFormat)]);
    assert_eq!(errors(&store, "").len(), 3);
    assert_eq!(errors(&store, "me.email"), vec![("me.email".to_string(), ErrorKind::InvalidFormat)]);
    assert!(errors(&store, "nobody").is_empty());
    store.set_raw(&p("me.email"), "a@b.com").unwrap();
    assert_eq!(errors(&store, "me"), vec![("me.first_name".to_string(), ErrorKind::EmptyValue)]);
    let both = store.errors_under_any(&vec![p("you"), p("me"), p("me.first_name")]);
    let both: Vec<String> = both.iter().map(|e| e.path.serialize()).collect();
    assert_eq!(both, vec!["me.first_name".to_string(), "you.email".to_string()]);
}

#[test]
fn validity_under_prefixes() {
    let mut store = FormStateStore::new();
    store.register_field(p("me.first_name"), FieldKind::NonEmptyText, true).unwrap();
    store.register_field(p("you.note"), FieldKind::Text, false).unwrap();
    assert!(!store.is_valid_under(&vec![p("me")]));
    assert!(store.is_valid_under(&vec![p("you")]));
    assert!(store.is_valid_under(&vec![]));
    assert!(!store.is_valid_under(&vec![p("you"), p("me")]));
    assert!(!store.is_valid_under(&vec![BindingPath::new()]));
    store.set_raw(&p("me.first_name"), "Ada").unwrap();
    assert!(store.is_valid_under(&vec![p("me")]));
    assert!(store.is_valid());
}

#[test]
fn repeated_email_must_match() {
    let mut store = FormStateStore::new();
    store.register_field(p("email"), FieldKind::Email, true).unwrap();
    store.register_field(p("repeat_email"), FieldKind::Email, true).unwrap();
    store.register_equality(p("repeat_email"), p("email")).unwrap();
    assert_eq!(store.rule_count(), 1);

    store.set_raw(&p("email"), "a@b.com").unwrap();
    store.set_raw(&p("repeat_email"), "a@c.com").unwrap();
    assert_eq!(store.error(&p("repeat_email")), Some(ErrorKind::CrossFieldMismatch));
    assert_eq!(store.error(&p("email")), None);
    assert_eq!(
        errors(&store, ""),
        vec![("repeat_email".to_string(), ErrorKind::CrossFieldMismatch)]
    );
    assert!(!store.is_valid());
    // the value itself is committed: it is a good e-mail address
    assert!(matches!(store.get(&p("repeat_email")), Some(FieldValue::Email(t)) if t == "a@c.com"));

    store.set_raw(&p("repeat_email"), "a@b.com").unwrap();
    assert_eq!(store.error(&p("repeat_email")), None);
    assert!(store.is_valid());

    // a change of the other field is seen at once
    store.set_raw(&p("email"), "x@y.org").unwrap();
    assert_eq!(store.error(&p("repeat_email")), Some(ErrorKind::CrossFieldMismatch));
    // the error of the field's own input goes first
    store.set_raw(&p("repeat_email"), "nonsense").unwrap();
    assert_eq!(store.error(&p("repeat_email")), Some(ErrorKind::InvalidFormat));
}

#[test]
fn both_sides_absent_is_no_mismatch() {
    let mut store = FormStateStore::new();
    store.register_field(p("email"), FieldKind::Email, true).unwrap();
    store.register_field(p("repeat_email"), FieldKind::Email, true).unwrap();
    store.register_equality(p("repeat_email"), p("email")).unwrap();
    assert_eq!(store.error(&p("repeat_email")), Some(ErrorKind::InvalidFormat));
    store.set_raw(&p("repeat_email"), "a@b.com").unwrap();
    // one side absent, the other there
    assert_eq!(store.error(&p("repeat_email")), Some(ErrorKind::CrossFieldMismatch));
}

#[test]
fn rules_must_not_run_in_a_circle() {
    let mut store = FormStateStore::new();
    for key in ["a", "b", "c", "d"] {
        store.register_field(p(key), FieldKind::Text, false).unwrap();
    }
    assert_eq!(store.register_equality(p("a"), p("a")), Err(StoreError::CyclicRule));
    assert_eq!(store.register_equality(p("a"), p("zzz")), Err(StoreError::UnknownField));
    assert_eq!(store.register_equality(p("zzz"), p("a")), Err(StoreError::UnknownField));
    store.register_equality(p("b"), p("a")).unwrap();
    store.register_equality(p("c"), p("b")).unwrap();
    // a <- b <- c: making a depend on c closes the circle
    assert_eq!(store.register_equality(p("a"), p("c")), Err(StoreError::CyclicRule));
    assert_eq!(store.register_equality(p("a"), p("b")), Err(StoreError::CyclicRule));
    assert_eq!(store.register_equality(p("b"), p("c")), Err(StoreError::CyclicRule));
    // a second dependency in the same direction is no circle
    store.register_equality(p("c"), p("a")).unwrap();
    store.register_equality(p("d"), p("c")).unwrap();
    assert_eq!(store.register_equality(p("a"), p("d")), Err(StoreError::CyclicRule));
    store.register_equality(p("d"), p("a")).unwrap();
    assert_eq!(store.rule_count(), 5);
    assert!(store.rule(0).target.same(&p("b")));
    assert!(store.rule(0).other.same(&p("a")));
}

#[test]
fn sections_in_the_store() {
    let mut store = FormStateStore::new();
    assert_eq!(store.section_len(&p("children")), None);
    store.create_section(&p("children")).unwrap();
    assert_eq!(store.create_section(&p("children")), Err(StoreError::PathBlocked));
    assert_eq!(store.section_len(&p("children")), Some(0));
    let template = vec![
        FieldTemplate { path: p("name"), kind: FieldKind::NonEmptyText, required: true },
        FieldTemplate { path: p("pet.name"), kind: FieldKind::Text, required: false },
    ];
    assert_eq!(store.append_entry(&p("children"), &template), Ok(0));
    assert_eq!(store.append_entry(&p("children"), &template), Ok(1));
    assert_eq!(store.append_entry(&p("nowhere"), &template), Err(StoreError::NotASection));
    store.set_raw(&p("children.1.name"), "B").unwrap();
    store.set_raw(&p("children.1.pet.name"), "Rex").unwrap();
    assert_eq!(store.field_count(), 4);
    assert_eq!(store.field(0).path.serialize(), "children.0.name");
    assert_eq!(store.field(3).path.serialize(), "children.1.pet.name");

    assert_eq!(store.remove_entry(&p("children"), 2), Err(StoreError::NoSuchEntry));
    assert_eq!(store.remove_entry(&p("nowhere"), 0), Err(StoreError::NotASection));
    assert_eq!(store.remove_entry(&p("children"), 0), Ok(()));
    assert_eq!(store.section_len(&p("children")), Some(1));
    assert_eq!(store.field_count(), 2);
    assert_eq!(store.field(0).path.serialize(), "children.0.name");
    assert_eq!(store.field(1).path.serialize(), "children.0.pet.name");
    assert!(matches!(store.get(&p("children.0.name")), Some(FieldValue::NonEmptyText(t)) if t == "B"));
    assert!(matches!(store.get(&p("children.0.pet.name")), Some(FieldValue::Text(t)) if t == "Rex"));
    assert_eq!(store.error(&p("children.0.name")), None);
    assert!(store.is_valid());

    let clash = vec![
        FieldTemplate { path: p("name"), kind: FieldKind::Text, required: false },
        FieldTemplate { path: p("name"), kind: FieldKind::Text, required: false },
    ];
    assert_eq!(store.append_entry(&p("children"), &clash), Err(StoreError::DuplicateField));
    let blocked = vec![
        FieldTemplate { path: p("name"), kind: FieldKind::Text, required: false },
        FieldTemplate { path: p("name.first"), kind: FieldKind::Text, required: false },
    ];
    assert_eq!(store.append_entry(&p("children"), &blocked), Err(StoreError::PathBlocked));
    assert_eq!(store.section_len(&p("children")), Some(1));
    assert_eq!(store.field_count(), 2);
}

#[test]
fn a_proposal_is_taken_only_if_the_kind_accepts_it() {
    let mut store = FormStateStore::new();
    store.register_field(p("address.zip"), FieldKind::Text, false).unwrap();
    store.register_field(p("address.city"), FieldKind::NonEmptyText, true).unwrap();
    assert_eq!(store.error(&p("address.city")), Some(ErrorKind::EmptyValue));

    // no proposal: nothing happens
    assert_eq!(store.suggest(&p("address.city"), None), Ok(()));
    assert_eq!(store.error(&p("address.city")), Some(ErrorKind::EmptyValue));
    // a proposal of another variant, or one that breaks the promise of its variant
    assert_eq!(store.suggest(&p("address.city"), Some(FieldValue::Text("Sursee".to_string()))), Ok(()));
    assert_eq!(store.suggest(&p("address.city"), Some(FieldValue::NonEmptyText(String::new()))), Ok(()));
    assert!(store.get(&p("address.city")).is_none());
    assert_eq!(store.raw(&p("address.city")), Some(String::new()));
    // a good proposal is committed and clears the error
    assert_eq!(
        store.suggest(&p("address.city"), Some(FieldValue::NonEmptyText("Sursee".to_string()))),
        Ok(())
    );
    assert!(matches!(store.get(&p("address.city")), Some(FieldValue::NonEmptyText(t)) if t == "Sursee"));
    assert_eq!(store.error(&p("address.city")), None);
    assert_eq!(store.raw(&p("address.city")), None);
    // refusals
    assert_eq!(store.suggest(&p("address.country"), None), Err(StoreError::UnknownField));
    assert_eq!(
        store.suggest(&p("address.country"), Some(FieldValue::Text("CH".to_string()))),
        Err(StoreError::UnknownField)
    );
}

#[test]
fn committed_values_keep_the_promise_of_their_variant() {
    let mut store = FormStateStore::new();
    store.register_field(p("email"), FieldKind::Email, true).unwrap();
    store.suggest(&p("email"), Some(FieldValue::Email("not an address".to_string()))).unwrap();
    assert!(store.get(&p("email")).is_none());
    store.suggest(&p("email"), Some(FieldValue::Email("a@b.com".to_string()))).unwrap();
    assert!(matches!(store.get(&p("email")), Some(FieldValue::Email(t)) if t == "a@b.com"));
    store.set_raw(&p("email"), "broken").unwrap();
    assert!(matches!(store.get(&p("email")), Some(FieldValue::Email(t)) if t == "a@b.com"));
}

#[test]
fn positions_of_the_fields_under_prefixes() {
    let mut store = FormStateStore::new();
    for path in ["me.first_name", "you.email", "me.email", "note", "me.address.city"] {
        store.register_field(p(path), FieldKind::Text, false).unwrap();
    }
    assert_eq!(store.fields_under_any(&vec![p("me")]), vec![0, 2, 4]);
    assert_eq!(store.fields_under_any(&vec![p("you"), p("me.address"), p("you.email")]), vec![1, 4]);
    assert_eq!(store.fields_under_any(&vec![p("note"), p("me")]), vec![0, 2, 3, 4]);
    assert_eq!(store.fields_under_any(&vec![]), Vec::<usize>::new());
    assert_eq!(store.fields_under_any(&vec![p("m")]), Vec::<usize>::new());
    assert_eq!(store.fields_under_any(&vec![BindingPath::new()]), vec![0, 1, 2, 3, 4]);
}
