use nova_forms_demo::path::BindingPath;
use nova_forms_demo::repeat::{RepeatableSectionManager, SectionError};
use nova_forms_demo::store::{shift_path, FieldTemplate, FormStateStore, StoreError};
use nova_forms_demo::value::{ErrorKind, FieldKind, FieldValue};

fn p(text: &str) -> BindingPath {
    BindingPath::parse(text).unwrap()
}

fn children(min: usize, max: usize) -> RepeatableSectionManager {
    RepeatableSectionManager::new(
        p("children"),
        min,
        max,
        vec![FieldTemplate { path: p("name"), kind: FieldKind::NonEmptyText, required: true }],
    )
}

fn name_at(store: &FormStateStore, index: u64) -> Option<String> {
    let path = p("children").push_indexed(index).push_named("name");
    match store.get(&path) {
        Some(FieldValue::NonEmptyText(t)) => Some(t),
        _ => None,
    }
}

fn section_with(names: &[&str], min: usize, max: usize) -> (RepeatableSectionManager, FormStateStore) {
    let manager = children(min, max);
    let mut store = FormStateStore::new();
    manager.attach(&mut store).unwrap();
    for (i, name) in names.iter().enumerate() {
        assert_eq!(manager.append(&mut store), Ok(i as u64));
        store.set_raw(&p("children").push_indexed(i as u64).push_named("name"), name).unwrap();
    }
    (manager, store)
}

#[test]
fn append_adds_a_default_entry_at_the_end() {
    let (manager, mut store) = section_with(&["A", "B"], 0, 10);
    assert_eq!(manager.len(&store), Some(2));
    assert!(store.is_valid());
    assert_eq!(manager.append(&mut store), Ok(2));
    assert_eq!(manager.len(&store), Some(3));
    assert_eq!(store.error(&p("children.2.name")), Some(ErrorKind::EmptyValue));
    assert_eq!(store.raw(&p("children.2.name")), Some(String::new()));
    assert!(store.get(&p("children.2.name")).is_none());
    assert!(store.tree().resolve(&p("children.2")).is_some());
    assert_eq!(name_at(&store, 0), Some("A".to_string()));
    assert_eq!(name_at(&store, 1), Some("B".to_string()));
    assert!(!store.is_valid());
    let found = store.errors_under(&p("children"));
    assert_eq!(found.len(), 1);
    assert_eq!(found[0].path.serialize(), "children.2.name");
    assert_eq!(found[0].kind, ErrorKind::EmptyValue);
}

#[test]
fn remove_keeps_the_others_in_order_without_a_gap() {
    let (manager, mut store) = section_with(&["A", "B", "C"], 0, 10);
    assert_eq!(manager.remove(&mut store, 1), Ok(()));
    assert_eq!(manager.len(&store), Some(2));
    assert_eq!(name_at(&store, 0), Some("A".to_string()));
    assert_eq!(name_at(&store, 1), Some("C".to_string()));
    assert_eq!(name_at(&store, 2), None);
    assert!(store.tree().resolve(&p("children.2")).is_none());
    assert_eq!(store.field_count(), 2);
    assert_eq!(store.field(0).path.serialize(), "children.0.name");
    assert_eq!(store.field(1).path.serialize(), "children.1.name");
    // the fields moved with their entries
    store.set_raw(&p("children.1.name"), "D").unwrap();
    assert_eq!(name_at(&store, 1), Some("D".to_string()));
    assert_eq!(store.set_raw(&p("children.2.name"), "E"), Err(StoreError::UnknownField));
}

#[test]
fn remove_takes_held_text_and_error_along() {
    let (manager, mut store) = section_with(&["A", "B", "C"], 0, 10);
    store.set_raw(&p("children.2.name"), "").unwrap();
    assert_eq!(store.error(&p("children.2.name")), Some(ErrorKind::EmptyValue));
    assert_eq!(name_at(&store, 2), Some("C".to_string()));
    manager.remove(&mut store, 0).unwrap();
    assert_eq!(store.error(&p("children.0.name")), None);
    assert_eq!(store.error(&p("children.1.name")), Some(ErrorKind::EmptyValue));
    assert_eq!(store.raw(&p("children.1.name")), Some(String::new()));
    assert_eq!(name_at(&store, 1), Some("C".to_string()));
    // removing the entry in error makes the form valid
    manager.remove(&mut store, 1).unwrap();
    assert!(store.is_valid());
    assert_eq!(manager.len(&store), Some(1));
    assert_eq!(name_at(&store, 0), Some("B".to_string()));
}

#[test]
fn bounds_are_enforced() {
    let (manager, mut store) = section_with(&["A", "B"], 2, 3);
    assert_eq!(manager.remove(&mut store, 0), Err(SectionError::TooFewEntries));
    assert_eq!(manager.len(&store), Some(2));
    assert_eq!(manager.append(&mut store), Ok(2));
    assert_eq!(manager.append(&mut store), Err(SectionError::TooManyEntries));
    assert_eq!(manager.len(&store), Some(3));
    assert_eq!(store.field_count(), 3);
    assert_eq!(manager.remove(&mut store, 3), Err(SectionError::Store(StoreError::NoSuchEntry)));
    assert_eq!(manager.remove(&mut store, 2), Ok(()));
    assert_eq!(manager.remove(&mut store, 0), Err(SectionError::TooFewEntries));
    assert_eq!(name_at(&store, 0), Some("A".to_string()));
    assert_eq!(name_at(&store, 1), Some("B".to_string()));
}

#[test]
fn a_section_that_is_not_attached_refuses() {
    let manager = children(0, 3);
    let mut store = FormStateStore::new();
    assert_eq!(manager.len(&store), None);
    assert_eq!(manager.append(&mut store), Err(SectionError::Store(StoreError::NotASection)));
    assert_eq!(manager.remove(&mut store, 0), Err(SectionError::Store(StoreError::NotASection)));
    store.register_field(p("children"), FieldKind::Text, false).unwrap();
    assert_eq!(manager.attach(&mut store), Err(StoreError::PathBlocked));
    assert_eq!(manager.path().serialize(), "children");
}

#[test]
fn fields_outside_the_section_stay_where_they_are() {
    let (manager, mut store) = section_with(&["A", "B"], 0, 10);
    store.register_field(p("childrens"), FieldKind::Text, false).unwrap();
    store.register_field(p("email"), FieldKind::Email, true).unwrap();
    store.set_raw(&p("email"), "a@b.com").unwrap();
    manager.remove(&mut store, 0).unwrap();
    assert!(matches!(store.get(&p("email")), Some(FieldValue::Email(t)) if t == "a@b.com"));
    let paths: Vec<String> = (0..store.field_count()).map(|i| store.field(i).path.serialize()).collect();
    assert_eq!(paths, vec!["children.0.name", "childrens", "email"]);
}

#[test]
fn entries_that_are_leaves() {
    let files = RepeatableSectionManager::new(
        p("files"),
        0,
        5,
        vec![FieldTemplate { path: BindingPath::new(), kind: FieldKind::FileReference, required: true }],
    );
    let mut store = FormStateStore::new();
    files.attach(&mut store).unwrap();
    assert_eq!(files.append(&mut store), Ok(0));
    assert_eq!(store.error(&p("files.0")), Some(ErrorKind::InvalidFormat));
    let id = "file_id_550e8400-e29b-41d4-a716-446655440000";
    store.set_raw(&p("files.0"), id).unwrap();
    assert!(matches!(store.get(&p("files.0")), Some(FieldValue::FileReference(t)) if t == id));
    assert!(store.is_valid());
}

#[test]
fn an_entry_is_not_added_over_fields_that_are_there() {
    let manager = children(0, 10);
    let mut store = FormStateStore::new();
    manager.attach(&mut store).unwrap();
    // a field that was registered by hand where the first entry will be
    store.register_field(p("children.0.name"), FieldKind::NonEmptyText, true).unwrap();
    assert_eq!(manager.append(&mut store), Err(SectionError::Store(StoreError::DuplicateField)));
    assert_eq!(manager.len(&store), Some(0));
    assert_eq!(store.field_count(), 1);
    store.is_in_order();
}

#[test]
fn rules_follow_their_fields_when_an_entry_is_taken_out() {
    let (manager, mut store) = section_with(&["A", "B", "C"], 0, 10);
    store.register_field(p("name"), FieldKind::NonEmptyText, true).unwrap();
    store.set_raw(&p("name"), "C").unwrap();
    // the last child has to be called as the field outside, and the
    // second as the first
    store.register_equality(p("children.2.name"), p("name")).unwrap();
    store.register_equality(p("children.1.name"), p("children.0.name")).unwrap();
    store.register_equality(p("name"), p("children.0.name")).unwrap();
    assert_eq!(store.error(&p("children.2.name")), None);
    assert_eq!(store.error(&p("children.1.name")), Some(ErrorKind::CrossFieldMismatch));

    manager.remove(&mut store, 1).unwrap();
    // the rule with a side in the entry that was taken out is gone, the
    // other two stand where their fields stand now
    assert_eq!(store.rule_count(), 2);
    assert_eq!(store.rule(0).target.serialize(), "children.1.name");
    assert_eq!(store.rule(0).other.serialize(), "name");
    assert_eq!(store.rule(1).target.serialize(), "name");
    assert_eq!(store.rule(1).other.serialize(), "children.0.name");
    assert_eq!(store.error(&p("children.1.name")), None);
    store.set_raw(&p("children.1.name"), "D").unwrap();
    assert_eq!(store.error(&p("children.1.name")), Some(ErrorKind::CrossFieldMismatch));

    // a fresh entry comes without a rule
    manager.append(&mut store).unwrap();
    store.set_raw(&p("children.2.name"), "E").unwrap();
    assert_eq!(store.error(&p("children.2.name")), None);
    assert_eq!(store.rule_count(), 2);

    manager.remove(&mut store, 0).unwrap();
    assert_eq!(store.rule_count(), 1);
    assert_eq!(store.rule(0).target.serialize(), "children.0.name");
    assert_eq!(store.rule(0).other.serialize(), "name");
    assert_eq!(store.error(&p("children.0.name")), Some(ErrorKind::CrossFieldMismatch));
    assert_eq!(store.error(&p("name")), None);
}

#[test]
fn paths_shift_with_the_entries() {
    let section = p("children");
    let shift = |text: &str, index: u64| shift_path(&p(text), &section, index).map(|q| q.serialize());
    assert_eq!(shift("children.0.name", 1), Some("children.0.name".to_string()));
    assert_eq!(shift("children.1.name", 1), None);
    assert_eq!(shift("children.1", 1), None);
    assert_eq!(shift("children.2.name", 1), Some("children.1.name".to_string()));
    assert_eq!(shift("children.2.toys.2", 1), Some("children.1.toys.2".to_string()));
    assert_eq!(shift("children", 1), Some("children".to_string()));
    assert_eq!(shift("children.name", 1), Some("children.name".to_string()));
    assert_eq!(shift("childrens.2.name", 1), Some("childrens.2.name".to_string()));
    assert_eq!(shift("a.children.2.name", 1), Some("a.children.2.name".to_string()));
    assert_eq!(shift("", 0), Some(String::new()));
}
