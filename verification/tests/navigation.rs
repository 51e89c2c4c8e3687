use nova_forms_demo::pages::{AdvancePolicy, NavigationError, PageDescriptor, PageNavigator};
use nova_forms_demo::path::BindingPath;
use nova_forms_demo::store::FormStateStore;
use nova_forms_demo::value::{ErrorKind, FieldKind};

fn p(text: &str) -> BindingPath {
    BindingPath::parse(text).unwrap()
}

fn page(id: &str, paths: &[&str]) -> PageDescriptor {
    PageDescriptor {
        id: id.to_string(),
        label: id.to_string(),
        paths: paths.iter().map(|t| p(t)).collect(),
    }
}

fn form() -> (PageNavigator, FormStateStore) {
    let navigator = PageNavigator::new(vec![
        page("welcome", &[]),
        page("me", &["me"]),
        page("you", &["you"]),
        page("end", &[]),
    ]);
    let mut store = FormStateStore::new();
    store.register_field(p("me.first_name"), FieldKind::NonEmptyText, true).unwrap();
    store.register_field(p("me.email"), FieldKind::Email, true).unwrap();
    store.register_field(p("you.first_name"), FieldKind::NonEmptyText, true).unwrap();
    (navigator, store)
}

#[test]
fn starts_on_the_first_page() {
    let (navigator, _) = form();
    assert_eq!(navigator.current_index(), 0);
    assert_eq!(navigator.len(), 4);
    assert_eq!(navigator.page(1).id, "me");
}

#[test]
fn forward_is_refused_on_an_invalid_page_and_allowed_once_it_is_valid() {
    let (mut navigator, mut store) = form();
    assert!(navigator.goto(1, &store).is_ok());
    assert_eq!(navigator.current_index(), 1);
    assert!(!navigator.is_page_valid(1, &store));

    match navigator.goto(2, &store) {
        Err(NavigationError::ValidationRequiredBeforeAdvance(errors)) => {
            let found: Vec<(String, ErrorKind)> =
                errors.iter().map(|e| (e.path.serialize(), e.kind)).collect();
            assert_eq!(
                found,
                vec![
                    ("me.first_name".to_string(), ErrorKind::EmptyValue),
                    ("me.email".to_string(), ErrorKind::InvalidFormat),
                ]
            );
        }
        other => panic!("{other:?}"),
    }
    assert_eq!(navigator.current_index(), 1);

    store.set_raw(&p("me.first_name"), "Ada").unwrap();
    assert!(navigator.goto(2, &store).is_err());
    assert_eq!(navigator.current_index(), 1);

    store.set_raw(&p("me.email"), "ada@example.com").unwrap();
    assert!(navigator.is_page_valid(1, &store));
    assert!(navigator.goto(2, &store).is_ok());
    assert_eq!(navigator.current_index(), 2);
}

#[test]
fn jumping_ahead_needs_only_the_current_page() {
    let (mut navigator, store) = form();
    // the first page gates nothing
    assert!(navigator.goto(3, &store).is_ok());
    assert_eq!(navigator.current_index(), 3);
}

#[test]
fn backward_is_always_allowed() {
    let (mut navigator, store) = form();
    navigator.goto(1, &store).unwrap();
    assert!(!navigator.is_page_valid(1, &store));
    assert!(navigator.goto(1, &store).is_ok());
    assert!(navigator.goto(0, &store).is_ok());
    assert_eq!(navigator.current_index(), 0);
    navigator.prev();
    assert_eq!(navigator.current_index(), 0);
    navigator.goto(1, &store).unwrap();
    navigator.prev();
    assert_eq!(navigator.current_index(), 0);
}

#[test]
fn unknown_pages_are_refused() {
    let (mut navigator, store) = form();
    assert!(matches!(navigator.goto(4, &store), Err(NavigationError::UnknownPage)));
    assert!(matches!(navigator.goto(usize::MAX, &store), Err(NavigationError::UnknownPage)));
    assert_eq!(navigator.current_index(), 0);
    let mut empty = PageNavigator::new(vec![]);
    assert!(matches!(empty.goto(0, &store), Err(NavigationError::UnknownPage)));
    assert!(matches!(empty.next(&store), Err(NavigationError::UnknownPage)));
    assert_eq!(empty.current_index(), 0);
}

#[test]
fn next_steps_one_page() {
    let (mut navigator, mut store) = form();
    assert!(navigator.next(&store).is_ok());
    assert_eq!(navigator.current_index(), 1);
    assert!(matches!(
        navigator.next(&store),
        Err(NavigationError::ValidationRequiredBeforeAdvance(_))
    ));
    store.set_raw(&p("me.first_name"), "Ada").unwrap();
    store.set_raw(&p("me.email"), "ada@example.com").unwrap();
    assert!(navigator.next(&store).is_ok());
    store.set_raw(&p("you.first_name"), "Bob").unwrap();
    assert!(navigator.next(&store).is_ok());
    assert_eq!(navigator.current_index(), 3);
    assert!(matches!(navigator.next(&store), Err(NavigationError::UnknownPage)));
    assert_eq!(navigator.current_index(), 3);
}

#[test]
fn a_free_navigator_shows_any_page() {
    use_free_policy();
}

fn use_free_policy() {
    let (_, store) = form();
    let mut navigator = PageNavigator::with_policy(
        vec![page("welcome", &[]), page("me", &["me"]), page("you", &["you"])],
        AdvancePolicy::Free,
    );
    assert_eq!(navigator.policy(), AdvancePolicy::Free);
    navigator.goto(1, &store).unwrap();
    assert!(!navigator.is_page_valid(1, &store));
    assert!(navigator.goto(2, &store).is_ok());
    assert_eq!(navigator.current_index(), 2);
    assert!(matches!(navigator.goto(3, &store), Err(NavigationError::UnknownPage)));
    let gated = PageNavigator::new(vec![]);
    assert_eq!(gated.policy(), AdvancePolicy::Gated);
}
