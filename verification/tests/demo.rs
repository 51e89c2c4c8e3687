use nova_forms_demo::demo_form::{
    Address, ChildData, Datatypes, Date, DateTime, DemoForm, RadioValue, Time, MAX_ENTRIES,
};
use nova_forms_demo::path::BindingPath;
use nova_forms_demo::session::{FormSession, SessionError};
use nova_forms_demo::store::StoreError;
use nova_forms_demo::submit::{MetaData, SubmissionState, SubmitError};
use nova_forms_demo::translations::provide_translations;
use nova_forms_demo::value::ErrorKind;

fn p(text: &str) -> BindingPath {
    BindingPath::parse(text).unwrap()
}

fn meta() -> MetaData {
    MetaData { locale: "de".to_string(), local_utc_offset: 7200 }
}

fn fill(session: &mut FormSession) {
    for (path, raw) in [
        ("datatypes.string", "some text"),
        ("datatypes.non_empty_string", "more text"),
        ("datatypes.email", "test@example.com"),
        ("datatypes.phone", "+41791234567"),
        ("datatypes.number", "42"),
        ("datatypes.time", "12:30"),
        ("datatypes.date", "2024-02-29"),
        ("datatypes.date_time", "2024-02-29T12:30"),
        ("datatypes.bool", "true"),
        ("datatypes.accept", "true"),
        ("datatypes.radio", "B"),
        ("datatypes.select", "C"),
        ("show_dialog", "false"),
        ("email", "a@b.com"),
        ("repeat_email", "a@b.com"),
        ("address.street", "Main Street 1"),
        ("address.zip", "6210"),
        ("address.city", "Sursee"),
    ] {
        assert_eq!(session.set_raw(&p(path), raw), Ok(()), "{path}");
    }
}

#[test]
fn the_definition_lists_fields_sections_rules_and_pages() {
    let definition = DemoForm();
    assert_eq!(definition.fields.len(), 18);
    assert_eq!(definition.fields[0].path.serialize(), "datatypes.string");
    assert_eq!(definition.fields[14].path.serialize(), "repeat_email");
    assert_eq!(definition.sections.len(), 2);
    assert_eq!(definition.sections[0].path().serialize(), "children");
    assert_eq!(definition.sections[1].path().serialize(), "files");
    assert_eq!(definition.rules.len(), 1);
    assert_eq!(definition.rules[0].target.serialize(), "repeat_email");
    assert_eq!(definition.rules[0].other.serialize(), "email");
    let ids: Vec<&str> = definition.pages.iter().map(|p| p.id.as_str()).collect();
    assert_eq!(
        ids,
        vec![
            "page-welcome",
            "page-datatypes",
            "page-dynamic-dialog",
            "page-server-fn",
            "page-repeatable",
            "page-file-upload",
            "page-finale",
        ]
    );
    let labels: Vec<&str> = definition.pages.iter().map(|p| p.label.as_str()).collect();
    assert_eq!(
        labels,
        vec![
            "welcome",
            "datatypes",
            "dynamic_dialog",
            "server_fn",
            "repeatables",
            "file_upload",
            "the_grand_finale",
        ]
    );
    assert_eq!(definition.pages[2].paths.len(), 3);
    assert_eq!(MAX_ENTRIES, 4294967295);
}

#[test]
fn the_demo_form_builds_and_its_registry_covers_it() {
    let session = FormSession::build(DemoForm()).unwrap();
    assert_eq!(session.store().field_count(), 18);
    assert_eq!(session.store().rule_count(), 1);
    assert_eq!(session.section_count(), 2);
    assert_eq!(session.section(0).len(session.store()), Some(0));
    assert_eq!(session.section(1).len(session.store()), Some(0));
    assert_eq!(session.navigator().len(), 7);
    assert_eq!(session.navigator().current_index(), 0);
    assert!(matches!(session.pipeline().state(), SubmissionState::Initial));
    assert!(provide_translations().covers_store(session.store()));
    assert!(!session.store().is_valid());
}

#[test]
fn a_definition_that_clashes_does_not_build() {
    let mut definition = DemoForm();
    let again = DemoForm().fields.remove(3);
    definition.fields.push(again);
    assert_eq!(FormSession::build(definition).err(), Some(StoreError::DuplicateField));

    let mut definition = DemoForm();
    let rule = DemoForm().rules.remove(0);
    definition.rules.push(nova_forms_demo::rules::EqualityRule {
        target: rule.other,
        other: rule.target,
    });
    assert_eq!(FormSession::build(definition).err(), Some(StoreError::CyclicRule));

    let mut definition = DemoForm();
    let section = DemoForm().sections.remove(0);
    definition.sections.push(section);
    assert_eq!(FormSession::build(definition).err(), Some(StoreError::PathBlocked));
}

#[test]
fn walking_through_the_demo_form() {
    let mut session = FormSession::build(DemoForm()).unwrap();
    assert!(session.goto(1).is_ok());
    assert!(session.goto(2).is_err());
    assert_eq!(session.navigator().current_index(), 1);
    fill(&mut session);
    assert!(session.goto(2).is_ok());
    assert!(session.goto(6).is_ok());
    assert_eq!(session.navigator().current_index(), 6);
    assert!(session.goto(0).is_ok());
    assert!(session.store().is_valid());
}

#[test]
fn a_filled_in_form_stands_for_typed_data() {
    let mut session = FormSession::build(DemoForm()).unwrap();
    assert!(DemoForm::from_tree(session.store().tree()).is_none());
    fill(&mut session);
    assert_eq!(session.append_entry(0), Ok(0));
    assert_eq!(session.append_entry(0), Ok(1));
    assert!(DemoForm::from_tree(session.store().tree()).is_none());
    session.set_raw(&p("children.0.name"), "Ada").unwrap();
    session.set_raw(&p("children.1.name"), "Bob").unwrap();
    assert_eq!(session.append_entry(1), Ok(0));
    let id = "file_id_550e8400-e29b-41d4-a716-446655440000";
    session.set_raw(&p("files.0"), id).unwrap();

    let data = DemoForm::from_tree(session.store().tree()).unwrap();
    assert_eq!(data.datatypes.string, "some text");
    assert_eq!(data.datatypes.non_empty_string, "more text");
    assert_eq!(data.datatypes.email, "test@example.com");
    assert_eq!(data.datatypes.phone, "+41791234567");
    assert_eq!(data.datatypes.number, 42);
    assert_eq!(data.datatypes.date, Date { year: 2024, month: 2, day: 29 });
    assert_eq!(data.datatypes.time, Time { hour: 12, minute: 30 });
    assert_eq!(
        data.datatypes.date_time,
        DateTime { date: Date { year: 2024, month: 2, day: 29 }, time: Time { hour: 12, minute: 30 } }
    );
    assert!(data.datatypes.bool);
    assert!(data.datatypes.accept);
    assert_eq!(data.datatypes.radio, RadioValue::B);
    assert_eq!(data.datatypes.select, RadioValue::C);
    assert_eq!(data.address.street, "Main Street 1");
    assert_eq!(data.address.zip, "6210");
    assert_eq!(data.address.city, "Sursee");
    let names: Vec<&str> = data.children.iter().map(|c| c.name.as_str()).collect();
    assert_eq!(names, vec!["Ada", "Bob"]);
    assert_eq!(data.files, vec![id.to_string()]);

    let datatypes = Datatypes::from_tree(session.store().tree()).unwrap();
    assert_eq!(datatypes.number, 42);
    let address = Address::from_tree(session.store().tree()).unwrap();
    assert_eq!(address.city, "Sursee");
    let child = ChildData::from_entry(session.store().tree().resolve(&p("children.1")).unwrap());
    assert_eq!(child.unwrap().name, "Bob");
}

#[test]
fn radio_values_by_name() {
    assert_eq!(RadioValue::default(), RadioValue::A);
    for value in [RadioValue::A, RadioValue::B, RadioValue::C] {
        assert_eq!(RadioValue::from_name(value.name()), Some(value));
    }
    assert_eq!(RadioValue::from_name("a"), None);
    assert_eq!(RadioValue::from_name(""), None);
    assert_eq!(RadioValue::names(), vec!["A", "B", "C"]);
}

#[test]
fn a_pending_submission_freezes_the_session() {
    let mut session = FormSession::build(DemoForm()).unwrap();
    fill(&mut session);
    session.append_entry(0).unwrap();
    session.set_raw(&p("children.0.name"), "Ada").unwrap();
    let request = session.submit(meta()).unwrap();
    assert!(DemoForm::from_tree(&request.form_data).is_some());
    assert!(session.pipeline().is_pending());

    assert_eq!(session.set_raw(&p("email"), "x@y.org"), Err(SessionError::Frozen));
    assert_eq!(session.append_entry(0), Err(SessionError::Frozen));
    assert_eq!(session.remove_entry(0, 0), Err(SessionError::Frozen));
    assert_eq!(session.section(0).len(session.store()), Some(1));
    assert!(matches!(session.submit(meta()), Err(SubmitError::AlreadyInProgress)));
    // reading and moving between pages is still possible
    assert!(session.goto(3).is_ok());
    assert!(session.store().get(&p("email")).is_some());

    assert!(matches!(session.finish(Ok("out.pdf".to_string())), Some(Ok(l)) if l == "out.pdf"));
    assert!(matches!(session.pipeline().state(), SubmissionState::Success));
    assert_eq!(session.set_raw(&p("email"), "x@y.org"), Ok(()));
    assert!(matches!(session.pipeline().state(), SubmissionState::Initial));
    assert_eq!(session.store().error(&p("repeat_email")), Some(ErrorKind::CrossFieldMismatch));
    assert!(matches!(session.submit(meta()), Err(SubmitError::ValidationFailed)));
    assert!(matches!(
        session.pipeline().state(),
        SubmissionState::Error(SubmitError::ValidationFailed)
    ));
}

#[test]
fn session_edits_are_refused_as_the_parts_refuse() {
    let mut session = FormSession::build(DemoForm()).unwrap();
    assert_eq!(
        session.set_raw(&p("nowhere"), "x"),
        Err(SessionError::Store(StoreError::UnknownField))
    );
    assert_eq!(session.append_entry(2), Err(SessionError::UnknownSection));
    assert_eq!(session.remove_entry(2, 0), Err(SessionError::UnknownSection));
    assert_eq!(
        session.remove_entry(0, 0),
        Err(SessionError::Section(nova_forms_demo::repeat::SectionError::Store(
            StoreError::NoSuchEntry
        )))
    );
    // a refused edit does not arm the pipeline
    assert!(session.submit(meta()).is_err());
    assert_eq!(session.set_raw(&p("nowhere"), "x"), Err(SessionError::Store(StoreError::UnknownField)));
    assert!(matches!(session.pipeline().state(), SubmissionState::Error(_)));
    // an accepted one does, even if the input is in error
    assert_eq!(session.set_raw(&p("email"), "nonsense"), Ok(()));
    assert!(matches!(session.pipeline().state(), SubmissionState::Initial));
}

#[test]
fn a_proposed_city_is_taken_while_nothing_is_pending() {
    use_proposal();
}

fn use_proposal() {
    let mut session = FormSession::build(DemoForm()).unwrap();
    fill(&mut session);
    let city = nova_forms_demo::value::FieldValue::Text("Luzern".to_string());
    assert_eq!(session.suggest(&p("address.city"), Some(city.clone())), Ok(()));
    assert!(matches!(
        session.store().get(&p("address.city")),
        Some(nova_forms_demo::value::FieldValue::Text(t)) if t == "Luzern"
    ));
    assert_eq!(session.suggest(&p("address.city"), None), Ok(()));
    assert_eq!(
        session.suggest(&p("address.town"), None),
        Err(SessionError::Store(StoreError::UnknownField))
    );
    session.submit(meta()).unwrap();
    assert_eq!(session.suggest(&p("address.city"), Some(city)), Err(SessionError::Frozen));
    // a proposal does not arm the pipeline
    session.finish(Err("no renderer".to_string()));
    let city = nova_forms_demo::value::FieldValue::Text("Bern".to_string());
    assert_eq!(session.suggest(&p("address.city"), Some(city)), Ok(()));
    assert!(matches!(session.pipeline().state(), SubmissionState::Error(_)));
}

#[test]
fn the_demo_form_is_gated() {
    let definition = DemoForm();
    assert_eq!(definition.policy, nova_forms_demo::pages::AdvancePolicy::Gated);
    let mut free = DemoForm();
    free.policy = nova_forms_demo::pages::AdvancePolicy::Free;
    let mut session = FormSession::build(free).unwrap();
    assert!(session.goto(1).is_ok());
    assert!(session.goto(5).is_ok());
    assert_eq!(session.navigator().current_index(), 5);
}

#[test]
fn a_form_is_filled_from_an_earlier_submission() {
    let mut first = FormSession::build(DemoForm()).unwrap();
    fill(&mut first);
    first.append_entry(0).unwrap();
    first.set_raw(&p("children.0.name"), "Ada").unwrap();
    let request = first.submit(meta()).unwrap();

    let mut second = FormSession::build(DemoForm()).unwrap();
    assert!(!second.store().is_valid());
    second.append_entry(0).unwrap();
    assert_eq!(second.load(&request.form_data), Ok(()));
    assert!(second.store().is_valid());
    assert!(matches!(second.pipeline().state(), SubmissionState::Initial));
    let data = DemoForm::from_tree(second.store().tree()).unwrap();
    assert_eq!(data.datatypes.email, "test@example.com");
    assert_eq!(data.datatypes.number, 42);
    assert_eq!(data.address.city, "Sursee");
    assert_eq!(data.children.len(), 1);
    assert_eq!(data.children[0].name, "Ada");
    assert_eq!(second.store().raw(&p("datatypes.email")), None);
    assert_eq!(second.store().error(&p("datatypes.email")), None);

    // what the kind of a field does not accept is passed over
    let mut third = FormSession::build(DemoForm()).unwrap();
    let (odd, _) = nova_forms_demo::tree::Node::group().plant(
        &p("datatypes.email"),
        0,
        nova_forms_demo::tree::Node::Leaf(nova_forms_demo::value::FieldValue::Text("x".to_string())),
    );
    assert_eq!(third.load(&odd), Ok(()));
    assert!(third.store().get(&p("datatypes.email")).is_none());
    assert_eq!(third.store().error(&p("datatypes.email")), Some(ErrorKind::InvalidFormat));
    fill(&mut third);
    third.submit(meta()).unwrap();
    assert_eq!(third.load(&request.form_data), Err(SessionError::Frozen));
}

#[test]
fn the_session_steps_and_lists_the_fields_of_the_page() {
    let mut session = FormSession::build(DemoForm()).unwrap();
    assert!(session.fields_on_page().is_empty());
    session.prev();
    assert_eq!(session.navigator().current_index(), 0);
    assert!(session.next().is_ok());
    assert_eq!(session.fields_on_page(), (0..12).collect::<Vec<usize>>());
    assert!(session.next().is_err());
    assert_eq!(session.navigator().current_index(), 1);
    fill(&mut session);
    assert!(session.next().is_ok());
    assert_eq!(session.fields_on_page(), vec![12, 13, 14]);
    assert!(session.next().is_ok());
    assert_eq!(session.fields_on_page(), vec![15, 16, 17]);
    assert!(session.next().is_ok());
    assert!(session.fields_on_page().is_empty());
    session.append_entry(0).unwrap();
    assert_eq!(session.fields_on_page(), vec![18]);
    let at = session.fields_on_page()[0];
    assert_eq!(session.store().field(at).path.serialize(), "children.0.name");
    assert!(session.next().is_err());
    session.prev();
    assert_eq!(session.navigator().current_index(), 3);
    assert!(session.goto(6).is_ok());
    assert!(matches!(
        session.next(),
        Err(nova_forms_demo::pages::NavigationError::UnknownPage)
    ));
}

fn valid_data() -> DemoForm {
    DemoForm {
        datatypes: Datatypes {
            string: String::new(),
            non_empty_string: "x".to_string(),
            email: "a@b.co".to_string(),
            phone: "+41791234567".to_string(),
            number: 4294967295,
            date: Date { year: 2024, month: 2, day: 29 },
            time: Time { hour: 23, minute: 59 },
            date_time: DateTime {
                date: Date { year: 2023, month: 12, day: 31 },
                time: Time { hour: 0, minute: 0 },
            },
            bool: false,
            accept: true,
            radio: RadioValue::A,
            select: RadioValue::C,
        },
        address: Address { street: String::new(), zip: String::new(), city: String::new() },
        children: vec![ChildData { name: "Ada".to_string() }],
        files: vec!["file_id_550e8400-e29b-41d4-a716-446655440000".to_string()],
    }
}

#[test]
fn typed_data_are_checked_as_the_fields_check() {
    assert!(valid_data().is_valid());
    let mut empty = valid_data();
    empty.children.clear();
    empty.files.clear();
    assert!(empty.is_valid());

    let breaks: Vec<fn(&mut DemoForm)> = vec![
        |d| d.datatypes.non_empty_string.clear(),
        |d| d.datatypes.email = "a@b".to_string(),
        |d| d.datatypes.phone = "123".to_string(),
        |d| d.datatypes.number = 4294967296,
        |d| d.datatypes.date.day = 30,
        |d| d.datatypes.time.hour = 24,
        |d| d.datatypes.date_time.date.month = 13,
        |d| d.datatypes.date_time.time.minute = 60,
        |d| d.datatypes.accept = false,
        |d| d.children.push(ChildData { name: String::new() }),
        |d| d.files.push("550e8400-e29b-41d4-a716-446655440000".to_string()),
    ];
    for (i, spoil) in breaks.iter().enumerate() {
        let mut data = valid_data();
        spoil(&mut data);
        assert!(!data.is_valid(), "{i}");
    }
    assert!(Date { year: 2000, month: 2, day: 29 }.is_valid());
    assert!(!Date { year: 1900, month: 2, day: 29 }.is_valid());
    assert!(Time { hour: 0, minute: 59 }.is_valid());
    assert!(!Time { hour: 0, minute: 60 }.is_valid());
}

#[test]
fn what_a_session_hands_out_is_valid_typed_data() {
    let mut session = FormSession::build(DemoForm()).unwrap();
    fill(&mut session);
    session.append_entry(0).unwrap();
    session.set_raw(&p("children.0.name"), "Ada").unwrap();
    let request = session.submit(meta()).unwrap();
    let data = DemoForm::from_tree(&request.form_data).unwrap();
    assert!(data.is_valid());
}

#[test]
fn a_form_starts_only_with_a_message_for_every_error() {
    use_start();
}

fn use_start() {
    let empty = nova_forms_demo::registry::ValidationRegistry::new();
    assert_eq!(
        FormSession::start(DemoForm(), &empty).err(),
        Some(nova_forms_demo::session::SetupError::MissingTranslation)
    );
    let session = FormSession::start(DemoForm(), &provide_translations()).unwrap();
    assert_eq!(session.store().field_count(), 18);
    let mut twice = DemoForm();
    let again = DemoForm().fields.remove(0);
    twice.fields.push(again);
    assert_eq!(
        FormSession::start(twice, &provide_translations()).err(),
        Some(nova_forms_demo::session::SetupError::Store(StoreError::DuplicateField))
    );
}
