use nova_forms_demo::path::BindingPath;
use nova_forms_demo::store::FormStateStore;
use nova_forms_demo::submit::{MetaData, SubmissionPipeline, SubmissionState, SubmitError};
use nova_forms_demo::tree::Node;
use nova_forms_demo::value::{FieldKind, FieldValue};

fn p(text: &str) -> BindingPath {
    BindingPath::parse(text).unwrap()
}

fn meta() -> MetaData {
    MetaData { locale: "en".to_string(), local_utc_offset: 3600 }
}

fn form() -> FormStateStore {
    let mut store = FormStateStore::new();
    store.register_field(p("me.first_name"), FieldKind::NonEmptyText, true).unwrap();
    store
}

#[test]
fn an_empty_required_name_fails_validation_without_a_request() {
    let store = form();
    let mut pipeline = SubmissionPipeline::new();
    assert!(matches!(pipeline.state(), SubmissionState::Initial));
    let mut calls = 0;
    match pipeline.submit(&store, meta()) {
        Ok(_) => calls += 1,
        Err(e) => assert!(matches!(e, SubmitError::ValidationFailed)),
    }
    assert_eq!(calls, 0);
    assert!(matches!(pipeline.state(), SubmissionState::Error(SubmitError::ValidationFailed)));
    assert!(!pipeline.is_pending());
}

#[test]
fn a_valid_form_gives_one_request_with_a_copy_of_the_tree() {
    let mut store = form();
    store.set_raw(&p("me.first_name"), "Ada").unwrap();
    let mut pipeline = SubmissionPipeline::new();
    let request = pipeline.submit(&store, meta()).unwrap();
    assert!(pipeline.is_pending());
    assert_eq!(request.meta_data.locale, "en");
    assert_eq!(request.meta_data.local_utc_offset, 3600);
    assert!(matches!(
        request.form_data.value(&p("me.first_name")),
        Some(FieldValue::NonEmptyText(t)) if t == "Ada"
    ));
    // the request holds its own copy
    store.set_raw(&p("me.first_name"), "Bob").unwrap();
    assert!(matches!(
        request.form_data.value(&p("me.first_name")),
        Some(FieldValue::NonEmptyText(t)) if t == "Ada"
    ));
    assert!(matches!(request.form_data, Node::Group(_)));
}

#[test]
fn a_second_submit_while_pending_is_refused() {
    let mut store = form();
    store.set_raw(&p("me.first_name"), "Ada").unwrap();
    let mut pipeline = SubmissionPipeline::new();
    let mut requests = 0;
    for _ in 0..3 {
        match pipeline.submit(&store, meta()) {
            Ok(_) => requests += 1,
            Err(e) => assert!(matches!(e, SubmitError::AlreadyInProgress)),
        }
        assert!(pipeline.is_pending());
    }
    assert_eq!(requests, 1);
    // even an invalid form is answered with "already in progress" while pending
    store.set_raw(&p("me.first_name"), "").unwrap();
    assert!(matches!(pipeline.submit(&store, meta()), Err(SubmitError::AlreadyInProgress)));
    assert!(pipeline.is_pending());
}

#[test]
fn success_hands_the_locator_on() {
    let mut store = form();
    store.set_raw(&p("me.first_name"), "Ada").unwrap();
    let mut pipeline = SubmissionPipeline::new();
    pipeline.submit(&store, meta()).unwrap();
    match pipeline.finish(Ok("/tmp/form.pdf".to_string())) {
        Some(Ok(locator)) => assert_eq!(locator, "/tmp/form.pdf"),
        other => panic!("{other:?}"),
    }
    assert!(matches!(pipeline.state(), SubmissionState::Success));
    // a second answer comes too late
    assert!(pipeline.finish(Ok("/tmp/other.pdf".to_string())).is_none());
    assert!(matches!(pipeline.state(), SubmissionState::Success));
}

#[test]
fn failure_keeps_the_reason_and_allows_a_retry() {
    let mut store = form();
    store.set_raw(&p("me.first_name"), "Ada").unwrap();
    let mut pipeline = SubmissionPipeline::new();
    pipeline.submit(&store, meta()).unwrap();
    match pipeline.finish(Err("renderer timed out".to_string())) {
        Some(Err(SubmitError::CollaboratorFailure(reason))) => {
            assert_eq!(reason, "renderer timed out")
        }
        other => panic!("{other:?}"),
    }
    assert!(matches!(
        pipeline.state(),
        SubmissionState::Error(SubmitError::CollaboratorFailure(r)) if r == "renderer timed out"
    ));
    // the tree is as it was
    assert!(matches!(store.get(&p("me.first_name")), Some(FieldValue::NonEmptyText(t)) if t == "Ada"));
    assert!(pipeline.submit(&store, meta()).is_ok());
    assert!(pipeline.is_pending());
}

#[test]
fn an_edit_arms_the_pipeline_again() {
    let mut store = form();
    let mut pipeline = SubmissionPipeline::new();
    pipeline.edited();
    assert!(matches!(pipeline.state(), SubmissionState::Initial));
    assert!(pipeline.submit(&store, meta()).is_err());
    assert!(matches!(pipeline.state(), SubmissionState::Error(_)));
    pipeline.edited();
    assert!(matches!(pipeline.state(), SubmissionState::Initial));
    store.set_raw(&p("me.first_name"), "Ada").unwrap();
    pipeline.submit(&store, meta()).unwrap();
    pipeline.edited();
    assert!(pipeline.is_pending());
    pipeline.finish(Ok("x".to_string()));
    pipeline.edited();
    assert!(matches!(pipeline.state(), SubmissionState::Initial));
}

#[test]
fn an_answer_without_a_pending_submission_is_dropped() {
    let mut pipeline = SubmissionPipeline::new();
    assert!(pipeline.finish(Ok("x".to_string())).is_none());
    assert!(pipeline.finish(Err("y".to_string())).is_none());
    assert!(matches!(pipeline.state(), SubmissionState::Initial));
}
