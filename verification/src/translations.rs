//! The messages of the demo form: which message stands for which error,
//! state, action and choice.
use vstd::prelude::*;
use crate::registry::{
    localized_text, CatalogView, LabelTag, Message, MessageView, RegistryKey, RegistryKeyView,
    RegistryView, ValidationRegistry,
};
use crate::value::{ErrorKind, TypeTag};

verus! {

/// `registry` with the catalog key `name` for the error `kind` of fields
/// with the tag `tag`.
pub open spec fn with_message(
    registry: RegistryView,
    tag: TypeTag,
    kind: ErrorKind,
    name: Seq<char>,
) -> RegistryView {
    registry.insert(RegistryKeyView::Message(tag, kind), MessageView::Key(name))
}

/// `registry` with the catalog key `name` for the label `tag`.
pub open spec fn with_label(
    registry: RegistryView,
    tag: LabelTag,
    name: Seq<char>,
) -> RegistryView {
    registry.insert(RegistryKeyView::Label(tag), MessageView::Key(name))
}

/// `registry` with the catalog key `name` for the choice `choice`.
pub open spec fn with_choice(
    registry: RegistryView,
    choice: Seq<char>,
    name: Seq<char>,
) -> RegistryView {
    registry.insert(RegistryKeyView::Choice(choice), MessageView::Key(name))
}

/// The messages for the errors of the fields of the demo form.
pub open spec fn demo_messages() -> RegistryView {
    let r = Map::<RegistryKeyView, MessageView>::empty();
    let r = with_message(r, TypeTag::NonEmptyText, ErrorKind::EmptyValue, "error_empty_string"@);
    let r = with_message(r, TypeTag::Email, ErrorKind::InvalidFormat, "error_invalid_format"@);
    let r = with_message(r, TypeTag::Phone, ErrorKind::InvalidFormat, "error_invalid_format"@);
    let r = with_message(r, TypeTag::Accepted, ErrorKind::NotAccepted, "error_not_accepted"@);
    let r = with_message(r, TypeTag::IntegerU32, ErrorKind::ParseFailure, "error_invalid_format"@);
    let r = with_message(r, TypeTag::IntegerU64, ErrorKind::ParseFailure, "error_invalid_format"@);
    let r = with_message(r, TypeTag::Date, ErrorKind::ParseFailure, "error_invalid_format"@);
    let r = with_message(r, TypeTag::Time, ErrorKind::ParseFailure, "error_invalid_format"@);
    let r = with_message(r, TypeTag::DateTime, ErrorKind::ParseFailure, "error_invalid_format"@);
    let r = with_message(r, TypeTag::Boolean, ErrorKind::ParseFailure, "error_invalid_format"@);
    let r = with_message(r, TypeTag::Enum, ErrorKind::ParseFailure, "error_invalid_format"@);
    let r = with_message(
        r,
        TypeTag::FileReference,
        ErrorKind::InvalidFormat,
        "error_invalid_format"@,
    );
    with_message(r, TypeTag::Email, ErrorKind::CrossFieldMismatch, "error_emails_not_equal"@)
}

/// The registry of the demo form: the messages for the errors of its
/// fields, and the labels of the three choices, of the states of the
/// submission and of the actions of the toolbar. The initial state of the
/// submission has the empty label in every language; everything else is
/// the key of a text in the catalog.
pub open spec fn demo_registry() -> RegistryView {
    let r = demo_messages();
    let r = with_choice(r, "A"@, "radio_a"@);
    let r = with_choice(r, "B"@, "radio_b"@);
    let r = with_choice(r, "C"@, "radio_c"@);
    let r = r.insert(
        RegistryKeyView::Label(LabelTag::SubmitInitial),
        MessageView::Fixed(Seq::empty()),
    );
    let r = with_label(r, LabelTag::SubmitError, "submit_error"@);
    let r = with_label(r, LabelTag::SubmitPending, "submit_pending"@);
    let r = with_label(r, LabelTag::SubmitSuccess, "submit_success"@);
    let r = with_label(r, LabelTag::Edit, "edit"@);
    let r = with_label(r, LabelTag::Submit, "submit"@);
    let r = with_label(r, LabelTag::Preview, "preview"@);
    let r = with_label(r, LabelTag::Language, "language"@);
    with_label(r, LabelTag::Menu, "menu"@)
}

/// With the registry of the demo form, the label of the initial state of
/// the submission is the empty text in every language, whatever the catalog
/// holds.
pub proof fn lemma_initial_state_has_the_empty_label(catalog: CatalogView, locale: Seq<char>)
    ensures
        localized_text(
            demo_registry(),
            catalog,
            locale,
            RegistryKeyView::Label(LabelTag::SubmitInitial),
        ) == Ok::<Seq<char>, crate::registry::RegistryError>(Seq::empty()),
{
}

/// Registers `message` under a key that is not yet taken.
fn enter(registry: &mut ValidationRegistry, key: RegistryKey, message: Message)
    requires
        !old(registry)@.dom().contains(key@),
    ensures
        final(registry)@ == old(registry)@.insert(key@, message@),
{
    match registry.register(key, message) {
        Ok(()) => {},
        Err(_) => {},
    }
}

/// The key `name` of a text in the catalog.
fn text(name: &str) -> (m: Message)
    ensures
        m@ == MessageView::Key(name@),
{
    Message::Key(name.to_owned())
}

/// The registry of the demo form.
pub fn provide_translations() -> (r: ValidationRegistry)
    ensures
        r@ == demo_registry(),
{
    let mut r = ValidationRegistry::new();
    let invalid = "error_invalid_format";
    enter(
        &mut r,
        RegistryKey::Message(TypeTag::NonEmptyText, ErrorKind::EmptyValue),
        text("error_empty_string"),
    );
    enter(&mut r, RegistryKey::Message(TypeTag::Email, ErrorKind::InvalidFormat), text(invalid));
    enter(&mut r, RegistryKey::Message(TypeTag::Phone, ErrorKind::InvalidFormat), text(invalid));
    enter(
        &mut r,
        RegistryKey::Message(TypeTag::Accepted, ErrorKind::NotAccepted),
        text("error_not_accepted"),
    );
    enter(
        &mut r,
        RegistryKey::Message(TypeTag::IntegerU32, ErrorKind::ParseFailure),
        text(invalid),
    );
    enter(
        &mut r,
        RegistryKey::Message(TypeTag::IntegerU64, ErrorKind::ParseFailure),
        text(invalid),
    );
    enter(&mut r, RegistryKey::Message(TypeTag::Date, ErrorKind::ParseFailure), text(invalid));
    enter(&mut r, RegistryKey::Message(TypeTag::Time, ErrorKind::ParseFailure), text(invalid));
    enter(&mut r, RegistryKey::Message(TypeTag::DateTime, ErrorKind::ParseFailure), text(invalid));
    enter(&mut r, RegistryKey::Message(TypeTag::Boolean, ErrorKind::ParseFailure), text(invalid));
    enter(&mut r, RegistryKey::Message(TypeTag::Enum, ErrorKind::ParseFailure), text(invalid));
    enter(
        &mut r,
        RegistryKey::Message(TypeTag::FileReference, ErrorKind::InvalidFormat),
        text(invalid),
    );
    enter(
        &mut r,
        RegistryKey::Message(TypeTag::Email, ErrorKind::CrossFieldMismatch),
        text("error_emails_not_equal"),
    );
    assert(r@ == demo_messages());
    proof {
        reveal_strlit("A");
        reveal_strlit("B");
        reveal_strlit("C");
        assert("A"@[0] != "B"@[0]);
        assert("A"@[0] != "C"@[0]);
        assert("B"@[0] != "C"@[0]);
    }
    enter(&mut r, RegistryKey::Choice("A".to_owned()), text("radio_a"));
    enter(&mut r, RegistryKey::Choice("B".to_owned()), text("radio_b"));
    enter(&mut r, RegistryKey::Choice("C".to_owned()), text("radio_c"));
    enter(&mut r, RegistryKey::Label(LabelTag::SubmitInitial), Message::Fixed(String::new()));
    enter(&mut r, RegistryKey::Label(LabelTag::SubmitError), text("submit_error"));
    enter(&mut r, RegistryKey::Label(LabelTag::SubmitPending), text("submit_pending"));
    enter(&mut r, RegistryKey::Label(LabelTag::SubmitSuccess), text("submit_success"));
    enter(&mut r, RegistryKey::Label(LabelTag::Edit), text("edit"));
    enter(&mut r, RegistryKey::Label(LabelTag::Submit), text("submit"));
    enter(&mut r, RegistryKey::Label(LabelTag::Preview), text("preview"));
    enter(&mut r, RegistryKey::Label(LabelTag::Language), text("language"));
    enter(&mut r, RegistryKey::Label(LabelTag::Menu), text("menu"));
    r
}

} // verus!
