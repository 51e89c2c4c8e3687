//! The validation registry: which message stands for which error of which
//! kind of field, and which label for which state or action.
//!
//! A registration is a text that is the same in every language, or the key
//! of a text in a catalog, which holds one text per language and key.
//! Nothing is ever overwritten, and what is not there is an error, never a
//! made-up text.
use vstd::prelude::*;
use crate::store::{FormStateStore, StoreView};
use crate::submit::{SubmissionState, SubmissionStateView};
use crate::text::same_text;
use crate::value::{parse_value, tag_of, ErrorKind, FieldKindView, TypeTag};

verus! {

/// A state of the submission or an action of the toolbar that is shown
/// with a label.
#[derive(Debug, Clone, Copy, PartialEq, Eq, Structural)]
pub enum LabelTag {
    SubmitInitial,
    SubmitPending,
    SubmitSuccess,
    SubmitError,
    Edit,
    Submit,
    Preview,
    Language,
    Menu,
}

/// What a message or label is registered for.
#[derive(Debug)]
pub enum RegistryKey {
    /// An error of a kind of field.
    Message(TypeTag, ErrorKind),
    /// A submission state or a toolbar action.
    Label(LabelTag),
    /// One choice of a field of choices.
    Choice(String),
}

/// The mathematical value of a [`RegistryKey`].
pub enum RegistryKeyView {
    Message(TypeTag, ErrorKind),
    Label(LabelTag),
    Choice(Seq<char>),
}

impl View for RegistryKey {
    type V = RegistryKeyView;

    open spec fn view(&self) -> RegistryKeyView {
        match self {
            RegistryKey::Message(tag, kind) => RegistryKeyView::Message(*tag, *kind),
            RegistryKey::Label(tag) => RegistryKeyView::Label(*tag),
            RegistryKey::Choice(choice) => RegistryKeyView::Choice(choice@),
        }
    }
}

/// Why the registry or the catalog has no answer.
#[derive(Debug, Clone, Copy, PartialEq, Eq, Structural)]
pub enum RegistryError {
    /// Something is already registered under the key.
    Conflict,
    /// Nothing is registered under the key.
    MissingTranslation,
}

/// What is registered for an error, a state, an action or a choice.
#[derive(Debug)]
pub enum Message {
    /// A text that is the same in every language.
    Fixed(String),
    /// The key of a text in the catalog.
    Key(String),
}

/// The mathematical value of a [`Message`].
pub enum MessageView {
    Fixed(Seq<char>),
    Key(Seq<char>),
}

impl View for Message {
    type V = MessageView;

    open spec fn view(&self) -> MessageView {
        match self {
            Message::Fixed(text) => MessageView::Fixed(text@),
            Message::Key(key) => MessageView::Key(key@),
        }
    }
}

impl Clone for Message {
    fn clone(&self) -> (r: Message)
        ensures
            r@ == self@,
    {
        match self {
            Message::Fixed(text) => Message::Fixed(text.clone()),
            Message::Key(key) => Message::Key(key.clone()),
        }
    }
}

/// The position of the first pair with the key `key`, or the number of
/// pairs where there is none.
pub open spec fn first_pair<K, V>(entries: Seq<(K, V)>, key: K) -> int
    decreases entries.len(),
{
    if entries.len() == 0 {
        0
    } else if entries[0].0 == key {
        0
    } else {
        1 + first_pair(entries.drop_first(), key)
    }
}

/// The map that a list of pairs stands for. Where a key comes twice, the
/// first pair counts.
pub open spec fn table_map<K, V>(entries: Seq<(K, V)>) -> Map<K, V> {
    Map::new(
        |key: K| first_pair(entries, key) < entries.len(),
        |key: K| entries[first_pair(entries, key)].1,
    )
}

/// `first_pair` gives the least position that holds the key.
pub proof fn lemma_first_pair<K, V>(entries: Seq<(K, V)>, key: K)
    ensures
        0 <= first_pair(entries, key) <= entries.len(),
        first_pair(entries, key) < entries.len() ==> entries[first_pair(entries, key)].0 == key,
        forall|j: int| 0 <= j < first_pair(entries, key) ==> (#[trigger] entries[j]).0 != key,
    decreases entries.len(),
{
    if entries.len() > 0 && entries[0].0 != key {
        let rest = entries.drop_first();
        lemma_first_pair(rest, key);
        assert forall|j: int| 0 <= j < first_pair(entries, key) implies (#[trigger] entries[j]).0
            != key by {
            if j > 0 {
                assert(entries[j] == rest[j - 1]);
            }
        }
    }
}

/// The first position that holds the key is what `first_pair` gives.
pub proof fn lemma_first_pair_is<K, V>(entries: Seq<(K, V)>, key: K, i: int)
    requires
        0 <= i <= entries.len(),
        i < entries.len() ==> entries[i].0 == key,
        forall|j: int| 0 <= j < i ==> (#[trigger] entries[j]).0 != key,
    ensures
        first_pair(entries, key) == i,
{
    lemma_first_pair(entries, key);
    let f = first_pair(entries, key);
    if f < i {
        assert(entries[f].0 != key);
    }
}

/// A pair with a new key at the end of the list adds the key to the map
/// and changes nothing else.
pub proof fn lemma_table_push<K, V>(entries: Seq<(K, V)>, key: K, value: V)
    requires
        first_pair(entries, key) == entries.len(),
    ensures
        table_map(entries.push((key, value))) == table_map(entries).insert(key, value),
{
    let after = entries.push((key, value));
    assert forall|k: K|
        (#[trigger] table_map(after).dom().contains(k)) == table_map(entries).insert(
            key,
            value,
        ).dom().contains(k) && (table_map(after).dom().contains(k) ==> table_map(after)[k]
            == table_map(entries).insert(key, value)[k]) by {
        lemma_first_pair(entries, k);
        let f = first_pair(entries, k);
        if k == key {
            assert forall|j: int| 0 <= j < entries.len() implies (#[trigger] after[j]).0 != k by {
                assert(after[j] == entries[j]);
            }
            lemma_first_pair_is(after, k, entries.len() as int);
        } else if f < entries.len() {
            assert forall|j: int| 0 <= j < f implies (#[trigger] after[j]).0 != k by {
                assert(after[j] == entries[j]);
            }
            assert(after[f] == entries[f]);
            lemma_first_pair_is(after, k, f);
        } else {
            assert forall|j: int| 0 <= j < after.len() implies (#[trigger] after[j]).0 != k by {
                if j < entries.len() {
                    assert(after[j] == entries[j]);
                }
            }
            lemma_first_pair_is(after, k, after.len() as int);
        }
    }
    assert(table_map(after) =~= table_map(entries).insert(key, value));
}

/// The mathematical value of a [`ValidationRegistry`]: the message for
/// everything that something is registered for.
pub type RegistryView = Map<RegistryKeyView, MessageView>;

/// The mathematical value of a [`Catalog`]: the text for every language
/// and key that it holds one for.
pub type CatalogView = Map<(Seq<char>, Seq<char>), Seq<char>>;

/// The text of what is registered under `key`, in the language `locale`:
/// the registered text itself where it is the same in every language, and
/// else the text that the catalog holds under the registered key. There is
/// none where nothing is registered under `key` or the catalog holds no
/// text under the registered key.
pub open spec fn localized_text(
    registry: RegistryView,
    catalog: CatalogView,
    locale: Seq<char>,
    key: RegistryKeyView,
) -> Result<Seq<char>, RegistryError> {
    if !registry.dom().contains(key) {
        Err(RegistryError::MissingTranslation)
    } else {
        match registry[key] {
            MessageView::Fixed(text) => Ok(text),
            MessageView::Key(name) => if catalog.dom().contains((locale, name)) {
                Ok(catalog[(locale, name)])
            } else {
                Err(RegistryError::MissingTranslation)
            },
        }
    }
}

/// Whether the catalog has a text in the language `locale` for everything
/// that is registered.
pub open spec fn catalog_covers(
    registry: RegistryView,
    catalog: CatalogView,
    locale: Seq<char>,
) -> bool {
    forall|key: RegistryKeyView|
        registry.dom().contains(key) ==> #[trigger] localized_text(
            registry,
            catalog,
            locale,
            key,
        ) is Ok
}

/// The label under which a state of the submission is shown. An error has
/// one label, whatever its reason.
pub open spec fn state_label(state: SubmissionStateView) -> LabelTag {
    match state {
        SubmissionStateView::Initial => LabelTag::SubmitInitial,
        SubmissionStateView::Pending => LabelTag::SubmitPending,
        SubmissionStateView::Success => LabelTag::SubmitSuccess,
        SubmissionStateView::Error(_) => LabelTag::SubmitError,
    }
}

/// The error that reading a raw input can give for a kind of field. Each
/// kind has at most one.
pub open spec fn own_error(tag: TypeTag) -> Option<ErrorKind> {
    match tag {
        TypeTag::Text => None,
        TypeTag::NonEmptyText => Some(ErrorKind::EmptyValue),
        TypeTag::Email => Some(ErrorKind::InvalidFormat),
        TypeTag::Phone => Some(ErrorKind::InvalidFormat),
        TypeTag::FileReference => Some(ErrorKind::InvalidFormat),
        TypeTag::Accepted => Some(ErrorKind::NotAccepted),
        _ => Some(ErrorKind::ParseFailure),
    }
}

/// Whatever raw input is read, an error is the one error of the kind.
pub proof fn lemma_parse_error_is_own(kind: FieldKindView, raw: Seq<char>)
    ensures
        parse_value(kind, raw) matches Err(e) ==> own_error(tag_of(kind)) == Some(e),
{
}

/// Whether some rule stands on the field at `path`.
pub open spec fn has_rule(s: StoreView, path: crate::path::PathView) -> bool {
    exists|k: int| 0 <= k < s.rules.len() && (#[trigger] s.rules[k]).target == path
}

/// Whether the field at position `i` can be in the error `kind`: it is the
/// error of the field's kind, or a mismatch and a rule stands on the field.
pub open spec fn field_can_fail(s: StoreView, i: int, kind: ErrorKind) -> bool {
    own_error(tag_of(s.fields[i].kind)) == Some(kind) || (kind == ErrorKind::CrossFieldMismatch
        && has_rule(s, s.fields[i].path))
}

/// Whether the registry has a message for every error that a field of the
/// store can be in.
pub open spec fn covers(registry: RegistryView, s: StoreView) -> bool {
    forall|i: int, kind: ErrorKind|
        0 <= i < s.fields.len() && #[trigger] field_can_fail(s, i, kind) ==> registry.dom().contains(
            RegistryKeyView::Message(tag_of(s.fields[i].kind), kind),
        )
}

/// Whether the registry has a label for `tag`.
pub open spec fn has_label(registry: RegistryView, tag: LabelTag) -> bool {
    registry.dom().contains(RegistryKeyView::Label(tag))
}

/// Whether the registry has a label for every submission state and toolbar
/// action.
pub open spec fn labels_complete(registry: RegistryView) -> bool {
    forall|tag: LabelTag| #[trigger] has_label(registry, tag)
}

/// One registration.
#[derive(Debug)]
pub struct Registration {
    pub key: RegistryKey,
    pub message: Message,
}

/// The pairs that a list of registrations stands for.
pub open spec fn registration_pairs(entries: Seq<Registration>) -> Seq<
    (RegistryKeyView, MessageView),
> {
    Seq::new(entries.len(), |i: int| (entries[i].key@, entries[i].message@))
}

/// Whether no two of the pairs have one key.
pub open spec fn distinct_pairs<K, V>(pairs: Seq<(K, V)>) -> bool {
    forall|i: int, j: int|
        0 <= i < j < pairs.len() ==> (#[trigger] pairs[i]).0 != (#[trigger] pairs[j]).0
}

/// The mapping from errors, states, actions and choices to their messages.
/// Nothing is registered twice.
#[derive(Debug)]
pub struct ValidationRegistry {
    entries: Vec<Registration>,
}

impl View for ValidationRegistry {
    type V = RegistryView;

    closed spec fn view(&self) -> RegistryView {
        table_map(registration_pairs(self.entries@))
    }
}

impl RegistryKey {
    /// Whether two keys are the same.
    pub fn same(&self, other: &RegistryKey) -> (r: bool)
        ensures
            r == (self@ == other@),
    {
        match (self, other) {
            (RegistryKey::Message(t, k), RegistryKey::Message(t2, k2)) => *t == *t2 && *k == *k2,
            (RegistryKey::Label(t), RegistryKey::Label(t2)) => *t == *t2,
            (RegistryKey::Choice(c), RegistryKey::Choice(c2)) => *c == *c2,
            _ => false,
        }
    }
}

impl ValidationRegistry {
    #[verifier::type_invariant]
    spec fn registered_once(self) -> bool {
        distinct_pairs(registration_pairs(self.entries@))
    }

    /// A registry without registrations.
    pub fn new() -> (r: ValidationRegistry)
        ensures
            r@ == Map::<RegistryKeyView, MessageView>::empty(),
    {
        let r = ValidationRegistry { entries: Vec::new() };
        proof {
            assert(registration_pairs(r.entries@) =~= Seq::empty());
        }
        r
    }

    /// The position of the first registration under `key`.
    fn position_of(&self, key: &RegistryKey) -> (i: usize)
        ensures
            i <= self.entries.len(),
            i == first_pair(registration_pairs(self.entries@), key@),
            i < self.entries.len() <==> self@.dom().contains(key@),
            i < self.entries.len() ==> self@[key@] == self.entries[i as int].message@,
    {
        let ghost pairs = registration_pairs(self.entries@);
        let mut i: usize = 0;
        while i < self.entries.len()
            invariant
                i <= self.entries.len(),
                pairs == registration_pairs(self.entries@),
                forall|j: int| 0 <= j < i ==> (#[trigger] pairs[j]).0 != key@,
            decreases self.entries.len() - i,
        {
            if self.entries[i].key.same(key) {
                proof {
                    lemma_first_pair_is(pairs, key@, i as int);
                }
                return i;
            }
            i += 1;
        }
        proof {
            lemma_first_pair_is(pairs, key@, self.entries.len() as int);
        }
        i
    }

    /// Whether something is registered under `key`.
    pub fn contains(&self, key: &RegistryKey) -> (r: bool)
        ensures
            r == self@.dom().contains(key@),
    {
        self.position_of(key) < self.entries.len()
    }

    /// Registers `message` under `key`.
    ///
    /// Where something is already registered under `key`, the registration
    /// is refused as a conflict and the registry stays as it is.
    pub fn register(&mut self, key: RegistryKey, message: Message) -> (r: Result<
        (),
        RegistryError,
    >)
        ensures
            match r {
                Ok(()) => !old(self)@.dom().contains(key@) && final(self)@ == old(self)@.insert(
                    key@,
                    message@,
                ),
                Err(e) => e == RegistryError::Conflict && old(self)@.dom().contains(key@)
                    && final(self)@ == old(self)@,
            },
    {
        if self.position_of(&key) < self.entries.len() {
            return Err(RegistryError::Conflict);
        }
        let ghost before = registration_pairs(self.entries@);
        proof {
            use_type_invariant(&*self);
            lemma_first_pair(before, key@);
        }
        let entry = Registration { key, message };
        let mut entries: Vec<Registration> = Vec::new();
        std::mem::swap(&mut self.entries, &mut entries);
        entries.push(entry);
        proof {
            let after = registration_pairs(entries@);
            assert(after =~= before.push((entry.key@, entry.message@)));
            lemma_table_push(before, entry.key@, entry.message@);
            assert forall|i: int, j: int| 0 <= i < j < after.len() implies (#[trigger] after[i]).0
                != (#[trigger] after[j]).0 by {
                assert(after[i] == before[i]);
                if j < before.len() {
                    assert(after[j] == before[j]);
                }
            }
        }
        self.entries = entries;
        Ok(())
    }

    /// What is registered under `key`.
    ///
    /// Where nothing is registered there, the answer is the error: no text
    /// is made up.
    pub fn lookup(&self, key: &RegistryKey) -> (r: Result<Message, RegistryError>)
        ensures
            match r {
                Ok(message) => self@.dom().contains(key@) && message@ == self@[key@],
                Err(e) => e == RegistryError::MissingTranslation && !self@.dom().contains(key@),
            },
    {
        let i = self.position_of(key);
        if i < self.entries.len() {
            Ok(self.entries[i].message.clone())
        } else {
            Err(RegistryError::MissingTranslation)
        }
    }

    /// What is registered for the error `kind` of a field with the tag
    /// `tag`.
    pub fn message(&self, tag: TypeTag, kind: ErrorKind) -> (r: Result<Message, RegistryError>)
        ensures
            match r {
                Ok(message) => self@.dom().contains(RegistryKeyView::Message(tag, kind))
                    && message@ == self@[RegistryKeyView::Message(tag, kind)],
                Err(e) => e == RegistryError::MissingTranslation && !self@.dom().contains(
                    RegistryKeyView::Message(tag, kind),
                ),
            },
    {
        self.lookup(&RegistryKey::Message(tag, kind))
    }

    /// What is registered for a submission state or toolbar action.
    pub fn label(&self, tag: LabelTag) -> (r: Result<Message, RegistryError>)
        ensures
            match r {
                Ok(message) => self@.dom().contains(RegistryKeyView::Label(tag)) && message@
                    == self@[RegistryKeyView::Label(tag)],
                Err(e) => e == RegistryError::MissingTranslation && !self@.dom().contains(
                    RegistryKeyView::Label(tag),
                ),
            },
    {
        self.lookup(&RegistryKey::Label(tag))
    }

    /// Whether the registry has a label for every submission state and
    /// toolbar action.
    pub fn has_all_labels(&self) -> (r: bool)
        ensures
            r == labels_complete(self@),
    {
        let r = self.contains(&RegistryKey::Label(LabelTag::SubmitInitial)) && self.contains(
            &RegistryKey::Label(LabelTag::SubmitPending),
        ) && self.contains(&RegistryKey::Label(LabelTag::SubmitSuccess)) && self.contains(
            &RegistryKey::Label(LabelTag::SubmitError),
        ) && self.contains(&RegistryKey::Label(LabelTag::Edit)) && self.contains(
            &RegistryKey::Label(LabelTag::Submit),
        ) && self.contains(&RegistryKey::Label(LabelTag::Preview)) && self.contains(
            &RegistryKey::Label(LabelTag::Language),
        ) && self.contains(&RegistryKey::Label(LabelTag::Menu));
        proof {
            if !r {
                assert(!has_label(self@, LabelTag::SubmitInitial) || !has_label(
                    self@,
                    LabelTag::SubmitPending,
                ) || !has_label(self@, LabelTag::SubmitSuccess) || !has_label(
                    self@,
                    LabelTag::SubmitError,
                ) || !has_label(self@, LabelTag::Edit) || !has_label(self@, LabelTag::Submit)
                    || !has_label(self@, LabelTag::Preview) || !has_label(
                    self@,
                    LabelTag::Language,
                ) || !has_label(self@, LabelTag::Menu));
            }
            if r {
                assert forall|tag: LabelTag| #[trigger] has_label(self@, tag) by {
                    match tag {
                        LabelTag::SubmitInitial => {},
                        LabelTag::SubmitPending => {},
                        LabelTag::SubmitSuccess => {},
                        LabelTag::SubmitError => {},
                        LabelTag::Edit => {},
                        LabelTag::Submit => {},
                        LabelTag::Preview => {},
                        LabelTag::Language => {},
                        LabelTag::Menu => {},
                    }
                }
            }
        }
        r
    }

    /// Whether `catalog` has a text in the language `locale` for
    /// everything that is registered, so that no lookup of a registered
    /// message can fail in that language.
    pub fn has_texts_in(&self, catalog: &Catalog, locale: &str) -> (r: bool)
        ensures
            r == catalog_covers(self@, catalog@, locale@),
    {
        let ghost pairs = registration_pairs(self.entries@);
        proof {
            use_type_invariant(self);
        }
        let mut i: usize = 0;
        while i < self.entries.len()
            invariant
                i <= self.entries.len(),
                pairs == registration_pairs(self.entries@),
                self@ == table_map(pairs),
                distinct_pairs(pairs),
                forall|j: int|
                    0 <= j < i ==> ((#[trigger] pairs[j]).1 matches MessageView::Key(name)
                        ==> catalog@.dom().contains((locale@, name))),
            decreases self.entries.len() - i,
        {
            match &self.entries[i].message {
                Message::Key(name) => {
                    if !catalog.contains(locale, name.as_str()) {
                        proof {
                            let key = pairs[i as int].0;
                            assert forall|j: int| 0 <= j < i implies (#[trigger] pairs[j]).0
                                != key by {}
                            lemma_first_pair_is(pairs, key, i as int);
                            assert(self@.dom().contains(key));
                            assert(localized_text(self@, catalog@, locale@, key) is Err);
                        }
                        return false;
                    }
                },
                Message::Fixed(_) => {},
            }
            i += 1;
        }
        proof {
            assert forall|key: RegistryKeyView| self@.dom().contains(key) implies (
            #[trigger] localized_text(self@, catalog@, locale@, key)) is Ok by {
                lemma_first_pair(pairs, key);
                let at = first_pair(pairs, key);
                assert(self@[key] == pairs[at].1);
            }
        }
        true
    }

    /// Whether the registry has a message for every error that a field of
    /// `store` can be in: the error of the field's kind, and a mismatch
    /// where a rule stands on the field.
    pub fn covers_store(&self, store: &FormStateStore) -> (r: bool)
        ensures
            r == covers(self@, store@),
    {
        let ghost s = store@;
        let mut i: usize = 0;
        while i < store.field_count()
            invariant
                i <= s.fields.len(),
                s == store@,
                forall|j: int, kind: ErrorKind|
                    0 <= j < i && #[trigger] field_can_fail(s, j, kind) ==> self@.dom().contains(
                        RegistryKeyView::Message(tag_of(s.fields[j].kind), kind),
                    ),
            decreases s.fields.len() - i,
        {
            let field = store.field(i);
            let tag = field.kind.tag();
            match own_error_of(tag) {
                Some(kind) => {
                    if !self.contains(&RegistryKey::Message(tag, kind)) {
                        assert(field_can_fail(s, i as int, kind));
                        return false;
                    }
                },
                None => {},
            }
            let mut ruled = false;
            let mut k: usize = 0;
            while k < store.rule_count()
                invariant
                    k <= s.rules.len(),
                    s == store@,
                    i < s.fields.len(),
                    field@ == s.fields[i as int],
                    ruled == exists|j: int|
                        0 <= j < k && (#[trigger] s.rules[j]).target == s.fields[i as int].path,
                decreases s.rules.len() - k,
            {
                if store.rule(k).target.same(&field.path) {
                    assert(s.rules[k as int].target == s.fields[i as int].path);
                    ruled = true;
                }
                k += 1;
            }
            if ruled && !self.contains(&RegistryKey::Message(tag, ErrorKind::CrossFieldMismatch)) {
                assert(field_can_fail(s, i as int, ErrorKind::CrossFieldMismatch));
                return false;
            }
            i += 1;
        }
        true
    }
}

/// The error that reading a raw input can give for a kind of field.
pub fn own_error_of(tag: TypeTag) -> (r: Option<ErrorKind>)
    ensures
        r == own_error(tag),
{
    match tag {
        TypeTag::Text => None,
        TypeTag::NonEmptyText => Some(ErrorKind::EmptyValue),
        TypeTag::Email => Some(ErrorKind::InvalidFormat),
        TypeTag::Phone => Some(ErrorKind::InvalidFormat),
        TypeTag::FileReference => Some(ErrorKind::InvalidFormat),
        TypeTag::Accepted => Some(ErrorKind::NotAccepted),
        _ => Some(ErrorKind::ParseFailure),
    }
}

/// One text of a catalog.
#[derive(Debug)]
pub struct Translation {
    pub locale: String,
    pub key: String,
    pub text: String,
}

/// The pairs that a list of translations stands for.
pub open spec fn translation_pairs(entries: Seq<Translation>) -> Seq<
    ((Seq<char>, Seq<char>), Seq<char>),
> {
    Seq::new(entries.len(), |i: int| ((entries[i].locale@, entries[i].key@), entries[i].text@))
}

/// The texts of the messages, by language and key.
#[derive(Debug)]
pub struct Catalog {
    entries: Vec<Translation>,
}

impl View for Catalog {
    type V = Map<(Seq<char>, Seq<char>), Seq<char>>;

    closed spec fn view(&self) -> Map<(Seq<char>, Seq<char>), Seq<char>> {
        table_map(translation_pairs(self.entries@))
    }
}

impl Catalog {
    /// A catalog without texts.
    pub fn new() -> (r: Catalog)
        ensures
            r@ == Map::<(Seq<char>, Seq<char>), Seq<char>>::empty(),
    {
        let r = Catalog { entries: Vec::new() };
        proof {
            assert(translation_pairs(r.entries@) =~= Seq::empty());
        }
        r
    }

    /// The position of the first text for `locale` and `key`.
    fn position_of(&self, locale: &str, key: &str) -> (i: usize)
        ensures
            i <= self.entries.len(),
            i == first_pair(translation_pairs(self.entries@), (locale@, key@)),
            i < self.entries.len() <==> self@.dom().contains((locale@, key@)),
            i < self.entries.len() ==> self@[(locale@, key@)] == self.entries[i as int].text@,
    {
        let ghost pairs = translation_pairs(self.entries@);
        let mut i: usize = 0;
        while i < self.entries.len()
            invariant
                i <= self.entries.len(),
                pairs == translation_pairs(self.entries@),
                forall|j: int| 0 <= j < i ==> (#[trigger] pairs[j]).0 != (locale@, key@),
            decreases self.entries.len() - i,
        {
            if same_text(self.entries[i].locale.as_str(), locale) && same_text(
                self.entries[i].key.as_str(),
                key,
            ) {
                proof {
                    lemma_first_pair_is(pairs, (locale@, key@), i as int);
                }
                return i;
            }
            i += 1;
        }
        proof {
            lemma_first_pair_is(pairs, (locale@, key@), self.entries.len() as int);
        }
        i
    }

    /// Whether the catalog holds a text for `key` in the language `locale`.
    pub fn contains(&self, locale: &str, key: &str) -> (r: bool)
        ensures
            r == self@.dom().contains((locale@, key@)),
    {
        self.position_of(locale, key) < self.entries.len()
    }

    /// Adds the text of `key` in the language `locale`. A second text for
    /// the same language and key is refused as a conflict.
    pub fn insert(&mut self, locale: &str, key: &str, text: &str) -> (r: Result<(), RegistryError>)
        ensures
            match r {
                Ok(()) => !old(self)@.dom().contains((locale@, key@)) && final(self)@
                    == old(self)@.insert((locale@, key@), text@),
                Err(e) => e == RegistryError::Conflict && old(self)@.dom().contains(
                    (locale@, key@),
                ) && final(self)@ == old(self)@,
            },
    {
        if self.position_of(locale, key) < self.entries.len() {
            return Err(RegistryError::Conflict);
        }
        let ghost before = translation_pairs(self.entries@);
        self.entries.push(
            Translation { locale: locale.to_owned(), key: key.to_owned(), text: text.to_owned() },
        );
        proof {
            assert(translation_pairs(self.entries@) =~= before.push(((locale@, key@), text@)));
            lemma_table_push(before, (locale@, key@), text@);
        }
        Ok(())
    }

    /// The text of `key` in the language `locale`, or the error where the
    /// catalog has none.
    pub fn lookup(&self, locale: &str, key: &str) -> (r: Result<String, RegistryError>)
        ensures
            match r {
                Ok(text) => self@.dom().contains((locale@, key@)) && text@ == self@[(
                    locale@,
                    key@,
                )],
                Err(e) => e == RegistryError::MissingTranslation && !self@.dom().contains(
                    (locale@, key@),
                ),
            },
    {
        let i = self.position_of(locale, key);
        if i < self.entries.len() {
            Ok(self.entries[i].text.clone())
        } else {
            Err(RegistryError::MissingTranslation)
        }
    }
}

/// The mathematical value of what a lookup of a text gave.
pub open spec fn text_view(r: Result<String, RegistryError>) -> Result<Seq<char>, RegistryError> {
    match r {
        Ok(text) => Ok(text@),
        Err(e) => Err(e),
    }
}

/// The text of what is registered under `key`, in the language `locale`.
///
/// A registered text that is the same in every language is the answer
/// whatever the catalog holds; a registered key is looked up in the
/// catalog. Where nothing is registered, or the catalog has no text under
/// the registered key in that language, the answer is the error.
pub fn localized(
    registry: &ValidationRegistry,
    catalog: &Catalog,
    locale: &str,
    key: &RegistryKey,
) -> (r: Result<String, RegistryError>)
    ensures
        text_view(r) == localized_text(registry@, catalog@, locale@, key@),
{
    match registry.lookup(key) {
        Ok(Message::Fixed(text)) => Ok(text),
        Ok(Message::Key(name)) => catalog.lookup(locale, name.as_str()),
        Err(e) => Err(e),
    }
}

/// The text that tells the user of the error `kind` at a field with the tag
/// `tag`, in the language `locale`.
pub fn localized_message(
    registry: &ValidationRegistry,
    catalog: &Catalog,
    locale: &str,
    tag: TypeTag,
    kind: ErrorKind,
) -> (r: Result<String, RegistryError>)
    ensures
        text_view(r) == localized_text(
            registry@,
            catalog@,
            locale@,
            RegistryKeyView::Message(tag, kind),
        ),
{
    localized(registry, catalog, locale, &RegistryKey::Message(tag, kind))
}

/// The label of a submission state or toolbar action in the language
/// `locale`.
pub fn localized_label(
    registry: &ValidationRegistry,
    catalog: &Catalog,
    locale: &str,
    tag: LabelTag,
) -> (r: Result<String, RegistryError>)
    ensures
        text_view(r) == localized_text(registry@, catalog@, locale@, RegistryKeyView::Label(tag)),
{
    localized(registry, catalog, locale, &RegistryKey::Label(tag))
}

/// The label of one choice of a field of choices in the language `locale`.
pub fn localized_choice(
    registry: &ValidationRegistry,
    catalog: &Catalog,
    locale: &str,
    choice: &str,
) -> (r: Result<String, RegistryError>)
    ensures
        text_view(r) == localized_text(
            registry@,
            catalog@,
            locale@,
            RegistryKeyView::Choice(choice@),
        ),
{
    localized(registry, catalog, locale, &RegistryKey::Choice(choice.to_owned()))
}

/// The label under which a state of the submission is shown. An error has
/// one label, whatever its reason.
pub fn label_of_state(state: &SubmissionState) -> (tag: LabelTag)
    ensures
        tag == state_label(state@),
{
    match state {
        SubmissionState::Initial => LabelTag::SubmitInitial,
        SubmissionState::Pending => LabelTag::SubmitPending,
        SubmissionState::Success => LabelTag::SubmitSuccess,
        SubmissionState::Error(_) => LabelTag::SubmitError,
    }
}

} // verus!
