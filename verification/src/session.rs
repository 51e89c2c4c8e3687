//! A form session: the store, the navigator, the submission pipeline and
//! the repeatable sections of one form, built from its definition.
//!
//! While a submission is pending the values are frozen: every edit is
//! refused. Any edit that is accepted arms the pipeline again.
use vstd::prelude::*;
use crate::pages::{
    goto_view, AdvancePolicy, NavigationError, NavigationErrorView, NavigatorView, PageDescriptor,
    PageNavigator, PageView,
};
use crate::path::{BindingPath, PathView};
use crate::registry::{
    own_error, own_error_of, RegistryKey, RegistryKeyView, RegistryView, ValidationRegistry,
};
use crate::value::{tag_of, ErrorKind, FieldKind, FieldKindView};
use crate::repeat::{
    section_append, section_remove, RepeatableSectionManager, SectionError, SectionView,
};
use crate::rules::{EqualityRule, RuleView};
use crate::store::{
    add_rule_view, create_section_view, empty_store, loaded, positions_among, register_view,
    under_any,
    set_raw_view,
    suggest_view, well_kept, FieldTemplate, FormStateStore, StoreError, StoreView, TemplateView,
};
use crate::value::{FieldValue, FieldValueView};
use crate::submit::{
    finish_answer, outcome_view, state_after_edit, state_after_finish, state_after_submit,
    submit_answer, MetaData, RenderRequest, RenderRequestView, SubmissionPipeline,
    SubmissionStateView, SubmitError, SubmitErrorView,
};
use crate::tree::{distinct_keys, section_entries, sound_tree, Node, NodeView};

verus! {

/// The description of a form: its fields outside repeatable sections, its
/// repeatable sections, the rules between fields, its pages, and whether a
/// move to a later page needs a valid current page.
#[derive(Debug)]
pub struct FormDefinition {
    pub fields: Vec<FieldTemplate>,
    pub sections: Vec<RepeatableSectionManager>,
    pub rules: Vec<EqualityRule>,
    pub pages: Vec<PageDescriptor>,
    pub policy: AdvancePolicy,
}

/// The mathematical value of a [`FormDefinition`].
pub struct DefinitionView {
    pub fields: Seq<TemplateView>,
    pub sections: Seq<SectionView>,
    pub rules: Seq<RuleView>,
    pub pages: Seq<PageView>,
    pub policy: AdvancePolicy,
}

impl View for FormDefinition {
    type V = DefinitionView;

    open spec fn view(&self) -> DefinitionView {
        DefinitionView {
            fields: self.fields@.map_values(|f: FieldTemplate| f@),
            sections: self.sections@.map_values(|m: RepeatableSectionManager| m@),
            rules: self.rules@.map_values(|r: EqualityRule| r@),
            pages: self.pages@.map_values(|p: PageDescriptor| p@),
            policy: self.policy,
        }
    }
}

/// Whether the registry has a message for the error that reading a raw
/// input can give for a field of `kind`.
pub open spec fn kind_covered(registry: RegistryView, kind: FieldKindView) -> bool {
    match own_error(tag_of(kind)) {
        Some(e) => registry.dom().contains(RegistryKeyView::Message(tag_of(kind), e)),
        None => true,
    }
}

/// Whether a rule of the definition stands on the field at `path`.
pub open spec fn is_ruled(d: DefinitionView, path: PathView) -> bool {
    exists|k: int| 0 <= k < d.rules.len() && (#[trigger] d.rules[k]).target == path
}

/// Whether the registry has a message for every error that the field `f`
/// of the definition can be in: the error of its kind, and a mismatch where
/// a rule stands on it.
pub open spec fn field_covered(registry: RegistryView, d: DefinitionView, f: TemplateView) -> bool {
    kind_covered(registry, f.kind) && (is_ruled(d, f.path) ==> registry.dom().contains(
        RegistryKeyView::Message(tag_of(f.kind), ErrorKind::CrossFieldMismatch),
    ))
}

/// Whether the registry has a message for the error of the kind of every
/// field of the template.
pub open spec fn template_covered(registry: RegistryView, template: Seq<TemplateView>) -> bool {
    forall|i: int| 0 <= i < template.len() ==> kind_covered(registry, (#[trigger] template[i]).kind)
}

/// Whether the registry has a message for every error that a field of the
/// form can be in: the fields outside the repeatable sections, and the
/// fields of the entries that the sections will hold.
pub open spec fn definition_covered(registry: RegistryView, d: DefinitionView) -> bool {
    &&& forall|i: int|
        0 <= i < d.fields.len() ==> field_covered(registry, d, #[trigger] d.fields[i])
    &&& forall|m: int|
        0 <= m < d.sections.len() ==> template_covered(
            registry,
            (#[trigger] d.sections[m]).template,
        )
}

/// The store after the fields were registered one after the other, or the
/// reason why the first of them that was refused was refused.
pub open spec fn register_all(s: StoreView, fields: Seq<TemplateView>) -> Result<
    StoreView,
    StoreError,
>
    decreases fields.len(),
{
    if fields.len() == 0 {
        Ok(s)
    } else {
        match register_all(s, fields.drop_last()) {
            Err(e) => Err(e),
            Ok(head) => register_view(
                head,
                fields.last().path,
                fields.last().kind,
                fields.last().required,
            ),
        }
    }
}

/// The store after the sections were made one after the other, or the
/// reason why the first of them that was refused was refused.
pub open spec fn create_all(s: StoreView, sections: Seq<SectionView>) -> Result<
    StoreView,
    StoreError,
>
    decreases sections.len(),
{
    if sections.len() == 0 {
        Ok(s)
    } else {
        match create_all(s, sections.drop_last()) {
            Err(e) => Err(e),
            Ok(head) => create_section_view(head, sections.last().path),
        }
    }
}

/// The store after the rules were added one after the other, or the reason
/// why the first of them that was refused was refused.
pub open spec fn add_all(s: StoreView, rules: Seq<RuleView>) -> Result<StoreView, StoreError>
    decreases rules.len(),
{
    if rules.len() == 0 {
        Ok(s)
    } else {
        match add_all(s, rules.drop_last()) {
            Err(e) => Err(e),
            Ok(head) => add_rule_view(head, rules.last().target, rules.last().other),
        }
    }
}

/// The store of a form as its definition describes it: the fields
/// registered, then the sections made, then the rules added.
pub open spec fn built_store(d: DefinitionView) -> Result<StoreView, StoreError> {
    match register_all(empty_store(), d.fields) {
        Err(e) => Err(e),
        Ok(with_fields) => match create_all(with_fields, d.sections) {
            Err(e) => Err(e),
            Ok(with_sections) => add_all(with_sections, d.rules),
        },
    }
}

/// Once the fields cannot be registered up to some field, they cannot be
/// registered as a whole, for the same reason.
pub proof fn lemma_register_all_fails_on(s: StoreView, fields: Seq<TemplateView>, k: int)
    requires
        0 <= k <= fields.len(),
        register_all(s, fields.take(k)) is Err,
    ensures
        register_all(s, fields) == register_all(s, fields.take(k)),
    decreases fields.len() - k,
{
    if k == fields.len() {
        assert(fields.take(k) =~= fields);
    } else {
        assert(fields.take(k + 1).drop_last() =~= fields.take(k));
        lemma_register_all_fails_on(s, fields, k + 1);
    }
}

/// Once the sections cannot be made up to some section, they cannot be made
/// as a whole, for the same reason.
pub proof fn lemma_create_all_fails_on(s: StoreView, sections: Seq<SectionView>, k: int)
    requires
        0 <= k <= sections.len(),
        create_all(s, sections.take(k)) is Err,
    ensures
        create_all(s, sections) == create_all(s, sections.take(k)),
    decreases sections.len() - k,
{
    if k == sections.len() {
        assert(sections.take(k) =~= sections);
    } else {
        assert(sections.take(k + 1).drop_last() =~= sections.take(k));
        lemma_create_all_fails_on(s, sections, k + 1);
    }
}

/// Once the rules cannot be added up to some rule, they cannot be added as
/// a whole, for the same reason.
pub proof fn lemma_add_all_fails_on(s: StoreView, rules: Seq<RuleView>, k: int)
    requires
        0 <= k <= rules.len(),
        add_all(s, rules.take(k)) is Err,
    ensures
        add_all(s, rules) == add_all(s, rules.take(k)),
    decreases rules.len() - k,
{
    if k == rules.len() {
        assert(rules.take(k) =~= rules);
    } else {
        assert(rules.take(k + 1).drop_last() =~= rules.take(k));
        lemma_add_all_fails_on(s, rules, k + 1);
    }
}

/// Whether the registry has a message for the error of the kind `kind`.
fn kind_is_covered(registry: &ValidationRegistry, kind: &FieldKind) -> (r: bool)
    ensures
        r == kind_covered(registry@, kind@),
{
    let tag = kind.tag();
    match own_error_of(tag) {
        Some(e) => registry.contains(&RegistryKey::Message(tag, e)),
        None => true,
    }
}

/// Whether the registry has a message for the error of the kind of every
/// field of the template.
fn template_is_covered(registry: &ValidationRegistry, template: &Vec<FieldTemplate>) -> (r: bool)
    ensures
        r == template_covered(registry@, template@.map_values(|f: FieldTemplate| f@)),
{
    let ghost views = template@.map_values(|f: FieldTemplate| f@);
    let mut i: usize = 0;
    while i < template.len()
        invariant
            i <= template.len(),
            views == template@.map_values(|f: FieldTemplate| f@),
            forall|j: int| 0 <= j < i ==> kind_covered(registry@, (#[trigger] views[j]).kind),
        decreases template.len() - i,
    {
        if !kind_is_covered(registry, &template[i].kind) {
            assert(!kind_covered(registry@, views[i as int].kind));
            return false;
        }
        i += 1;
    }
    true
}

impl FormDefinition {
    /// Whether a rule of the definition stands on the field at `path`.
    fn has_rule_on(&self, path: &BindingPath) -> (r: bool)
        ensures
            r == is_ruled(self@, path@),
    {
        let ghost rules = self@.rules;
        let mut k: usize = 0;
        while k < self.rules.len()
            invariant
                k <= self.rules.len(),
                rules == self@.rules,
                forall|j: int| 0 <= j < k ==> (#[trigger] rules[j]).target != path@,
            decreases self.rules.len() - k,
        {
            if self.rules[k].target.same(path) {
                assert(rules[k as int].target == path@);
                return true;
            }
            k += 1;
        }
        false
    }

    /// Whether `registry` has a message for every error that a field of
    /// the form can be in, the fields of the entries of its repeatable
    /// sections among them. A form is to be started only where this holds,
    /// so that no error is ever without a message.
    pub fn is_covered_by(&self, registry: &ValidationRegistry) -> (r: bool)
        ensures
            r == definition_covered(registry@, self@),
    {
        let ghost d = self@;
        let mut i: usize = 0;
        while i < self.fields.len()
            invariant
                i <= self.fields.len(),
                d == self@,
                forall|j: int| 0 <= j < i ==> field_covered(registry@, d, #[trigger] d.fields[j]),
            decreases self.fields.len() - i,
        {
            let f = &self.fields[i];
            if !kind_is_covered(registry, &f.kind) {
                assert(!field_covered(registry@, d, d.fields[i as int]));
                return false;
            }
            if self.has_rule_on(&f.path) && !registry.contains(
                &RegistryKey::Message(f.kind.tag(), ErrorKind::CrossFieldMismatch),
            ) {
                assert(!field_covered(registry@, d, d.fields[i as int]));
                return false;
            }
            i += 1;
        }
        let mut m: usize = 0;
        while m < self.sections.len()
            invariant
                m <= self.sections.len(),
                d == self@,
                forall|j: int|
                    0 <= j < d.fields.len() ==> field_covered(registry@, d, #[trigger] d.fields[j]),
                forall|j: int|
                    0 <= j < m ==> template_covered(registry@, (#[trigger] d.sections[j]).template),
            decreases self.sections.len() - m,
        {
            if !template_is_covered(registry, self.sections[m].template()) {
                assert(!template_covered(registry@, d.sections[m as int].template));
                return false;
            }
            m += 1;
        }
        true
    }
}

/// Why a form cannot be started.
#[derive(Debug, Clone, Copy, PartialEq, Eq, Structural)]
pub enum SetupError {
    /// An error that a field of the form can be in has no message.
    MissingTranslation,
    /// The store refused a field, a section or a rule of the definition,
    /// for the reason given.
    Store(StoreError),
}

/// Why a session refuses an edit. A refused edit changes nothing.
#[derive(Debug, Clone, Copy, PartialEq, Eq, Structural)]
pub enum SessionError {
    /// A submission is pending; the values are frozen until it ends.
    Frozen,
    /// The session has no section at the position.
    UnknownSection,
    /// The store refused, for the reason given.
    Store(StoreError),
    /// The section refused, for the reason given.
    Section(SectionError),
}

/// The mathematical value of a [`FormSession`].
pub struct SessionView {
    pub store: StoreView,
    pub navigator: NavigatorView,
    pub state: SubmissionStateView,
    pub sections: Seq<SectionView>,
}

/// The session after `raw` was entered at `path`, or the reason why the
/// input is refused.
pub open spec fn session_set_raw(v: SessionView, path: PathView, raw: Seq<char>) -> Result<
    SessionView,
    SessionError,
> {
    if v.state is Pending {
        Err(SessionError::Frozen)
    } else {
        match set_raw_view(v.store, path, raw) {
            Ok(store) => Ok(SessionView { store, state: state_after_edit(v.state), ..v }),
            Err(e) => Err(SessionError::Store(e)),
        }
    }
}

/// The session after a value was proposed for the field at `path`, or the
/// reason why the proposal is refused. A proposal is no edit by the user
/// and does not arm the pipeline.
pub open spec fn session_suggest(
    v: SessionView,
    path: PathView,
    proposal: Option<FieldValueView>,
) -> Result<SessionView, SessionError> {
    if v.state is Pending {
        Err(SessionError::Frozen)
    } else {
        match suggest_view(v.store, path, proposal) {
            Ok(store) => Ok(SessionView { store, ..v }),
            Err(e) => Err(SessionError::Store(e)),
        }
    }
}

/// The session after the form was filled from `data`, or the reason why it
/// was not. Filling the form is no edit by the user and does not arm the
/// pipeline.
pub open spec fn session_load(v: SessionView, data: NodeView) -> Result<SessionView, SessionError> {
    if v.state is Pending {
        Err(SessionError::Frozen)
    } else {
        Ok(SessionView { store: loaded(v.store, data, v.store.fields.len()), ..v })
    }
}

/// The mathematical value of a proposal.
pub open spec fn proposal_view(proposal: Option<FieldValue>) -> Option<FieldValueView> {
    match proposal {
        Some(v) => Some(v@),
        None => None,
    }
}

/// The session after an entry was added to the section at position
/// `section`, or the reason why none was.
pub open spec fn session_append(v: SessionView, section: nat) -> Result<SessionView, SessionError> {
    if v.state is Pending {
        Err(SessionError::Frozen)
    } else if section >= v.sections.len() {
        Err(SessionError::UnknownSection)
    } else {
        match section_append(v.sections[section as int], v.store) {
            Ok(store) => Ok(SessionView { store, state: state_after_edit(v.state), ..v }),
            Err(e) => Err(SessionError::Section(e)),
        }
    }
}

/// The session after the entry at `index` was taken out of the section at
/// position `section`, or the reason why none was.
pub open spec fn session_remove(v: SessionView, section: nat, index: nat) -> Result<
    SessionView,
    SessionError,
> {
    if v.state is Pending {
        Err(SessionError::Frozen)
    } else if section >= v.sections.len() {
        Err(SessionError::UnknownSection)
    } else {
        match section_remove(v.sections[section as int], v.store, index) {
            Ok(store) => Ok(SessionView { store, state: state_after_edit(v.state), ..v }),
            Err(e) => Err(SessionError::Section(e)),
        }
    }
}

/// The positions in the store of the fields that stand on the page that
/// is shown, in rising order.
pub open spec fn fields_shown(v: SessionView) -> Seq<nat> {
    if v.navigator.current < v.navigator.pages.len() {
        positions_among(v.store.fields, v.navigator.pages[v.navigator.current as int].paths)
    } else {
        Seq::empty()
    }
}

/// The positions of those of `sections` that lie under one of `prefixes`,
/// in rising order.
pub open spec fn sections_among(sections: Seq<SectionView>, prefixes: Seq<PathView>) -> Seq<nat>
    decreases sections.len(),
{
    if sections.len() == 0 {
        Seq::empty()
    } else {
        let head = sections_among(sections.drop_last(), prefixes);
        if under_any(prefixes, sections.last().path) {
            head.push((sections.len() - 1) as nat)
        } else {
            head
        }
    }
}

/// The positions of the repeatable sections that stand on the page that is
/// shown, in rising order.
pub open spec fn sections_shown(v: SessionView) -> Seq<nat> {
    if v.navigator.current < v.navigator.pages.len() {
        sections_among(v.sections, v.navigator.pages[v.navigator.current as int].paths)
    } else {
        Seq::empty()
    }
}

/// One form session.
#[derive(Debug)]
pub struct FormSession {
    store: FormStateStore,
    navigator: PageNavigator,
    pipeline: SubmissionPipeline,
    sections: Vec<RepeatableSectionManager>,
}

impl View for FormSession {
    type V = SessionView;

    closed spec fn view(&self) -> SessionView {
        SessionView {
            store: self.store@,
            navigator: self.navigator@,
            state: self.pipeline@,
            sections: self.sections@.map_values(|m: RepeatableSectionManager| m@),
        }
    }
}

impl FormSession {
    /// Starts a session for the form that `definition` describes: the
    /// fields are registered, each with the raw input that its kind starts
    /// with, the sections are made without entries, and the rules are
    /// added. The first page is shown and nothing is submitted.
    ///
    /// There is no session where the store refuses a field, a section or a
    /// rule; the reason is that of the first refusal.
    pub fn build(definition: FormDefinition) -> (r: Result<FormSession, StoreError>)
        ensures
            match r {
                Ok(session) => built_store(definition@) == Ok::<StoreView, StoreError>(
                    session@.store,
                ) && session@.navigator == (NavigatorView {
                    pages: definition@.pages,
                    current: 0,
                    policy: definition@.policy,
                }) && session@.state == SubmissionStateView::Initial && session@.sections
                    == definition@.sections,
                Err(e) => built_store(definition@) == Err::<StoreView, StoreError>(e),
            },
    {
        let ghost d = definition@;
        let FormDefinition { fields, sections, rules, pages, policy } = definition;
        let mut store = FormStateStore::new();
        let mut i: usize = 0;
        proof {
            assert(d.fields.take(0) =~= Seq::empty());
        }
        while i < fields.len()
            invariant
                i <= fields.len(),
                d == definition@,
                d.fields == fields@.map_values(|f: FieldTemplate| f@),
                register_all(empty_store(), d.fields.take(i as int)) == Ok::<
                    StoreView,
                    StoreError,
                >(store@),
            decreases fields.len() - i,
        {
            proof {
                assert(d.fields.take(i + 1).drop_last() =~= d.fields.take(i as int));
                assert(d.fields.take(i + 1).last() == d.fields[i as int]);
            }
            let f = &fields[i];
            match store.register_field(f.path.clone(), f.kind.clone(), f.required) {
                Ok(()) => {},
                Err(e) => {
                    proof {
                        lemma_register_all_fails_on(empty_store(), d.fields, i + 1);
                    }
                    return Err(e);
                },
            }
            i += 1;
        }
        proof {
            assert(d.fields.take(fields.len() as int) =~= d.fields);
        }
        let ghost with_fields = store@;
        let mut j: usize = 0;
        proof {
            assert(d.sections.take(0) =~= Seq::empty());
        }
        while j < sections.len()
            invariant
                j <= sections.len(),
                d == definition@,
                register_all(empty_store(), d.fields) == Ok::<StoreView, StoreError>(with_fields),
                d.sections == sections@.map_values(|m: RepeatableSectionManager| m@),
                create_all(with_fields, d.sections.take(j as int)) == Ok::<StoreView, StoreError>(
                    store@,
                ),
            decreases sections.len() - j,
        {
            proof {
                assert(d.sections.take(j + 1).drop_last() =~= d.sections.take(j as int));
                assert(d.sections.take(j + 1).last() == d.sections[j as int]);
            }
            match sections[j].attach(&mut store) {
                Ok(()) => {},
                Err(e) => {
                    proof {
                        lemma_create_all_fails_on(with_fields, d.sections, j + 1);
                    }
                    return Err(e);
                },
            }
            j += 1;
        }
        proof {
            assert(d.sections.take(sections.len() as int) =~= d.sections);
        }
        let ghost with_sections = store@;
        let mut k: usize = 0;
        proof {
            assert(d.rules.take(0) =~= Seq::empty());
        }
        while k < rules.len()
            invariant
                k <= rules.len(),
                d == definition@,
                register_all(empty_store(), d.fields) == Ok::<StoreView, StoreError>(with_fields),
                create_all(with_fields, d.sections) == Ok::<StoreView, StoreError>(with_sections),
                d.rules == rules@.map_values(|r: EqualityRule| r@),
                add_all(with_sections, d.rules.take(k as int)) == Ok::<StoreView, StoreError>(
                    store@,
                ),
            decreases rules.len() - k,
        {
            proof {
                assert(d.rules.take(k + 1).drop_last() =~= d.rules.take(k as int));
                assert(d.rules.take(k + 1).last() == d.rules[k as int]);
            }
            match store.register_equality(rules[k].target.clone(), rules[k].other.clone()) {
                Ok(()) => {},
                Err(e) => {
                    proof {
                        lemma_add_all_fails_on(with_sections, d.rules, k + 1);
                    }
                    return Err(e);
                },
            }
            k += 1;
        }
        proof {
            assert(d.rules.take(rules.len() as int) =~= d.rules);
        }
        let navigator = PageNavigator::with_policy(pages, policy);
        Ok(FormSession { store, navigator, pipeline: SubmissionPipeline::new(), sections })
    }

    /// Starts a session for the form that `definition` describes, with the
    /// messages of `registry`.
    ///
    /// The form is not started where an error that one of its fields can
    /// be in has no message in the registry, the fields of its repeatable
    /// sections among them: no error is ever shown without a text. Where
    /// every error has its message, the session is built as `build` builds
    /// it.
    pub fn start(definition: FormDefinition, registry: &ValidationRegistry) -> (r: Result<
        FormSession,
        SetupError,
    >)
        ensures
            match r {
                Ok(session) => definition_covered(registry@, definition@) && built_store(
                    definition@,
                ) == Ok::<StoreView, StoreError>(session@.store) && session@.navigator
                    == (NavigatorView {
                    pages: definition@.pages,
                    current: 0,
                    policy: definition@.policy,
                }) && session@.state == SubmissionStateView::Initial && session@.sections
                    == definition@.sections,
                Err(SetupError::MissingTranslation) => !definition_covered(
                    registry@,
                    definition@,
                ),
                Err(SetupError::Store(e)) => definition_covered(registry@, definition@)
                    && built_store(definition@) == Err::<StoreView, StoreError>(e),
            },
    {
        if !definition.is_covered_by(registry) {
            return Err(SetupError::MissingTranslation);
        }
        match FormSession::build(definition) {
            Ok(session) => Ok(session),
            Err(e) => Err(SetupError::Store(e)),
        }
    }

    /// The store of the session. It is in order.
    pub fn store(&self) -> (r: &FormStateStore)
        ensures
            r@ == self@.store,
            well_kept(r@),
    {
        self.store.is_in_order();
        &self.store
    }

    /// The navigator of the session.
    pub fn navigator(&self) -> (r: &PageNavigator)
        ensures
            r@ == self@.navigator,
    {
        &self.navigator
    }

    /// The submission pipeline of the session.
    pub fn pipeline(&self) -> (r: &SubmissionPipeline)
        ensures
            r@ == self@.state,
    {
        &self.pipeline
    }

    /// The number of repeatable sections.
    pub fn section_count(&self) -> (n: usize)
        ensures
            n == self@.sections.len(),
    {
        self.sections.len()
    }

    /// The manager of the repeatable section at position `i`.
    pub fn section(&self, i: usize) -> (m: &RepeatableSectionManager)
        requires
            i < self@.sections.len(),
        ensures
            m@ == self@.sections[i as int],
    {
        &self.sections[i]
    }

    /// Enters the raw text `raw` at `path`, as the store does, and arms the
    /// pipeline again. While a submission is pending the input is refused.
    pub fn set_raw(&mut self, path: &BindingPath, raw: &str) -> (r: Result<(), SessionError>)
        ensures
            match r {
                Ok(()) => session_set_raw(old(self)@, path@, raw@) == Ok::<
                    SessionView,
                    SessionError,
                >(final(self)@),
                Err(e) => session_set_raw(old(self)@, path@, raw@) == Err::<
                    SessionView,
                    SessionError,
                >(e) && final(self)@ == old(self)@,
            },
    {
        if self.pipeline.is_pending() {
            return Err(SessionError::Frozen);
        }
        match self.store.set_raw(path, raw) {
            Ok(()) => {
                self.pipeline.edited();
                Ok(())
            },
            Err(e) => Err(SessionError::Store(e)),
        }
    }

    /// Takes a value that a lookup outside the form proposes for the field
    /// at `path`, as the store does. While a submission is pending it is
    /// refused.
    pub fn suggest(&mut self, path: &BindingPath, proposal: Option<FieldValue>) -> (r: Result<
        (),
        SessionError,
    >)
        ensures
            match r {
                Ok(()) => session_suggest(old(self)@, path@, proposal_view(proposal)) == Ok::<
                    SessionView,
                    SessionError,
                >(final(self)@),
                Err(e) => session_suggest(old(self)@, path@, proposal_view(proposal)) == Err::<
                    SessionView,
                    SessionError,
                >(e) && final(self)@ == old(self)@,
            },
    {
        if self.pipeline.is_pending() {
            return Err(SessionError::Frozen);
        }
        match self.store.suggest(path, proposal) {
            Ok(()) => Ok(()),
            Err(e) => Err(SessionError::Store(e)),
        }
    }

    /// Fills the form from `data`, such as the values of an earlier
    /// submission, as the store does. While a submission is pending it is
    /// refused.
    pub fn load(&mut self, data: &Node) -> (r: Result<(), SessionError>)
        ensures
            match r {
                Ok(()) => session_load(old(self)@, data@) == Ok::<SessionView, SessionError>(
                    final(self)@,
                ),
                Err(e) => session_load(old(self)@, data@) == Err::<SessionView, SessionError>(e)
                    && final(self)@ == old(self)@,
            },
    {
        if self.pipeline.is_pending() {
            return Err(SessionError::Frozen);
        }
        self.store.load(data);
        Ok(())
    }

    /// Adds a fresh entry to the section at position `section`, as its
    /// manager does, and arms the pipeline again. Returns the position of
    /// the entry. While a submission is pending it is refused.
    pub fn append_entry(&mut self, section: usize) -> (r: Result<u64, SessionError>)
        ensures
            match r {
                Ok(index) => session_append(old(self)@, section as nat) == Ok::<
                    SessionView,
                    SessionError,
                >(final(self)@) && section_entries(
                    old(self)@.store.tree,
                    old(self)@.sections[section as int].path,
                ) is Some && section_entries(
                    old(self)@.store.tree,
                    old(self)@.sections[section as int].path,
                )->0.len() == index,
                Err(e) => session_append(old(self)@, section as nat) == Err::<
                    SessionView,
                    SessionError,
                >(e) && final(self)@ == old(self)@,
            },
    {
        if self.pipeline.is_pending() {
            return Err(SessionError::Frozen);
        }
        if section >= self.sections.len() {
            return Err(SessionError::UnknownSection);
        }
        match self.sections[section].append(&mut self.store) {
            Ok(index) => {
                self.pipeline.edited();
                Ok(index)
            },
            Err(e) => Err(SessionError::Section(e)),
        }
    }

    /// Takes the entry at `index` out of the section at position
    /// `section`, as its manager does, and arms the pipeline again. While a
    /// submission is pending it is refused.
    pub fn remove_entry(&mut self, section: usize, index: u64) -> (r: Result<(), SessionError>)
        ensures
            match r {
                Ok(()) => session_remove(old(self)@, section as nat, index as nat) == Ok::<
                    SessionView,
                    SessionError,
                >(final(self)@),
                Err(e) => session_remove(old(self)@, section as nat, index as nat) == Err::<
                    SessionView,
                    SessionError,
                >(e) && final(self)@ == old(self)@,
            },
    {
        if self.pipeline.is_pending() {
            return Err(SessionError::Frozen);
        }
        if section >= self.sections.len() {
            return Err(SessionError::UnknownSection);
        }
        match self.sections[section].remove(&mut self.store, index) {
            Ok(()) => {
                self.pipeline.edited();
                Ok(())
            },
            Err(e) => Err(SessionError::Section(e)),
        }
    }

    /// Asks the navigator for the page at position `target`.
    pub fn goto(&mut self, target: usize) -> (r: Result<(), NavigationError>)
        ensures
            final(self)@.store == old(self)@.store,
            final(self)@.state == old(self)@.state,
            final(self)@.sections == old(self)@.sections,
            final(self)@.navigator.pages == old(self)@.navigator.pages,
            final(self)@.navigator.policy == old(self)@.navigator.policy,
            match r {
                Ok(()) => goto_view(old(self)@.navigator, old(self)@.store, target as nat) == Ok::<
                    nat,
                    NavigationErrorView,
                >(final(self)@.navigator.current),
                Err(e) => goto_view(old(self)@.navigator, old(self)@.store, target as nat) == Err::<
                    nat,
                    NavigationErrorView,
                >(e@) && final(self)@.navigator.current == old(self)@.navigator.current,
            },
    {
        self.navigator.goto(target, &self.store)
    }

    /// Asks the navigator for the page after the current one.
    pub fn next(&mut self) -> (r: Result<(), NavigationError>)
        ensures
            final(self)@.store == old(self)@.store,
            final(self)@.state == old(self)@.state,
            final(self)@.sections == old(self)@.sections,
            final(self)@.navigator.pages == old(self)@.navigator.pages,
            final(self)@.navigator.policy == old(self)@.navigator.policy,
            match r {
                Ok(()) => goto_view(
                    old(self)@.navigator,
                    old(self)@.store,
                    old(self)@.navigator.current + 1,
                ) == Ok::<nat, NavigationErrorView>(final(self)@.navigator.current),
                Err(e) => goto_view(
                    old(self)@.navigator,
                    old(self)@.store,
                    old(self)@.navigator.current + 1,
                ) == Err::<nat, NavigationErrorView>(e@) && final(self)@.navigator.current
                    == old(self)@.navigator.current,
            },
    {
        self.navigator.next(&self.store)
    }

    /// Shows the page before the current one, if there is one.
    pub fn prev(&mut self)
        ensures
            final(self)@ == (SessionView {
                navigator: NavigatorView {
                    current: if old(self)@.navigator.current > 0 {
                        (old(self)@.navigator.current - 1) as nat
                    } else {
                        0
                    },
                    ..old(self)@.navigator
                },
                ..old(self)@
            }),
    {
        self.navigator.prev()
    }

    /// The positions in the store of the fields that stand on the page that
    /// is shown: those that lie under one of the page's paths, in the order
    /// in which they were registered. There is none where there is no page.
    pub fn fields_on_page(&self) -> (r: Vec<usize>)
        ensures
            r@.map_values(|i: usize| i as nat) == fields_shown(self@),
            forall|k: int| 0 <= k < r.len() ==> (#[trigger] r[k]) < self@.store.fields.len(),
    {
        let current = self.navigator.current_index();
        if current < self.navigator.len() {
            self.store.fields_under_any(&self.navigator.page(current).paths)
        } else {
            let r: Vec<usize> = Vec::new();
            proof {
                assert(r@.map_values(|i: usize| i as nat) =~= Seq::empty());
            }
            r
        }
    }

    /// The positions of the repeatable sections that stand on the page
    /// that is shown: those whose path lies under one of the page's paths.
    /// There is none where there is no page.
    pub fn sections_on_page(&self) -> (r: Vec<usize>)
        ensures
            r@.map_values(|i: usize| i as nat) == sections_shown(self@),
            forall|k: int| 0 <= k < r.len() ==> (#[trigger] r[k]) < self@.sections.len(),
    {
        let mut found: Vec<usize> = Vec::new();
        let current = self.navigator.current_index();
        proof {
            assert(found@.map_values(|i: usize| i as nat) =~= Seq::empty());
        }
        if current >= self.navigator.len() {
            return found;
        }
        let prefixes = &self.navigator.page(current).paths;
        let ghost sections = self@.sections;
        let ghost views = prefixes@.map_values(|p: BindingPath| p@);
        let mut i: usize = 0;
        proof {
            assert(sections.take(0) =~= Seq::empty());
        }
        while i < self.sections.len()
            invariant
                i <= self.sections.len(),
                sections == self@.sections,
                views == prefixes@.map_values(|p: BindingPath| p@),
                found@.map_values(|i: usize| i as nat) == sections_among(
                    sections.take(i as int),
                    views,
                ),
                forall|k: int| 0 <= k < found.len() ==> (#[trigger] found[k]) < i,
            decreases self.sections.len() - i,
        {
            proof {
                assert(sections.take(i + 1).drop_last() =~= sections.take(i as int));
                assert(sections.take(i + 1).last() == sections[i as int]);
            }
            if FormStateStore::lies_under(prefixes, self.sections[i].path()) {
                let ghost before = found@.map_values(|i: usize| i as nat);
                found.push(i);
                proof {
                    assert(found@.map_values(|i: usize| i as nat) =~= before.push(i as nat));
                }
            }
            i += 1;
        }
        proof {
            assert(sections.take(self.sections.len() as int) =~= sections);
        }
        found
    }

    /// Submits the form, as the pipeline does.
    pub fn submit(&mut self, meta: MetaData) -> (r: Result<RenderRequest, SubmitError>)
        ensures
            final(self)@ == (SessionView {
                state: state_after_submit(old(self)@.state, old(self)@.store),
                ..old(self)@
            }),
            match r {
                Ok(request) => submit_answer(old(self)@.state, old(self)@.store, meta@) == Ok::<
                    RenderRequestView,
                    SubmitErrorView,
                >(request@) && sound_tree(request@.form_data) && distinct_keys(
                    request@.form_data,
                ),
                Err(e) => submit_answer(old(self)@.state, old(self)@.store, meta@) == Err::<
                    RenderRequestView,
                    SubmitErrorView,
                >(e@),
            },
    {
        self.pipeline.submit(&self.store, meta)
    }

    /// Reports what the renderer answered, as the pipeline does.
    pub fn finish(&mut self, outcome: Result<String, String>) -> (r: Option<
        Result<String, SubmitError>,
    >)
        ensures
            final(self)@ == (SessionView {
                state: state_after_finish(old(self)@.state, outcome_view(outcome)),
                ..old(self)@
            }),
            match r {
                Some(Ok(locator)) => finish_answer(old(self)@.state, outcome_view(outcome))
                    == Some(Ok::<Seq<char>, SubmitErrorView>(locator@)),
                Some(Err(e)) => finish_answer(old(self)@.state, outcome_view(outcome)) == Some(
                    Err::<Seq<char>, SubmitErrorView>(e@),
                ),
                None => finish_answer(old(self)@.state, outcome_view(outcome)) is None,
            },
    {
        self.pipeline.finish(outcome)
    }
}

/// While a submission is pending, no input, no new entry and no removal is
/// accepted: the values that went to the renderer stay as they are.
pub proof fn lemma_pending_session_is_frozen(
    v: SessionView,
    path: PathView,
    raw: Seq<char>,
    section: nat,
    index: nat,
)
    requires
        v.state is Pending,
    ensures
        session_set_raw(v, path, raw) == Err::<SessionView, SessionError>(SessionError::Frozen),
        forall|proposal: Option<FieldValueView>| #[trigger]
            session_suggest(v, path, proposal) == Err::<SessionView, SessionError>(
                SessionError::Frozen,
            ),
        forall|data: NodeView| #[trigger]
            session_load(v, data) == Err::<SessionView, SessionError>(SessionError::Frozen),
        session_append(v, section) == Err::<SessionView, SessionError>(SessionError::Frozen),
        session_remove(v, section, index) == Err::<SessionView, SessionError>(
            SessionError::Frozen,
        ),
{
}

} // verus!
