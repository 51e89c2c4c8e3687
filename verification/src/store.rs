//! The form state store: the tree of committed values, and for every
//! registered field the raw text and the error of an input that failed.
use vstd::prelude::*;
use crate::path::{is_prefix, BindingPath, PathView, Segment, SegmentView};
use crate::rules::{closes_circle, would_close_circle, EqualityRule, RuleView};
use crate::tree::{
    distinct_keys, edit_list_view, lemma_edit_list_distinct, lemma_edit_list_possible,
    lemma_edit_list_sound, lemma_plant_at_path, lemma_plant_distinct, lemma_plant_sound,
    lemma_sound_below, plant_view, section_entries, sound_tree, value_at, ListEdit, ListEditView,
    Node, NodeView,
};
use crate::value::{
    default_raw, is_sound, is_valid, lemma_valid_is_sound, parse_value, ErrorKind, FieldKind,
    FieldKindView, FieldValue, FieldValueView,
};

verus! {

/// What the store keeps of one registered field.
#[derive(Debug)]
pub struct FieldState {
    pub path: BindingPath,
    pub kind: FieldKind,
    /// Whether the form is incomplete while the field has no value.
    pub required: bool,
    /// The raw text of the last input, while that input is in error.
    pub pending: Option<String>,
    /// The error of the last input, while that input is in error.
    pub error: Option<ErrorKind>,
}

/// The mathematical value of a [`FieldState`].
pub struct FieldView {
    pub path: PathView,
    pub kind: FieldKindView,
    pub required: bool,
    pub pending: Option<Seq<char>>,
    pub error: Option<ErrorKind>,
}

impl View for FieldState {
    type V = FieldView;

    open spec fn view(&self) -> FieldView {
        FieldView {
            path: self.path@,
            kind: self.kind@,
            required: self.required,
            pending: match self.pending {
                Some(raw) => Some(raw@),
                None => None,
            },
            error: self.error,
        }
    }
}

/// An error that stands at a path.
#[derive(Debug)]
pub struct ValidationError {
    pub path: BindingPath,
    pub kind: ErrorKind,
}

/// The mathematical value of a [`ValidationError`].
pub struct ValidationErrorView {
    pub path: PathView,
    pub kind: ErrorKind,
}

impl View for ValidationError {
    type V = ValidationErrorView;

    open spec fn view(&self) -> ValidationErrorView {
        ValidationErrorView { path: self.path@, kind: self.kind }
    }
}

/// Why the store refuses an operation. A refused operation changes nothing.
#[derive(Debug, Clone, Copy, PartialEq, Eq, Structural)]
pub enum StoreError {
    /// No field is registered at the path.
    UnknownField,
    /// A field is already registered at the path.
    DuplicateField,
    /// The tree has no place for a value at the path: the path runs through
    /// a leaf, names an entry that its section does not have, or ends on a
    /// group or a section.
    PathBlocked,
    /// The rule would make a field depend on itself, directly or through
    /// another rule.
    CyclicRule,
    /// The path does not lead to a repeatable section.
    NotASection,
    /// The section has no entry at the position.
    NoSuchEntry,
}

/// The mathematical value of a [`FormStateStore`].
pub struct StoreView {
    pub tree: NodeView,
    pub fields: Seq<FieldView>,
    pub rules: Seq<RuleView>,
}

/// The position of the first field registered at `path`, or the number of
/// fields where there is none.
pub open spec fn field_index(fields: Seq<FieldView>, path: PathView) -> int
    decreases fields.len(),
{
    if fields.len() == 0 {
        0
    } else if fields[0].path == path {
        0
    } else {
        1 + field_index(fields.drop_first(), path)
    }
}

/// `field_index` gives the least position that holds the path.
pub proof fn lemma_field_index(fields: Seq<FieldView>, path: PathView)
    ensures
        0 <= field_index(fields, path) <= fields.len(),
        field_index(fields, path) < fields.len() ==> fields[field_index(fields, path)].path
            == path,
        forall|j: int| 0 <= j < field_index(fields, path) ==> (#[trigger] fields[j]).path != path,
    decreases fields.len(),
{
    if fields.len() > 0 && fields[0].path != path {
        let rest = fields.drop_first();
        lemma_field_index(rest, path);
        assert forall|j: int| 0 <= j < field_index(fields, path) implies (#[trigger] fields[j]).path
            != path by {
            if j > 0 {
                assert(fields[j] == rest[j - 1]);
            }
        }
    }
}

/// The first position that holds the path is what `field_index` gives.
pub proof fn lemma_field_index_is(fields: Seq<FieldView>, path: PathView, i: int)
    requires
        0 <= i <= fields.len(),
        i < fields.len() ==> fields[i].path == path,
        forall|j: int| 0 <= j < i ==> (#[trigger] fields[j]).path != path,
    ensures
        field_index(fields, path) == i,
{
    lemma_field_index(fields, path);
    let f = field_index(fields, path);
    if f < i {
        assert(fields[f].path != path);
    }
}

/// Whether a field is registered at `path`.
pub open spec fn is_registered(s: StoreView, path: PathView) -> bool {
    field_index(s.fields, path) < s.fields.len()
}

/// Whether the two sides of a rule differ: one is absent and the other is
/// not, or both are there and are not the same value.
pub open spec fn rule_broken(tree: NodeView, rule: RuleView) -> bool {
    value_at(tree, rule.target) != value_at(tree, rule.other)
}

/// Whether some rule on `path` is broken.
pub open spec fn has_mismatch(tree: NodeView, rules: Seq<RuleView>, path: PathView) -> bool {
    exists|i: int| 0 <= i < rules.len() && (#[trigger] rules[i]).target == path && rule_broken(
        tree,
        rules[i],
    )
}

/// The error that stands at a field: the error of its last input, or else
/// a mismatch where a rule on it is broken.
pub open spec fn field_error(s: StoreView, f: FieldView) -> Option<ErrorKind> {
    match f.error {
        Some(e) => Some(e),
        None => if has_mismatch(s.tree, s.rules, f.path) {
            Some(ErrorKind::CrossFieldMismatch)
        } else {
            None
        },
    }
}

/// The error that stands at `path`, if a field is registered there and is
/// in error.
pub open spec fn error_at(s: StoreView, path: PathView) -> Option<ErrorKind> {
    let i = field_index(s.fields, path);
    if i < s.fields.len() {
        field_error(s, s.fields[i])
    } else {
        None
    }
}

/// The raw text that is held at `path`, if a field is registered there and
/// its last input is in error.
pub open spec fn pending_at(s: StoreView, path: PathView) -> Option<Seq<char>> {
    let i = field_index(s.fields, path);
    if i < s.fields.len() {
        s.fields[i].pending
    } else {
        None
    }
}

/// The errors of those of `fields` that lie under `prefix`, in the order of
/// the fields.
pub open spec fn errors_among(s: StoreView, fields: Seq<FieldView>, prefix: PathView) -> Seq<
    ValidationErrorView,
>
    decreases fields.len(),
{
    if fields.len() == 0 {
        Seq::empty()
    } else {
        let head = errors_among(s, fields.drop_last(), prefix);
        let f = fields.last();
        match field_error(s, f) {
            Some(kind) => if is_prefix(prefix, f.path) {
                head.push(ValidationErrorView { path: f.path, kind })
            } else {
                head
            },
            None => head,
        }
    }
}

/// The errors that stand under `prefix`, in the order in which their fields
/// were registered.
pub open spec fn errors_under_view(s: StoreView, prefix: PathView) -> Seq<ValidationErrorView> {
    errors_among(s, s.fields, prefix)
}

/// The errors of those of `fields` that lie under one of `prefixes`, in
/// the order of the fields.
pub open spec fn blocking_among(
    s: StoreView,
    fields: Seq<FieldView>,
    prefixes: Seq<PathView>,
) -> Seq<ValidationErrorView>
    decreases fields.len(),
{
    if fields.len() == 0 {
        Seq::empty()
    } else {
        let head = blocking_among(s, fields.drop_last(), prefixes);
        let f = fields.last();
        match field_error(s, f) {
            Some(kind) => if under_any(prefixes, f.path) {
                head.push(ValidationErrorView { path: f.path, kind })
            } else {
                head
            },
            None => head,
        }
    }
}

/// The errors that stand under one of `prefixes`, each once, in the order
/// in which their fields were registered.
pub open spec fn blocking_errors(s: StoreView, prefixes: Seq<PathView>) -> Seq<
    ValidationErrorView,
> {
    blocking_among(s, s.fields, prefixes)
}

/// Whether a field stands in nobody's way: no error stands at it, and it
/// has a committed value if it is required.
pub open spec fn field_settled(s: StoreView, f: FieldView) -> bool {
    field_error(s, f) is None && (f.required ==> value_at(s.tree, f.path) is Some)
}

/// Whether `path` lies under one of `prefixes`.
pub open spec fn under_any(prefixes: Seq<PathView>, path: PathView) -> bool {
    exists|i: int| 0 <= i < prefixes.len() && is_prefix(#[trigger] prefixes[i], path)
}

/// The positions of those of `fields` that lie under one of `prefixes`, in
/// rising order.
pub open spec fn positions_among(fields: Seq<FieldView>, prefixes: Seq<PathView>) -> Seq<nat>
    decreases fields.len(),
{
    if fields.len() == 0 {
        Seq::empty()
    } else {
        let head = positions_among(fields.drop_last(), prefixes);
        if under_any(prefixes, fields.last().path) {
            head.push((fields.len() - 1) as nat)
        } else {
            head
        }
    }
}

/// Every position that `positions_among` gives is the position of a field.
pub proof fn lemma_positions_in_range(fields: Seq<FieldView>, prefixes: Seq<PathView>)
    ensures
        forall|k: int|
            0 <= k < positions_among(fields, prefixes).len() ==> (#[trigger] positions_among(
                fields,
                prefixes,
            )[k]) < fields.len() && under_any(
                prefixes,
                fields[positions_among(fields, prefixes)[k] as int].path,
            ),
    decreases fields.len(),
{
    if fields.len() > 0 {
        let init = fields.drop_last();
        lemma_positions_in_range(init, prefixes);
        let head = positions_among(init, prefixes);
        let all = positions_among(fields, prefixes);
        assert forall|k: int| 0 <= k < all.len() implies (#[trigger] all[k]) < fields.len()
            && under_any(prefixes, fields[all[k] as int].path) by {
            if k < head.len() {
                assert(all[k] == head[k]);
                assert(init[head[k] as int] == fields[head[k] as int]);
            }
        }
    }
}

/// Whether every field under one of `prefixes` is settled.
pub open spec fn valid_under(s: StoreView, prefixes: Seq<PathView>) -> bool {
    forall|i: int|
        0 <= i < s.fields.len() && under_any(prefixes, (#[trigger] s.fields[i]).path)
            ==> field_settled(s, s.fields[i])
}

/// Whether every field of the form is settled.
pub open spec fn all_valid(s: StoreView) -> bool {
    forall|i: int| 0 <= i < s.fields.len() ==> field_settled(s, #[trigger] s.fields[i])
}

/// The state of a field after `raw` was entered into it and read as
/// `outcome`: a value clears the held text and error, an error is held
/// with the text.
pub open spec fn field_after_input(
    f: FieldView,
    raw: Seq<char>,
    outcome: Result<FieldValueView, ErrorKind>,
) -> FieldView {
    match outcome {
        Ok(_) => FieldView { pending: None, error: None, ..f },
        Err(e) => FieldView { pending: Some(raw), error: Some(e), ..f },
    }
}

/// The tree after `raw` was entered at `path` and read as `outcome`: a
/// value is committed, an error leaves the tree as it is. There is no tree
/// where the value cannot be placed.
pub open spec fn tree_after_input(
    tree: NodeView,
    path: PathView,
    outcome: Result<FieldValueView, ErrorKind>,
) -> Option<NodeView> {
    match outcome {
        Ok(value) => plant_view(tree, path, NodeView::Leaf(value)),
        Err(_) => Some(tree),
    }
}

/// The store after `raw` was entered at `path`, or the reason why the
/// input is refused.
pub open spec fn set_raw_view(s: StoreView, path: PathView, raw: Seq<char>) -> Result<
    StoreView,
    StoreError,
> {
    let i = field_index(s.fields, path);
    if i >= s.fields.len() {
        Err(StoreError::UnknownField)
    } else {
        let outcome = parse_value(s.fields[i].kind, raw);
        match tree_after_input(s.tree, path, outcome) {
            Some(tree) => Ok(
                StoreView {
                    tree,
                    fields: s.fields.update(i, field_after_input(s.fields[i], raw, outcome)),
                    rules: s.rules,
                },
            ),
            None => Err(StoreError::PathBlocked),
        }
    }
}

/// The store after a field was registered at `path` and given the raw
/// input that its kind starts with, or the reason why the registration is
/// refused.
pub open spec fn register_view(
    s: StoreView,
    path: PathView,
    kind: FieldKindView,
    required: bool,
) -> Result<StoreView, StoreError> {
    if is_registered(s, path) {
        Err(StoreError::DuplicateField)
    } else {
        let raw = default_raw(kind);
        let outcome = parse_value(kind, raw);
        let blank = FieldView { path, kind, required, pending: None, error: None };
        match tree_after_input(s.tree, path, outcome) {
            Some(tree) => Ok(
                StoreView {
                    tree,
                    fields: s.fields.push(field_after_input(blank, raw, outcome)),
                    rules: s.rules,
                },
            ),
            None => Err(StoreError::PathBlocked),
        }
    }
}

/// The store after a value was proposed for the field at `path` by a
/// lookup outside the form.
///
/// No proposal, or a proposal that the field's kind does not accept,
/// changes nothing: it is no error. A proposal that the kind accepts is
/// committed as a good input is. The proposal is refused where no field is
/// registered at the path or the tree has no place for the value.
pub open spec fn suggest_view(
    s: StoreView,
    path: PathView,
    proposal: Option<FieldValueView>,
) -> Result<StoreView, StoreError> {
    let i = field_index(s.fields, path);
    if i >= s.fields.len() {
        Err(StoreError::UnknownField)
    } else {
        match proposal {
            None => Ok(s),
            Some(value) => if !is_valid(s.fields[i].kind, value) {
                Ok(s)
            } else {
                match plant_view(s.tree, path, NodeView::Leaf(value)) {
                    Some(tree) => Ok(
                        StoreView {
                            tree,
                            fields: s.fields.update(
                                i,
                                FieldView { pending: None, error: None, ..s.fields[i] },
                            ),
                            rules: s.rules,
                        },
                    ),
                    None => Err(StoreError::PathBlocked),
                }
            },
        }
    }
}

/// The store after the first `count` fields were offered what `data` holds
/// at their paths, one after the other, each as a proposal: a value that
/// the field's kind accepts is committed, and anything else is passed over.
pub open spec fn loaded(s: StoreView, data: NodeView, count: nat) -> StoreView
    decreases count,
{
    if count == 0 {
        s
    } else {
        let before = loaded(s, data, (count - 1) as nat);
        let path = s.fields[count - 1].path;
        match suggest_view(before, path, value_at(data, path)) {
            Ok(after) => after,
            Err(_) => before,
        }
    }
}

/// Offering values to fields leaves the fields where they are.
pub proof fn lemma_loaded_keeps_paths(s: StoreView, data: NodeView, count: nat)
    requires
        count <= s.fields.len(),
    ensures
        loaded(s, data, count).fields.len() == s.fields.len(),
        forall|j: int|
            0 <= j < s.fields.len() ==> (#[trigger] loaded(s, data, count).fields[j]).path
                == s.fields[j].path,
        loaded(s, data, count).rules == s.rules,
    decreases count,
{
    if count > 0 {
        lemma_loaded_keeps_paths(s, data, (count - 1) as nat);
        let before = loaded(s, data, (count - 1) as nat);
        let path = s.fields[count - 1].path;
        lemma_field_index(before.fields, path);
    }
}

/// The store after a rule was added that makes the error at `target`
/// depend on the value at `other`, or the reason why the rule is refused.
pub open spec fn add_rule_view(s: StoreView, target: PathView, other: PathView) -> Result<
    StoreView,
    StoreError,
> {
    if !is_registered(s, target) || !is_registered(s, other) {
        Err(StoreError::UnknownField)
    } else if closes_circle(s.rules, target, other) {
        Err(StoreError::CyclicRule)
    } else {
        Ok(StoreView { rules: s.rules.push(RuleView { target, other }), ..s })
    }
}

/// The store after an empty repeatable section was made at `path`, or the
/// reason why there is none.
pub open spec fn create_section_view(s: StoreView, path: PathView) -> Result<
    StoreView,
    StoreError,
> {
    match plant_view(s.tree, path, NodeView::List(Seq::empty())) {
        Some(tree) => Ok(StoreView { tree, ..s }),
        None => Err(StoreError::PathBlocked),
    }
}

/// One field of the entries of a repeatable section: its path inside an
/// entry, its kind, and whether it is required.
#[derive(Debug)]
pub struct FieldTemplate {
    pub path: BindingPath,
    pub kind: FieldKind,
    pub required: bool,
}

/// The mathematical value of a [`FieldTemplate`].
pub struct TemplateView {
    pub path: PathView,
    pub kind: FieldKindView,
    pub required: bool,
}

impl View for FieldTemplate {
    type V = TemplateView;

    open spec fn view(&self) -> TemplateView {
        TemplateView { path: self.path@, kind: self.kind@, required: self.required }
    }
}

/// The store without fields.
pub open spec fn empty_store() -> StoreView {
    StoreView { tree: NodeView::Group(Seq::empty()), fields: Seq::empty(), rules: Seq::empty() }
}

/// A fresh entry seen as a store of its own: the fields of the template
/// registered one after the other, each with the raw input that its kind
/// starts with.
pub open spec fn entry_state(template: Seq<TemplateView>) -> Result<StoreView, StoreError>
    decreases template.len(),
{
    if template.len() == 0 {
        Ok(empty_store())
    } else {
        match entry_state(template.drop_last()) {
            Err(e) => Err(e),
            Ok(s) => register_view(
                s,
                template.last().path,
                template.last().kind,
                template.last().required,
            ),
        }
    }
}

/// The fields with `base` put in front of their paths.
pub open spec fn moved_under(fields: Seq<FieldView>, base: PathView) -> Seq<FieldView> {
    Seq::new(fields.len(), |i: int| FieldView { path: base + fields[i].path, ..fields[i] })
}

/// The store after a fresh entry was added at the end of the section at
/// `section`, or the reason why there is none. The fields of the entry are
/// registered behind all others, under the entry's position; it is refused
/// where a field is registered there already.
pub open spec fn append_view(
    s: StoreView,
    section: PathView,
    template: Seq<TemplateView>,
) -> Result<StoreView, StoreError> {
    match entry_state(template) {
        Err(e) => Err(e),
        Ok(entry) => match section_entries(s.tree, section) {
            None => Err(StoreError::NotASection),
            Some(items) => if any_under(
                s.fields,
                section.push(SegmentView::Indexed(items.len())),
            ) {
                Err(StoreError::DuplicateField)
            } else {
                match edit_list_view(s.tree, section, ListEditView::Push(entry.tree)) {
                    None => Err(StoreError::NotASection),
                    Some(tree) => Ok(
                        StoreView {
                            tree,
                            fields: s.fields + moved_under(
                                entry.fields,
                                section.push(SegmentView::Indexed(items.len())),
                            ),
                            rules: s.rules,
                        },
                    ),
                }
            },
        },
    }
}

/// Where a path leads after the entry at `index` was taken out of the
/// section at `section`: nowhere if it led into that entry, one position
/// down if it led into a later entry, and where it led before otherwise.
pub open spec fn shifted_path(path: PathView, section: PathView, index: nat) -> Option<PathView> {
    if is_prefix(section, path) && path.len() > section.len() {
        match path[section.len() as int] {
            SegmentView::Indexed(j) => if j == index {
                None
            } else if j > index {
                Some(path.update(section.len() as int, SegmentView::Indexed((j - 1) as nat)))
            } else {
                Some(path)
            },
            SegmentView::Named(_) => Some(path),
        }
    } else {
        Some(path)
    }
}

/// The fields after the entry at `index` was taken out of the section at
/// `section`: those of that entry are gone, those of later entries stand one
/// position down, and the order is kept.
pub open spec fn shifted_fields(fields: Seq<FieldView>, section: PathView, index: nat) -> Seq<
    FieldView,
>
    decreases fields.len(),
{
    if fields.len() == 0 {
        Seq::empty()
    } else {
        let head = shifted_fields(fields.drop_last(), section, index);
        match shifted_path(fields.last().path, section, index) {
            Some(path) => head.push(FieldView { path, ..fields.last() }),
            None => head,
        }
    }
}

/// The rules after the entry at `index` was taken out of the section at
/// `section`: a rule with a side in that entry is gone, the sides of the
/// other rules lead where their fields moved, and the order is kept.
pub open spec fn shifted_rules(rules: Seq<RuleView>, section: PathView, index: nat) -> Seq<
    RuleView,
>
    decreases rules.len(),
{
    if rules.len() == 0 {
        Seq::empty()
    } else {
        let head = shifted_rules(rules.drop_last(), section, index);
        match (
            shifted_path(rules.last().target, section, index),
            shifted_path(rules.last().other, section, index),
        ) {
            (Some(target), Some(other)) => head.push(RuleView { target, other }),
            _ => head,
        }
    }
}

/// The store after the entry at `index` was taken out of the section at
/// `section`, or the reason why there is none. Fields and rules follow the
/// entries: what stood in the entry is gone, and what stood in a later
/// entry stands one position down.
pub open spec fn remove_view(s: StoreView, section: PathView, index: nat) -> Result<
    StoreView,
    StoreError,
> {
    match section_entries(s.tree, section) {
        None => Err(StoreError::NotASection),
        Some(items) => match edit_list_view(s.tree, section, ListEditView::Remove(index)) {
            None => Err(StoreError::NoSuchEntry),
            Some(tree) => Ok(
                StoreView {
                    tree,
                    fields: shifted_fields(s.fields, section, index),
                    rules: shifted_rules(s.rules, section, index),
                },
            ),
        },
    }
}

impl FieldState {
    /// A copy of this state that stands at `path`.
    pub fn moved_to(&self, path: BindingPath) -> (r: FieldState)
        ensures
            r@ == (FieldView { path: path@, ..self@ }),
    {
        FieldState {
            path,
            kind: self.kind.clone(),
            required: self.required,
            pending: match &self.pending {
                Some(raw) => Some(raw.clone()),
                None => None,
            },
            error: self.error,
        }
    }
}

/// Where `path` leads after the entry at `index` was taken out of the
/// section at `section`, if it still leads anywhere.
pub fn shift_path(path: &BindingPath, section: &BindingPath, index: u64) -> (r: Option<
    BindingPath,
>)
    ensures
        match r {
            Some(p) => shifted_path(path@, section@, index as nat) == Some(p@),
            None => shifted_path(path@, section@, index as nat) is None,
        },
{
    let depth = section.len();
    if path.starts_with(section) && path.len() > depth {
        match path.segment(depth) {
            Segment::Indexed(j) => {
                if *j == index {
                    None
                } else if *j > index {
                    Some(path.with_segment(depth, Segment::Indexed(*j - 1)))
                } else {
                    Some(path.clone())
                }
            },
            Segment::Named(_) => Some(path.clone()),
        }
    } else {
        Some(path.clone())
    }
}

/// Whether a field holds a text exactly while it holds an error: the text
/// of an input is kept beside its error and dropped with it.
pub open spec fn held_with_error(f: FieldView) -> bool {
    f.pending is Some <==> f.error is Some
}

/// Whether no two of the fields stand at one path.
pub open spec fn distinct_paths(fields: Seq<FieldView>) -> bool {
    forall|i: int, j: int|
        0 <= i < j < fields.len() ==> (#[trigger] fields[i]).path != (#[trigger] fields[j]).path
}

/// Whether one of the fields stands at `base` or below it.
pub open spec fn any_under(fields: Seq<FieldView>, base: PathView) -> bool {
    exists|i: int| 0 <= i < fields.len() && is_prefix(base, (#[trigger] fields[i]).path)
}

/// Whether a store is in order: every value in the tree keeps the promise
/// of its variant, no group holds two children under one key, no two
/// fields stand at one path, and every field holds a text exactly while it
/// holds an error.
pub open spec fn well_kept(s: StoreView) -> bool {
    &&& sound_tree(s.tree)
    &&& distinct_keys(s.tree)
    &&& distinct_paths(s.fields)
    &&& forall|i: int| 0 <= i < s.fields.len() ==> held_with_error(#[trigger] s.fields[i])
}

/// The tree of values, the registered fields and the rules between them.
///
/// A store is always in order: nothing but what was read from an input as
/// a value of a field's kind, or proposed and found valid, is ever
/// committed, and a text is held exactly as long as its error.
#[derive(Debug)]
pub struct FormStateStore {
    root: Node,
    fields: Vec<FieldState>,
    rules: Vec<EqualityRule>,
}

impl View for FormStateStore {
    type V = StoreView;

    closed spec fn view(&self) -> StoreView {
        StoreView {
            tree: self.root@,
            fields: self.fields@.map_values(|f: FieldState| f@),
            rules: self.rules@.map_values(|r: EqualityRule| r@),
        }
    }
}

impl FormStateStore {
    #[verifier::type_invariant]
    spec fn in_order(self) -> bool {
        well_kept(self@)
    }

    /// A store with an empty tree, no field and no rule.
    pub fn new() -> (r: FormStateStore)
        ensures
            r@ == (StoreView {
                tree: NodeView::Group(Seq::empty()),
                fields: Seq::empty(),
                rules: Seq::empty(),
            }),
    {
        let r = FormStateStore { root: Node::group(), fields: Vec::new(), rules: Vec::new() };
        proof {
            assert(r@.fields =~= Seq::empty());
            assert(r@.rules =~= Seq::empty());
        }
        r
    }

    /// The tree of committed values. Every value in it keeps the promise
    /// of its variant, and no group holds two children under one key.
    pub fn tree(&self) -> (r: &Node)
        ensures
            r@ == self@.tree,
            sound_tree(r@),
            distinct_keys(r@),
    {
        proof {
            use_type_invariant(self);
        }
        &self.root
    }

    /// Tells a verified caller that the store is in order. It does nothing
    /// when it runs.
    pub fn is_in_order(&self)
        ensures
            well_kept(self@),
    {
        proof {
            use_type_invariant(self);
        }
    }

    /// The number of registered fields.
    pub fn field_count(&self) -> (n: usize)
        ensures
            n == self@.fields.len(),
    {
        self.fields.len()
    }

    /// The registered field at position `i`. It holds a text exactly while
    /// it holds an error.
    pub fn field(&self, i: usize) -> (f: &FieldState)
        requires
            i < self@.fields.len(),
        ensures
            f@ == self@.fields[i as int],
            held_with_error(f@),
    {
        proof {
            use_type_invariant(self);
            assert(held_with_error(self@.fields[i as int]));
        }
        &self.fields[i]
    }

    /// The number of rules.
    pub fn rule_count(&self) -> (n: usize)
        ensures
            n == self@.rules.len(),
    {
        self.rules.len()
    }

    /// The rule at position `i`.
    pub fn rule(&self, i: usize) -> (r: &EqualityRule)
        requires
            i < self@.rules.len(),
        ensures
            r@ == self@.rules[i as int],
    {
        &self.rules[i]
    }

    /// The position of the first field registered at `path`.
    fn position_of(&self, path: &BindingPath) -> (i: usize)
        ensures
            i == field_index(self@.fields, path@),
            i <= self.fields.len(),
    {
        let ghost view = self@.fields;
        let mut i: usize = 0;
        while i < self.fields.len()
            invariant
                i <= self.fields.len(),
                view == self@.fields,
                forall|j: int| 0 <= j < i ==> (#[trigger] view[j]).path != path@,
            decreases self.fields.len() - i,
        {
            if self.fields[i].path.same(path) {
                proof {
                    lemma_field_index_is(view, path@, i as int);
                }
                return i;
            }
            i += 1;
        }
        proof {
            lemma_field_index_is(view, path@, self.fields.len() as int);
        }
        i
    }

    /// The committed value at `path`, if there is one. It keeps the promise
    /// of its variant.
    pub fn get(&self, path: &BindingPath) -> (r: Option<FieldValue>)
        ensures
            match r {
                Some(v) => value_at(self@.tree, path@) == Some(v@) && is_sound(v@),
                None => value_at(self@.tree, path@) is None,
            },
    {
        proof {
            use_type_invariant(self);
            lemma_sound_below(self.root@, path@);
        }
        match self.root.value(path) {
            Some(v) => Some(v.clone()),
            None => None,
        }
    }

    /// The raw text held at `path`, if the last input there is in error.
    pub fn raw(&self, path: &BindingPath) -> (r: Option<String>)
        ensures
            match r {
                Some(text) => pending_at(self@, path@) == Some(text@),
                None => pending_at(self@, path@) is None,
            },
    {
        let i = self.position_of(path);
        if i < self.fields.len() {
            match &self.fields[i].pending {
                Some(text) => Some(text.clone()),
                None => None,
            }
        } else {
            None
        }
    }

    /// Whether some rule on `path` is broken.
    fn mismatch(&self, path: &BindingPath) -> (r: bool)
        ensures
            r == has_mismatch(self@.tree, self@.rules, path@),
    {
        let ghost rules = self@.rules;
        let mut k: usize = 0;
        while k < self.rules.len()
            invariant
                k <= self.rules.len(),
                rules == self@.rules,
                forall|j: int|
                    0 <= j < k ==> !((#[trigger] rules[j]).target == path@ && rule_broken(
                        self@.tree,
                        rules[j],
                    )),
            decreases self.rules.len() - k,
        {
            let rule = &self.rules[k];
            if rule.target.same(path) {
                let left = self.root.value(&rule.target);
                let right = self.root.value(&rule.other);
                let differ = match (left, right) {
                    (Some(a), Some(b)) => !a.same(b),
                    (None, None) => false,
                    _ => true,
                };
                if differ {
                    assert(rules[k as int].target == path@ && rule_broken(
                        self@.tree,
                        rules[k as int],
                    ));
                    return true;
                }
            }
            k += 1;
        }
        false
    }

    /// The error that stands at the field at position `i`.
    fn error_of(&self, i: usize) -> (r: Option<ErrorKind>)
        requires
            i < self.fields.len(),
        ensures
            r == field_error(self@, self@.fields[i as int]),
    {
        match self.fields[i].error {
            Some(e) => Some(e),
            None => if self.mismatch(&self.fields[i].path) {
                Some(ErrorKind::CrossFieldMismatch)
            } else {
                None
            },
        }
    }

    /// The error that stands at `path`, if there is one.
    pub fn error(&self, path: &BindingPath) -> (r: Option<ErrorKind>)
        ensures
            r == error_at(self@, path@),
    {
        let i = self.position_of(path);
        if i < self.fields.len() {
            self.error_of(i)
        } else {
            None
        }
    }

    /// The errors that stand under `prefix`, in the order in which their
    /// fields were registered.
    pub fn errors_under(&self, prefix: &BindingPath) -> (r: Vec<ValidationError>)
        ensures
            r@.map_values(|e: ValidationError| e@) == errors_under_view(self@, prefix@),
    {
        let mut found: Vec<ValidationError> = Vec::new();
        let ghost fields = self@.fields;
        let mut i: usize = 0;
        proof {
            assert(fields.take(0) =~= Seq::empty());
            assert(found@.map_values(|e: ValidationError| e@) =~= Seq::empty());
        }
        while i < self.fields.len()
            invariant
                i <= self.fields.len(),
                fields == self@.fields,
                found@.map_values(|e: ValidationError| e@) == errors_among(
                    self@,
                    fields.take(i as int),
                    prefix@,
                ),
            decreases self.fields.len() - i,
        {
            proof {
                assert(fields.take(i + 1).drop_last() =~= fields.take(i as int));
                assert(fields.take(i + 1).last() == fields[i as int]);
            }
            match self.error_of(i) {
                Some(kind) => {
                    if self.fields[i].path.starts_with(prefix) {
                        let ghost before = found@.map_values(|e: ValidationError| e@);
                        let e = ValidationError { path: self.fields[i].path.clone(), kind };
                        found.push(e);
                        proof {
                            assert(found@.map_values(|e: ValidationError| e@) =~= before.push(e@));
                        }
                    }
                },
                None => {},
            }
            i += 1;
        }
        proof {
            assert(fields.take(self.fields.len() as int) =~= fields);
        }
        found
    }

    /// Whether the field at position `i` is settled.
    fn settled(&self, i: usize) -> (r: bool)
        requires
            i < self.fields.len(),
        ensures
            r == field_settled(self@, self@.fields[i as int]),
    {
        if self.error_of(i).is_some() {
            return false;
        }
        if self.fields[i].required {
            self.root.value(&self.fields[i].path).is_some()
        } else {
            true
        }
    }

    /// Whether `path` lies under one of `prefixes`.
    pub fn lies_under(prefixes: &Vec<BindingPath>, path: &BindingPath) -> (r: bool)
        ensures
            r == under_any(prefixes@.map_values(|p: BindingPath| p@), path@),
    {
        let ghost views = prefixes@.map_values(|p: BindingPath| p@);
        let mut k: usize = 0;
        while k < prefixes.len()
            invariant
                k <= prefixes.len(),
                views == prefixes@.map_values(|p: BindingPath| p@),
                forall|j: int| 0 <= j < k ==> !is_prefix(#[trigger] views[j], path@),
            decreases prefixes.len() - k,
        {
            if path.starts_with(&prefixes[k]) {
                assert(is_prefix(views[k as int], path@));
                return true;
            }
            k += 1;
        }
        false
    }

    /// The positions of the fields that lie under one of `prefixes`, in
    /// the order in which the fields were registered. Each is the position
    /// of a field.
    pub fn fields_under_any(&self, prefixes: &Vec<BindingPath>) -> (r: Vec<usize>)
        ensures
            r@.map_values(|i: usize| i as nat) == positions_among(
                self@.fields,
                prefixes@.map_values(|p: BindingPath| p@),
            ),
            forall|k: int| 0 <= k < r.len() ==> (#[trigger] r[k]) < self@.fields.len(),
    {
        let mut found: Vec<usize> = Vec::new();
        let ghost fields = self@.fields;
        let ghost views = prefixes@.map_values(|p: BindingPath| p@);
        let mut i: usize = 0;
        proof {
            assert(fields.take(0) =~= Seq::empty());
            assert(found@.map_values(|i: usize| i as nat) =~= Seq::empty());
        }
        while i < self.fields.len()
            invariant
                i <= self.fields.len(),
                fields == self@.fields,
                views == prefixes@.map_values(|p: BindingPath| p@),
                found@.map_values(|i: usize| i as nat) == positions_among(
                    fields.take(i as int),
                    views,
                ),
                forall|k: int| 0 <= k < found.len() ==> (#[trigger] found[k]) < i,
            decreases self.fields.len() - i,
        {
            proof {
                assert(fields.take(i + 1).drop_last() =~= fields.take(i as int));
                assert(fields.take(i + 1).last() == fields[i as int]);
            }
            if FormStateStore::lies_under(prefixes, &self.fields[i].path) {
                let ghost before = found@.map_values(|i: usize| i as nat);
                found.push(i);
                proof {
                    assert(found@.map_values(|i: usize| i as nat) =~= before.push(i as nat));
                }
            }
            i += 1;
        }
        proof {
            assert(fields.take(self.fields.len() as int) =~= fields);
        }
        found
    }

    /// The errors that stand under one of `prefixes`, each once, in the
    /// order in which their fields were registered.
    pub fn errors_under_any(&self, prefixes: &Vec<BindingPath>) -> (r: Vec<ValidationError>)
        ensures
            r@.map_values(|e: ValidationError| e@) == blocking_errors(
                self@,
                prefixes@.map_values(|p: BindingPath| p@),
            ),
    {
        let mut found: Vec<ValidationError> = Vec::new();
        let ghost fields = self@.fields;
        let ghost views = prefixes@.map_values(|p: BindingPath| p@);
        let mut i: usize = 0;
        proof {
            assert(fields.take(0) =~= Seq::empty());
            assert(found@.map_values(|e: ValidationError| e@) =~= Seq::empty());
        }
        while i < self.fields.len()
            invariant
                i <= self.fields.len(),
                fields == self@.fields,
                views == prefixes@.map_values(|p: BindingPath| p@),
                found@.map_values(|e: ValidationError| e@) == blocking_among(
                    self@,
                    fields.take(i as int),
                    views,
                ),
            decreases self.fields.len() - i,
        {
            proof {
                assert(fields.take(i + 1).drop_last() =~= fields.take(i as int));
                assert(fields.take(i + 1).last() == fields[i as int]);
            }
            match self.error_of(i) {
                Some(kind) => {
                    if FormStateStore::lies_under(prefixes, &self.fields[i].path) {
                        let ghost before = found@.map_values(|e: ValidationError| e@);
                        let e = ValidationError { path: self.fields[i].path.clone(), kind };
                        found.push(e);
                        proof {
                            assert(found@.map_values(|e: ValidationError| e@) =~= before.push(e@));
                        }
                    }
                },
                None => {},
            }
            i += 1;
        }
        proof {
            assert(fields.take(self.fields.len() as int) =~= fields);
        }
        found
    }

    /// Whether every field under one of `prefixes` is settled: no error
    /// stands at it, and it has a committed value if it is required.
    pub fn is_valid_under(&self, prefixes: &Vec<BindingPath>) -> (r: bool)
        ensures
            r == valid_under(self@, prefixes@.map_values(|p: BindingPath| p@)),
    {
        let ghost fields = self@.fields;
        let ghost views = prefixes@.map_values(|p: BindingPath| p@);
        let mut i: usize = 0;
        while i < self.fields.len()
            invariant
                i <= self.fields.len(),
                fields == self@.fields,
                views == prefixes@.map_values(|p: BindingPath| p@),
                forall|j: int|
                    0 <= j < i && under_any(views, (#[trigger] fields[j]).path) ==> field_settled(
                        self@,
                        fields[j],
                    ),
            decreases self.fields.len() - i,
        {
            if FormStateStore::lies_under(prefixes, &self.fields[i].path) && !self.settled(i) {
                assert(under_any(views, fields[i as int].path) && !field_settled(
                    self@,
                    fields[i as int],
                ));
                return false;
            }
            i += 1;
        }
        true
    }

    /// Whether every field of the form is settled.
    pub fn is_valid(&self) -> (r: bool)
        ensures
            r == all_valid(self@),
    {
        let ghost fields = self@.fields;
        let mut i: usize = 0;
        while i < self.fields.len()
            invariant
                i <= self.fields.len(),
                fields == self@.fields,
                forall|j: int| 0 <= j < i ==> field_settled(self@, #[trigger] fields[j]),
            decreases self.fields.len() - i,
        {
            if !self.settled(i) {
                assert(!field_settled(self@, fields[i as int]));
                return false;
            }
            i += 1;
        }
        true
    }

    /// Commits a value that was read from an input, or leaves the tree as
    /// it is for an error. Returns whether the tree has a place for it.
    fn commit(&mut self, path: &BindingPath, outcome: &Result<FieldValue, ErrorKind>) -> (done:
        bool)
        requires
            *outcome matches Ok(v) ==> is_sound(v@),
        ensures
            match tree_after_input(
                old(self)@.tree,
                path@,
                match *outcome {
                    Ok(v) => Ok(v@),
                    Err(e) => Err(e),
                },
            ) {
                Some(tree) => done && final(self)@.tree == tree,
                None => !done && final(self)@.tree == old(self)@.tree,
            },
            final(self)@.fields == old(self)@.fields,
            final(self)@.rules == old(self)@.rules,
            final(self).fields == old(self).fields,
    {
        match outcome {
            Ok(value) => {
                let mut root = Node::group();
                let ghost fields = self@.fields;
                proof {
                    use_type_invariant(&*self);
                    assert(forall|i: int|
                        0 <= i < fields.len() ==> held_with_error(#[trigger] fields[i]));
                    assert(sound_tree(root@) && distinct_keys(root@));
                }
                std::mem::swap(&mut self.root, &mut root);
                let leaf = Node::Leaf(value.clone());
                proof {
                    assert(path@.skip(0) =~= path@);
                    if plant_view(root@, path@, leaf@) is Some {
                        lemma_plant_sound(root@, path@, leaf@);
                        lemma_plant_distinct(root@, path@, leaf@);
                    }
                }
                let (root, done) = root.plant(path, 0, leaf);
                self.root = root;
                done
            },
            Err(_) => true,
        }
    }

    /// Enters the raw text `raw` into the field registered at `path`.
    ///
    /// The text is read as a value of the field's kind. A value is committed
    /// to the tree, and the text and error that were held for the field are
    /// dropped. An error is held together with the text, and the tree keeps
    /// the last value that was committed. The input is refused where no
    /// field is registered at the path or the tree has no place for the
    /// value.
    pub fn set_raw(&mut self, path: &BindingPath, raw: &str) -> (r: Result<(), StoreError>)
        ensures
            match r {
                Ok(()) => set_raw_view(old(self)@, path@, raw@) == Ok::<StoreView, StoreError>(
                    final(self)@,
                ),
                Err(e) => set_raw_view(old(self)@, path@, raw@) == Err::<StoreView, StoreError>(e)
                    && final(self)@ == old(self)@,
            },
    {
        let i = self.position_of(path);
        if i >= self.fields.len() {
            return Err(StoreError::UnknownField);
        }
        let outcome = FieldValue::parse(&self.fields[i].kind, raw);
        if !self.commit(path, &outcome) {
            return Err(StoreError::PathBlocked);
        }
        proof {
            use_type_invariant(&*self);
        }
        let ghost before = self@.fields;
        let mut fields: Vec<FieldState> = Vec::new();
        std::mem::swap(&mut self.fields, &mut fields);
        let mut field = fields.remove(i);
        match outcome {
            Ok(_) => {
                field.pending = None;
                field.error = None;
            },
            Err(e) => {
                field.pending = Some(raw.to_owned());
                field.error = Some(e);
            },
        }
        fields.insert(i, field);
        proof {
            let after = fields@.map_values(|f: FieldState| f@);
            assert(after =~= before.update(
                i as int,
                field_after_input(before[i as int], raw@, parse_value(before[i as int].kind, raw@)),
            ));
            assert forall|j: int| 0 <= j < after.len() implies held_with_error(
                #[trigger] after[j],
            ) by {
                if j != i {
                    assert(after[j] == before[j]);
                }
            }
            assert forall|a: int, b: int| 0 <= a < b < after.len() implies (#[trigger] after[a]).path
                != (#[trigger] after[b]).path by {
                assert(after[a].path == before[a].path);
                assert(after[b].path == before[b].path);
            }
        }
        self.fields = fields;
        Ok(())
    }

    /// Takes a value that a lookup outside the form proposes for the field
    /// at `path`, such as the city for a postal code.
    ///
    /// No proposal, or a proposal that the field's kind does not accept,
    /// changes nothing and is no error. A proposal that the kind accepts is
    /// committed, and the text and error that were held for the field are
    /// dropped. It is refused where no field is registered at the path or
    /// the tree has no place for the value.
    pub fn suggest(&mut self, path: &BindingPath, proposal: Option<FieldValue>) -> (r: Result<
        (),
        StoreError,
    >)
        ensures
            match r {
                Ok(()) => suggest_view(
                    old(self)@,
                    path@,
                    match proposal {
                        Some(v) => Some(v@),
                        None => None,
                    },
                ) == Ok::<StoreView, StoreError>(final(self)@),
                Err(e) => suggest_view(
                    old(self)@,
                    path@,
                    match proposal {
                        Some(v) => Some(v@),
                        None => None,
                    },
                ) == Err::<StoreView, StoreError>(e) && final(self)@ == old(self)@,
            },
    {
        let i = self.position_of(path);
        if i >= self.fields.len() {
            return Err(StoreError::UnknownField);
        }
        let value = match proposal {
            Some(value) => value,
            None => {
                return Ok(());
            },
        };
        if !value.is_valid_for(&self.fields[i].kind) {
            return Ok(());
        }
        proof {
            lemma_valid_is_sound(self.fields[i as int].kind@, value@);
        }
        let outcome: Result<FieldValue, ErrorKind> = Ok(value);
        if !self.commit(path, &outcome) {
            return Err(StoreError::PathBlocked);
        }
        proof {
            use_type_invariant(&*self);
        }
        let ghost before = self@.fields;
        let mut fields: Vec<FieldState> = Vec::new();
        std::mem::swap(&mut self.fields, &mut fields);
        let mut field = fields.remove(i);
        field.pending = None;
        field.error = None;
        fields.insert(i, field);
        proof {
            let after = fields@.map_values(|f: FieldState| f@);
            assert(after =~= before.update(
                i as int,
                FieldView { pending: None, error: None, ..before[i as int] },
            ));
            assert forall|j: int| 0 <= j < after.len() implies held_with_error(
                #[trigger] after[j],
            ) by {
                if j != i {
                    assert(after[j] == before[j]);
                }
            }
            assert forall|a: int, b: int| 0 <= a < b < after.len() implies (#[trigger] after[a]).path
                != (#[trigger] after[b]).path by {
                assert(after[a].path == before[a].path);
                assert(after[b].path == before[b].path);
            }
        }
        self.fields = fields;
        Ok(())
    }

    /// Fills the form from `data`, such as the values of an earlier
    /// submission: every registered field is offered what `data` holds at
    /// its path, in the order of registration. A value that the field's
    /// kind accepts is committed, and anything else is passed over.
    pub fn load(&mut self, data: &Node)
        ensures
            final(self)@ == loaded(old(self)@, data@, old(self)@.fields.len()),
    {
        let ghost start = self@;
        let n = self.fields.len();
        let mut i: usize = 0;
        while i < n
            invariant
                i <= n,
                n == start.fields.len(),
                self@ == loaded(start, data@, i as nat),
            decreases n - i,
        {
            proof {
                lemma_loaded_keeps_paths(start, data@, i as nat);
                assert(self@.fields[i as int].path == start.fields[i as int].path);
            }
            let ghost before = self@;
            let path = self.fields[i].path.clone();
            let proposal = match data.value(&path) {
                Some(value) => Some(value.clone()),
                None => None,
            };
            let ghost offered = value_at(data@, path@);
            proof {
                assert(offered == match proposal {
                    Some(v) => Some(v@),
                    None => None,
                });
            }
            match self.suggest(&path, proposal) {
                Ok(()) => {},
                Err(_) => {},
            }
            proof {
                assert(self@ == match suggest_view(before, path@, offered) {
                    Ok(after) => after,
                    Err(_) => before,
                });
            }
            i += 1;
        }
    }

    /// Registers a field of `kind` at `path` and enters the raw text that
    /// the kind starts with.
    ///
    /// The registration is refused where a field is already registered at
    /// the path, or the starting text is a value and the tree has no place
    /// for it.
    pub fn register_field(&mut self, path: BindingPath, kind: FieldKind, required: bool) -> (r:
        Result<(), StoreError>)
        ensures
            match r {
                Ok(()) => register_view(old(self)@, path@, kind@, required) == Ok::<
                    StoreView,
                    StoreError,
                >(final(self)@),
                Err(e) => register_view(old(self)@, path@, kind@, required) == Err::<
                    StoreView,
                    StoreError,
                >(e) && final(self)@ == old(self)@,
            },
    {
        let i = self.position_of(&path);
        if i < self.fields.len() {
            return Err(StoreError::DuplicateField);
        }
        let raw = kind.default_raw();
        let outcome = FieldValue::parse(&kind, raw.as_str());
        if !self.commit(&path, &outcome) {
            return Err(StoreError::PathBlocked);
        }
        proof {
            use_type_invariant(&*self);
        }
        let ghost before = self@.fields;
        let field = match outcome {
            Ok(_) => FieldState { path, kind, required, pending: None, error: None },
            Err(e) => FieldState { path, kind, required, pending: Some(raw), error: Some(e) },
        };
        let mut fields: Vec<FieldState> = Vec::new();
        std::mem::swap(&mut self.fields, &mut fields);
        fields.push(field);
        proof {
            let after = fields@.map_values(|f: FieldState| f@);
            assert(after =~= before.push(field@));
            assert forall|j: int| 0 <= j < after.len() implies held_with_error(
                #[trigger] after[j],
            ) by {
                if j < before.len() {
                    assert(after[j] == before[j]);
                }
            }
            lemma_field_index(before, field@.path);
            assert forall|a: int, b: int| 0 <= a < b < after.len() implies (#[trigger] after[a]).path
                != (#[trigger] after[b]).path by {
                assert(after[a] == before[a]);
                if b < before.len() {
                    assert(after[b] == before[b]);
                }
            }
        }
        self.fields = fields;
        Ok(())
    }

    /// Adds a rule that makes the error at `target` depend on the value at
    /// `other`: while the two values differ, a mismatch stands at `target`.
    ///
    /// The rule is refused where one of the two paths has no registered
    /// field, or where `other` already depends on `target` through the rules
    /// that are there, or is `target` itself.
    pub fn register_equality(&mut self, target: BindingPath, other: BindingPath) -> (r: Result<
        (),
        StoreError,
    >)
        ensures
            match r {
                Ok(()) => add_rule_view(old(self)@, target@, other@) == Ok::<StoreView, StoreError>(
                    final(self)@,
                ),
                Err(e) => add_rule_view(old(self)@, target@, other@) == Err::<
                    StoreView,
                    StoreError,
                >(e) && final(self)@ == old(self)@,
            },
    {
        if self.position_of(&target) >= self.fields.len() || self.position_of(&other)
            >= self.fields.len() {
            return Err(StoreError::UnknownField);
        }
        if would_close_circle(&self.rules, &target, &other) {
            return Err(StoreError::CyclicRule);
        }
        proof {
            use_type_invariant(&*self);
        }
        let ghost before = self@.rules;
        let rule = EqualityRule { target, other };
        let mut rules: Vec<EqualityRule> = Vec::new();
        std::mem::swap(&mut self.rules, &mut rules);
        rules.push(rule);
        self.rules = rules;
        proof {
            assert(self@.rules =~= before.push(rule@));
        }
        Ok(())
    }

    /// Makes an empty repeatable section at `path`, with the groups that
    /// are missing on the way. It is refused where something is already at
    /// the path or the path cannot be followed.
    pub fn create_section(&mut self, path: &BindingPath) -> (r: Result<(), StoreError>)
        ensures
            match r {
                Ok(()) => create_section_view(old(self)@, path@) == Ok::<StoreView, StoreError>(
                    final(self)@,
                ),
                Err(e) => create_section_view(old(self)@, path@) == Err::<StoreView, StoreError>(e)
                    && final(self)@ == old(self)@,
            },
    {
        proof {
            use_type_invariant(&*self);
        }
        let mut root = Node::group();
        std::mem::swap(&mut self.root, &mut root);
        let empty = Node::list();
        proof {
            assert(path@.skip(0) =~= path@);
            if plant_view(root@, path@, empty@) is Some {
                lemma_plant_sound(root@, path@, empty@);
                lemma_plant_distinct(root@, path@, empty@);
            }
        }
        let (root, done) = root.plant(path, 0, empty);
        self.root = root;
        if done {
            Ok(())
        } else {
            Err(StoreError::PathBlocked)
        }
    }

    /// The number of entries of the repeatable section at `path`, if the
    /// path leads to one.
    pub fn section_len(&self, path: &BindingPath) -> (r: Option<usize>)
        ensures
            match r {
                Some(n) => section_entries(self@.tree, path@) is Some && section_entries(
                    self@.tree,
                    path@,
                )->0.len() == n,
                None => section_entries(self@.tree, path@) is None,
            },
    {
        self.root.section_len(path)
    }

    /// Whether a field is registered at `base` or below it.
    fn has_field_under(&self, base: &BindingPath) -> (r: bool)
        ensures
            r == any_under(self@.fields, base@),
    {
        let ghost fields = self@.fields;
        let mut i: usize = 0;
        while i < self.fields.len()
            invariant
                i <= self.fields.len(),
                fields == self@.fields,
                forall|j: int| 0 <= j < i ==> !is_prefix(base@, (#[trigger] fields[j]).path),
            decreases self.fields.len() - i,
        {
            if self.fields[i].path.starts_with(base) {
                assert(is_prefix(base@, fields[i as int].path));
                return true;
            }
            i += 1;
        }
        false
    }

    /// A fresh entry as a store of its own.
    fn entry_of(template: &Vec<FieldTemplate>) -> (r: Result<FormStateStore, StoreError>)
        ensures
            match r {
                Ok(entry) => entry_state(template@.map_values(|t: FieldTemplate| t@)) == Ok::<
                    StoreView,
                    StoreError,
                >(entry@),
                Err(e) => entry_state(template@.map_values(|t: FieldTemplate| t@)) == Err::<
                    StoreView,
                    StoreError,
                >(e),
            },
    {
        let ghost views = template@.map_values(|t: FieldTemplate| t@);
        let mut entry = FormStateStore::new();
        let mut i: usize = 0;
        proof {
            assert(views.take(0) =~= Seq::empty());
        }
        while i < template.len()
            invariant
                i <= template.len(),
                views == template@.map_values(|t: FieldTemplate| t@),
                entry_state(views.take(i as int)) == Ok::<StoreView, StoreError>(entry@),
            decreases template.len() - i,
        {
            proof {
                assert(views.take(i + 1).drop_last() =~= views.take(i as int));
                assert(views.take(i + 1).last() == views[i as int]);
            }
            let t = &template[i];
            match entry.register_field(t.path.clone(), t.kind.clone(), t.required) {
                Ok(()) => {},
                Err(e) => {
                    proof {
                        lemma_entry_state_fails_on(views, i + 1);
                    }
                    return Err(e);
                },
            }
            i += 1;
        }
        proof {
            assert(views.take(template.len() as int) =~= views);
        }
        Ok(entry)
    }

    /// Adds a fresh entry at the end of the repeatable section at
    /// `section` and registers the fields of `template` under it, each with
    /// the raw input that its kind starts with. Returns the position of the
    /// entry.
    ///
    /// Nothing changes where the template cannot be laid out (two of its
    /// fields at one path, or one in the way of another) or the path does
    /// not lead to a section.
    pub fn append_entry(&mut self, section: &BindingPath, template: &Vec<FieldTemplate>) -> (r:
        Result<u64, StoreError>)
        ensures
            match r {
                Ok(index) => append_view(
                    old(self)@,
                    section@,
                    template@.map_values(|t: FieldTemplate| t@),
                ) == Ok::<StoreView, StoreError>(final(self)@) && section_entries(
                    old(self)@.tree,
                    section@,
                ) is Some && section_entries(old(self)@.tree, section@)->0.len() == index,
                Err(e) => append_view(
                    old(self)@,
                    section@,
                    template@.map_values(|t: FieldTemplate| t@),
                ) == Err::<StoreView, StoreError>(e) && final(self)@ == old(self)@,
            },
    {
        let entry = match FormStateStore::entry_of(template) {
            Ok(entry) => entry,
            Err(e) => {
                return Err(e);
            },
        };
        let n = match self.root.section_len(section) {
            Some(n) => n,
            None => {
                return Err(StoreError::NotASection);
            },
        };
        let base = section.push_indexed(n as u64);
        if self.has_field_under(&base) {
            return Err(StoreError::DuplicateField);
        }
        let ghost entry_view = entry@;
        let ghost old_fields = self@.fields;
        proof {
            use_type_invariant(&*self);
            use_type_invariant(&entry);
        }
        let FormStateStore { root: entry_root, fields: entry_fields, rules: _ } = entry;
        let mut root = Node::group();
        std::mem::swap(&mut self.root, &mut root);
        proof {
            assert(section@.skip(0) =~= section@);
            lemma_edit_list_possible(root@, section@, ListEditView::Push(entry_root@));
            lemma_edit_list_sound(root@, section@, ListEditView::Push(entry_root@));
            lemma_edit_list_distinct(root@, section@, ListEditView::Push(entry_root@));
        }
        let (root, done) = root.edit_list(section, 0, ListEdit::Push(entry_root));
        self.root = root;
        let mut fields: Vec<FieldState> = Vec::new();
        std::mem::swap(&mut self.fields, &mut fields);
        let mut i: usize = 0;
        proof {
            assert(fields@.map_values(|f: FieldState| f@) =~= old_fields + moved_under(
                entry_view.fields,
                base@,
            ).take(0));
        }
        while i < entry_fields.len()
            invariant
                i <= entry_fields.len(),
                entry_view.fields == entry_fields@.map_values(|f: FieldState| f@),
                fields@.map_values(|f: FieldState| f@) == old_fields + moved_under(
                    entry_view.fields,
                    base@,
                ).take(i as int),
            decreases entry_fields.len() - i,
        {
            let ghost before = fields@.map_values(|f: FieldState| f@);
            let f = &entry_fields[i];
            let moved = f.moved_to(base.join(&f.path));
            fields.push(moved);
            proof {
                let all = moved_under(entry_view.fields, base@);
                assert(fields@.map_values(|f: FieldState| f@) =~= before.push(moved@));
                assert(all.take(i + 1) =~= all.take(i as int).push(all[i as int]));
                assert(old_fields + all.take(i + 1) =~= (old_fields + all.take(i as int)).push(
                    all[i as int],
                ));
            }
            i += 1;
        }
        proof {
            let all = moved_under(entry_view.fields, base@);
            assert(all.take(entry_fields.len() as int) =~= all);
            let after = fields@.map_values(|f: FieldState| f@);
            assert(after == old_fields + all);
            assert forall|j: int| 0 <= j < after.len() implies held_with_error(
                #[trigger] after[j],
            ) by {
                if j < old_fields.len() {
                    assert(after[j] == old_fields[j]);
                } else {
                    assert(after[j] == all[j - old_fields.len()]);
                    assert(held_with_error(entry_view.fields[j - old_fields.len()]));
                }
            }
            assert forall|a: int, b: int| 0 <= a < b < after.len() implies (#[trigger] after[a]).path
                != (#[trigger] after[b]).path by {
                let m = old_fields.len() as int;
                if b < m {
                    assert(after[a] == old_fields[a]);
                    assert(after[b] == old_fields[b]);
                } else if a < m {
                    assert(after[a] == old_fields[a]);
                    assert(after[b] == all[b - m]);
                    assert(!is_prefix(base@, old_fields[a].path));
                    assert((base@ + entry_view.fields[b - m].path).take(base@.len() as int)
                        =~= base@);
                } else {
                    assert(after[a] == all[a - m]);
                    assert(after[b] == all[b - m]);
                    assert(entry_view.fields[a - m].path != entry_view.fields[b - m].path);
                    lemma_joined_paths_differ(
                        base@,
                        entry_view.fields[a - m].path,
                        entry_view.fields[b - m].path,
                    );
                }
            }
        }
        self.fields = fields;
        Ok(n as u64)
    }

    /// Takes the entry at `index` out of the repeatable section at
    /// `section`. The fields of that entry are dropped with their held
    /// texts and errors, and so is every rule with a side in that entry;
    /// the fields of later entries stand one position down, and the rules
    /// on them follow.
    ///
    /// Nothing changes where the path does not lead to a section or the
    /// section has no entry at `index`.
    pub fn remove_entry(&mut self, section: &BindingPath, index: u64) -> (r: Result<
        (),
        StoreError,
    >)
        ensures
            match r {
                Ok(()) => remove_view(old(self)@, section@, index as nat) == Ok::<
                    StoreView,
                    StoreError,
                >(final(self)@),
                Err(e) => remove_view(old(self)@, section@, index as nat) == Err::<
                    StoreView,
                    StoreError,
                >(e) && final(self)@ == old(self)@,
            },
    {
        let n = match self.root.section_len(section) {
            Some(n) => n,
            None => {
                return Err(StoreError::NotASection);
            },
        };
        proof {
            lemma_edit_list_possible(self.root@, section@, ListEditView::Remove(index as nat));
        }
        if index >= n as u64 {
            return Err(StoreError::NoSuchEntry);
        }
        let ghost old_fields = self@.fields;
        let ghost old_rules = self@.rules;
        proof {
            use_type_invariant(&*self);
        }
        let mut root = Node::group();
        std::mem::swap(&mut self.root, &mut root);
        proof {
            assert(section@.skip(0) =~= section@);
            lemma_edit_list_sound(root@, section@, ListEditView::Remove(index as nat));
            lemma_edit_list_distinct(root@, section@, ListEditView::Remove(index as nat));
        }
        let (root, done) = root.edit_list(section, 0, ListEdit::Remove(index));
        self.root = root;
        let mut former_rules: Vec<EqualityRule> = Vec::new();
        std::mem::swap(&mut self.rules, &mut former_rules);
        let mut rules: Vec<EqualityRule> = Vec::new();
        let mut k: usize = 0;
        proof {
            assert(old_rules.take(0) =~= Seq::empty());
            assert(rules@.map_values(|r: EqualityRule| r@) =~= Seq::empty());
        }
        while k < former_rules.len()
            invariant
                k <= former_rules.len(),
                old_rules == former_rules@.map_values(|r: EqualityRule| r@),
                rules@.map_values(|r: EqualityRule| r@) == shifted_rules(
                    old_rules.take(k as int),
                    section@,
                    index as nat,
                ),
            decreases former_rules.len() - k,
        {
            proof {
                assert(old_rules.take(k + 1).drop_last() =~= old_rules.take(k as int));
                assert(old_rules.take(k + 1).last() == old_rules[k as int]);
            }
            let ghost before = rules@.map_values(|r: EqualityRule| r@);
            let rule = &former_rules[k];
            match (
                shift_path(&rule.target, section, index),
                shift_path(&rule.other, section, index),
            ) {
                (Some(target), Some(other)) => {
                    let moved = EqualityRule { target, other };
                    rules.push(moved);
                    proof {
                        assert(rules@.map_values(|r: EqualityRule| r@) =~= before.push(moved@));
                    }
                },
                _ => {},
            }
            k += 1;
        }
        proof {
            assert(old_rules.take(former_rules.len() as int) =~= old_rules);
        }
        self.rules = rules;
        let mut former: Vec<FieldState> = Vec::new();
        std::mem::swap(&mut self.fields, &mut former);
        let mut fields: Vec<FieldState> = Vec::new();
        let mut i: usize = 0;
        proof {
            assert(old_fields.take(0) =~= Seq::empty());
            assert(fields@.map_values(|f: FieldState| f@) =~= Seq::empty());
        }
        while i < former.len()
            invariant
                i <= former.len(),
                old_fields == former@.map_values(|f: FieldState| f@),
                fields@.map_values(|f: FieldState| f@) == shifted_fields(
                    old_fields.take(i as int),
                    section@,
                    index as nat,
                ),
                forall|j: int| 0 <= j < old_fields.len() ==> held_with_error(#[trigger] old_fields[j]),
                forall|j: int| 0 <= j < fields.len() ==> held_with_error((#[trigger] fields@[j])@),
            decreases former.len() - i,
        {
            proof {
                assert(old_fields.take(i + 1).drop_last() =~= old_fields.take(i as int));
                assert(old_fields.take(i + 1).last() == old_fields[i as int]);
            }
            let ghost before = fields@.map_values(|f: FieldState| f@);
            let f = &former[i];
            match shift_path(&f.path, section, index) {
                Some(path) => {
                    let moved = f.moved_to(path);
                    fields.push(moved);
                    proof {
                        let after = fields@.map_values(|f: FieldState| f@);
                        assert(after =~= before.push(moved@));
                        assert(held_with_error(old_fields[i as int]));
                    }
                },
                None => {},
            }
            i += 1;
        }
        proof {
            let after = fields@.map_values(|f: FieldState| f@);
            assert forall|j: int| 0 <= j < after.len() implies held_with_error(
                #[trigger] after[j],
            ) by {
                assert(after[j] == fields@[j]@);
            }
            assert(old_fields.take(former.len() as int) =~= old_fields);
            lemma_shifted_distinct(old_fields, section@, index as nat);
        }
        self.fields = fields;
        Ok(())
    }
}

/// Once the template cannot be laid out up to some field, it cannot be laid
/// out as a whole, for the same reason.
pub proof fn lemma_entry_state_fails_on(template: Seq<TemplateView>, k: int)
    requires
        0 <= k <= template.len(),
        entry_state(template.take(k)) is Err,
    ensures
        entry_state(template) == entry_state(template.take(k)),
    decreases template.len() - k,
{
    if k == template.len() {
        assert(template.take(k) =~= template);
    } else {
        assert(template.take(k + 1).drop_last() =~= template.take(k));
        lemma_entry_state_fails_on(template, k + 1);
    }
}

/// An input that is read as a value is committed: afterwards the value
/// stands at the path, and no text and no error of the field's own is held.
pub proof fn lemma_good_input_is_committed(s: StoreView, path: PathView, raw: Seq<char>)
    requires
        set_raw_view(s, path, raw) is Ok,
        parse_value(s.fields[field_index(s.fields, path)].kind, raw) is Ok,
    ensures
        ({
            let after = set_raw_view(s, path, raw)->Ok_0;
            let i = field_index(s.fields, path);
            let value = parse_value(s.fields[i].kind, raw)->Ok_0;
            &&& value_at(after.tree, path) == Some(value)
            &&& is_valid(s.fields[i].kind, value)
            &&& pending_at(after, path) is None
            &&& after.fields[i].error is None
            &&& after.rules == s.rules
        }),
{
    let i = field_index(s.fields, path);
    let after = set_raw_view(s, path, raw)->Ok_0;
    let value = parse_value(s.fields[i].kind, raw)->Ok_0;
    lemma_field_index(s.fields, path);
    lemma_plant_at_path(s.tree, path, NodeView::Leaf(value));
    assert forall|j: int| 0 <= j < i implies (#[trigger] after.fields[j]).path != path by {
        assert(after.fields[j] == s.fields[j]);
    }
    lemma_field_index_is(after.fields, path, i);
}

/// An input that is read as an error is held with its error, and the tree
/// keeps every value that was committed before, the last good value of the
/// field among them.
pub proof fn lemma_bad_input_is_held(s: StoreView, path: PathView, raw: Seq<char>)
    requires
        set_raw_view(s, path, raw) is Ok,
        parse_value(s.fields[field_index(s.fields, path)].kind, raw) is Err,
    ensures
        ({
            let after = set_raw_view(s, path, raw)->Ok_0;
            let i = field_index(s.fields, path);
            let e = parse_value(s.fields[i].kind, raw)->Err_0;
            &&& after.tree == s.tree
            &&& pending_at(after, path) == Some(raw)
            &&& error_at(after, path) == Some(e)
        }),
{
    let i = field_index(s.fields, path);
    let after = set_raw_view(s, path, raw)->Ok_0;
    lemma_field_index(s.fields, path);
    assert forall|j: int| 0 <= j < i implies (#[trigger] after.fields[j]).path != path by {
        assert(after.fields[j] == s.fields[j]);
    }
    lemma_field_index_is(after.fields, path, i);
}

/// A rule whose two sides hold the same value puts no mismatch on its
/// target, and a rule whose sides differ puts one there unless the field's
/// own input is in error.
pub proof fn lemma_rule_decides_mismatch(s: StoreView, k: int, f: FieldView)
    requires
        0 <= k < s.rules.len(),
        s.rules[k].target == f.path,
        f.error is None,
    ensures
        rule_broken(s.tree, s.rules[k]) ==> field_error(s, f) == Some(
            ErrorKind::CrossFieldMismatch,
        ),
        (forall|j: int| 0 <= j < s.rules.len() && (#[trigger] s.rules[j]).target == f.path ==> j == k)
            && !rule_broken(s.tree, s.rules[k]) ==> field_error(s, f) is None,
{
}

/// Two paths that differ still differ behind a common front.
pub proof fn lemma_joined_paths_differ(base: PathView, a: PathView, b: PathView)
    requires
        a != b,
    ensures
        base + a != base + b,
{
    if base + a == base + b {
        assert((base + a).skip(base.len() as int) =~= a);
        assert((base + b).skip(base.len() as int) =~= b);
    }
}

/// Whether a path leads into an entry behind the one at `index`.
pub open spec fn leads_behind(path: PathView, section: PathView, index: nat) -> bool {
    is_prefix(section, path) && path.len() > section.len() && path[section.len() as int]
        is Indexed && path[section.len() as int]->Indexed_0 > index
}

/// Two paths that differ and are both still there after an entry was taken
/// out still differ.
pub proof fn lemma_shift_keeps_apart(a: PathView, b: PathView, section: PathView, index: nat)
    requires
        a != b,
        shifted_path(a, section, index) is Some,
        shifted_path(b, section, index) is Some,
    ensures
        shifted_path(a, section, index) != shifted_path(b, section, index),
{
    let d = section.len() as int;
    let x = shifted_path(a, section, index)->0;
    let y = shifted_path(b, section, index)->0;
    assert(x.len() == a.len());
    assert(y.len() == b.len());
    if x == y {
        if leads_behind(a, section, index) {
            // The common path leads into the section at a position from
            // `index` on, so `b` was moved down too.
            assert(x[d] == SegmentView::Indexed((a[d]->Indexed_0 - 1) as nat));
            assert(x.take(d) =~= a.take(d));
            if !leads_behind(b, section, index) {
                assert(y == b);
                assert(b.take(d) =~= x.take(d));
            }
            assert(leads_behind(b, section, index));
            assert(y[d] == SegmentView::Indexed((b[d]->Indexed_0 - 1) as nat));
            assert(a =~= b) by {
                assert forall|k: int| 0 <= k < a.len() implies a[k] == b[k] by {
                    if k != d {
                        assert(a[k] == x[k]);
                        assert(b[k] == y[k]);
                    }
                }
            }
        } else {
            assert(x == a);
            if leads_behind(b, section, index) {
                assert(y[d] == SegmentView::Indexed((b[d]->Indexed_0 - 1) as nat));
                assert(y.take(d) =~= b.take(d));
                assert(a.take(d) =~= y.take(d));
            }
        }
    }
}

/// A path to which none of the fields moves is not among the paths of the
/// fields that are left.
pub proof fn lemma_shifted_misses(
    fields: Seq<FieldView>,
    section: PathView,
    index: nat,
    path: PathView,
)
    requires
        forall|k: int|
            0 <= k < fields.len() ==> shifted_path((#[trigger] fields[k]).path, section, index)
                != Some(path),
    ensures
        forall|j: int|
            0 <= j < shifted_fields(fields, section, index).len() ==> (#[trigger] shifted_fields(
                fields,
                section,
                index,
            )[j]).path != path,
    decreases fields.len(),
{
    if fields.len() > 0 {
        let init = fields.drop_last();
        assert forall|k: int| 0 <= k < init.len() implies shifted_path(
            (#[trigger] init[k]).path,
            section,
            index,
        ) != Some(path) by {
            assert(init[k] == fields[k]);
        }
        lemma_shifted_misses(init, section, index, path);
        assert(shifted_path(fields[fields.len() - 1].path, section, index) != Some(path));
    }
}

/// The fields that are left after an entry was taken out stand at paths of
/// their own if the fields did before.
pub proof fn lemma_shifted_distinct(fields: Seq<FieldView>, section: PathView, index: nat)
    requires
        distinct_paths(fields),
    ensures
        distinct_paths(shifted_fields(fields, section, index)),
    decreases fields.len(),
{
    if fields.len() > 0 {
        let init = fields.drop_last();
        let last = fields.last();
        assert(distinct_paths(init)) by {
            assert forall|i: int, j: int| 0 <= i < j < init.len() implies (#[trigger] init[i]).path
                != (#[trigger] init[j]).path by {
                assert(init[i] == fields[i]);
                assert(init[j] == fields[j]);
            }
        }
        lemma_shifted_distinct(init, section, index);
        match shifted_path(last.path, section, index) {
            Some(path) => {
                assert forall|k: int| 0 <= k < init.len() implies shifted_path(
                    (#[trigger] init[k]).path,
                    section,
                    index,
                ) != Some(path) by {
                    assert(init[k] == fields[k]);
                    assert(fields[k].path != fields[fields.len() - 1].path);
                    if shifted_path(init[k].path, section, index) is Some {
                        lemma_shift_keeps_apart(init[k].path, last.path, section, index);
                    }
                }
                lemma_shifted_misses(init, section, index, path);
                let head = shifted_fields(init, section, index);
                let all = shifted_fields(fields, section, index);
                assert forall|i: int, j: int| 0 <= i < j < all.len() implies (#[trigger] all[i]).path
                    != (#[trigger] all[j]).path by {
                    assert(all[i] == head[i]);
                    if j < head.len() {
                        assert(all[j] == head[j]);
                    }
                }
            },
            None => {},
        }
    }
}

/// A field that is still there after an entry was taken out is found at
/// the path to which it moved, with its kind, its held text and its error.
pub proof fn lemma_shifted_holds(fields: Seq<FieldView>, section: PathView, index: nat, k: int)
    requires
        distinct_paths(fields),
        0 <= k < fields.len(),
        shifted_path(fields[k].path, section, index) is Some,
    ensures
        ({
            let path = shifted_path(fields[k].path, section, index)->0;
            let after = shifted_fields(fields, section, index);
            let at = field_index(after, path);
            &&& at < after.len()
            &&& after[at] == (FieldView { path, ..fields[k] })
        }),
    decreases fields.len(),
{
    let path = shifted_path(fields[k].path, section, index)->0;
    let after = shifted_fields(fields, section, index);
    let init = fields.drop_last();
    let head = shifted_fields(init, section, index);
    lemma_shifted_distinct(fields, section, index);
    lemma_field_index(after, path);
    assert(distinct_paths(init)) by {
        assert forall|i: int, j: int| 0 <= i < j < init.len() implies (#[trigger] init[i]).path
            != (#[trigger] init[j]).path by {
            assert(init[i] == fields[i]);
            assert(init[j] == fields[j]);
        }
    }
    if k == fields.len() - 1 {
        // The last field moved to the end of what is left.
        let j = after.len() - 1;
        assert(after[j] == (FieldView { path, ..fields[k] }));
        let at = field_index(after, path);
        if at != j {
            assert(after[at].path == after[j].path);
        }
    } else {
        assert(init[k] == fields[k]);
        lemma_shifted_holds(init, section, index, k);
        let at = field_index(head, path);
        lemma_field_index(head, path);
        assert(after[at] == head[at]);
        let found = field_index(after, path);
        if found != at {
            assert(after[found].path == after[at].path);
        }
    }
}

/// After an entry was taken out of a section, every field that did not
/// stand in that entry is found at the path to which it moved, with the
/// text and the error that it held.
pub proof fn lemma_remove_moves_fields(s: StoreView, section: PathView, index: nat, path: PathView)
    requires
        well_kept(s),
        remove_view(s, section, index) is Ok,
        is_registered(s, path),
        shifted_path(path, section, index) is Some,
    ensures
        ({
            let after = remove_view(s, section, index)->Ok_0;
            let moved = shifted_path(path, section, index)->0;
            &&& is_registered(after, moved)
            &&& pending_at(after, moved) == pending_at(s, path)
            &&& after.fields[field_index(after.fields, moved)].error == s.fields[field_index(
                s.fields,
                path,
            )].error
            &&& after.fields[field_index(after.fields, moved)].kind == s.fields[field_index(
                s.fields,
                path,
            )].kind
        }),
{
    let k = field_index(s.fields, path);
    lemma_field_index(s.fields, path);
    lemma_shifted_holds(s.fields, section, index, k);
}

/// After an entry was taken out of a section, no field stands in the place
/// of another: the fields that are left stand at paths of their own.
pub proof fn lemma_remove_keeps_fields_apart(s: StoreView, section: PathView, index: nat)
    requires
        well_kept(s),
        remove_view(s, section, index) is Ok,
    ensures
        distinct_paths(remove_view(s, section, index)->Ok_0.fields),
{
    lemma_shifted_distinct(s.fields, section, index);
}

/// After an entry was taken out of a section, every rule that is left
/// stands between the places to which the two sides of a rule moved: no
/// rule is left on a place from which its field is gone.
pub proof fn lemma_shifted_rules_follow(rules: Seq<RuleView>, section: PathView, index: nat, j: int)
    requires
        0 <= j < shifted_rules(rules, section, index).len(),
    ensures
        exists|k: int|
            0 <= k < rules.len() && shifted_path((#[trigger] rules[k]).target, section, index)
                == Some(shifted_rules(rules, section, index)[j].target) && shifted_path(
                rules[k].other,
                section,
                index,
            ) == Some(shifted_rules(rules, section, index)[j].other),
    decreases rules.len(),
{
    let init = rules.drop_last();
    let head = shifted_rules(init, section, index);
    if j < head.len() {
        lemma_shifted_rules_follow(init, section, index, j);
        let k = choose|k: int|
            0 <= k < init.len() && shifted_path((#[trigger] init[k]).target, section, index)
                == Some(head[j].target) && shifted_path(init[k].other, section, index) == Some(
                head[j].other,
            );
        assert(rules[k] == init[k]);
        assert(shifted_rules(rules, section, index)[j] == head[j]);
    } else {
        let k = rules.len() - 1;
        assert(shifted_path(rules[k].target, section, index) is Some);
    }
}

/// After an entry was taken out of a section, a rule whose two sides are
/// still there stands between the places to which they moved.
pub proof fn lemma_shifted_rules_keep(rules: Seq<RuleView>, section: PathView, index: nat, k: int)
    requires
        0 <= k < rules.len(),
        shifted_path(rules[k].target, section, index) is Some,
        shifted_path(rules[k].other, section, index) is Some,
    ensures
        exists|j: int|
            0 <= j < shifted_rules(rules, section, index).len() && (#[trigger] shifted_rules(
                rules,
                section,
                index,
            )[j]) == (RuleView {
                target: shifted_path(rules[k].target, section, index)->0,
                other: shifted_path(rules[k].other, section, index)->0,
            }),
    decreases rules.len(),
{
    let init = rules.drop_last();
    let head = shifted_rules(init, section, index);
    let all = shifted_rules(rules, section, index);
    if k < rules.len() - 1 {
        assert(init[k] == rules[k]);
        lemma_shifted_rules_keep(init, section, index, k);
        let j = choose|j: int|
            0 <= j < head.len() && (#[trigger] head[j]) == (RuleView {
                target: shifted_path(init[k].target, section, index)->0,
                other: shifted_path(init[k].other, section, index)->0,
            });
        assert(all[j] == head[j]);
    } else {
        assert(all[all.len() - 1] == (RuleView {
            target: shifted_path(rules[k].target, section, index)->0,
            other: shifted_path(rules[k].other, section, index)->0,
        }));
    }
}

} // verus!
