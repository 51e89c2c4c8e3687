//! The demo form: its definition, and the typed data that a filled-in form
//! stands for.
use vstd::prelude::*;
use crate::pages::{AdvancePolicy, PageDescriptor, PageView};
use crate::path::{BindingPath, PathView, SegmentView};
use crate::repeat::{RepeatableSectionManager, SectionView};
use crate::rules::{EqualityRule, RuleView};
use crate::session::{DefinitionView, FormDefinition};
use crate::store::{FieldTemplate, TemplateView};
use crate::text::same_text;
use crate::tree::{section_entries, value_at, Node, NodeView};
use crate::value::{
    is_calendar_day, is_clock_time, is_email, is_file_id, is_phone, FieldKind, FieldKindView,
    FieldValue, FieldValueView,
};

verus! {

/// The choices of the radio buttons and of the select field.
#[derive(Debug, Clone, Copy, PartialEq, Eq, Structural, Hash)]
pub enum RadioValue {
    A,
    B,
    C,
}

impl Default for RadioValue {
    fn default() -> (r: RadioValue)
        ensures
            r == RadioValue::A,
    {
        RadioValue::A
    }
}

/// The name of a choice.
pub open spec fn radio_name(value: RadioValue) -> Seq<char> {
    match value {
        RadioValue::A => "A"@,
        RadioValue::B => "B"@,
        RadioValue::C => "C"@,
    }
}

/// The choice with the name `name`. Where the three names are not told
/// apart, the first that fits counts.
pub open spec fn radio_of_name(name: Seq<char>) -> Option<RadioValue> {
    if name == "A"@ {
        Some(RadioValue::A)
    } else if name == "B"@ {
        Some(RadioValue::B)
    } else if name == "C"@ {
        Some(RadioValue::C)
    } else {
        None
    }
}

/// The names of the choices, in their order.
pub open spec fn radio_names() -> Seq<Seq<char>> {
    seq!["A"@, "B"@, "C"@]
}

impl RadioValue {
    /// The name of the choice.
    pub fn name(&self) -> (r: &'static str)
        ensures
            r@ == radio_name(*self),
    {
        match self {
            RadioValue::A => "A",
            RadioValue::B => "B",
            RadioValue::C => "C",
        }
    }

    /// The choice with the name `name`, if there is one.
    pub fn from_name(name: &str) -> (r: Option<RadioValue>)
        ensures
            r == radio_of_name(name@),
    {
        if same_text(name, "A") {
            Some(RadioValue::A)
        } else if same_text(name, "B") {
            Some(RadioValue::B)
        } else if same_text(name, "C") {
            Some(RadioValue::C)
        } else {
            None
        }
    }

    /// The names of the choices, in their order.
    pub fn names() -> (r: Vec<String>)
        ensures
            r@.map_values(|c: String| c@) == radio_names(),
    {
        let mut r: Vec<String> = Vec::new();
        r.push("A".to_owned());
        r.push("B".to_owned());
        r.push("C".to_owned());
        proof {
            assert(r@.map_values(|c: String| c@) =~= radio_names());
        }
        r
    }
}

/// A day of the calendar.
#[derive(Debug, Clone, Copy, PartialEq, Eq, Structural)]
pub struct Date {
    pub year: i32,
    pub month: u8,
    pub day: u8,
}

/// A minute of the day.
#[derive(Debug, Clone, Copy, PartialEq, Eq, Structural)]
pub struct Time {
    pub hour: u8,
    pub minute: u8,
}

/// A minute of a day of the calendar.
#[derive(Debug, Clone, Copy, PartialEq, Eq, Structural)]
pub struct DateTime {
    pub date: Date,
    pub time: Time,
}

/// The values of the page that shows one field of every kind.
#[derive(Debug)]
pub struct Datatypes {
    pub string: String,
    pub non_empty_string: String,
    pub email: String,
    pub phone: String,
    pub number: u64,
    pub date: Date,
    pub time: Time,
    pub date_time: DateTime,
    pub bool: bool,
    pub accept: bool,
    pub radio: RadioValue,
    pub select: RadioValue,
}

/// The mathematical value of a [`Datatypes`].
pub struct DatatypesView {
    pub string: Seq<char>,
    pub non_empty_string: Seq<char>,
    pub email: Seq<char>,
    pub phone: Seq<char>,
    pub number: u64,
    pub date: Date,
    pub time: Time,
    pub date_time: DateTime,
    pub bool: bool,
    pub accept: bool,
    pub radio: RadioValue,
    pub select: RadioValue,
}

impl View for Datatypes {
    type V = DatatypesView;

    open spec fn view(&self) -> DatatypesView {
        DatatypesView {
            string: self.string@,
            non_empty_string: self.non_empty_string@,
            email: self.email@,
            phone: self.phone@,
            number: self.number,
            date: self.date,
            time: self.time,
            date_time: self.date_time,
            bool: self.bool,
            accept: self.accept,
            radio: self.radio,
            select: self.select,
        }
    }
}

/// A postal address.
#[derive(Debug)]
pub struct Address {
    pub street: String,
    pub zip: String,
    pub city: String,
}

/// The mathematical value of an [`Address`].
pub struct AddressView {
    pub street: Seq<char>,
    pub zip: Seq<char>,
    pub city: Seq<char>,
}

impl View for Address {
    type V = AddressView;

    open spec fn view(&self) -> AddressView {
        AddressView { street: self.street@, zip: self.zip@, city: self.city@ }
    }
}

/// One entry of the repeatable section of children.
#[derive(Debug)]
pub struct ChildData {
    pub name: String,
}

/// The mathematical value of a [`ChildData`].
pub struct ChildDataView {
    pub name: Seq<char>,
}

impl View for ChildData {
    type V = ChildDataView;

    open spec fn view(&self) -> ChildDataView {
        ChildDataView { name: self.name@ }
    }
}

/// The typed data of a filled-in demo form.
#[derive(Debug)]
pub struct DemoForm {
    pub datatypes: Datatypes,
    pub address: Address,
    pub children: Vec<ChildData>,
    /// The identifiers of the uploaded files.
    pub files: Vec<String>,
}

/// The mathematical value of a [`DemoForm`].
pub struct DemoFormView {
    pub datatypes: DatatypesView,
    pub address: AddressView,
    pub children: Seq<ChildDataView>,
    pub files: Seq<Seq<char>>,
}

impl View for DemoForm {
    type V = DemoFormView;

    open spec fn view(&self) -> DemoFormView {
        DemoFormView {
            datatypes: self.datatypes@,
            address: self.address@,
            children: self.children@.map_values(|c: ChildData| c@),
            files: self.files@.map_values(|f: String| f@),
        }
    }
}

/// Whether the values of the group `datatypes` are such as its fields
/// accept: the text that must not be empty is not, the e-mail address and
/// the telephone number follow their grammars, the number fits in 32 bits,
/// the dates are days of the calendar and the times minutes of the day, and
/// the box that has to be ticked is.
pub open spec fn datatypes_valid(d: DatatypesView) -> bool {
    &&& d.non_empty_string.len() > 0
    &&& is_email(d.email)
    &&& is_phone(d.phone)
    &&& d.number <= u32::MAX
    &&& is_calendar_day(d.date.year as int, d.date.month as int, d.date.day as int)
    &&& is_clock_time(d.time.hour as int, d.time.minute as int)
    &&& is_calendar_day(
        d.date_time.date.year as int,
        d.date_time.date.month as int,
        d.date_time.date.day as int,
    )
    &&& is_clock_time(d.date_time.time.hour as int, d.date_time.time.minute as int)
    &&& d.accept
}

/// Whether the data are such as the fields of the demo form accept: the
/// values of the group `datatypes` are, every child has a name, and every
/// file is named by an identifier.
pub open spec fn demo_form_valid(f: DemoFormView) -> bool {
    &&& datatypes_valid(f.datatypes)
    &&& forall|i: int| 0 <= i < f.children.len() ==> (#[trigger] f.children[i]).name.len() > 0
    &&& forall|i: int| 0 <= i < f.files.len() ==> is_file_id(#[trigger] f.files[i])
}

/// The path of the field `key` of the group `group`.
pub open spec fn in_group(group: Seq<char>, key: Seq<char>) -> PathView {
    seq![SegmentView::Named(group), SegmentView::Named(key)]
}

/// The path of the top-level field `key`.
pub open spec fn at_top(key: Seq<char>) -> PathView {
    seq![SegmentView::Named(key)]
}

/// A field of a form.
pub open spec fn field_view(path: PathView, kind: FieldKindView, required: bool) -> TemplateView {
    TemplateView { path, kind, required }
}

/// The largest number of entries that a repeatable section of the demo
/// form may have.
pub const MAX_ENTRIES: usize = 0xffff_ffff;

/// The fields of the demo form outside its repeatable sections: one field
/// of every kind in the group `datatypes`, the box and the two e-mail
/// addresses of the dialog page, and the address.
pub open spec fn demo_fields() -> Seq<TemplateView> {
    let d = "datatypes"@;
    let a = "address"@;
    seq![
        field_view(in_group(d, "string"@), FieldKindView::Text, false),
        field_view(in_group(d, "non_empty_string"@), FieldKindView::NonEmptyText, true),
        field_view(in_group(d, "email"@), FieldKindView::Email, true),
        field_view(in_group(d, "phone"@), FieldKindView::Phone, true),
        field_view(in_group(d, "number"@), FieldKindView::IntegerU32, true),
        field_view(in_group(d, "time"@), FieldKindView::Time, true),
        field_view(in_group(d, "date"@), FieldKindView::Date, true),
        field_view(in_group(d, "date_time"@), FieldKindView::DateTime, true),
        field_view(in_group(d, "bool"@), FieldKindView::Boolean, false),
        field_view(in_group(d, "accept"@), FieldKindView::Accepted, true),
        field_view(in_group(d, "radio"@), FieldKindView::Enum(radio_names()), true),
        field_view(in_group(d, "select"@), FieldKindView::Enum(radio_names()), true),
        field_view(at_top("show_dialog"@), FieldKindView::Boolean, false),
        field_view(at_top("email"@), FieldKindView::Email, true),
        field_view(at_top("repeat_email"@), FieldKindView::Email, true),
        field_view(in_group(a, "street"@), FieldKindView::Text, false),
        field_view(in_group(a, "zip"@), FieldKindView::Text, false),
        field_view(in_group(a, "city"@), FieldKindView::Text, false),
    ]
}

/// The repeatable sections of the demo form: the children, each with a
/// name, and the uploaded files, each an identifier.
pub open spec fn demo_sections() -> Seq<SectionView> {
    seq![
        SectionView {
            path: at_top("children"@),
            min: 0,
            max: MAX_ENTRIES as nat,
            template: seq![field_view(at_top("name"@), FieldKindView::NonEmptyText, true)],
        },
        SectionView {
            path: at_top("files"@),
            min: 0,
            max: MAX_ENTRIES as nat,
            template: seq![field_view(Seq::empty(), FieldKindView::FileReference, true)],
        },
    ]
}

/// The rules of the demo form: the repeated e-mail address has to be the
/// e-mail address.
pub open spec fn demo_rules() -> Seq<RuleView> {
    seq![RuleView { target: at_top("repeat_email"@), other: at_top("email"@) }]
}

/// The pages of the demo form, each with the paths that gate it.
pub open spec fn demo_pages() -> Seq<PageView> {
    seq![
        PageView { id: "page-welcome"@, label: "welcome"@, paths: Seq::empty() },
        PageView {
            id: "page-datatypes"@,
            label: "datatypes"@,
            paths: seq![at_top("datatypes"@)],
        },
        PageView {
            id: "page-dynamic-dialog"@,
            label: "dynamic_dialog"@,
            paths: seq![at_top("show_dialog"@), at_top("email"@), at_top("repeat_email"@)],
        },
        PageView { id: "page-server-fn"@, label: "server_fn"@, paths: seq![at_top("address"@)] },
        PageView {
            id: "page-repeatable"@,
            label: "repeatables"@,
            paths: seq![at_top("children"@)],
        },
        PageView {
            id: "page-file-upload"@,
            label: "file_upload"@,
            paths: seq![at_top("files"@)],
        },
        PageView { id: "page-finale"@, label: "the_grand_finale"@, paths: Seq::empty() },
    ]
}

/// The definition of the demo form.
pub open spec fn demo_definition() -> DefinitionView {
    DefinitionView {
        fields: demo_fields(),
        sections: demo_sections(),
        rules: demo_rules(),
        pages: demo_pages(),
        policy: AdvancePolicy::Gated,
    }
}

/// The text at a path, whichever of the kinds of text it is.
pub open spec fn text_at(tree: NodeView, path: PathView) -> Option<Seq<char>> {
    match value_at(tree, path) {
        Some(FieldValueView::Text(t)) => Some(t),
        Some(FieldValueView::NonEmptyText(t)) => Some(t),
        Some(FieldValueView::Email(t)) => Some(t),
        Some(FieldValueView::Phone(t)) => Some(t),
        Some(FieldValueView::FileReference(t)) => Some(t),
        _ => None,
    }
}

/// The number at a path.
pub open spec fn number_at(tree: NodeView, path: PathView) -> Option<u64> {
    match value_at(tree, path) {
        Some(FieldValueView::IntegerU32(n)) => Some(n as u64),
        Some(FieldValueView::IntegerU64(n)) => Some(n),
        _ => None,
    }
}

/// The truth value at a path, of a box that may or must be ticked.
pub open spec fn flag_at(tree: NodeView, path: PathView) -> Option<bool> {
    match value_at(tree, path) {
        Some(FieldValueView::Boolean(b)) => Some(b),
        Some(FieldValueView::Accepted(b)) => Some(b),
        _ => None,
    }
}

/// The date at a path.
pub open spec fn date_at(tree: NodeView, path: PathView) -> Option<Date> {
    match value_at(tree, path) {
        Some(FieldValueView::Date { year, month, day }) => Some(Date { year, month, day }),
        _ => None,
    }
}

/// The time at a path.
pub open spec fn time_at(tree: NodeView, path: PathView) -> Option<Time> {
    match value_at(tree, path) {
        Some(FieldValueView::Time { hour, minute }) => Some(Time { hour, minute }),
        _ => None,
    }
}

/// The date and time at a path.
pub open spec fn date_time_at(tree: NodeView, path: PathView) -> Option<DateTime> {
    match value_at(tree, path) {
        Some(FieldValueView::DateTime { year, month, day, hour, minute }) => Some(
            DateTime { date: Date { year, month, day }, time: Time { hour, minute } },
        ),
        _ => None,
    }
}

/// The choice at a path.
pub open spec fn radio_at(tree: NodeView, path: PathView) -> Option<RadioValue> {
    match value_at(tree, path) {
        Some(FieldValueView::Enum(name)) => radio_of_name(name),
        _ => None,
    }
}

/// The values of the group `datatypes`, if each of them is committed.
pub open spec fn datatypes_of(tree: NodeView) -> Option<DatatypesView> {
    let g = "datatypes"@;
    if text_at(tree, in_group(g, "string"@)) is Some && text_at(
        tree,
        in_group(g, "non_empty_string"@),
    ) is Some && text_at(tree, in_group(g, "email"@)) is Some && text_at(
        tree,
        in_group(g, "phone"@),
    ) is Some && number_at(tree, in_group(g, "number"@)) is Some && date_at(
        tree,
        in_group(g, "date"@),
    ) is Some && time_at(tree, in_group(g, "time"@)) is Some && date_time_at(
        tree,
        in_group(g, "date_time"@),
    ) is Some && flag_at(tree, in_group(g, "bool"@)) is Some && flag_at(
        tree,
        in_group(g, "accept"@),
    ) is Some && radio_at(tree, in_group(g, "radio"@)) is Some && radio_at(
        tree,
        in_group(g, "select"@),
    ) is Some {
        Some(
            DatatypesView {
                string: text_at(tree, in_group(g, "string"@))->0,
                non_empty_string: text_at(tree, in_group(g, "non_empty_string"@))->0,
                email: text_at(tree, in_group(g, "email"@))->0,
                phone: text_at(tree, in_group(g, "phone"@))->0,
                number: number_at(tree, in_group(g, "number"@))->0,
                date: date_at(tree, in_group(g, "date"@))->0,
                time: time_at(tree, in_group(g, "time"@))->0,
                date_time: date_time_at(tree, in_group(g, "date_time"@))->0,
                bool: flag_at(tree, in_group(g, "bool"@))->0,
                accept: flag_at(tree, in_group(g, "accept"@))->0,
                radio: radio_at(tree, in_group(g, "radio"@))->0,
                select: radio_at(tree, in_group(g, "select"@))->0,
            },
        )
    } else {
        None
    }
}

/// The values of the group `address`, if each of them is committed.
pub open spec fn address_of(tree: NodeView) -> Option<AddressView> {
    let g = "address"@;
    if text_at(tree, in_group(g, "street"@)) is Some && text_at(tree, in_group(g, "zip"@))
        is Some && text_at(tree, in_group(g, "city"@)) is Some {
        Some(
            AddressView {
                street: text_at(tree, in_group(g, "street"@))->0,
                zip: text_at(tree, in_group(g, "zip"@))->0,
                city: text_at(tree, in_group(g, "city"@))->0,
            },
        )
    } else {
        None
    }
}

/// The child that one entry of the section of children stands for.
pub open spec fn child_of(entry: NodeView) -> Option<ChildDataView> {
    match text_at(entry, at_top("name"@)) {
        Some(name) => Some(ChildDataView { name }),
        None => None,
    }
}

/// The children that the entries stand for, if every entry stands for one.
pub open spec fn children_of(entries: Seq<NodeView>) -> Option<Seq<ChildDataView>>
    decreases entries.len(),
{
    if entries.len() == 0 {
        Some(Seq::empty())
    } else {
        match (children_of(entries.drop_last()), child_of(entries.last())) {
            (Some(head), Some(child)) => Some(head.push(child)),
            _ => None,
        }
    }
}

/// The file identifiers that the entries stand for, if every entry is one.
pub open spec fn files_of(entries: Seq<NodeView>) -> Option<Seq<Seq<char>>>
    decreases entries.len(),
{
    if entries.len() == 0 {
        Some(Seq::empty())
    } else {
        match (files_of(entries.drop_last()), text_at(entries.last(), Seq::empty())) {
            (Some(head), Some(id)) => Some(head.push(id)),
            _ => None,
        }
    }
}

/// The typed data that a tree stands for, if everything that the data
/// holds is committed in the tree. A section that is not there counts as
/// empty.
pub open spec fn demo_form_of(tree: NodeView) -> Option<DemoFormView> {
    let children = match section_entries(tree, at_top("children"@)) {
        Some(entries) => children_of(entries),
        None => Some(Seq::empty()),
    };
    let files = match section_entries(tree, at_top("files"@)) {
        Some(entries) => files_of(entries),
        None => Some(Seq::empty()),
    };
    match (datatypes_of(tree), address_of(tree), children, files) {
        (Some(datatypes), Some(address), Some(children), Some(files)) => Some(
            DemoFormView { datatypes, address, children, files },
        ),
        _ => None,
    }
}

/// The path of the field `key` of the group `group`.
fn path_in(group: &str, key: &str) -> (p: BindingPath)
    ensures
        p@ == in_group(group@, key@),
{
    let p = BindingPath::new().push_named(group).push_named(key);
    proof {
        assert(p@ =~= in_group(group@, key@));
    }
    p
}

/// The path of the top-level field `key`.
fn path_at(key: &str) -> (p: BindingPath)
    ensures
        p@ == at_top(key@),
{
    let p = BindingPath::new().push_named(key);
    proof {
        assert(p@ =~= at_top(key@));
    }
    p
}

/// The text at `path`, whichever of the kinds of text it is.
fn read_text(tree: &Node, path: &BindingPath) -> (r: Option<String>)
    ensures
        match r {
            Some(t) => text_at(tree@, path@) == Some(t@),
            None => text_at(tree@, path@) is None,
        },
{
    match tree.value(path) {
        Some(FieldValue::Text(t)) => Some(t.clone()),
        Some(FieldValue::NonEmptyText(t)) => Some(t.clone()),
        Some(FieldValue::Email(t)) => Some(t.clone()),
        Some(FieldValue::Phone(t)) => Some(t.clone()),
        Some(FieldValue::FileReference(t)) => Some(t.clone()),
        _ => None,
    }
}

/// The number at `path`.
fn read_number(tree: &Node, path: &BindingPath) -> (r: Option<u64>)
    ensures
        r == number_at(tree@, path@),
{
    match tree.value(path) {
        Some(FieldValue::IntegerU32(n)) => Some(*n as u64),
        Some(FieldValue::IntegerU64(n)) => Some(*n),
        _ => None,
    }
}

/// The truth value at `path`.
fn read_flag(tree: &Node, path: &BindingPath) -> (r: Option<bool>)
    ensures
        r == flag_at(tree@, path@),
{
    match tree.value(path) {
        Some(FieldValue::Boolean(b)) => Some(*b),
        Some(FieldValue::Accepted(b)) => Some(*b),
        _ => None,
    }
}

/// The date at `path`.
fn read_date(tree: &Node, path: &BindingPath) -> (r: Option<Date>)
    ensures
        r == date_at(tree@, path@),
{
    match tree.value(path) {
        Some(FieldValue::Date { year, month, day }) => Some(
            Date { year: *year, month: *month, day: *day },
        ),
        _ => None,
    }
}

/// The time at `path`.
fn read_time(tree: &Node, path: &BindingPath) -> (r: Option<Time>)
    ensures
        r == time_at(tree@, path@),
{
    match tree.value(path) {
        Some(FieldValue::Time { hour, minute }) => Some(Time { hour: *hour, minute: *minute }),
        _ => None,
    }
}

/// The date and time at `path`.
fn read_date_time(tree: &Node, path: &BindingPath) -> (r: Option<DateTime>)
    ensures
        r == date_time_at(tree@, path@),
{
    match tree.value(path) {
        Some(FieldValue::DateTime { year, month, day, hour, minute }) => Some(
            DateTime {
                date: Date { year: *year, month: *month, day: *day },
                time: Time { hour: *hour, minute: *minute },
            },
        ),
        _ => None,
    }
}

/// The choice at `path`.
fn read_radio(tree: &Node, path: &BindingPath) -> (r: Option<RadioValue>)
    ensures
        r == radio_at(tree@, path@),
{
    match tree.value(path) {
        Some(FieldValue::Enum(name)) => RadioValue::from_name(name.as_str()),
        _ => None,
    }
}

impl Datatypes {
    /// The values of the group `datatypes` of `tree`, if each of them is
    /// committed.
    pub fn from_tree(tree: &Node) -> (r: Option<Datatypes>)
        ensures
            match r {
                Some(d) => datatypes_of(tree@) == Some(d@),
                None => datatypes_of(tree@) is None,
            },
    {
        let string = read_text(tree, &path_in("datatypes", "string"));
        let non_empty_string = read_text(tree, &path_in("datatypes", "non_empty_string"));
        let email = read_text(tree, &path_in("datatypes", "email"));
        let phone = read_text(tree, &path_in("datatypes", "phone"));
        let number = read_number(tree, &path_in("datatypes", "number"));
        let date = read_date(tree, &path_in("datatypes", "date"));
        let time = read_time(tree, &path_in("datatypes", "time"));
        let date_time = read_date_time(tree, &path_in("datatypes", "date_time"));
        let bool = read_flag(tree, &path_in("datatypes", "bool"));
        let accept = read_flag(tree, &path_in("datatypes", "accept"));
        let radio = read_radio(tree, &path_in("datatypes", "radio"));
        let select = read_radio(tree, &path_in("datatypes", "select"));
        match (string, non_empty_string, email, phone) {
            (Some(string), Some(non_empty_string), Some(email), Some(phone)) => match (
                number,
                date,
                time,
                date_time,
            ) {
                (Some(number), Some(date), Some(time), Some(date_time)) => match (
                    bool,
                    accept,
                    radio,
                    select,
                ) {
                    (Some(bool), Some(accept), Some(radio), Some(select)) => Some(
                        Datatypes {
                            string,
                            non_empty_string,
                            email,
                            phone,
                            number,
                            date,
                            time,
                            date_time,
                            bool,
                            accept,
                            radio,
                            select,
                        },
                    ),
                    _ => None,
                },
                _ => None,
            },
            _ => None,
        }
    }
}

impl Date {
    /// Whether this is a day of the calendar.
    pub fn is_valid(&self) -> (r: bool)
        ensures
            r == is_calendar_day(self.year as int, self.month as int, self.day as int),
    {
        FieldValue::Date { year: self.year, month: self.month, day: self.day }.is_valid_for(
            &FieldKind::Date,
        )
    }
}

impl Time {
    /// Whether this is a minute of the day.
    pub fn is_valid(&self) -> (r: bool)
        ensures
            r == is_clock_time(self.hour as int, self.minute as int),
    {
        self.hour < 24 && self.minute < 60
    }
}

impl Datatypes {
    /// Whether the values are such as the fields of the group accept.
    pub fn is_valid(&self) -> (r: bool)
        ensures
            r == datatypes_valid(self@),
    {
        !self.non_empty_string.as_str().is_empty() && FieldValue::Email(
            self.email.clone(),
        ).is_valid_for(&FieldKind::Email) && FieldValue::Phone(self.phone.clone()).is_valid_for(
            &FieldKind::Phone,
        ) && self.number <= 0xffff_ffff && self.date.is_valid() && self.time.is_valid()
            && self.date_time.date.is_valid() && self.date_time.time.is_valid() && self.accept
    }
}

impl Address {
    /// The values of the group `address` of `tree`, if each of them is
    /// committed.
    pub fn from_tree(tree: &Node) -> (r: Option<Address>)
        ensures
            match r {
                Some(a) => address_of(tree@) == Some(a@),
                None => address_of(tree@) is None,
            },
    {
        let street = read_text(tree, &path_in("address", "street"));
        let zip = read_text(tree, &path_in("address", "zip"));
        let city = read_text(tree, &path_in("address", "city"));
        match (street, zip, city) {
            (Some(street), Some(zip), Some(city)) => Some(Address { street, zip, city }),
            _ => None,
        }
    }
}

impl ChildData {
    /// The child that one entry of the section of children stands for.
    pub fn from_entry(entry: &Node) -> (r: Option<ChildData>)
        ensures
            match r {
                Some(c) => child_of(entry@) == Some(c@),
                None => child_of(entry@) is None,
            },
    {
        match read_text(entry, &path_at("name")) {
            Some(name) => Some(ChildData { name }),
            None => None,
        }
    }
}

impl DemoForm {
    /// Whether the data are such as the fields of the demo form accept.
    /// Data that come from elsewhere than a session, such as from the wire,
    /// are to be checked with this before they are used.
    pub fn is_valid(&self) -> (r: bool)
        ensures
            r == demo_form_valid(self@),
    {
        if !self.datatypes.is_valid() {
            return false;
        }
        let ghost children = self@.children;
        let mut i: usize = 0;
        while i < self.children.len()
            invariant
                i <= self.children.len(),
                children == self@.children,
                forall|j: int| 0 <= j < i ==> (#[trigger] children[j]).name.len() > 0,
            decreases self.children.len() - i,
        {
            if self.children[i].name.as_str().is_empty() {
                assert(children[i as int].name.len() == 0);
                return false;
            }
            i += 1;
        }
        let ghost files = self@.files;
        let mut k: usize = 0;
        while k < self.files.len()
            invariant
                k <= self.files.len(),
                files == self@.files,
                children == self@.children,
                forall|j: int| 0 <= j < children.len() ==> (#[trigger] children[j]).name.len() > 0,
                forall|j: int| 0 <= j < k ==> is_file_id(#[trigger] files[j]),
            decreases self.files.len() - k,
        {
            if !FieldValue::FileReference(self.files[k].clone()).is_valid_for(
                &FieldKind::FileReference,
            ) {
                assert(!is_file_id(files[k as int]));
                return false;
            }
            k += 1;
        }
        true
    }

    /// The typed data that `tree` stands for, if everything that the data
    /// holds is committed in the tree.
    pub fn from_tree(tree: &Node) -> (r: Option<DemoForm>)
        ensures
            match r {
                Some(d) => demo_form_of(tree@) == Some(d@),
                None => demo_form_of(tree@) is None,
            },
    {
        let datatypes = match Datatypes::from_tree(tree) {
            Some(d) => d,
            None => {
                return None;
            },
        };
        let address = match Address::from_tree(tree) {
            Some(a) => a,
            None => {
                return None;
            },
        };
        let mut children: Vec<ChildData> = Vec::new();
        let children_path = path_at("children");
        match tree.resolve(&children_path) {
            Some(Node::List(entries)) => {
                proof {
                    crate::tree::lemma_list_view(*entries);
                }
                let ghost views = crate::tree::items_view(entries@);
                let mut i: usize = 0;
                proof {
                    assert(views.take(0) =~= Seq::empty());
                    assert(children@.map_values(|c: ChildData| c@) =~= Seq::empty());
                }
                while i < entries.len()
                    invariant
                        i <= entries.len(),
                        views == crate::tree::items_view(entries@),
                        section_entries(tree@, at_top("children"@)) == Some(views),
                        children_of(views.take(i as int)) == Some(
                            children@.map_values(|c: ChildData| c@),
                        ),
                    decreases entries.len() - i,
                {
                    proof {
                        assert(views.take(i + 1).drop_last() =~= views.take(i as int));
                        assert(views.take(i + 1).last() == views[i as int]);
                    }
                    match ChildData::from_entry(&entries[i]) {
                        Some(child) => {
                            let ghost before = children@.map_values(|c: ChildData| c@);
                            children.push(child);
                            proof {
                                assert(children@.map_values(|c: ChildData| c@) =~= before.push(
                                    child@,
                                ));
                            }
                        },
                        None => {
                            proof {
                                lemma_children_fail_on(views, i + 1);
                            }
                            return None;
                        },
                    }
                    i += 1;
                }
                proof {
                    assert(views.take(entries.len() as int) =~= views);
                }
            },
            _ => {
                proof {
                    assert(children@.map_values(|c: ChildData| c@) =~= Seq::empty());
                }
            },
        }
        let mut files: Vec<String> = Vec::new();
        let files_path = path_at("files");
        let here = BindingPath::new();
        match tree.resolve(&files_path) {
            Some(Node::List(entries)) => {
                proof {
                    crate::tree::lemma_list_view(*entries);
                }
                let ghost views = crate::tree::items_view(entries@);
                let mut i: usize = 0;
                proof {
                    assert(views.take(0) =~= Seq::empty());
                    assert(files@.map_values(|f: String| f@) =~= Seq::empty());
                }
                while i < entries.len()
                    invariant
                        i <= entries.len(),
                        here@ == Seq::<SegmentView>::empty(),
                        views == crate::tree::items_view(entries@),
                        section_entries(tree@, at_top("files"@)) == Some(views),
                        files_of(views.take(i as int)) == Some(files@.map_values(|f: String| f@)),
                    decreases entries.len() - i,
                {
                    proof {
                        assert(views.take(i + 1).drop_last() =~= views.take(i as int));
                        assert(views.take(i + 1).last() == views[i as int]);
                    }
                    match read_text(&entries[i], &here) {
                        Some(id) => {
                            let ghost before = files@.map_values(|f: String| f@);
                            files.push(id);
                            proof {
                                assert(files@.map_values(|f: String| f@) =~= before.push(id@));
                            }
                        },
                        None => {
                            proof {
                                lemma_files_fail_on(views, i + 1);
                            }
                            return None;
                        },
                    }
                    i += 1;
                }
                proof {
                    assert(views.take(entries.len() as int) =~= views);
                }
            },
            _ => {
                proof {
                    assert(files@.map_values(|f: String| f@) =~= Seq::empty());
                }
            },
        }
        Some(DemoForm { datatypes, address, children, files })
    }
}

/// Once an entry stands for no child, the entries as a whole stand for no
/// children.
pub proof fn lemma_children_fail_on(entries: Seq<NodeView>, k: int)
    requires
        0 <= k <= entries.len(),
        children_of(entries.take(k)) is None,
    ensures
        children_of(entries) is None,
    decreases entries.len() - k,
{
    if k == entries.len() {
        assert(entries.take(k) =~= entries);
    } else {
        assert(entries.take(k + 1).drop_last() =~= entries.take(k));
        lemma_children_fail_on(entries, k + 1);
    }
}

/// Once an entry is no file identifier, the entries as a whole stand for no
/// list of files.
pub proof fn lemma_files_fail_on(entries: Seq<NodeView>, k: int)
    requires
        0 <= k <= entries.len(),
        files_of(entries.take(k)) is None,
    ensures
        files_of(entries) is None,
    decreases entries.len() - k,
{
    if k == entries.len() {
        assert(entries.take(k) =~= entries);
    } else {
        assert(entries.take(k + 1).drop_last() =~= entries.take(k));
        lemma_files_fail_on(entries, k + 1);
    }
}

/// A field of `kind` at `path`.
fn field(path: BindingPath, kind: FieldKind, required: bool) -> (r: FieldTemplate)
    ensures
        r@ == field_view(path@, kind@, required),
{
    FieldTemplate { path, kind, required }
}

/// The kind of the radio buttons and of the select field.
fn radio_kind() -> (r: FieldKind)
    ensures
        r@ == FieldKindView::Enum(radio_names()),
{
    FieldKind::Enum(RadioValue::names())
}

/// A page that is gated by the top-level paths `keys`.
fn page(id: &str, label: &str, keys: Vec<&str>) -> (r: PageDescriptor)
    ensures
        r@ == (PageView {
            id: id@,
            label: label@,
            paths: Seq::new(keys@.len(), |i: int| at_top(keys@[i]@)),
        }),
{
    let mut paths: Vec<BindingPath> = Vec::new();
    let mut i: usize = 0;
    while i < keys.len()
        invariant
            i <= keys.len(),
            paths@.len() == i,
            forall|j: int| 0 <= j < i ==> (#[trigger] paths@[j])@ == at_top(keys@[j]@),
        decreases keys.len() - i,
    {
        paths.push(path_at(keys[i]));
        i += 1;
    }
    let r = PageDescriptor { id: id.to_owned(), label: label.to_owned(), paths };
    proof {
        assert(r@.paths =~= Seq::new(keys@.len(), |i: int| at_top(keys@[i]@)));
    }
    r
}

/// The definition of the demo form: seven pages, of which the first and
/// the last hold no field; one field of every kind; two e-mail addresses
/// that have to agree; an address; a repeatable section of children; and a
/// repeatable section of uploaded files. A page that is not valid lets
/// nobody past.
pub fn DemoForm() -> (r: FormDefinition)
    ensures
        r@ == demo_definition(),
{
    let mut fields: Vec<FieldTemplate> = Vec::new();
    fields.push(field(path_in("datatypes", "string"), FieldKind::Text, false));
    fields.push(field(path_in("datatypes", "non_empty_string"), FieldKind::NonEmptyText, true));
    fields.push(field(path_in("datatypes", "email"), FieldKind::Email, true));
    fields.push(field(path_in("datatypes", "phone"), FieldKind::Phone, true));
    fields.push(field(path_in("datatypes", "number"), FieldKind::IntegerU32, true));
    fields.push(field(path_in("datatypes", "time"), FieldKind::Time, true));
    fields.push(field(path_in("datatypes", "date"), FieldKind::Date, true));
    fields.push(field(path_in("datatypes", "date_time"), FieldKind::DateTime, true));
    fields.push(field(path_in("datatypes", "bool"), FieldKind::Boolean, false));
    fields.push(field(path_in("datatypes", "accept"), FieldKind::Accepted, true));
    fields.push(field(path_in("datatypes", "radio"), radio_kind(), true));
    fields.push(field(path_in("datatypes", "select"), radio_kind(), true));
    fields.push(field(path_at("show_dialog"), FieldKind::Boolean, false));
    fields.push(field(path_at("email"), FieldKind::Email, true));
    fields.push(field(path_at("repeat_email"), FieldKind::Email, true));
    fields.push(field(path_in("address", "street"), FieldKind::Text, false));
    fields.push(field(path_in("address", "zip"), FieldKind::Text, false));
    fields.push(field(path_in("address", "city"), FieldKind::Text, false));
    proof {
        assert(fields@.map_values(|f: FieldTemplate| f@) =~= demo_fields());
    }

    let mut child: Vec<FieldTemplate> = Vec::new();
    child.push(field(path_at("name"), FieldKind::NonEmptyText, true));
    let mut file: Vec<FieldTemplate> = Vec::new();
    file.push(field(BindingPath::new(), FieldKind::FileReference, true));
    proof {
        assert(child@.map_values(|f: FieldTemplate| f@) =~= seq![
            field_view(at_top("name"@), FieldKindView::NonEmptyText, true),
        ]);
        assert(file@.map_values(|f: FieldTemplate| f@) =~= seq![
            field_view(Seq::empty(), FieldKindView::FileReference, true),
        ]);
    }
    let mut sections: Vec<RepeatableSectionManager> = Vec::new();
    sections.push(RepeatableSectionManager::new(path_at("children"), 0, MAX_ENTRIES, child));
    sections.push(RepeatableSectionManager::new(path_at("files"), 0, MAX_ENTRIES, file));
    proof {
        assert(sections@.map_values(|m: RepeatableSectionManager| m@) =~= demo_sections());
    }

    let mut rules: Vec<EqualityRule> = Vec::new();
    rules.push(EqualityRule { target: path_at("repeat_email"), other: path_at("email") });
    proof {
        assert(rules@.map_values(|r: EqualityRule| r@) =~= demo_rules());
    }

    let mut pages: Vec<PageDescriptor> = Vec::new();
    pages.push(page("page-welcome", "welcome", Vec::new()));
    let mut keys: Vec<&str> = Vec::new();
    keys.push("datatypes");
    pages.push(page("page-datatypes", "datatypes", keys));
    let mut keys: Vec<&str> = Vec::new();
    keys.push("show_dialog");
    keys.push("email");
    keys.push("repeat_email");
    pages.push(page("page-dynamic-dialog", "dynamic_dialog", keys));
    let mut keys: Vec<&str> = Vec::new();
    keys.push("address");
    pages.push(page("page-server-fn", "server_fn", keys));
    let mut keys: Vec<&str> = Vec::new();
    keys.push("children");
    pages.push(page("page-repeatable", "repeatables", keys));
    let mut keys: Vec<&str> = Vec::new();
    keys.push("files");
    pages.push(page("page-file-upload", "file_upload", keys));
    pages.push(page("page-finale", "the_grand_finale", Vec::new()));
    proof {
        let views = pages@.map_values(|p: PageDescriptor| p@);
        let wanted = demo_pages();
        assert(views.len() == wanted.len());
        assert forall|i: int| 0 <= i < views.len() implies views[i] == wanted[i] by {
            assert(views[i].paths =~= wanted[i].paths);
        }
        assert(views =~= wanted);
    }
    FormDefinition { fields, sections, rules, pages, policy: AdvancePolicy::Gated }
}

} // verus!
