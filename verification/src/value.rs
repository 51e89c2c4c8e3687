//! Typed field values, the kinds of field that produce them, and the rules
//! by which raw input becomes a value or an error.
use vstd::prelude::*;
use crate::decimal::{all_digits, decimal_value, digit_value, scan_decimal};
use crate::text::{chars_of, same_text, string_of};

verus! {

/// Why a raw input is not a value of its field's kind.
#[derive(Debug, Clone, Copy, PartialEq, Eq, Structural)]
pub enum ErrorKind {
    /// Nothing was entered where something is needed.
    EmptyValue,
    /// The text does not follow the grammar of its kind.
    InvalidFormat,
    /// A box that has to be ticked is not.
    NotAccepted,
    /// The value differs from the field it has to agree with.
    CrossFieldMismatch,
    /// The text is not a number, date, time, truth value or choice.
    ParseFailure,
}

/// The kind of a field without its configuration.
#[derive(Debug, Clone, Copy, PartialEq, Eq, Structural)]
pub enum TypeTag {
    Text,
    NonEmptyText,
    Email,
    Phone,
    IntegerU32,
    IntegerU64,
    Date,
    Time,
    DateTime,
    Boolean,
    Accepted,
    Enum,
    FileReference,
}

/// The kind of a field: which values it holds and how raw input is read.
#[derive(Debug)]
pub enum FieldKind {
    Text,
    NonEmptyText,
    Email,
    Phone,
    IntegerU32,
    IntegerU64,
    Date,
    Time,
    DateTime,
    Boolean,
    Accepted,
    /// One of the listed choices.
    Enum(Vec<String>),
    FileReference,
}

/// The mathematical value of a [`FieldKind`].
pub enum FieldKindView {
    Text,
    NonEmptyText,
    Email,
    Phone,
    IntegerU32,
    IntegerU64,
    Date,
    Time,
    DateTime,
    Boolean,
    Accepted,
    Enum(Seq<Seq<char>>),
    FileReference,
}

impl View for FieldKind {
    type V = FieldKindView;

    open spec fn view(&self) -> FieldKindView {
        match self {
            FieldKind::Text => FieldKindView::Text,
            FieldKind::NonEmptyText => FieldKindView::NonEmptyText,
            FieldKind::Email => FieldKindView::Email,
            FieldKind::Phone => FieldKindView::Phone,
            FieldKind::IntegerU32 => FieldKindView::IntegerU32,
            FieldKind::IntegerU64 => FieldKindView::IntegerU64,
            FieldKind::Date => FieldKindView::Date,
            FieldKind::Time => FieldKindView::Time,
            FieldKind::DateTime => FieldKindView::DateTime,
            FieldKind::Boolean => FieldKindView::Boolean,
            FieldKind::Accepted => FieldKindView::Accepted,
            FieldKind::Enum(choices) => FieldKindView::Enum(choices@.map_values(|c: String| c@)),
            FieldKind::FileReference => FieldKindView::FileReference,
        }
    }
}

/// A validated, typed leaf value.
#[derive(Debug)]
pub enum FieldValue {
    Text(String),
    NonEmptyText(String),
    Email(String),
    Phone(String),
    IntegerU32(u32),
    IntegerU64(u64),
    Date { year: i32, month: u8, day: u8 },
    Time { hour: u8, minute: u8 },
    DateTime { year: i32, month: u8, day: u8, hour: u8, minute: u8 },
    Boolean(bool),
    Accepted(bool),
    Enum(String),
    FileReference(String),
}

/// The mathematical value of a [`FieldValue`].
pub enum FieldValueView {
    Text(Seq<char>),
    NonEmptyText(Seq<char>),
    Email(Seq<char>),
    Phone(Seq<char>),
    IntegerU32(u32),
    IntegerU64(u64),
    Date { year: i32, month: u8, day: u8 },
    Time { hour: u8, minute: u8 },
    DateTime { year: i32, month: u8, day: u8, hour: u8, minute: u8 },
    Boolean(bool),
    Accepted(bool),
    Enum(Seq<char>),
    FileReference(Seq<char>),
}

impl View for FieldValue {
    type V = FieldValueView;

    open spec fn view(&self) -> FieldValueView {
        match self {
            FieldValue::Text(t) => FieldValueView::Text(t@),
            FieldValue::NonEmptyText(t) => FieldValueView::NonEmptyText(t@),
            FieldValue::Email(t) => FieldValueView::Email(t@),
            FieldValue::Phone(t) => FieldValueView::Phone(t@),
            FieldValue::IntegerU32(n) => FieldValueView::IntegerU32(*n),
            FieldValue::IntegerU64(n) => FieldValueView::IntegerU64(*n),
            FieldValue::Date { year, month, day } => FieldValueView::Date {
                year: *year,
                month: *month,
                day: *day,
            },
            FieldValue::Time { hour, minute } => FieldValueView::Time {
                hour: *hour,
                minute: *minute,
            },
            FieldValue::DateTime { year, month, day, hour, minute } => FieldValueView::DateTime {
                year: *year,
                month: *month,
                day: *day,
                hour: *hour,
                minute: *minute,
            },
            FieldValue::Boolean(b) => FieldValueView::Boolean(*b),
            FieldValue::Accepted(b) => FieldValueView::Accepted(*b),
            FieldValue::Enum(c) => FieldValueView::Enum(c@),
            FieldValue::FileReference(id) => FieldValueView::FileReference(id@),
        }
    }
}

/// The tag of a kind.
pub open spec fn tag_of(kind: FieldKindView) -> TypeTag {
    match kind {
        FieldKindView::Text => TypeTag::Text,
        FieldKindView::NonEmptyText => TypeTag::NonEmptyText,
        FieldKindView::Email => TypeTag::Email,
        FieldKindView::Phone => TypeTag::Phone,
        FieldKindView::IntegerU32 => TypeTag::IntegerU32,
        FieldKindView::IntegerU64 => TypeTag::IntegerU64,
        FieldKindView::Date => TypeTag::Date,
        FieldKindView::Time => TypeTag::Time,
        FieldKindView::DateTime => TypeTag::DateTime,
        FieldKindView::Boolean => TypeTag::Boolean,
        FieldKindView::Accepted => TypeTag::Accepted,
        FieldKindView::Enum(_) => TypeTag::Enum,
        FieldKindView::FileReference => TypeTag::FileReference,
    }
}

/// Whether `c` is an unaccented Latin letter.
pub open spec fn is_letter(c: char) -> bool {
    ('a' <= c <= 'z') || ('A' <= c <= 'Z')
}

/// Whether `c` is one of `0` to `9`.
pub open spec fn is_number(c: char) -> bool {
    '0' <= c <= '9'
}

/// Whether `c` may stand before the `@` of an e-mail address.
pub open spec fn is_mailbox_char(c: char) -> bool {
    is_letter(c) || is_number(c) || c == '.' || c == '_' || c == '%' || c == '+' || c == '-'
}

/// Whether `c` may stand in the host part of an e-mail address.
pub open spec fn is_host_char(c: char) -> bool {
    is_letter(c) || is_number(c) || c == '.' || c == '-'
}

/// The grammar of an e-mail address: one or more mailbox characters, `@`,
/// one or more host characters, `.`, and two or more letters to the end.
pub open spec fn is_email(text: Seq<char>) -> bool {
    exists|at: int, dot: int|
        {
            &&& 1 <= at
            &&& at + 2 <= dot
            &&& dot + 3 <= text.len()
            &&& #[trigger] text[at] == '@'
            &&& #[trigger] text[dot] == '.'
            &&& forall|k: int| 0 <= k < at ==> is_mailbox_char(#[trigger] text[k])
            &&& forall|k: int| at < k < dot ==> is_host_char(#[trigger] text[k])
            &&& forall|k: int| dot < k < text.len() ==> is_letter(#[trigger] text[k])
        }
}

/// The grammar of a telephone number: an optional `+` and then four to
/// seventeen digits.
pub open spec fn is_phone(text: Seq<char>) -> bool {
    let digits = if text.len() > 0 && text[0] == '+' {
        text.skip(1)
    } else {
        text
    };
    4 <= digits.len() <= 17 && all_digits(digits)
}

/// The number that a text denotes in decimal, with an optional `+` in
/// front; `None` where the text is anything else.
pub open spec fn unsigned_of_text(text: Seq<char>) -> Option<nat> {
    let digits = if text.len() > 0 && text[0] == '+' {
        text.skip(1)
    } else {
        text
    };
    if digits.len() > 0 && all_digits(digits) {
        Some(decimal_value(digits))
    } else {
        None
    }
}

/// Whether `year` has a 29th of February.
pub open spec fn is_leap_year(year: int) -> bool {
    year % 4 == 0 && (year % 100 != 0 || year % 400 == 0)
}

/// The number of days of a month, 0 for a month that does not exist.
pub open spec fn days_in_month(year: int, month: int) -> int {
    if month == 4 || month == 6 || month == 9 || month == 11 {
        30
    } else if month == 2 {
        if is_leap_year(year) {
            29
        } else {
            28
        }
    } else if 1 <= month <= 12 {
        31
    } else {
        0
    }
}

/// Whether the three numbers are a day of the calendar.
pub open spec fn is_calendar_day(year: int, month: int, day: int) -> bool {
    1 <= day <= days_in_month(year, month)
}

/// Whether the two numbers are a minute of the day.
pub open spec fn is_clock_time(hour: int, minute: int) -> bool {
    0 <= hour < 24 && 0 <= minute < 60
}

/// What `nova_forms::Date` reads from a text in the form year-month-day:
/// the year, the month from 1 and the day of the month, or `None` where it
/// rejects the text.
pub uninterp spec fn date_of_text(raw: Seq<char>) -> Option<(i32, u8, u8)>;

/// The number that two digits denote.
pub open spec fn two_digits(tens: char, ones: char) -> nat {
    digit_value(tens) * 10 + digit_value(ones)
}

/// What `nova_forms::Time` reads from a text: the hour and the minute of a
/// text of two digits, a colon and two digits, with an hour below 24 and a
/// minute below 60, and `None` for every other text.
pub open spec fn time_of_text(raw: Seq<char>) -> Option<(u8, u8)> {
    if raw.len() == 5 && is_number(raw[0]) && is_number(raw[1]) && raw[2] == ':' && is_number(
        raw[3],
    ) && is_number(raw[4]) && two_digits(raw[0], raw[1]) < 24 && two_digits(raw[3], raw[4]) < 60 {
        Some((two_digits(raw[0], raw[1]) as u8, two_digits(raw[3], raw[4]) as u8))
    } else {
        None
    }
}

/// What `nova_forms::DateTime` reads from a text in the form
/// year-month-dayThour:minute, or `None` where it rejects the text.
pub uninterp spec fn date_time_of_text(raw: Seq<char>) -> Option<(i32, u8, u8, u8, u8)>;

/// Whether `c` is a hexadecimal digit, in either case.
pub open spec fn is_hex_digit(c: char) -> bool {
    ('0' <= c <= '9') || ('a' <= c <= 'f') || ('A' <= c <= 'F')
}

/// Whether a text is a UUID in groups: 36 characters, of which the 9th,
/// 14th, 19th and 24th are hyphens and all others hexadecimal digits.
pub open spec fn is_hyphenated_uuid(text: Seq<char>) -> bool {
    text.len() == 36 && forall|i: int|
        0 <= i < 36 ==> if i == 8 || i == 13 || i == 18 || i == 23 {
            #[trigger] text[i] == '-'
        } else {
            is_hex_digit(text[i])
        }
}

/// Whether a text is `urn:uuid:`, in any mix of upper and lower case.
pub open spec fn is_urn_prefix(text: Seq<char>) -> bool {
    &&& text.len() == 9
    &&& (text[0] == 'u' || text[0] == 'U')
    &&& (text[1] == 'r' || text[1] == 'R')
    &&& (text[2] == 'n' || text[2] == 'N')
    &&& text[3] == ':'
    &&& (text[4] == 'u' || text[4] == 'U')
    &&& (text[5] == 'u' || text[5] == 'U')
    &&& (text[6] == 'i' || text[6] == 'I')
    &&& (text[7] == 'd' || text[7] == 'D')
    &&& text[8] == ':'
}

/// Whether `uuid::Uuid::parse_str` accepts the text. It accepts four
/// shapes: 32 hexadecimal digits; the digits in groups with hyphens; the
/// groups in braces; and the groups behind `urn:uuid:`.
pub open spec fn is_uuid_text(raw: Seq<char>) -> bool {
    ||| raw.len() == 32 && forall|i: int| 0 <= i < 32 ==> is_hex_digit(#[trigger] raw[i])
    ||| is_hyphenated_uuid(raw)
    ||| raw.len() == 38 && raw[0] == '{' && raw[37] == '}' && is_hyphenated_uuid(
        raw.subrange(1, 37),
    )
    ||| raw.len() == 45 && is_urn_prefix(raw.take(9)) && is_hyphenated_uuid(raw.skip(9))
}

/// The text in front of the identifier proper in a file reference.
pub open spec fn file_id_prefix() -> Seq<char> {
    "file_id_"@
}

/// Whether a text is the identifier that the upload service gives a stored
/// file: the fixed prefix and then a UUID.
pub open spec fn is_file_id(text: Seq<char>) -> bool {
    let p = file_id_prefix();
    text.len() >= p.len() && text.take(p.len() as int) == p && is_uuid_text(
        text.skip(p.len() as int),
    )
}

/// The value that a date read from text stands for.
pub open spec fn date_value(parts: Option<(i32, u8, u8)>) -> Result<FieldValueView, ErrorKind> {
    match parts {
        Some((year, month, day)) => if is_calendar_day(year as int, month as int, day as int) {
            Ok(FieldValueView::Date { year, month, day })
        } else {
            Err(ErrorKind::ParseFailure)
        },
        None => Err(ErrorKind::ParseFailure),
    }
}

/// The value that a time read from text stands for.
pub open spec fn time_value(parts: Option<(u8, u8)>) -> Result<FieldValueView, ErrorKind> {
    match parts {
        Some((hour, minute)) => if is_clock_time(hour as int, minute as int) {
            Ok(FieldValueView::Time { hour, minute })
        } else {
            Err(ErrorKind::ParseFailure)
        },
        None => Err(ErrorKind::ParseFailure),
    }
}

/// The value that a date and time read from text stand for.
pub open spec fn date_time_value(parts: Option<(i32, u8, u8, u8, u8)>) -> Result<
    FieldValueView,
    ErrorKind,
> {
    match parts {
        Some((year, month, day, hour, minute)) => if is_calendar_day(
            year as int,
            month as int,
            day as int,
        ) && is_clock_time(hour as int, minute as int) {
            Ok(FieldValueView::DateTime { year, month, day, hour, minute })
        } else {
            Err(ErrorKind::ParseFailure)
        },
        None => Err(ErrorKind::ParseFailure),
    }
}

/// The value or the error that a raw input gives for a field of `kind`.
pub open spec fn parse_value(kind: FieldKindView, raw: Seq<char>) -> Result<
    FieldValueView,
    ErrorKind,
> {
    match kind {
        FieldKindView::Text => Ok(FieldValueView::Text(raw)),
        FieldKindView::NonEmptyText => if raw.len() == 0 {
            Err(ErrorKind::EmptyValue)
        } else {
            Ok(FieldValueView::NonEmptyText(raw))
        },
        FieldKindView::Email => if is_email(raw) {
            Ok(FieldValueView::Email(raw))
        } else {
            Err(ErrorKind::InvalidFormat)
        },
        FieldKindView::Phone => if is_phone(raw) {
            Ok(FieldValueView::Phone(raw))
        } else {
            Err(ErrorKind::InvalidFormat)
        },
        FieldKindView::IntegerU32 => match unsigned_of_text(raw) {
            Some(n) => if n <= u32::MAX {
                Ok(FieldValueView::IntegerU32(n as u32))
            } else {
                Err(ErrorKind::ParseFailure)
            },
            None => Err(ErrorKind::ParseFailure),
        },
        FieldKindView::IntegerU64 => match unsigned_of_text(raw) {
            Some(n) => if n <= u64::MAX {
                Ok(FieldValueView::IntegerU64(n as u64))
            } else {
                Err(ErrorKind::ParseFailure)
            },
            None => Err(ErrorKind::ParseFailure),
        },
        FieldKindView::Date => date_value(date_of_text(raw)),
        FieldKindView::Time => time_value(time_of_text(raw)),
        FieldKindView::DateTime => date_time_value(date_time_of_text(raw)),
        FieldKindView::Boolean => if raw == "true"@ {
            Ok(FieldValueView::Boolean(true))
        } else if raw == "false"@ {
            Ok(FieldValueView::Boolean(false))
        } else {
            Err(ErrorKind::ParseFailure)
        },
        FieldKindView::Accepted => if raw == "true"@ {
            Ok(FieldValueView::Accepted(true))
        } else {
            Err(ErrorKind::NotAccepted)
        },
        FieldKindView::Enum(choices) => if choices.contains(raw) {
            Ok(FieldValueView::Enum(raw))
        } else {
            Err(ErrorKind::ParseFailure)
        },
        FieldKindView::FileReference => if is_file_id(raw) {
            Ok(FieldValueView::FileReference(raw))
        } else {
            Err(ErrorKind::InvalidFormat)
        },
    }
}

/// Whether `value` is a value that a field of `kind` may hold.
pub open spec fn is_valid(kind: FieldKindView, value: FieldValueView) -> bool {
    match (kind, value) {
        (FieldKindView::Text, FieldValueView::Text(_)) => true,
        (FieldKindView::NonEmptyText, FieldValueView::NonEmptyText(t)) => t.len() > 0,
        (FieldKindView::Email, FieldValueView::Email(t)) => is_email(t),
        (FieldKindView::Phone, FieldValueView::Phone(t)) => is_phone(t),
        (FieldKindView::IntegerU32, FieldValueView::IntegerU32(_)) => true,
        (FieldKindView::IntegerU64, FieldValueView::IntegerU64(_)) => true,
        (FieldKindView::Date, FieldValueView::Date { year, month, day }) => is_calendar_day(
            year as int,
            month as int,
            day as int,
        ),
        (FieldKindView::Time, FieldValueView::Time { hour, minute }) => is_clock_time(
            hour as int,
            minute as int,
        ),
        (
            FieldKindView::DateTime,
            FieldValueView::DateTime { year, month, day, hour, minute },
        ) => is_calendar_day(year as int, month as int, day as int) && is_clock_time(
            hour as int,
            minute as int,
        ),
        (FieldKindView::Boolean, FieldValueView::Boolean(_)) => true,
        (FieldKindView::Accepted, FieldValueView::Accepted(b)) => b,
        (FieldKindView::Enum(choices), FieldValueView::Enum(c)) => choices.contains(c),
        (FieldKindView::FileReference, FieldValueView::FileReference(id)) => is_file_id(id),
        _ => false,
    }
}

/// Whether `value` keeps the promise of its variant: a non-empty text is
/// not empty, an e-mail address and a telephone number follow their
/// grammars, a date is a day of the calendar, a time a minute of the day, an
/// accepted box is ticked, and a file reference is an identifier.
pub open spec fn is_sound(value: FieldValueView) -> bool {
    match value {
        FieldValueView::NonEmptyText(t) => t.len() > 0,
        FieldValueView::Email(t) => is_email(t),
        FieldValueView::Phone(t) => is_phone(t),
        FieldValueView::Date { year, month, day } => is_calendar_day(
            year as int,
            month as int,
            day as int,
        ),
        FieldValueView::Time { hour, minute } => is_clock_time(hour as int, minute as int),
        FieldValueView::DateTime { year, month, day, hour, minute } => is_calendar_day(
            year as int,
            month as int,
            day as int,
        ) && is_clock_time(hour as int, minute as int),
        FieldValueView::Accepted(b) => b,
        FieldValueView::FileReference(id) => is_file_id(id),
        _ => true,
    }
}

/// A value that a kind accepts keeps the promise of its variant.
pub proof fn lemma_valid_is_sound(kind: FieldKindView, value: FieldValueView)
    requires
        is_valid(kind, value),
    ensures
        is_sound(value),
{
}

/// The raw input that a field of `kind` starts with, before anything is
/// entered: `false` for a box, the first choice of a choice, and otherwise
/// the empty text.
pub open spec fn default_raw(kind: FieldKindView) -> Seq<char> {
    match kind {
        FieldKindView::Boolean => "false"@,
        FieldKindView::Accepted => "false"@,
        FieldKindView::Enum(choices) => if choices.len() > 0 {
            choices[0]
        } else {
            Seq::empty()
        },
        _ => Seq::empty(),
    }
}

/// Whatever raw input is read, the outcome is a value that the field's kind
/// accepts, or an error: never a value that the kind does not accept.
pub proof fn lemma_parsed_value_is_valid(kind: FieldKindView, raw: Seq<char>)
    ensures
        parse_value(kind, raw) matches Ok(v) ==> is_valid(kind, v),
{
}

/// Asks `<nova_forms::Email as FromStr>::from_str` whether it accepts the
/// text. It does exactly when the text matches the pattern of its rule,
/// `^[a-zA-Z0-9._%+-]+@[a-zA-Z0-9.-]+\.[a-zA-Z]{2,}$`, which is the grammar
/// that `is_email` states.
#[verifier::external_body]
fn email_accepts(raw: &str) -> (ok: bool)
    ensures
        ok == is_email(raw@),
{
    raw.parse::<nova_forms::Email>().is_ok()
}

/// Asks `<nova_forms::Phone as FromStr>::from_str` whether it accepts the
/// text. It does exactly when the text matches the pattern of its rule,
/// `^\+?[0-9]{1,3}[0-9]{3,14}$`, which is the grammar that `is_phone`
/// states.
#[verifier::external_body]
fn phone_accepts(raw: &str) -> (ok: bool)
    ensures
        ok == is_phone(raw@),
{
    raw.parse::<nova_forms::Phone>().is_ok()
}

/// Reads a date with `<nova_forms::Date as FromStr>::from_str` and hands
/// out its year, its month from 1 and its day of the month. Nothing is
/// claimed of which texts are dates, only that the outcome depends on the
/// text alone.
#[verifier::external_body]
fn read_date(raw: &str) -> (parts: Option<(i32, u8, u8)>)
    ensures
        parts == date_of_text(raw@),
{
    match raw.parse::<nova_forms::Date>() {
        Ok(d) => Some((d.year(), u8::from(d.month()), d.day())),
        Err(_) => None,
    }
}

/// Reads a time with `<nova_forms::Time as FromStr>::from_str` and hands
/// out its hour and minute. It reads with the description
/// `[hour]:[minute]`: exactly two digits for an hour from 0 to 23, a colon,
/// exactly two digits for a minute from 0 to 59, and nothing behind them.
#[verifier::external_body]
fn read_time(raw: &str) -> (parts: Option<(u8, u8)>)
    ensures
        parts == time_of_text(raw@),
{
    match raw.parse::<nova_forms::Time>() {
        Ok(t) => Some((t.hour(), t.minute())),
        Err(_) => None,
    }
}

/// Reads a date and time with `<nova_forms::DateTime as FromStr>::from_str`
/// and hands out its five numbers. Nothing is claimed of which texts are
/// read, only that the outcome depends on the text alone.
#[verifier::external_body]
fn read_date_time(raw: &str) -> (parts: Option<(i32, u8, u8, u8, u8)>)
    ensures
        parts == date_time_of_text(raw@),
{
    match raw.parse::<nova_forms::DateTime>() {
        Ok(t) => Some((t.year(), u8::from(t.month()), t.day(), t.hour(), t.minute())),
        Err(_) => None,
    }
}

/// Asks `uuid::Uuid::parse_str` whether it accepts the text. It goes by
/// the length of the text: 32 for bare hexadecimal digits, 36 for groups
/// with hyphens, 38 for the groups in braces, and 45 for the groups behind
/// `urn:uuid:` in any case; every other text is refused.
#[verifier::external_body]
fn uuid_accepts(raw: &str) -> (ok: bool)
    ensures
        ok == is_uuid_text(raw@),
{
    uuid::Uuid::parse_str(raw).is_ok()
}

/// The number of days of a month.
fn month_length(year: i32, month: u8) -> (n: u8)
    ensures
        n == days_in_month(year as int, month as int),
{
    if month == 4 || month == 6 || month == 9 || month == 11 {
        30
    } else if month == 2 {
        // Shifted by a multiple of 400 so that the remainders are taken of
        // a positive number.
        let y: i64 = year as i64 + 2_147_484_000;
        if y % 4 == 0 && (y % 100 != 0 || y % 400 == 0) {
            29
        } else {
            28
        }
    } else if 1 <= month && month <= 12 {
        31
    } else {
        0
    }
}

/// Reads a decimal number with an optional `+` in front that is at most
/// `max`.
fn read_unsigned(raw: &str, max: u64) -> (r: Option<u64>)
    ensures
        r == match unsigned_of_text(raw@) {
            Some(n) => if n <= max {
                Some(n as u64)
            } else {
                None
            },
            None => None,
        },
{
    let chars = chars_of(raw);
    let n = chars.len();
    let start: usize = if n > 0 && chars[0] == '+' {
        1
    } else {
        0
    };
    proof {
        assert(chars@.subrange(start as int, n as int) =~= if start == 1 {
            raw@.skip(1)
        } else {
            raw@
        });
    }
    if start == n {
        return None;
    }
    match scan_decimal(&chars, start, n) {
        Some(Some(v)) => if v <= max {
            Some(v)
        } else {
            None
        },
        _ => None,
    }
}

/// Whether `raw` is one of `choices`.
fn is_choice(choices: &Vec<String>, raw: &str) -> (r: bool)
    ensures
        r == choices@.map_values(|c: String| c@).contains(raw@),
{
    let ghost views = choices@.map_values(|c: String| c@);
    let mut i: usize = 0;
    while i < choices.len()
        invariant
            i <= choices.len(),
            views == choices@.map_values(|c: String| c@),
            forall|j: int| 0 <= j < i ==> views[j] != raw@,
        decreases choices.len() - i,
    {
        if same_text(choices[i].as_str(), raw) {
            assert(views[i as int] == raw@);
            return true;
        }
        i += 1;
    }
    false
}

/// Whether `raw` is the identifier of a stored file.
fn file_id_accepts(raw: &str) -> (r: bool)
    ensures
        r == is_file_id(raw@),
{
    let chars = chars_of(raw);
    let prefix = chars_of("file_id_");
    if chars.len() < prefix.len() {
        return false;
    }
    let mut i: usize = 0;
    while i < prefix.len()
        invariant
            i <= prefix.len() <= chars.len(),
            chars@ == raw@,
            prefix@ == file_id_prefix(),
            forall|j: int| 0 <= j < i ==> chars@[j] == prefix@[j],
        decreases prefix.len() - i,
    {
        if chars[i] != prefix[i] {
            assert(raw@.take(prefix@.len() as int)[i as int] != prefix@[i as int]);
            return false;
        }
        i += 1;
    }
    proof {
        assert(raw@.take(prefix@.len() as int) =~= prefix@);
        assert(chars@.subrange(prefix@.len() as int, chars@.len() as int) =~= raw@.skip(
            prefix@.len() as int,
        ));
    }
    let rest = string_of(&chars, prefix.len(), chars.len());
    uuid_accepts(rest.as_str())
}

impl Clone for FieldKind {
    fn clone(&self) -> (r: FieldKind)
        ensures
            r@ == self@,
    {
        match self {
            FieldKind::Text => FieldKind::Text,
            FieldKind::NonEmptyText => FieldKind::NonEmptyText,
            FieldKind::Email => FieldKind::Email,
            FieldKind::Phone => FieldKind::Phone,
            FieldKind::IntegerU32 => FieldKind::IntegerU32,
            FieldKind::IntegerU64 => FieldKind::IntegerU64,
            FieldKind::Date => FieldKind::Date,
            FieldKind::Time => FieldKind::Time,
            FieldKind::DateTime => FieldKind::DateTime,
            FieldKind::Boolean => FieldKind::Boolean,
            FieldKind::Accepted => FieldKind::Accepted,
            FieldKind::Enum(choices) => {
                let mut copy: Vec<String> = Vec::new();
                let mut i: usize = 0;
                while i < choices.len()
                    invariant
                        i <= choices.len(),
                        copy@.map_values(|c: String| c@) == choices@.map_values(|c: String| c@).take(
                            i as int,
                        ),
                    decreases choices.len() - i,
                {
                    copy.push(choices[i].clone());
                    proof {
                        let all = choices@.map_values(|c: String| c@);
                        assert(copy@.map_values(|c: String| c@) =~= all.take(i as int).push(
                            all[i as int],
                        ));
                        assert(all.take(i + 1) =~= all.take(i as int).push(all[i as int]));
                    }
                    i += 1;
                }
                proof {
                    let all = choices@.map_values(|c: String| c@);
                    assert(all.take(choices.len() as int) =~= all);
                }
                FieldKind::Enum(copy)
            },
            FieldKind::FileReference => FieldKind::FileReference,
        }
    }
}

impl FieldKind {
    /// The tag of this kind.
    pub fn tag(&self) -> (t: TypeTag)
        ensures
            t == tag_of(self@),
    {
        match self {
            FieldKind::Text => TypeTag::Text,
            FieldKind::NonEmptyText => TypeTag::NonEmptyText,
            FieldKind::Email => TypeTag::Email,
            FieldKind::Phone => TypeTag::Phone,
            FieldKind::IntegerU32 => TypeTag::IntegerU32,
            FieldKind::IntegerU64 => TypeTag::IntegerU64,
            FieldKind::Date => TypeTag::Date,
            FieldKind::Time => TypeTag::Time,
            FieldKind::DateTime => TypeTag::DateTime,
            FieldKind::Boolean => TypeTag::Boolean,
            FieldKind::Accepted => TypeTag::Accepted,
            FieldKind::Enum(_) => TypeTag::Enum,
            FieldKind::FileReference => TypeTag::FileReference,
        }
    }

    /// What a field of this kind holds before anything is entered: the
    /// outcome of reading the raw input that the kind starts with. A kind
    /// that needs an input starts with its error.
    pub fn default_value(&self) -> (r: Result<FieldValue, ErrorKind>)
        ensures
            match r {
                Ok(v) => parse_value(self@, default_raw(self@)) == Ok::<FieldValueView, ErrorKind>(
                    v@,
                ) && is_valid(self@, v@),
                Err(e) => parse_value(self@, default_raw(self@)) == Err::<
                    FieldValueView,
                    ErrorKind,
                >(e),
            },
    {
        let raw = self.default_raw();
        FieldValue::parse(self, raw.as_str())
    }

    /// The raw input that a field of this kind starts with.
    pub fn default_raw(&self) -> (raw: String)
        ensures
            raw@ == default_raw(self@),
    {
        match self {
            FieldKind::Boolean => "false".to_owned(),
            FieldKind::Accepted => "false".to_owned(),
            FieldKind::Enum(choices) => if choices.len() > 0 {
                choices[0].clone()
            } else {
                String::new()
            },
            _ => String::new(),
        }
    }
}

impl Clone for FieldValue {
    fn clone(&self) -> (r: FieldValue)
        ensures
            r@ == self@,
    {
        match self {
            FieldValue::Text(t) => FieldValue::Text(t.clone()),
            FieldValue::NonEmptyText(t) => FieldValue::NonEmptyText(t.clone()),
            FieldValue::Email(t) => FieldValue::Email(t.clone()),
            FieldValue::Phone(t) => FieldValue::Phone(t.clone()),
            FieldValue::IntegerU32(n) => FieldValue::IntegerU32(*n),
            FieldValue::IntegerU64(n) => FieldValue::IntegerU64(*n),
            FieldValue::Date { year, month, day } => FieldValue::Date {
                year: *year,
                month: *month,
                day: *day,
            },
            FieldValue::Time { hour, minute } => FieldValue::Time { hour: *hour, minute: *minute },
            FieldValue::DateTime { year, month, day, hour, minute } => FieldValue::DateTime {
                year: *year,
                month: *month,
                day: *day,
                hour: *hour,
                minute: *minute,
            },
            FieldValue::Boolean(b) => FieldValue::Boolean(*b),
            FieldValue::Accepted(b) => FieldValue::Accepted(*b),
            FieldValue::Enum(c) => FieldValue::Enum(c.clone()),
            FieldValue::FileReference(id) => FieldValue::FileReference(id.clone()),
        }
    }
}

impl FieldValue {
    /// Whether two values are the same value of the same variant.
    pub fn same(&self, other: &FieldValue) -> (r: bool)
        ensures
            r == (self@ == other@),
    {
        match (self, other) {
            (FieldValue::Text(a), FieldValue::Text(b)) => *a == *b,
            (FieldValue::NonEmptyText(a), FieldValue::NonEmptyText(b)) => *a == *b,
            (FieldValue::Email(a), FieldValue::Email(b)) => *a == *b,
            (FieldValue::Phone(a), FieldValue::Phone(b)) => *a == *b,
            (FieldValue::IntegerU32(a), FieldValue::IntegerU32(b)) => *a == *b,
            (FieldValue::IntegerU64(a), FieldValue::IntegerU64(b)) => *a == *b,
            (
                FieldValue::Date { year, month, day },
                FieldValue::Date { year: y, month: m, day: d },
            ) => *year == *y && *month == *m && *day == *d,
            (FieldValue::Time { hour, minute }, FieldValue::Time { hour: h, minute: m }) => *hour
                == *h && *minute == *m,
            (
                FieldValue::DateTime { year, month, day, hour, minute },
                FieldValue::DateTime { year: y, month: mo, day: d, hour: h, minute: mi },
            ) => *year == *y && *month == *mo && *day == *d && *hour == *h && *minute == *mi,
            (FieldValue::Boolean(a), FieldValue::Boolean(b)) => *a == *b,
            (FieldValue::Accepted(a), FieldValue::Accepted(b)) => *a == *b,
            (FieldValue::Enum(a), FieldValue::Enum(b)) => *a == *b,
            (FieldValue::FileReference(a), FieldValue::FileReference(b)) => *a == *b,
            _ => false,
        }
    }

    /// Whether a field of `kind` may hold this value.
    pub fn is_valid_for(&self, kind: &FieldKind) -> (r: bool)
        ensures
            r == is_valid(kind@, self@),
    {
        match (kind, self) {
            (FieldKind::Text, FieldValue::Text(_)) => true,
            (FieldKind::NonEmptyText, FieldValue::NonEmptyText(t)) => !t.as_str().is_empty(),
            (FieldKind::Email, FieldValue::Email(t)) => email_accepts(t.as_str()),
            (FieldKind::Phone, FieldValue::Phone(t)) => phone_accepts(t.as_str()),
            (FieldKind::IntegerU32, FieldValue::IntegerU32(_)) => true,
            (FieldKind::IntegerU64, FieldValue::IntegerU64(_)) => true,
            (FieldKind::Date, FieldValue::Date { year, month, day }) => 1 <= *day && *day
                <= month_length(*year, *month),
            (FieldKind::Time, FieldValue::Time { hour, minute }) => *hour < 24 && *minute < 60,
            (FieldKind::DateTime, FieldValue::DateTime { year, month, day, hour, minute }) => 1
                <= *day && *day <= month_length(*year, *month) && *hour < 24 && *minute < 60,
            (FieldKind::Boolean, FieldValue::Boolean(_)) => true,
            (FieldKind::Accepted, FieldValue::Accepted(b)) => *b,
            (FieldKind::Enum(choices), FieldValue::Enum(c)) => is_choice(choices, c.as_str()),
            (FieldKind::FileReference, FieldValue::FileReference(id)) => file_id_accepts(
                id.as_str(),
            ),
            _ => false,
        }
    }

    /// The date value for the year, month and day that were read from a
    /// text, where they are a day of the calendar.
    pub fn from_date_parts(parts: Option<(i32, u8, u8)>) -> (r: Result<FieldValue, ErrorKind>)
        ensures
            match r {
                Ok(v) => date_value(parts) == Ok::<FieldValueView, ErrorKind>(v@),
                Err(e) => date_value(parts) == Err::<FieldValueView, ErrorKind>(e),
            },
    {
        match parts {
            Some((year, month, day)) => if 1 <= day && day <= month_length(year, month) {
                Ok(FieldValue::Date { year, month, day })
            } else {
                Err(ErrorKind::ParseFailure)
            },
            None => Err(ErrorKind::ParseFailure),
        }
    }

    /// The time value for the hour and minute that were read from a text,
    /// where they are a minute of the day.
    pub fn from_time_parts(parts: Option<(u8, u8)>) -> (r: Result<FieldValue, ErrorKind>)
        ensures
            match r {
                Ok(v) => time_value(parts) == Ok::<FieldValueView, ErrorKind>(v@),
                Err(e) => time_value(parts) == Err::<FieldValueView, ErrorKind>(e),
            },
    {
        match parts {
            Some((hour, minute)) => if hour < 24 && minute < 60 {
                Ok(FieldValue::Time { hour, minute })
            } else {
                Err(ErrorKind::ParseFailure)
            },
            None => Err(ErrorKind::ParseFailure),
        }
    }

    /// The value for the date and time that were read from a text, where
    /// they are a minute of a day of the calendar.
    pub fn from_date_time_parts(parts: Option<(i32, u8, u8, u8, u8)>) -> (r: Result<
        FieldValue,
        ErrorKind,
    >)
        ensures
            match r {
                Ok(v) => date_time_value(parts) == Ok::<FieldValueView, ErrorKind>(v@),
                Err(e) => date_time_value(parts) == Err::<FieldValueView, ErrorKind>(e),
            },
    {
        match parts {
            Some((year, month, day, hour, minute)) => if 1 <= day && day <= month_length(
                year,
                month,
            ) && hour < 24 && minute < 60 {
                Ok(FieldValue::DateTime { year, month, day, hour, minute })
            } else {
                Err(ErrorKind::ParseFailure)
            },
            None => Err(ErrorKind::ParseFailure),
        }
    }

    /// Reads a raw input as a value of `kind`.
    ///
    /// The outcome is the value that `parse_value` gives, which the kind
    /// accepts, or the error that it gives.
    pub fn parse(kind: &FieldKind, raw: &str) -> (r: Result<FieldValue, ErrorKind>)
        ensures
            match r {
                Ok(v) => parse_value(kind@, raw@) == Ok::<FieldValueView, ErrorKind>(v@)
                    && is_valid(kind@, v@),
                Err(e) => parse_value(kind@, raw@) == Err::<FieldValueView, ErrorKind>(e),
            },
    {
        match kind {
            FieldKind::Text => Ok(FieldValue::Text(raw.to_owned())),
            FieldKind::NonEmptyText => if raw.is_empty() {
                Err(ErrorKind::EmptyValue)
            } else {
                Ok(FieldValue::NonEmptyText(raw.to_owned()))
            },
            FieldKind::Email => if email_accepts(raw) {
                Ok(FieldValue::Email(raw.to_owned()))
            } else {
                Err(ErrorKind::InvalidFormat)
            },
            FieldKind::Phone => if phone_accepts(raw) {
                Ok(FieldValue::Phone(raw.to_owned()))
            } else {
                Err(ErrorKind::InvalidFormat)
            },
            FieldKind::IntegerU32 => match read_unsigned(raw, 0xffff_ffff) {
                Some(n) => Ok(FieldValue::IntegerU32(n as u32)),
                None => Err(ErrorKind::ParseFailure),
            },
            FieldKind::IntegerU64 => match read_unsigned(raw, u64::MAX) {
                Some(n) => Ok(FieldValue::IntegerU64(n)),
                None => Err(ErrorKind::ParseFailure),
            },
            FieldKind::Date => FieldValue::from_date_parts(read_date(raw)),
            FieldKind::Time => FieldValue::from_time_parts(read_time(raw)),
            FieldKind::DateTime => FieldValue::from_date_time_parts(read_date_time(raw)),
            FieldKind::Boolean => if same_text(raw, "true") {
                Ok(FieldValue::Boolean(true))
            } else if same_text(raw, "false") {
                Ok(FieldValue::Boolean(false))
            } else {
                Err(ErrorKind::ParseFailure)
            },
            FieldKind::Accepted => if same_text(raw, "true") {
                Ok(FieldValue::Accepted(true))
            } else {
                Err(ErrorKind::NotAccepted)
            },
            FieldKind::Enum(choices) => if is_choice(choices, raw) {
                Ok(FieldValue::Enum(raw.to_owned()))
            } else {
                Err(ErrorKind::ParseFailure)
            },
            FieldKind::FileReference => if file_id_accepts(raw) {
                Ok(FieldValue::FileReference(raw.to_owned()))
            } else {
                Err(ErrorKind::InvalidFormat)
            },
        }
    }
}

} // verus!
