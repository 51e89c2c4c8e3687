use nova_forms_demo::value::{ErrorKind, FieldKind, FieldValue, TypeTag};

fn ok(kind: &FieldKind, raw: &str) -> bool {
    FieldValue::parse(kind, raw).is_ok()
}

fn err(kind: &FieldKind, raw: &str) -> Option<ErrorKind> {
    FieldValue::parse(kind, raw).err()
}

#[test]
fn text_accepts_anything() {
    assert!(matches!(FieldValue::parse(&FieldKind::Text, ""), Ok(FieldValue::Text(t)) if t.is_empty()));
    assert!(matches!(FieldValue::parse(&FieldKind::Text, "a b"), Ok(FieldValue::Text(t)) if t == "a b"));
}

#[test]
fn non_empty_text_rejects_empty_input() {
    assert_eq!(err(&FieldKind::NonEmptyText, ""), Some(ErrorKind::EmptyValue));
    assert!(matches!(
        FieldValue::parse(&FieldKind::NonEmptyText, "x"),
        Ok(FieldValue::NonEmptyText(t)) if t == "x"
    ));
}

#[test]
fn email_follows_the_grammar() {
    let k = FieldKind::Email;
    for good in [
        "a@b.co",
        "test@example.com",
        "a@b..co",
        "a@b.co.uk",
        "a@b.x1.com",
        "A.b_c%d+e-f@Host-1.example.ORG",
        ".@-.aa",
        "a@b-.cd",
    ] {
        assert!(ok(&k, good), "{good}");
        assert!(matches!(FieldValue::parse(&k, good), Ok(FieldValue::Email(t)) if t == good));
    }
    for bad in [
        "",
        "a@b.c",
        "@b.co",
        "a@.co",
        "a@b.co.",
        "a@b.c0m",
        "a b@c.de",
        "a@b@c.de",
        "a@b.co\n",
        "\na@b.co",
        "a@b_c.de",
        "ä@b.co",
        "a@b.cö",
        "a@bco",
        "ab.co",
        "a@b.co ",
    ] {
        assert_eq!(err(&k, bad), Some(ErrorKind::InvalidFormat), "{bad:?}");
    }
}

#[test]
fn phone_follows_the_grammar() {
    let k = FieldKind::Phone;
    for good in ["+41791234567", "1234", "+1234", "12345678901234567", "+12345678901234567", "0000"] {
        assert!(ok(&k, good), "{good}");
        assert!(matches!(FieldValue::parse(&k, good), Ok(FieldValue::Phone(t)) if t == good));
    }
    for bad in [
        "",
        "+",
        "123",
        "+123",
        "123456789012345678",
        "+123456789012345678",
        "12a4",
        "1234\n",
        "++1234",
        "1234+",
        " 1234",
        "１２３４",
        "12 34",
    ] {
        assert_eq!(err(&k, bad), Some(ErrorKind::InvalidFormat), "{bad:?}");
    }
}

#[test]
fn integers_are_decimal_with_optional_plus() {
    assert!(matches!(FieldValue::parse(&FieldKind::IntegerU32, "0"), Ok(FieldValue::IntegerU32(0))));
    assert!(matches!(FieldValue::parse(&FieldKind::IntegerU32, "+42"), Ok(FieldValue::IntegerU32(42))));
    assert!(matches!(FieldValue::parse(&FieldKind::IntegerU32, "007"), Ok(FieldValue::IntegerU32(7))));
    assert!(matches!(
        FieldValue::parse(&FieldKind::IntegerU32, "4294967295"),
        Ok(FieldValue::IntegerU32(u32::MAX))
    ));
    assert_eq!(err(&FieldKind::IntegerU32, "4294967296"), Some(ErrorKind::ParseFailure));
    assert!(matches!(
        FieldValue::parse(&FieldKind::IntegerU64, "4294967296"),
        Ok(FieldValue::IntegerU64(4294967296))
    ));
    assert!(matches!(
        FieldValue::parse(&FieldKind::IntegerU64, "18446744073709551615"),
        Ok(FieldValue::IntegerU64(u64::MAX))
    ));
    assert_eq!(err(&FieldKind::IntegerU64, "18446744073709551616"), Some(ErrorKind::ParseFailure));
    for bad in ["", "+", "-1", "1.0", " 1", "1 ", "1_000", "0x10", "++1"] {
        assert_eq!(err(&FieldKind::IntegerU64, bad), Some(ErrorKind::ParseFailure), "{bad:?}");
        assert_eq!(bad.parse::<u64>().is_err(), true, "{bad:?}");
    }
    for good in ["0", "+0", "00012", "+18446744073709551615"] {
        let mine = match FieldValue::parse(&FieldKind::IntegerU64, good) {
            Ok(FieldValue::IntegerU64(n)) => n,
            other => panic!("{other:?}"),
        };
        assert_eq!(good.parse::<u64>().unwrap(), mine);
    }
}

#[test]
fn dates_are_days_of_the_calendar() {
    assert!(matches!(
        FieldValue::parse(&FieldKind::Date, "2024-02-29"),
        Ok(FieldValue::Date { year: 2024, month: 2, day: 29 })
    ));
    assert!(matches!(
        FieldValue::parse(&FieldKind::Date, "1999-12-31"),
        Ok(FieldValue::Date { year: 1999, month: 12, day: 31 })
    ));
    for bad in ["", "2023-02-29", "2024-13-01", "2024-00-10", "2024-04-31", "today", "2024-02-29T10:00"] {
        assert_eq!(err(&FieldKind::Date, bad), Some(ErrorKind::ParseFailure), "{bad:?}");
    }
}

#[test]
fn times_are_minutes_of_the_day() {
    assert!(matches!(
        FieldValue::parse(&FieldKind::Time, "12:30"),
        Ok(FieldValue::Time { hour: 12, minute: 30 })
    ));
    assert!(matches!(
        FieldValue::parse(&FieldKind::Time, "00:00"),
        Ok(FieldValue::Time { hour: 0, minute: 0 })
    ));
    assert!(matches!(
        FieldValue::parse(&FieldKind::Time, "23:59"),
        Ok(FieldValue::Time { hour: 23, minute: 59 })
    ));
    for bad in ["", "24:00", "12:60", "noon", "12-30"] {
        assert_eq!(err(&FieldKind::Time, bad), Some(ErrorKind::ParseFailure), "{bad:?}");
    }
}

#[test]
fn date_times_join_both() {
    assert!(matches!(
        FieldValue::parse(&FieldKind::DateTime, "2024-02-29T23:59"),
        Ok(FieldValue::DateTime { year: 2024, month: 2, day: 29, hour: 23, minute: 59 })
    ));
    for bad in ["", "2024-02-29", "23:59", "2023-02-29T10:00", "2024-02-29 10:00", "2024-02-29T24:00"] {
        assert_eq!(err(&FieldKind::DateTime, bad), Some(ErrorKind::ParseFailure), "{bad:?}");
    }
}

#[test]
fn date_parts_are_checked_against_the_calendar() {
    assert!(matches!(
        FieldValue::from_date_parts(Some((2000, 2, 29))),
        Ok(FieldValue::Date { year: 2000, month: 2, day: 29 })
    ));
    assert!(FieldValue::from_date_parts(Some((1900, 2, 29))).is_err());
    assert!(FieldValue::from_date_parts(Some((-4, 2, 29))).is_ok());
    assert!(FieldValue::from_date_parts(Some((-1, 2, 29))).is_err());
    assert!(FieldValue::from_date_parts(Some((2024, 0, 1))).is_err());
    assert!(FieldValue::from_date_parts(Some((2024, 13, 1))).is_err());
    assert!(FieldValue::from_date_parts(Some((2024, 6, 31))).is_err());
    assert!(FieldValue::from_date_parts(Some((2024, 6, 0))).is_err());
    assert!(FieldValue::from_date_parts(None).is_err());
    assert!(FieldValue::from_time_parts(Some((24, 0))).is_err());
    assert!(FieldValue::from_time_parts(Some((0, 60))).is_err());
    assert!(FieldValue::from_time_parts(None).is_err());
    assert!(FieldValue::from_date_time_parts(Some((2024, 2, 30, 0, 0))).is_err());
    assert!(FieldValue::from_date_time_parts(Some((2024, 2, 29, 24, 0))).is_err());
    assert!(FieldValue::from_date_time_parts(None).is_err());
}

#[test]
fn booleans_and_accepted() {
    assert!(matches!(FieldValue::parse(&FieldKind::Boolean, "true"), Ok(FieldValue::Boolean(true))));
    assert!(matches!(FieldValue::parse(&FieldKind::Boolean, "false"), Ok(FieldValue::Boolean(false))));
    assert_eq!(err(&FieldKind::Boolean, "yes"), Some(ErrorKind::ParseFailure));
    assert_eq!(err(&FieldKind::Boolean, ""), Some(ErrorKind::ParseFailure));
    assert!(matches!(FieldValue::parse(&FieldKind::Accepted, "true"), Ok(FieldValue::Accepted(true))));
    assert_eq!(err(&FieldKind::Accepted, "false"), Some(ErrorKind::NotAccepted));
    assert_eq!(err(&FieldKind::Accepted, ""), Some(ErrorKind::NotAccepted));
    assert_eq!(err(&FieldKind::Accepted, "TRUE"), Some(ErrorKind::NotAccepted));
}

#[test]
fn choices_are_closed() {
    let k = FieldKind::Enum(vec!["A".to_string(), "B".to_string(), "C".to_string()]);
    assert!(matches!(FieldValue::parse(&k, "B"), Ok(FieldValue::Enum(c)) if c == "B"));
    assert_eq!(err(&k, "D"), Some(ErrorKind::ParseFailure));
    assert_eq!(err(&k, "a"), Some(ErrorKind::ParseFailure));
    assert_eq!(err(&k, ""), Some(ErrorKind::ParseFailure));
    assert_eq!(err(&FieldKind::Enum(vec![]), ""), Some(ErrorKind::ParseFailure));
}

#[test]
fn file_references_are_prefixed_uuids() {
    let k = FieldKind::FileReference;
    let id = "file_id_550e8400-e29b-41d4-a716-446655440000";
    assert!(matches!(FieldValue::parse(&k, id), Ok(FieldValue::FileReference(t)) if t == id));
    for bad in [
        "",
        "file_id_",
        "550e8400-e29b-41d4-a716-446655440000",
        "file_id_550e8400-e29b-41d4-a716-44665544000",
        "file-id-550e8400-e29b-41d4-a716-446655440000",
        "file_id_zzze8400-e29b-41d4-a716-446655440000",
    ] {
        assert_eq!(err(&k, bad), Some(ErrorKind::InvalidFormat), "{bad:?}");
    }
}

#[test]
fn default_raw_per_kind() {
    assert_eq!(FieldKind::Text.default_raw(), "");
    assert_eq!(FieldKind::NonEmptyText.default_raw(), "");
    assert_eq!(FieldKind::Boolean.default_raw(), "false");
    assert_eq!(FieldKind::Accepted.default_raw(), "false");
    assert_eq!(FieldKind::Enum(vec!["A".to_string(), "B".to_string()]).default_raw(), "A");
    assert_eq!(FieldKind::Enum(vec![]).default_raw(), "");
    assert_eq!(FieldKind::Date.default_raw(), "");
}

#[test]
fn tags_name_the_kind() {
    assert_eq!(FieldKind::Email.tag(), TypeTag::Email);
    assert_eq!(FieldKind::Enum(vec![]).tag(), TypeTag::Enum);
    assert_eq!(FieldKind::FileReference.tag(), TypeTag::FileReference);
}

#[test]
fn same_compares_variant_and_content() {
    let a = FieldValue::Email("a@b.co".to_string());
    let b = FieldValue::Email("a@b.co".to_string());
    let c = FieldValue::Email("a@c.co".to_string());
    let t = FieldValue::Text("a@b.co".to_string());
    assert!(a.same(&b));
    assert!(!a.same(&c));
    assert!(!a.same(&t));
    assert!(a.same(&a.clone()));
}

#[test]
fn validity_of_a_value_for_a_kind() {
    let choices = FieldKind::Enum(vec!["A".to_string(), "B".to_string()]);
    let good: Vec<(FieldKind, FieldValue)> = vec![
        (FieldKind::Text, FieldValue::Text(String::new())),
        (FieldKind::NonEmptyText, FieldValue::NonEmptyText("x".to_string())),
        (FieldKind::Email, FieldValue::Email("a@b.co".to_string())),
        (FieldKind::Phone, FieldValue::Phone("+41791234567".to_string())),
        (FieldKind::IntegerU32, FieldValue::IntegerU32(7)),
        (FieldKind::IntegerU64, FieldValue::IntegerU64(7)),
        (FieldKind::Date, FieldValue::Date { year: 2024, month: 2, day: 29 }),
        (FieldKind::Time, FieldValue::Time { hour: 23, minute: 59 }),
        (
            FieldKind::DateTime,
            FieldValue::DateTime { year: 2024, month: 2, day: 29, hour: 0, minute: 0 },
        ),
        (FieldKind::Boolean, FieldValue::Boolean(false)),
        (FieldKind::Accepted, FieldValue::Accepted(true)),
        (choices.clone(), FieldValue::Enum("B".to_string())),
        (
            FieldKind::FileReference,
            FieldValue::FileReference("file_id_550e8400-e29b-41d4-a716-446655440000".to_string()),
        ),
    ];
    for (kind, value) in good.iter() {
        assert!(value.is_valid_for(kind), "{kind:?} {value:?}");
    }
    // a value of one kind is no value of another
    for (i, (kind, _)) in good.iter().enumerate() {
        for (j, (_, value)) in good.iter().enumerate() {
            if i != j {
                assert!(!value.is_valid_for(kind), "{kind:?} {value:?}");
            }
        }
    }
    let bad: Vec<(FieldKind, FieldValue)> = vec![
        (FieldKind::NonEmptyText, FieldValue::NonEmptyText(String::new())),
        (FieldKind::Email, FieldValue::Email("a@b".to_string())),
        (FieldKind::Phone, FieldValue::Phone("123".to_string())),
        (FieldKind::Date, FieldValue::Date { year: 2023, month: 2, day: 29 }),
        (FieldKind::Date, FieldValue::Date { year: 2023, month: 0, day: 1 }),
        (FieldKind::Time, FieldValue::Time { hour: 24, minute: 0 }),
        (
            FieldKind::DateTime,
            FieldValue::DateTime { year: 2024, month: 2, day: 29, hour: 0, minute: 60 },
        ),
        (FieldKind::Accepted, FieldValue::Accepted(false)),
        (choices, FieldValue::Enum("C".to_string())),
        (FieldKind::FileReference, FieldValue::FileReference("file_id_".to_string())),
    ];
    for (kind, value) in bad.iter() {
        assert!(!value.is_valid_for(kind), "{kind:?} {value:?}");
    }
}

#[test]
fn what_a_kind_starts_with() {
    assert!(matches!(FieldKind::Text.default_value(), Ok(FieldValue::Text(t)) if t.is_empty()));
    assert!(matches!(FieldKind::Boolean.default_value(), Ok(FieldValue::Boolean(false))));
    assert!(matches!(
        FieldKind::Enum(vec!["A".to_string(), "B".to_string()]).default_value(),
        Ok(FieldValue::Enum(c)) if c == "A"
    ));
    assert_eq!(FieldKind::NonEmptyText.default_value().err(), Some(ErrorKind::EmptyValue));
    assert_eq!(FieldKind::Email.default_value().err(), Some(ErrorKind::InvalidFormat));
    assert_eq!(FieldKind::Phone.default_value().err(), Some(ErrorKind::InvalidFormat));
    assert_eq!(FieldKind::IntegerU32.default_value().err(), Some(ErrorKind::ParseFailure));
    assert_eq!(FieldKind::Date.default_value().err(), Some(ErrorKind::ParseFailure));
    assert_eq!(FieldKind::Accepted.default_value().err(), Some(ErrorKind::NotAccepted));
    assert_eq!(FieldKind::Enum(vec![]).default_value().err(), Some(ErrorKind::ParseFailure));
    assert_eq!(FieldKind::FileReference.default_value().err(), Some(ErrorKind::InvalidFormat));
}

#[test]
fn what_is_parsed_is_valid_for_the_kind() {
    let kinds = vec![
        FieldKind::Text,
        FieldKind::NonEmptyText,
        FieldKind::Email,
        FieldKind::Phone,
        FieldKind::IntegerU32,
        FieldKind::IntegerU64,
        FieldKind::Date,
        FieldKind::Time,
        FieldKind::DateTime,
        FieldKind::Boolean,
        FieldKind::Accepted,
        FieldKind::Enum(vec!["true".to_string(), "12:30".to_string()]),
        FieldKind::FileReference,
    ];
    let raws = [
        "",
        "x",
        "a@b.co",
        "+41791234567",
        "12345",
        "2024-02-29",
        "12:30",
        "2024-02-29T12:30",
        "true",
        "false",
        "file_id_550e8400-e29b-41d4-a716-446655440000",
        "99999999999",
    ];
    let mut accepted = 0;
    for kind in kinds.iter() {
        for raw in raws {
            if let Ok(value) = FieldValue::parse(kind, raw) {
                assert!(value.is_valid_for(kind), "{kind:?} {raw}");
                accepted += 1;
            }
        }
    }
    assert!(accepted > 20);
}

#[test]
fn times_are_two_digits_colon_two_digits() {
    for (raw, hour, minute) in [("00:00", 0, 0), ("09:05", 9, 5), ("23:59", 23, 59), ("10:00", 10, 0)] {
        match FieldValue::parse(&FieldKind::Time, raw) {
            Ok(FieldValue::Time { hour: h, minute: m }) => assert_eq!((h, m), (hour, minute), "{raw}"),
            other => panic!("{raw}: {other:?}"),
        }
    }
    for bad in [
        "", "1:30", "01:3", "1:3", "001:30", "01:030", "12:30:00", "12:30 ", " 12:30", "+1:30",
        "-1:30", "24:00", "23:60", "99:99", "12.30", "12:3a", "ab:cd", "１２:３０", "12:30\n",
        "12:30am", "1230", "12::30", "1 :30", " 1:30",
    ] {
        assert_eq!(err(&FieldKind::Time, bad), Some(ErrorKind::ParseFailure), "{bad:?}");
    }
}

#[test]
fn uuids_come_in_four_shapes() {
    let k = FieldKind::FileReference;
    let groups = "67e55044-10b1-426f-9247-bb680e5fe0c8";
    for good in [
        "67e5504410b1426f9247bb680e5fe0c8".to_string(),
        "67E5504410B1426F9247BB680E5FE0C8".to_string(),
        "00000000000000000000000000000000".to_string(),
        groups.to_string(),
        "F9168C5E-CEB2-4faa-B6BF-329BF39FA1E4".to_string(),
        format!("{{{groups}}}"),
        format!("urn:uuid:{groups}"),
        format!("URN:UUID:{groups}"),
        format!("Urn:uUiD:{groups}"),
    ] {
        let id = format!("file_id_{good}");
        assert!(ok(&k, &id), "{id}");
    }
    for bad in [
        "".to_string(),
        "67e5504410b1426f9247bb680e5fe0c".to_string(),
        "67e5504410b1426f9247bb680e5fe0c8a".to_string(),
        "67e5504410b1426f9247bb680e5fe0cg".to_string(),
        "67e5504410b1426f9247bb680e5fe0c`".to_string(),
        "67e5504410b1426f9247bb680e5fe0c@".to_string(),
        "67e5504410b1426f9247bb680e5fe0c:".to_string(),
        "67e5504410b1426f9247bb680e5fe0c/".to_string(),
        "67e55044-10b1-426f-9247-bb680e5fe0c".to_string(),
        "67e55044-10b1-426f-9247bb680e5fe0c8a".to_string(),
        "67e55044010b1-426f-9247-bb680e5fe0c8".to_string(),
        "67e55044-10b1-426f-9247-bb680e5fe0cG".to_string(),
        "67e55044-10b1-426f-9247-bb680e5f-0c8".to_string(),
        format!("{{{groups}"),
        format!("{groups}}}"),
        format!("({groups})"),
        format!("[{groups}]"),
        "{67e5504410b1426f9247bb680e5fe0c8}".to_string(),
        "urn:uuid:67e5504410b1426f9247bb680e5fe0c8".to_string(),
        format!("urn-uuid:{groups}"),
        format!("urn:uuid {groups}"),
        format!("urn:guid:{groups}"),
        format!("urn:uuid:{{{groups}}}"),
        format!(" {groups}"),
        format!("{groups} "),
        "67e55044\u{2010}10b1-426f-9247-bb680e5fe0c8".to_string(),
        "６7e5504410b1426f9247bb680e5fe0c8".to_string(),
    ] {
        let id = format!("file_id_{bad}");
        assert_eq!(err(&k, &id), Some(ErrorKind::InvalidFormat), "{id:?}");
    }
}
