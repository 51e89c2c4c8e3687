use nova_forms_demo::path::{BindingPath, PathError, Segment};

#[test]
fn serialize_nested_named_path() {
    let p = BindingPath::new().push_named("me").push_named("first_name");
    assert_eq!(p.serialize(), "me.first_name");
}

#[test]
fn serialize_path_with_position() {
    let p = BindingPath::new().push_named("children").push_indexed(0).push_named("name");
    assert_eq!(p.serialize(), "children.0.name");
}

#[test]
fn parse_reads_positions_and_keys() {
    let p = BindingPath::parse("children.12.name").unwrap();
    assert_eq!(p.len(), 3);
    assert!(matches!(p.segment(0), Segment::Named(k) if k == "children"));
    assert!(matches!(p.segment(1), Segment::Indexed(12)));
    assert!(matches!(p.segment(2), Segment::Named(k) if k == "name"));
}

#[test]
fn parse_rejects_empty_segment() {
    assert_eq!(BindingPath::parse("a..b").err(), Some(PathError::EmptySegment));
    assert_eq!(BindingPath::parse(".a").err(), Some(PathError::EmptySegment));
    assert_eq!(BindingPath::parse("a.").err(), Some(PathError::EmptySegment));
}

#[test]
fn parse_rejects_position_beyond_64_bits() {
    assert_eq!(
        BindingPath::parse("a.18446744073709551616").err(),
        Some(PathError::IndexOutOfRange)
    );
    let p = BindingPath::parse("a.18446744073709551615").unwrap();
    assert!(matches!(p.segment(1), Segment::Indexed(u64::MAX)));
}

#[test]
fn parse_of_serialize_gives_the_path_back() {
    let paths = [
        BindingPath::new(),
        BindingPath::new().push_named("email"),
        BindingPath::new().push_named("me").push_named("first_name"),
        BindingPath::new().push_named("children").push_indexed(0).push_named("name"),
        BindingPath::new().push_indexed(7),
        BindingPath::new().push_indexed(u64::MAX).push_named("x9"),
        BindingPath::new().push_named("a-b c").push_indexed(10).push_indexed(0),
    ];
    for p in paths.iter() {
        assert!(p.is_plain());
        let text = p.serialize();
        let back = BindingPath::parse(&text).unwrap();
        assert!(back.same(p), "{text}");
    }
}

#[test]
fn keys_that_are_not_plain_are_not_read_back() {
    let dotted = BindingPath::new().push_named("a.b");
    assert!(!dotted.is_plain());
    assert_eq!(dotted.serialize(), "a.b");
    assert_eq!(BindingPath::parse("a.b").unwrap().len(), 2);

    let digits = BindingPath::new().push_named("12");
    assert!(!digits.is_plain());
    assert!(matches!(BindingPath::parse("12").unwrap().segment(0), Segment::Indexed(12)));

    let empty = BindingPath::new().push_named("");
    assert!(!empty.is_plain());
    assert_eq!(BindingPath::parse(&empty.serialize()).unwrap().len(), 0);
}

#[test]
fn empty_text_is_the_empty_path() {
    let p = BindingPath::parse("").unwrap();
    assert_eq!(p.len(), 0);
    assert_eq!(p.serialize(), "");
}

#[test]
fn leading_zeros_are_a_position() {
    let p = BindingPath::parse("a.007").unwrap();
    assert!(matches!(p.segment(1), Segment::Indexed(7)));
    assert_eq!(p.serialize(), "a.7");
}

#[test]
fn mixed_pieces_are_keys() {
    let p = BindingPath::parse("12a.a12.-1").unwrap();
    assert!(matches!(p.segment(0), Segment::Named(k) if k == "12a"));
    assert!(matches!(p.segment(1), Segment::Named(k) if k == "a12"));
    assert!(matches!(p.segment(2), Segment::Named(k) if k == "-1"));
}

#[test]
fn first_error_wins() {
    assert_eq!(
        BindingPath::parse("a..99999999999999999999").err(),
        Some(PathError::EmptySegment)
    );
    assert_eq!(
        BindingPath::parse("99999999999999999999..a").err(),
        Some(PathError::IndexOutOfRange)
    );
}

#[test]
fn same_and_starts_with() {
    let a = BindingPath::parse("children.0.name").unwrap();
    let b = BindingPath::new().push_named("children").push_indexed(0).push_named("name");
    let c = BindingPath::parse("children.1.name").unwrap();
    let prefix = BindingPath::parse("children.0").unwrap();
    assert!(a.same(&b));
    assert!(!a.same(&c));
    assert!(!a.same(&prefix));
    assert!(a.starts_with(&prefix));
    assert!(a.starts_with(&a));
    assert!(a.starts_with(&BindingPath::new()));
    assert!(!c.starts_with(&prefix));
    assert!(!prefix.starts_with(&a));
}

#[test]
fn join_and_with_segment() {
    let base = BindingPath::parse("children.2").unwrap();
    let rest = BindingPath::parse("name.first").unwrap();
    assert_eq!(base.join(&rest).serialize(), "children.2.name.first");
    assert_eq!(base.join(&BindingPath::new()).serialize(), "children.2");
    let moved = base.join(&rest).with_segment(1, Segment::Indexed(1));
    assert_eq!(moved.serialize(), "children.1.name.first");
    assert_eq!(base.clone().serialize(), "children.2");
}
