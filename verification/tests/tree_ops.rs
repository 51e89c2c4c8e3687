use nova_forms_demo::path::BindingPath;
use nova_forms_demo::tree::{Entry, ListEdit, Node};
use nova_forms_demo::value::FieldValue;

fn p(text: &str) -> BindingPath {
    BindingPath::parse(text).unwrap()
}

fn text(s: &str) -> Node {
    Node::Leaf(FieldValue::Text(s.to_string()))
}

fn text_at(tree: &Node, path: &str) -> Option<String> {
    match tree.value(&p(path)) {
        Some(FieldValue::Text(t)) => Some(t.clone()),
        _ => None,
    }
}

#[test]
fn planting_makes_the_groups_on_the_way() {
    let (tree, done) = Node::group().plant(&p("me.name.first"), 0, text("Ada"));
    assert!(done);
    assert_eq!(text_at(&tree, "me.name.first"), Some("Ada".to_string()));
    assert!(matches!(tree.resolve(&p("me")), Some(Node::Group(g)) if g.len() == 1));
    assert!(matches!(tree.resolve(&p("me.name")), Some(Node::Group(_))));
    assert!(tree.resolve(&p("me.age")).is_none());
    assert!(tree.resolve(&p("you")).is_none());
    assert!(tree.resolve(&p("me.name.first.x")).is_none());
}

#[test]
fn planting_replaces_a_leaf_and_keeps_the_rest() {
    let (tree, _) = Node::group().plant(&p("a.x"), 0, text("1"));
    let (tree, _) = tree.plant(&p("a.y"), 0, text("2"));
    let (tree, _) = tree.plant(&p("b"), 0, text("3"));
    let (tree, done) = tree.plant(&p("a.x"), 0, text("4"));
    assert!(done);
    assert_eq!(text_at(&tree, "a.x"), Some("4".to_string()));
    assert_eq!(text_at(&tree, "a.y"), Some("2".to_string()));
    assert_eq!(text_at(&tree, "b"), Some("3".to_string()));
    match tree.resolve(&p("a")) {
        Some(Node::Group(entries)) => {
            assert_eq!(entries.len(), 2);
            assert_eq!(entries[0].key, "x");
            assert_eq!(entries[1].key, "y");
        }
        other => panic!("{other:?}"),
    }
}

#[test]
fn planting_is_refused_where_the_tree_has_no_place() {
    let (tree, _) = Node::group().plant(&p("a.x"), 0, text("1"));
    // through a leaf
    let (tree, done) = tree.plant(&p("a.x.y"), 0, text("2"));
    assert!(!done);
    // on a group with children
    let (tree, done) = tree.plant(&p("a"), 0, text("2"));
    assert!(!done);
    // a position in a group
    let (tree, done) = tree.plant(&p("a.0"), 0, text("2"));
    assert!(!done);
    // entries are never made on the way
    let (tree, done) = tree.plant(&p("list"), 0, Node::list());
    assert!(done);
    let (tree, done) = tree.plant(&p("list.0.name"), 0, text("2"));
    assert!(!done);
    // a key in a section
    let (tree, done) = tree.plant(&p("list.name"), 0, text("2"));
    assert!(!done);
    // a section where something is
    let (tree, done) = tree.plant(&p("a"), 0, Node::list());
    assert!(!done);
    let (tree, done) = tree.plant(&p("list"), 0, Node::list());
    assert!(!done);
    assert_eq!(text_at(&tree, "a.x"), Some("1".to_string()));
    assert_eq!(tree.section_len(&p("list")), Some(0));
}

#[test]
fn a_leaf_takes_the_place_of_an_empty_group() {
    let (tree, done) = Node::group().plant(&BindingPath::new(), 0, text("root"));
    assert!(done);
    assert!(matches!(tree, Node::Leaf(FieldValue::Text(t)) if t == "root"));
    let (tree, done) = Node::list().plant(&BindingPath::new(), 0, text("root"));
    assert!(!done);
    assert!(matches!(tree, Node::List(_)));
}

#[test]
fn planting_from_a_later_position_uses_the_rest_of_the_path() {
    let (tree, done) = Node::group().plant(&p("skipped.a.b"), 1, text("v"));
    assert!(done);
    assert_eq!(text_at(&tree, "a.b"), Some("v".to_string()));
    assert!(tree.resolve(&p("skipped")).is_none());
}

fn section_of(names: &[&str]) -> Node {
    let (mut tree, done) = Node::group().plant(&p("children"), 0, Node::list());
    assert!(done);
    for name in names {
        let (entry, done) = Node::group().plant(&p("name"), 0, text(name));
        assert!(done);
        let (t, done) = tree.edit_list(&p("children"), 0, ListEdit::Push(entry));
        assert!(done);
        tree = t;
    }
    tree
}

#[test]
fn removing_an_entry_moves_the_later_ones_down() {
    let tree = section_of(&["A", "B", "C"]);
    assert_eq!(tree.section_len(&p("children")), Some(3));
    let (tree, done) = tree.edit_list(&p("children"), 0, ListEdit::Remove(1));
    assert!(done);
    assert_eq!(tree.section_len(&p("children")), Some(2));
    assert_eq!(text_at(&tree, "children.0.name"), Some("A".to_string()));
    assert_eq!(text_at(&tree, "children.1.name"), Some("C".to_string()));
    assert!(tree.resolve(&p("children.2")).is_none());
}

#[test]
fn removing_the_first_and_the_last_entry() {
    let tree = section_of(&["A", "B", "C"]);
    let (tree, done) = tree.edit_list(&p("children"), 0, ListEdit::Remove(0));
    assert!(done);
    assert_eq!(text_at(&tree, "children.0.name"), Some("B".to_string()));
    assert_eq!(text_at(&tree, "children.1.name"), Some("C".to_string()));
    let (tree, done) = tree.edit_list(&p("children"), 0, ListEdit::Remove(1));
    assert!(done);
    assert_eq!(tree.section_len(&p("children")), Some(1));
    assert_eq!(text_at(&tree, "children.0.name"), Some("B".to_string()));
}

#[test]
fn edits_are_refused_where_there_is_no_such_section_or_entry() {
    let tree = section_of(&["A"]);
    let (tree, done) = tree.edit_list(&p("children"), 0, ListEdit::Remove(1));
    assert!(!done);
    let (tree, done) = tree.edit_list(&p("nowhere"), 0, ListEdit::Push(Node::group()));
    assert!(!done);
    let (tree, done) = tree.edit_list(&p("children.0"), 0, ListEdit::Push(Node::group()));
    assert!(!done);
    let (tree, done) = tree.edit_list(&p("children.0.name"), 0, ListEdit::Remove(0));
    assert!(!done);
    assert_eq!(tree.section_len(&p("children")), Some(1));
    assert_eq!(tree.section_len(&p("children.0")), None);
    assert_eq!(text_at(&tree, "children.0.name"), Some("A".to_string()));
}

#[test]
fn nested_sections() {
    let tree = section_of(&["A", "B"]);
    let (tree, done) = tree.plant(&p("children.1.toys"), 0, Node::list());
    assert!(done);
    let (tree, done) = tree.edit_list(&p("children.1.toys"), 0, ListEdit::Push(text("ball")));
    assert!(done);
    assert_eq!(text_at(&tree, "children.1.toys.0"), Some("ball".to_string()));
    let (tree, done) = tree.edit_list(&p("children"), 0, ListEdit::Remove(0));
    assert!(done);
    assert_eq!(text_at(&tree, "children.0.toys.0"), Some("ball".to_string()));
    assert_eq!(text_at(&tree, "children.0.name"), Some("B".to_string()));
}

#[test]
fn path_resolve_and_clone() {
    let tree = section_of(&["A", "B"]);
    let path = p("children.1.name");
    assert!(matches!(path.resolve(&tree), Some(Node::Leaf(FieldValue::Text(t))) if t == "B"));
    assert!(p("children.2.name").resolve(&tree).is_none());
    assert!(matches!(BindingPath::new().resolve(&tree), Some(Node::Group(_))));
    let copy = tree.clone();
    let (tree, _) = tree.edit_list(&p("children"), 0, ListEdit::Remove(0));
    assert_eq!(tree.section_len(&p("children")), Some(1));
    assert_eq!(copy.section_len(&p("children")), Some(2));
    assert_eq!(text_at(&copy, "children.0.name"), Some("A".to_string()));
}

#[test]
fn first_key_counts() {
    let tree = Node::Group(vec![
        Entry { key: "a".to_string(), node: text("first") },
        Entry { key: "a".to_string(), node: text("second") },
    ]);
    assert_eq!(text_at(&tree, "a"), Some("first".to_string()));
    let (tree, done) = tree.plant(&p("a"), 0, text("third"));
    assert!(done);
    match &tree {
        Node::Group(entries) => {
            assert!(matches!(&entries[0].node, Node::Leaf(FieldValue::Text(t)) if t == "third"));
            assert!(matches!(&entries[1].node, Node::Leaf(FieldValue::Text(t)) if t == "second"));
        }
        other => panic!("{other:?}"),
    }
}

#[test]
fn resolve_mut_changes_the_node_in_place() {
    let mut tree = section_of(&["A", "B"]);
    let (t, _) = tree.plant(&p("me.name"), 0, text("Ada"));
    tree = t;
    match p("children.1.name").resolve_mut(&mut tree) {
        Some(node) => *node = text("Z"),
        None => panic!("no node"),
    }
    assert_eq!(text_at(&tree, "children.1.name"), Some("Z".to_string()));
    assert_eq!(text_at(&tree, "children.0.name"), Some("A".to_string()));
    assert_eq!(text_at(&tree, "me.name"), Some("Ada".to_string()));
    // nothing is made on the way
    assert!(p("children.2.name").resolve_mut(&mut tree).is_none());
    assert!(p("you.name").resolve_mut(&mut tree).is_none());
    assert!(p("me.name.first").resolve_mut(&mut tree).is_none());
    assert!(tree.resolve(&p("you")).is_none());
    assert_eq!(tree.section_len(&p("children")), Some(2));
    // a whole sub-tree can be replaced, and the root too
    match p("children").resolve_mut(&mut tree) {
        Some(node) => *node = Node::list(),
        None => panic!("no node"),
    }
    assert_eq!(tree.section_len(&p("children")), Some(0));
    if let Some(root) = BindingPath::new().resolve_mut(&mut tree) {
        *root = Node::group();
    }
    assert!(tree.resolve(&p("me")).is_none());
    let mut tree = section_of(&["A"]);
    let seg = nova_forms_demo::path::Segment::Indexed(0);
    assert!(tree.child_mut(&seg).is_none());
    let seg = nova_forms_demo::path::Segment::Named("children".to_string());
    assert!(matches!(tree.child_mut(&seg), Some(Node::List(_))));
    assert!(tree.resolve_mut_from(&p("x.children.0.name"), 1).is_some());
}
