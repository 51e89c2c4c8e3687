//! The form tree: groups of named fields, repeatable sections and leaves.
use vstd::prelude::*;
use crate::path::{BindingPath, PathView, Segment, SegmentView};
use crate::value::{is_sound, FieldValue, FieldValueView};

verus! {

/// One named child of a group.
#[derive(Debug)]
pub struct Entry {
    pub key: String,
    pub node: Node,
}

/// A node of the form tree.
#[derive(Debug)]
pub enum Node {
    /// A committed value.
    Leaf(FieldValue),
    /// Named children, in the order in which they were first set.
    Group(Vec<Entry>),
    /// The entries of a repeatable section, addressed by position.
    List(Vec<Node>),
}

/// The mathematical value of a [`Node`].
pub enum NodeView {
    Leaf(FieldValueView),
    Group(Seq<(Seq<char>, NodeView)>),
    List(Seq<NodeView>),
}

/// The mathematical value of a node, child by child.
pub open spec fn node_view(node: Node) -> NodeView
    decreases node,
{
    match node {
        Node::Leaf(value) => NodeView::Leaf(value@),
        Node::Group(entries) => NodeView::Group(
            Seq::new(
                entries.len() as nat,
                |i: int|
                    if 0 <= i < entries.len() {
                        (entries[i].key@, node_view(entries[i].node))
                    } else {
                        (Seq::empty(), NodeView::List(Seq::empty()))
                    },
            ),
        ),
        Node::List(items) => NodeView::List(
            Seq::new(
                items.len() as nat,
                |i: int|
                    if 0 <= i < items.len() {
                        node_view(items[i])
                    } else {
                        NodeView::List(Seq::empty())
                    },
            ),
        ),
    }
}

impl View for Node {
    type V = NodeView;

    open spec fn view(&self) -> NodeView {
        node_view(*self)
    }
}

/// The keys and the views of the children of a group.
pub open spec fn entries_view(entries: Seq<Entry>) -> Seq<(Seq<char>, NodeView)> {
    Seq::new(entries.len(), |i: int| (entries[i].key@, entries[i].node@))
}

/// The views of the entries of a repeatable section.
pub open spec fn items_view(items: Seq<Node>) -> Seq<NodeView> {
    Seq::new(items.len(), |i: int| items[i]@)
}

/// The view of a group lists the keys and the views of its children.
pub proof fn lemma_group_view(entries: Vec<Entry>)
    ensures
        Node::Group(entries)@ == NodeView::Group(entries_view(entries@)),
{
    assert(Node::Group(entries)@->Group_0 =~= entries_view(entries@));
}

/// The view of a repeatable section lists the views of its entries.
pub proof fn lemma_list_view(items: Vec<Node>)
    ensures
        Node::List(items)@ == NodeView::List(items_view(items@)),
{
    assert(Node::List(items)@->List_0 =~= items_view(items@));
}

/// Whether every value in the tree keeps the promise of its variant.
pub open spec fn sound_tree(node: NodeView) -> bool
    decreases node,
{
    match node {
        NodeView::Leaf(value) => is_sound(value),
        NodeView::Group(entries) => forall|i: int|
            0 <= i < entries.len() ==> sound_tree((#[trigger] entries[i]).1),
        NodeView::List(items) => forall|i: int|
            0 <= i < items.len() ==> sound_tree(#[trigger] items[i]),
    }
}

/// Whether no group of the tree holds two children under one key, so that
/// every child is reached by its key.
pub open spec fn distinct_keys(node: NodeView) -> bool
    decreases node,
{
    match node {
        NodeView::Leaf(_) => true,
        NodeView::Group(entries) => {
            &&& forall|i: int, j: int|
                0 <= i < j < entries.len() ==> (#[trigger] entries[i]).0 != (#[trigger] entries[j]).0
            &&& forall|i: int| 0 <= i < entries.len() ==> distinct_keys((#[trigger] entries[i]).1)
        },
        NodeView::List(items) => forall|i: int|
            0 <= i < items.len() ==> distinct_keys(#[trigger] items[i]),
    }
}

/// The position of the first child named `key`, or the number of children
/// where there is none.
pub open spec fn find_key(entries: Seq<(Seq<char>, NodeView)>, key: Seq<char>) -> int
    decreases entries.len(),
{
    if entries.len() == 0 {
        0
    } else if entries[0].0 == key {
        0
    } else {
        1 + find_key(entries.drop_first(), key)
    }
}

/// `find_key` gives the least position that holds the key.
pub proof fn lemma_find_key(entries: Seq<(Seq<char>, NodeView)>, key: Seq<char>)
    ensures
        0 <= find_key(entries, key) <= entries.len(),
        find_key(entries, key) < entries.len() ==> entries[find_key(entries, key)].0 == key,
        forall|j: int| 0 <= j < find_key(entries, key) ==> (#[trigger] entries[j]).0 != key,
    decreases entries.len(),
{
    if entries.len() > 0 && entries[0].0 != key {
        let rest = entries.drop_first();
        lemma_find_key(rest, key);
        assert forall|j: int| 0 <= j < find_key(entries, key) implies (#[trigger] entries[j]).0
            != key by {
            if j > 0 {
                assert(entries[j] == rest[j - 1]);
            }
        }
    }
}

/// The first position that holds the key is what `find_key` gives.
pub proof fn lemma_find_key_is(entries: Seq<(Seq<char>, NodeView)>, key: Seq<char>, i: int)
    requires
        0 <= i <= entries.len(),
        i < entries.len() ==> entries[i].0 == key,
        forall|j: int| 0 <= j < i ==> (#[trigger] entries[j]).0 != key,
    ensures
        find_key(entries, key) == i,
{
    lemma_find_key(entries, key);
    let f = find_key(entries, key);
    if f < i {
        assert(entries[f].0 != key);
    }
}

/// The child that one step leads to: a key leads into a group and a
/// position into a repeatable section.
pub open spec fn child_view(node: NodeView, segment: SegmentView) -> Option<NodeView> {
    match (node, segment) {
        (NodeView::Group(entries), SegmentView::Named(key)) => {
            let i = find_key(entries, key);
            if i < entries.len() {
                Some(entries[i].1)
            } else {
                None
            }
        },
        (NodeView::List(items), SegmentView::Indexed(i)) => {
            if i < items.len() {
                Some(items[i as int])
            } else {
                None
            }
        },
        _ => None,
    }
}

/// The node that a path leads to from `node`, if every step exists.
pub open spec fn resolve_view(node: NodeView, path: PathView) -> Option<NodeView>
    decreases path.len(),
{
    if path.len() == 0 {
        Some(node)
    } else {
        match child_view(node, path[0]) {
            Some(child) => resolve_view(child, path.drop_first()),
            None => None,
        }
    }
}

/// The committed value at a path, if the path leads to a leaf.
pub open spec fn value_at(node: NodeView, path: PathView) -> Option<FieldValueView> {
    match resolve_view(node, path) {
        Some(NodeView::Leaf(value)) => Some(value),
        _ => None,
    }
}

/// The entries of the repeatable section at a path, if the path leads to
/// one.
pub open spec fn section_entries(node: NodeView, path: PathView) -> Option<Seq<NodeView>> {
    match resolve_view(node, path) {
        Some(NodeView::List(items)) => Some(items),
        _ => None,
    }
}

/// `node` with the existing child at `segment` replaced by `child`.
pub open spec fn with_child(node: NodeView, segment: SegmentView, child: NodeView) -> NodeView {
    match (node, segment) {
        (NodeView::Group(entries), SegmentView::Named(key)) => {
            let i = find_key(entries, key);
            if i < entries.len() {
                NodeView::Group(entries.update(i, (key, child)))
            } else {
                node
            }
        },
        (NodeView::List(items), SegmentView::Indexed(i)) => {
            if i < items.len() {
                NodeView::List(items.update(i as int, child))
            } else {
                node
            }
        },
        _ => node,
    }
}

/// `node` with the node at the end of `path` replaced by `new`, where the
/// path leads to one; `node` itself where it leads to none.
pub open spec fn replaced_view(node: NodeView, path: PathView, new: NodeView) -> NodeView
    decreases path.len(),
{
    if path.len() == 0 {
        new
    } else {
        match child_view(node, path[0]) {
            Some(child) => with_child(node, path[0], replaced_view(child, path.drop_first(), new)),
            None => node,
        }
    }
}

/// Putting a child where it already is changes nothing.
pub proof fn lemma_with_same_child(node: NodeView, segment: SegmentView)
    ensures
        child_view(node, segment) matches Some(child) ==> with_child(node, segment, child) == node,
{
    match (node, segment) {
        (NodeView::Group(entries), SegmentView::Named(key)) => {
            let i = find_key(entries, key);
            lemma_find_key(entries, key);
            if i < entries.len() {
                assert(entries.update(i, (key, entries[i].1)) =~= entries);
            }
        },
        (NodeView::List(items), SegmentView::Indexed(i)) => {
            if i < items.len() {
                assert(items.update(i as int, items[i as int]) =~= items);
            }
        },
        _ => {},
    }
}

/// The tree that holds `sub` at the end of `path` and nothing else: one
/// group for every key on the way. There is none where the path holds a
/// position, because entries of a repeatable section are never made on the
/// way.
pub open spec fn fresh_view(path: PathView, sub: NodeView) -> Option<NodeView>
    decreases path.len(),
{
    if path.len() == 0 {
        Some(sub)
    } else {
        match path[0] {
            SegmentView::Named(key) => match fresh_view(path.drop_first(), sub) {
                Some(child) => Some(NodeView::Group(seq![(key, child)])),
                None => None,
            },
            SegmentView::Indexed(_) => None,
        }
    }
}

/// Whether a leaf may take the place of `node`: the node is a leaf or a
/// group without children.
pub open spec fn may_give_way(node: NodeView) -> bool {
    match node {
        NodeView::Leaf(_) => true,
        NodeView::Group(entries) => entries.len() == 0,
        NodeView::List(_) => false,
    }
}

/// `node` with `sub` placed at `path`.
///
/// Groups that are missing on the way are made. A leaf takes the place of
/// a leaf or of a group without children; nothing else is ever replaced.
/// There is no result where the path runs through a leaf, meets a key in a
/// repeatable section or a position in a group, names an entry that a
/// section does not have, or ends on a node that may not be replaced.
pub open spec fn plant_view(node: NodeView, path: PathView, sub: NodeView) -> Option<NodeView>
    decreases path.len(),
{
    if path.len() == 0 {
        if sub is Leaf && may_give_way(node) {
            Some(sub)
        } else {
            None
        }
    } else {
        match child_view(node, path[0]) {
            Some(child) => match plant_view(child, path.drop_first(), sub) {
                Some(planted) => Some(with_child(node, path[0], planted)),
                None => None,
            },
            None => match (node, path[0]) {
                (NodeView::Group(entries), SegmentView::Named(key)) => match fresh_view(
                    path.drop_first(),
                    sub,
                ) {
                    Some(made) => Some(NodeView::Group(entries.push((key, made)))),
                    None => None,
                },
                _ => None,
            },
        }
    }
}

/// A change to the entries of a repeatable section.
#[derive(Debug)]
pub enum ListEdit {
    /// Adds an entry at the end.
    Push(Node),
    /// Takes out the entry at a position; later entries move down by one.
    Remove(u64),
}

/// The mathematical value of a [`ListEdit`].
pub enum ListEditView {
    Push(NodeView),
    Remove(nat),
}

impl View for ListEdit {
    type V = ListEditView;

    open spec fn view(&self) -> ListEditView {
        match self {
            ListEdit::Push(entry) => ListEditView::Push(entry@),
            ListEdit::Remove(index) => ListEditView::Remove(*index as nat),
        }
    }
}

/// The entries of a section after `edit`, or `None` where the edit names a
/// position that the section does not have.
pub open spec fn edited_items(items: Seq<NodeView>, edit: ListEditView) -> Option<Seq<NodeView>> {
    match edit {
        ListEditView::Push(entry) => Some(items.push(entry)),
        ListEditView::Remove(index) => if index < items.len() {
            Some(items.remove(index as int))
        } else {
            None
        },
    }
}

/// `node` with the repeatable section at `path` changed by `edit`, or
/// `None` where the path does not lead to a section or the edit names a
/// position that the section does not have.
pub open spec fn edit_list_view(node: NodeView, path: PathView, edit: ListEditView) -> Option<
    NodeView,
>
    decreases path.len(),
{
    if path.len() == 0 {
        match node {
            NodeView::List(items) => match edited_items(items, edit) {
                Some(after) => Some(NodeView::List(after)),
                None => None,
            },
            _ => None,
        }
    } else {
        match child_view(node, path[0]) {
            Some(child) => match edit_list_view(child, path.drop_first(), edit) {
                Some(edited) => Some(with_child(node, path[0], edited)),
                None => None,
            },
            None => None,
        }
    }
}

/// The position of the first child named `key`.
fn position_of(entries: &Vec<Entry>, key: &String) -> (i: usize)
    ensures
        i == find_key(entries_view(entries@), key@),
        i <= entries.len(),
{
    let ghost view = entries_view(entries@);
    let mut i: usize = 0;
    while i < entries.len()
        invariant
            i <= entries.len(),
            view == entries_view(entries@),
            forall|j: int| 0 <= j < i ==> (#[trigger] view[j]).0 != key@,
        decreases entries.len() - i,
    {
        if entries[i].key == *key {
            proof {
                lemma_find_key_is(view, key@, i as int);
            }
            return i;
        }
        i += 1;
    }
    proof {
        lemma_find_key_is(view, key@, entries.len() as int);
    }
    i
}

/// The tree that holds `sub` at the end of `path[from..]` and nothing else.
fn fresh(path: &BindingPath, from: usize, sub: Node) -> (r: Option<Node>)
    requires
        from <= path@.len(),
    ensures
        match r {
            Some(n) => fresh_view(path@.skip(from as int), sub@) == Some(n@),
            None => fresh_view(path@.skip(from as int), sub@) is None,
        },
    decreases path@.len() - from,
{
    if from == path.len() {
        return Some(sub);
    }
    proof {
        assert(path@.skip(from as int).drop_first() =~= path@.skip(from + 1));
    }
    match path.segment(from) {
        Segment::Named(key) => match fresh(path, from + 1, sub) {
            Some(child) => {
                let mut entries: Vec<Entry> = Vec::new();
                entries.push(Entry { key: key.clone(), node: child });
                proof {
                    lemma_group_view(entries);
                    assert(entries_view(entries@) =~= seq![(key@, child@)]);
                }
                Some(Node::Group(entries))
            },
            None => None,
        },
        Segment::Indexed(_) => None,
    }
}

impl Node {
    /// An empty group.
    pub fn group() -> (r: Node)
        ensures
            r@ == NodeView::Group(Seq::empty()),
    {
        let r = Node::Group(Vec::new());
        proof {
            assert(r@->Group_0 =~= Seq::empty());
        }
        r
    }

    /// A repeatable section without entries.
    pub fn list() -> (r: Node)
        ensures
            r@ == NodeView::List(Seq::empty()),
    {
        let r = Node::List(Vec::new());
        proof {
            assert(r@->List_0 =~= Seq::empty());
        }
        r
    }

    /// The child that `segment` leads to, if there is one.
    pub fn child(&self, segment: &Segment) -> (r: Option<&Node>)
        ensures
            match r {
                Some(c) => child_view(self@, segment@) == Some(c@),
                None => child_view(self@, segment@) is None,
            },
    {
        match (self, segment) {
            (Node::Group(entries), Segment::Named(key)) => {
                proof {
                    lemma_group_view(*entries);
                }
                let i = position_of(entries, key);
                if i < entries.len() {
                    Some(&entries[i].node)
                } else {
                    None
                }
            },
            (Node::List(items), Segment::Indexed(index)) => {
                proof {
                    lemma_list_view(*items);
                }
                if *index < items.len() as u64 {
                    Some(&items[*index as usize])
                } else {
                    None
                }
            },
            _ => None,
        }
    }

    /// The child that `segment` leads to, for changing it in place. What
    /// the caller leaves in the child is what this node holds there
    /// afterwards.
    pub fn child_mut<'a>(&'a mut self, segment: &Segment) -> (r: Option<&'a mut Node>)
        ensures
            match r {
                Some(c) => child_view(old(self)@, segment@) == Some(c@) && final(self)@
                    == with_child(old(self)@, segment@, final(c)@),
                None => child_view(old(self)@, segment@) is None && final(self)@ == old(self)@,
            },
    {
        let ghost whole = old(self)@;
        match (self, segment) {
            (Node::Group(entries), Segment::Named(key)) => {
                proof {
                    lemma_group_view(*entries);
                }
                let i = position_of(entries, key);
                if i < entries.len() {
                    let ghost before = *entries;
                    proof {
                        lemma_find_key(entries_view(before@), key@);
                        assert forall|after: Vec<Entry>|
                            after@ == before@.update(i as int, after@[i as int]) && after@[i as int].key
                                == before@[i as int].key implies #[trigger] node_view(
                            Node::Group(after),
                        ) == with_child(whole, SegmentView::Named(key@), after@[i as int].node@) by {
                            lemma_group_view(after);
                            assert(entries_view(after@) =~= entries_view(before@).update(
                                i as int,
                                (key@, after@[i as int].node@),
                            ));
                        }
                    }
                    Some(&mut entries[i].node)
                } else {
                    None
                }
            },
            (Node::List(items), Segment::Indexed(index)) => {
                proof {
                    lemma_list_view(*items);
                }
                if *index < items.len() as u64 {
                    let i = *index as usize;
                    let ghost before = *items;
                    proof {
                        assert forall|after: Vec<Node>|
                            after@ == before@.update(
                                i as int,
                                after@[i as int],
                            ) implies #[trigger] node_view(Node::List(after)) == with_child(
                            whole,
                            SegmentView::Indexed(i as nat),
                            after@[i as int]@,
                        ) by {
                            lemma_list_view(after);
                            assert(items_view(after@) =~= items_view(before@).update(
                                i as int,
                                after@[i as int]@,
                            ));
                        }
                    }
                    Some(&mut items[i])
                } else {
                    None
                }
            },
            _ => None,
        }
    }

    /// The node that `path[from..]` leads to from here, for changing it in
    /// place, if every step exists. Nothing is made on the way. What the
    /// caller leaves in that node is what this tree holds there afterwards,
    /// and nothing else changes.
    pub fn resolve_mut_from<'a>(&'a mut self, path: &BindingPath, from: usize) -> (r: Option<
        &'a mut Node,
    >)
        requires
            from <= path@.len(),
        ensures
            match r {
                Some(n) => resolve_view(old(self)@, path@.skip(from as int)) == Some(n@)
                    && final(self)@ == replaced_view(
                    old(self)@,
                    path@.skip(from as int),
                    final(n)@,
                ),
                None => resolve_view(old(self)@, path@.skip(from as int)) is None && final(self)@
                    == old(self)@,
            },
        decreases path@.len() - from,
    {
        if from == path.len() {
            return Some(self);
        }
        proof {
            assert(path@.skip(from as int).drop_first() =~= path@.skip(from + 1));
            lemma_with_same_child(self@, path@[from as int]);
        }
        match self.child_mut(path.segment(from)) {
            Some(child) => child.resolve_mut_from(path, from + 1),
            None => None,
        }
    }

    /// This node with `sub` placed at `path[from..]`, and whether that
    /// could be done; where it could not, the node comes back as it was.
    pub fn plant(self, path: &BindingPath, from: usize, sub: Node) -> (r: (Node, bool))
        requires
            from <= path@.len(),
        ensures
            match plant_view(self@, path@.skip(from as int), sub@) {
                Some(planted) => r.1 && r.0@ == planted,
                None => !r.1 && r.0@ == self@,
            },
        decreases path@.len() - from,
    {
        if from == path.len() {
            let gives_way = match &self {
                Node::Leaf(_) => true,
                Node::Group(entries) => {
                    proof {
                        lemma_group_view(*entries);
                    }
                    entries.len() == 0
                },
                Node::List(_) => false,
            };
            return match &sub {
                Node::Leaf(_) => if gives_way {
                    (sub, true)
                } else {
                    (self, false)
                },
                _ => (self, false),
            };
        }
        proof {
            assert(path@.skip(from as int).drop_first() =~= path@.skip(from + 1));
        }
        match (self, path.segment(from)) {
            (Node::Group(entries), Segment::Named(key)) => {
                let mut entries = entries;
                let ghost before = entries_view(entries@);
                proof {
                    lemma_group_view(entries);
                }
                let i = position_of(&entries, key);
                if i < entries.len() {
                    let entry = entries.remove(i);
                    let (child, done) = entry.node.plant(path, from + 1, sub);
                    entries.insert(i, Entry { key: entry.key, node: child });
                    proof {
                        lemma_group_view(entries);
                        lemma_find_key(before, key@);
                        assert(entries_view(entries@) =~= before.update(i as int, (key@, child@)));
                        if !done {
                            assert(before.update(i as int, (key@, child@)) =~= before);
                        }
                    }
                    (Node::Group(entries), done)
                } else {
                    match fresh(path, from + 1, sub) {
                        Some(made) => {
                            entries.push(Entry { key: key.clone(), node: made });
                            proof {
                                lemma_group_view(entries);
                                assert(entries_view(entries@) =~= before.push((key@, made@)));
                            }
                            (Node::Group(entries), true)
                        },
                        None => (Node::Group(entries), false),
                    }
                }
            },
            (Node::List(items), Segment::Indexed(index)) => {
                let mut items = items;
                let ghost before = items_view(items@);
                proof {
                    lemma_list_view(items);
                }
                if *index < items.len() as u64 {
                    let i = *index as usize;
                    let item = items.remove(i);
                    let (child, done) = item.plant(path, from + 1, sub);
                    items.insert(i, child);
                    proof {
                        lemma_list_view(items);
                        assert(items_view(items@) =~= before.update(i as int, child@));
                        if !done {
                            assert(before.update(i as int, child@) =~= before);
                        }
                    }
                    (Node::List(items), done)
                } else {
                    (Node::List(items), false)
                }
            },
            (node, _) => (node, false),
        }
    }

    /// This node with the repeatable section at `path[from..]` changed by
    /// `edit`, and whether that could be done; where it could not, the node
    /// comes back as it was.
    pub fn edit_list(self, path: &BindingPath, from: usize, edit: ListEdit) -> (r: (Node, bool))
        requires
            from <= path@.len(),
        ensures
            match edit_list_view(self@, path@.skip(from as int), edit@) {
                Some(edited) => r.1 && r.0@ == edited,
                None => !r.1 && r.0@ == self@,
            },
        decreases path@.len() - from,
    {
        if from == path.len() {
            return match self {
                Node::List(items) => {
                    let mut items = items;
                    let ghost before = items_view(items@);
                    proof {
                        lemma_list_view(items);
                    }
                    match edit {
                        ListEdit::Push(entry) => {
                            items.push(entry);
                            proof {
                                lemma_list_view(items);
                                assert(items_view(items@) =~= before.push(entry@));
                            }
                            (Node::List(items), true)
                        },
                        ListEdit::Remove(index) => {
                            if index < items.len() as u64 {
                                let _ = items.remove(index as usize);
                                proof {
                                    lemma_list_view(items);
                                    assert(items_view(items@) =~= before.remove(index as int));
                                }
                                (Node::List(items), true)
                            } else {
                                (Node::List(items), false)
                            }
                        },
                    }
                },
                node => (node, false),
            };
        }
        proof {
            assert(path@.skip(from as int).drop_first() =~= path@.skip(from + 1));
        }
        match (self, path.segment(from)) {
            (Node::Group(entries), Segment::Named(key)) => {
                let mut entries = entries;
                let ghost before = entries_view(entries@);
                proof {
                    lemma_group_view(entries);
                }
                let i = position_of(&entries, key);
                if i < entries.len() {
                    let entry = entries.remove(i);
                    let (child, done) = entry.node.edit_list(path, from + 1, edit);
                    entries.insert(i, Entry { key: entry.key, node: child });
                    proof {
                        lemma_group_view(entries);
                        lemma_find_key(before, key@);
                        assert(entries_view(entries@) =~= before.update(i as int, (key@, child@)));
                        if !done {
                            assert(before.update(i as int, (key@, child@)) =~= before);
                        }
                    }
                    (Node::Group(entries), done)
                } else {
                    (Node::Group(entries), false)
                }
            },
            (Node::List(items), Segment::Indexed(index)) => {
                let mut items = items;
                let ghost before = items_view(items@);
                proof {
                    lemma_list_view(items);
                }
                if *index < items.len() as u64 {
                    let i = *index as usize;
                    let item = items.remove(i);
                    let (child, done) = item.edit_list(path, from + 1, edit);
                    items.insert(i, child);
                    proof {
                        lemma_list_view(items);
                        assert(items_view(items@) =~= before.update(i as int, child@));
                        if !done {
                            assert(before.update(i as int, child@) =~= before);
                        }
                    }
                    (Node::List(items), done)
                } else {
                    (Node::List(items), false)
                }
            },
            (node, _) => (node, false),
        }
    }

    /// The node that `path` leads to from here, if every step exists.
    pub fn resolve(&self, path: &BindingPath) -> (r: Option<&Node>)
        ensures
            match r {
                Some(n) => resolve_view(self@, path@) == Some(n@),
                None => resolve_view(self@, path@) is None,
            },
    {
        let mut current: &Node = self;
        let mut k: usize = 0;
        proof {
            assert(path@.skip(0) =~= path@);
        }
        while k < path.len()
            invariant
                k <= path@.len(),
                resolve_view(self@, path@) == resolve_view(current@, path@.skip(k as int)),
            decreases path@.len() - k,
        {
            proof {
                assert(path@.skip(k as int).drop_first() =~= path@.skip(k + 1));
            }
            match current.child(path.segment(k)) {
                Some(next) => {
                    current = next;
                },
                None => {
                    return None;
                },
            }
            k += 1;
        }
        Some(current)
    }

    /// The number of entries of the repeatable section at `path`, if the
    /// path leads to one.
    pub fn section_len(&self, path: &BindingPath) -> (r: Option<usize>)
        ensures
            match r {
                Some(n) => section_entries(self@, path@) is Some && section_entries(
                    self@,
                    path@,
                )->0.len() == n,
                None => section_entries(self@, path@) is None,
            },
    {
        match self.resolve(path) {
            Some(Node::List(items)) => {
                proof {
                    lemma_list_view(*items);
                }
                Some(items.len())
            },
            _ => None,
        }
    }

    /// The committed value at `path`, if the path leads to a leaf.
    pub fn value(&self, path: &BindingPath) -> (r: Option<&FieldValue>)
        ensures
            match r {
                Some(v) => value_at(self@, path@) == Some(v@),
                None => value_at(self@, path@) is None,
            },
    {
        match self.resolve(path) {
            Some(Node::Leaf(value)) => Some(value),
            _ => None,
        }
    }
}

impl Clone for Node {
    fn clone(&self) -> (r: Node)
        ensures
            r@ == self@,
        decreases self,
    {
        match self {
            Node::Leaf(value) => Node::Leaf(value.clone()),
            Node::Group(entries) => {
                let mut copy: Vec<Entry> = Vec::new();
                let mut i: usize = 0;
                while i < entries.len()
                    invariant
                        i <= entries.len(),
                        decreases_to!(self => *entries),
                        entries_view(copy@) == entries_view(entries@).take(i as int),
                    decreases entries.len() - i,
                {
                    let entry = &entries[i];
                    proof {
                        vstd::std_specs::vec::axiom_vec_index_decreases(*entries, i as int);
                    }
                    let node = entry.node.clone();
                    copy.push(Entry { key: entry.key.clone(), node });
                    proof {
                        let all = entries_view(entries@);
                        assert(entries_view(copy@) =~= all.take(i as int).push(all[i as int]));
                        assert(all.take(i + 1) =~= all.take(i as int).push(all[i as int]));
                    }
                    i += 1;
                }
                proof {
                    let all = entries_view(entries@);
                    assert(all.take(entries.len() as int) =~= all);
                    lemma_group_view(copy);
                    lemma_group_view(*entries);
                }
                Node::Group(copy)
            },
            Node::List(items) => {
                let mut copy: Vec<Node> = Vec::new();
                let mut i: usize = 0;
                while i < items.len()
                    invariant
                        i <= items.len(),
                        decreases_to!(self => *items),
                        items_view(copy@) == items_view(items@).take(i as int),
                    decreases items.len() - i,
                {
                    proof {
                        vstd::std_specs::vec::axiom_vec_index_decreases(*items, i as int);
                    }
                    let node = items[i].clone();
                    copy.push(node);
                    proof {
                        let all = items_view(items@);
                        assert(items_view(copy@) =~= all.take(i as int).push(all[i as int]));
                        assert(all.take(i + 1) =~= all.take(i as int).push(all[i as int]));
                    }
                    i += 1;
                }
                proof {
                    let all = items_view(items@);
                    assert(all.take(items.len() as int) =~= all);
                    lemma_list_view(copy);
                    lemma_list_view(*items);
                }
                Node::List(copy)
            },
        }
    }
}

impl BindingPath {
    /// The node of `tree` that this path leads to, if every step exists.
    /// Nothing is made on the way.
    pub fn resolve<'a>(&self, tree: &'a Node) -> (r: Option<&'a Node>)
        ensures
            match r {
                Some(n) => resolve_view(tree@, self@) == Some(n@),
                None => resolve_view(tree@, self@) is None,
            },
    {
        tree.resolve(self)
    }

    /// The node of `tree` that this path leads to, for changing it in
    /// place, if every step exists. Nothing is made on the way. What the
    /// caller leaves in that node is what the tree holds there afterwards,
    /// and nothing else changes.
    pub fn resolve_mut<'a>(&self, tree: &'a mut Node) -> (r: Option<&'a mut Node>)
        ensures
            match r {
                Some(n) => resolve_view(old(tree)@, self@) == Some(n@) && final(tree)@
                    == replaced_view(old(tree)@, self@, final(n)@),
                None => resolve_view(old(tree)@, self@) is None && final(tree)@ == old(tree)@,
            },
    {
        proof {
            assert(self@.skip(0) =~= self@);
        }
        tree.resolve_mut_from(self, 0)
    }
}

/// Replacing a child changes what its own step leads to and nothing else.
pub proof fn lemma_with_child(
    node: NodeView,
    segment: SegmentView,
    child: NodeView,
    other: SegmentView,
)
    requires
        child_view(node, segment) is Some,
    ensures
        child_view(with_child(node, segment, child), segment) == Some(child),
        other != segment ==> child_view(with_child(node, segment, child), other) == child_view(
            node,
            other,
        ),
{
    match (node, segment) {
        (NodeView::Group(entries), SegmentView::Named(key)) => {
            let i = find_key(entries, key);
            lemma_find_key(entries, key);
            let after = entries.update(i, (key, child));
            assert forall|j: int| 0 <= j < i implies (#[trigger] after[j]).0 != key by {
                assert(after[j] == entries[j]);
            }
            lemma_find_key_is(after, key, i);
            if let SegmentView::Named(k2) = other {
                if k2 != key {
                    let f = find_key(entries, k2);
                    lemma_find_key(entries, k2);
                    assert forall|j: int| 0 <= j < f implies (#[trigger] after[j]).0 != k2 by {
                        if j != i {
                            assert(after[j] == entries[j]);
                        }
                    }
                    if f < entries.len() {
                        assert(f != i);
                        assert(after[f] == entries[f]);
                    }
                    lemma_find_key_is(after, k2, f);
                }
            }
        },
        (NodeView::List(items), SegmentView::Indexed(i)) => {},
        _ => {},
    }
}

/// Following two paths one after the other is following them joined.
pub proof fn lemma_resolve_joined(node: NodeView, a: PathView, b: PathView)
    ensures
        resolve_view(node, a + b) == match resolve_view(node, a) {
            Some(mid) => resolve_view(mid, b),
            None => None,
        },
    decreases a.len(),
{
    if a.len() == 0 {
        assert(a + b =~= b);
    } else {
        assert((a + b)[0] == a[0]);
        assert((a + b).drop_first() =~= a.drop_first() + b);
        match child_view(node, a[0]) {
            Some(child) => {
                lemma_resolve_joined(child, a.drop_first(), b);
            },
            None => {},
        }
    }
}

/// After the node at a path was replaced, the path leads to the new node.
pub proof fn lemma_replaced_at_path(node: NodeView, path: PathView, new: NodeView)
    requires
        resolve_view(node, path) is Some,
    ensures
        resolve_view(replaced_view(node, path, new), path) == Some(new),
    decreases path.len(),
{
    if path.len() > 0 {
        let child = child_view(node, path[0])->0;
        lemma_replaced_at_path(child, path.drop_first(), new);
        lemma_with_child(node, path[0], replaced_view(child, path.drop_first(), new), path[0]);
    }
}

/// Replacing the node at a path leaves alone whatever lies beside the
/// path: a path that parts from it leads to what it led to before.
pub proof fn lemma_replaced_elsewhere(
    node: NodeView,
    path: PathView,
    new: NodeView,
    other: PathView,
    k: int,
)
    requires
        0 <= k < path.len(),
        k < other.len(),
        other.take(k) == path.take(k),
        other[k] != path[k],
    ensures
        resolve_view(replaced_view(node, path, new), other) == resolve_view(node, other),
    decreases path.len(),
{
    match child_view(node, path[0]) {
        Some(child) => {
            let changed = replaced_view(child, path.drop_first(), new);
            if k == 0 {
                lemma_with_child(node, path[0], changed, other[0]);
            } else {
                assert(other[0] == other.take(k)[0]);
                assert(path[0] == path.take(k)[0]);
                assert(other.drop_first().take(k - 1) =~= other.take(k).drop_first());
                assert(path.drop_first().take(k - 1) =~= path.take(k).drop_first());
                lemma_with_child(node, path[0], changed, path[0]);
                lemma_replaced_elsewhere(child, path.drop_first(), new, other.drop_first(), k - 1);
            }
        },
        None => {},
    }
}

/// A freshly made tree holds the planted node at the end of the path.
pub proof fn lemma_fresh_at_path(path: PathView, sub: NodeView)
    requires
        fresh_view(path, sub) is Some,
    ensures
        resolve_view(fresh_view(path, sub)->0, path) == Some(sub),
    decreases path.len(),
{
    if path.len() > 0 {
        lemma_fresh_at_path(path.drop_first(), sub);
        let key = path[0]->Named_0;
        let child = fresh_view(path.drop_first(), sub)->0;
        lemma_find_key_is(seq![(key, child)], key, 0);
    }
}

/// Adding a child under a new key changes what that key leads to and
/// nothing else.
pub proof fn lemma_added_child(
    entries: Seq<(Seq<char>, NodeView)>,
    key: Seq<char>,
    child: NodeView,
    other: SegmentView,
)
    requires
        find_key(entries, key) == entries.len(),
    ensures
        child_view(NodeView::Group(entries.push((key, child))), SegmentView::Named(key)) == Some(
            child,
        ),
        other != SegmentView::Named(key) ==> child_view(
            NodeView::Group(entries.push((key, child))),
            other,
        ) == child_view(NodeView::Group(entries), other),
{
    let after = entries.push((key, child));
    lemma_find_key(entries, key);
    assert forall|j: int| 0 <= j < entries.len() implies (#[trigger] after[j]).0 != key by {
        assert(after[j] == entries[j]);
    }
    lemma_find_key_is(after, key, entries.len() as int);
    if let SegmentView::Named(k2) = other {
        if k2 != key {
            let f = find_key(entries, k2);
            lemma_find_key(entries, k2);
            if f < entries.len() {
                assert forall|j: int| 0 <= j < f implies (#[trigger] after[j]).0 != k2 by {
                    assert(after[j] == entries[j]);
                }
                assert(after[f] == entries[f]);
                lemma_find_key_is(after, k2, f);
            } else {
                assert forall|j: int| 0 <= j < after.len() implies (#[trigger] after[j]).0
                    != k2 by {
                    if j < entries.len() {
                        assert(after[j] == entries[j]);
                    }
                }
                lemma_find_key_is(after, k2, after.len() as int);
            }
        }
    }
}

/// After a node is placed at a path, the path leads to it.
pub proof fn lemma_plant_at_path(node: NodeView, path: PathView, sub: NodeView)
    requires
        plant_view(node, path, sub) is Some,
    ensures
        resolve_view(plant_view(node, path, sub)->0, path) == Some(sub),
    decreases path.len(),
{
    if path.len() > 0 {
        match child_view(node, path[0]) {
            Some(child) => {
                lemma_plant_at_path(child, path.drop_first(), sub);
                let planted = plant_view(child, path.drop_first(), sub)->0;
                lemma_with_child(node, path[0], planted, path[0]);
            },
            None => {
                let entries = node->Group_0;
                let key = path[0]->Named_0;
                let made = fresh_view(path.drop_first(), sub)->0;
                lemma_fresh_at_path(path.drop_first(), sub);
                lemma_find_key(entries, key);
                lemma_added_child(entries, key, made, path[0]);
            },
        }
    }
}

/// Placing a node at a path leaves alone whatever lies beside the path: a
/// path that parts from it leads to what it led to before.
pub proof fn lemma_plant_elsewhere(
    node: NodeView,
    path: PathView,
    sub: NodeView,
    other: PathView,
    k: int,
)
    requires
        plant_view(node, path, sub) is Some,
        0 <= k < path.len(),
        k < other.len(),
        other.take(k) == path.take(k),
        other[k] != path[k],
    ensures
        resolve_view(plant_view(node, path, sub)->0, other) == resolve_view(node, other),
    decreases path.len(),
{
    if k > 0 {
        assert(other[0] == other.take(k)[0]);
        assert(path[0] == path.take(k)[0]);
        assert(other.drop_first().take(k - 1) =~= other.take(k).drop_first());
        assert(path.drop_first().take(k - 1) =~= path.take(k).drop_first());
    }
    match child_view(node, path[0]) {
        Some(child) => {
            let planted = plant_view(child, path.drop_first(), sub)->0;
            if k == 0 {
                lemma_with_child(node, path[0], planted, other[0]);
            } else {
                lemma_with_child(node, path[0], planted, path[0]);
                lemma_plant_elsewhere(child, path.drop_first(), sub, other.drop_first(), k - 1);
            }
        },
        None => {
            let entries = node->Group_0;
            let key = path[0]->Named_0;
            let made = fresh_view(path.drop_first(), sub)->0;
            lemma_find_key(entries, key);
            if k == 0 {
                lemma_added_child(entries, key, made, other[0]);
            } else {
                // The other path runs through the new child, which did not
                // exist before and holds nothing beside the planted path.
                lemma_added_child(entries, key, made, path[0]);
                lemma_fresh_elsewhere(path.drop_first(), sub, other.drop_first(), k - 1);
            }
        },
    }
}

/// A freshly made tree holds nothing beside its one path.
pub proof fn lemma_fresh_elsewhere(path: PathView, sub: NodeView, other: PathView, k: int)
    requires
        fresh_view(path, sub) is Some,
        0 <= k < path.len(),
        k < other.len(),
        other.take(k) == path.take(k),
        other[k] != path[k],
    ensures
        resolve_view(fresh_view(path, sub)->0, other) is None,
    decreases path.len(),
{
    let key = path[0]->Named_0;
    let child = fresh_view(path.drop_first(), sub)->0;
    let entries = seq![(key, child)];
    if k == 0 {
        if let SegmentView::Named(k2) = other[0] {
            assert forall|j: int| 0 <= j < entries.len() implies (#[trigger] entries[j]).0
                != k2 by {}
            lemma_find_key_is(entries, k2, 1);
        }
    } else {
        assert(other[0] == other.take(k)[0]);
        assert(path[0] == path.take(k)[0]);
        assert(other.drop_first().take(k - 1) =~= other.take(k).drop_first());
        assert(path.drop_first().take(k - 1) =~= path.take(k).drop_first());
        lemma_find_key_is(entries, key, 0);
        lemma_fresh_elsewhere(path.drop_first(), sub, other.drop_first(), k - 1);
    }
}

/// Every child of a sound node is sound.
pub proof fn lemma_sound_child(node: NodeView, segment: SegmentView)
    requires
        sound_tree(node),
    ensures
        child_view(node, segment) matches Some(child) ==> sound_tree(child),
{
    match (node, segment) {
        (NodeView::Group(entries), SegmentView::Named(key)) => {
            lemma_find_key(entries, key);
        },
        _ => {},
    }
}

/// Everything under a sound node is sound.
pub proof fn lemma_sound_below(node: NodeView, path: PathView)
    requires
        sound_tree(node),
    ensures
        resolve_view(node, path) matches Some(found) ==> sound_tree(found),
    decreases path.len(),
{
    if path.len() > 0 {
        match child_view(node, path[0]) {
            Some(child) => {
                lemma_sound_child(node, path[0]);
                lemma_sound_below(child, path.drop_first());
            },
            None => {},
        }
    }
}

/// A sound tree with a sound child put in place of a child is sound.
pub proof fn lemma_with_child_sound(node: NodeView, segment: SegmentView, child: NodeView)
    requires
        sound_tree(node),
        sound_tree(child),
    ensures
        sound_tree(with_child(node, segment, child)),
{
    match (node, segment) {
        (NodeView::Group(entries), SegmentView::Named(key)) => {
            let i = find_key(entries, key);
            lemma_find_key(entries, key);
            if i < entries.len() {
                let after = entries.update(i, (key, child));
                assert forall|j: int| 0 <= j < after.len() implies sound_tree(
                    (#[trigger] after[j]).1,
                ) by {
                    if j != i {
                        assert(after[j] == entries[j]);
                    }
                }
            }
        },
        (NodeView::List(items), SegmentView::Indexed(i)) => {
            if i < items.len() {
                let after = items.update(i as int, child);
                assert forall|j: int| 0 <= j < after.len() implies sound_tree(
                    #[trigger] after[j],
                ) by {
                    if j != i {
                        assert(after[j] == items[j]);
                    }
                }
            }
        },
        _ => {},
    }
}

/// A fresh tree around a sound node is sound.
pub proof fn lemma_fresh_sound(path: PathView, sub: NodeView)
    requires
        sound_tree(sub),
        fresh_view(path, sub) is Some,
    ensures
        sound_tree(fresh_view(path, sub)->0),
    decreases path.len(),
{
    if path.len() > 0 {
        lemma_fresh_sound(path.drop_first(), sub);
        let key = path[0]->Named_0;
        let child = fresh_view(path.drop_first(), sub)->0;
        let entries = seq![(key, child)];
        assert forall|j: int| 0 <= j < entries.len() implies sound_tree(
            (#[trigger] entries[j]).1,
        ) by {}
    }
}

/// Placing a sound node in a sound tree gives a sound tree.
pub proof fn lemma_plant_sound(node: NodeView, path: PathView, sub: NodeView)
    requires
        sound_tree(node),
        sound_tree(sub),
        plant_view(node, path, sub) is Some,
    ensures
        sound_tree(plant_view(node, path, sub)->0),
    decreases path.len(),
{
    if path.len() > 0 {
        match child_view(node, path[0]) {
            Some(child) => {
                lemma_sound_child(node, path[0]);
                lemma_plant_sound(child, path.drop_first(), sub);
                lemma_with_child_sound(
                    node,
                    path[0],
                    plant_view(child, path.drop_first(), sub)->0,
                );
            },
            None => {
                let entries = node->Group_0;
                let key = path[0]->Named_0;
                let made = fresh_view(path.drop_first(), sub)->0;
                lemma_fresh_sound(path.drop_first(), sub);
                let after = entries.push((key, made));
                assert forall|j: int| 0 <= j < after.len() implies sound_tree(
                    (#[trigger] after[j]).1,
                ) by {
                    if j < entries.len() {
                        assert(after[j] == entries[j]);
                    }
                }
            },
        }
    }
}

/// Whether the entry that an edit adds, if it adds one, is sound.
pub open spec fn sound_edit(edit: ListEditView) -> bool {
    match edit {
        ListEditView::Push(entry) => sound_tree(entry),
        ListEditView::Remove(_) => true,
    }
}

/// A sound edit of a section of a sound tree gives a sound tree.
pub proof fn lemma_edit_list_sound(node: NodeView, path: PathView, edit: ListEditView)
    requires
        sound_tree(node),
        sound_edit(edit),
        edit_list_view(node, path, edit) is Some,
    ensures
        sound_tree(edit_list_view(node, path, edit)->0),
    decreases path.len(),
{
    if path.len() == 0 {
        let items = node->List_0;
        let after = edited_items(items, edit)->0;
        assert forall|j: int| 0 <= j < after.len() implies sound_tree(#[trigger] after[j]) by {
            match edit {
                ListEditView::Push(entry) => {
                    if j < items.len() {
                        assert(after[j] == items[j]);
                    }
                },
                ListEditView::Remove(index) => {
                    if j < index {
                        assert(after[j] == items[j]);
                    } else {
                        assert(after[j] == items[j + 1]);
                    }
                },
            }
        }
    } else {
        let child = child_view(node, path[0])->0;
        lemma_sound_child(node, path[0]);
        lemma_edit_list_sound(child, path.drop_first(), edit);
        lemma_with_child_sound(node, path[0], edit_list_view(child, path.drop_first(), edit)->0);
    }
}

/// Every child of a node with distinct keys has distinct keys.
pub proof fn lemma_distinct_child(node: NodeView, segment: SegmentView)
    requires
        distinct_keys(node),
    ensures
        child_view(node, segment) matches Some(child) ==> distinct_keys(child),
{
    match (node, segment) {
        (NodeView::Group(entries), SegmentView::Named(key)) => {
            lemma_find_key(entries, key);
        },
        _ => {},
    }
}

/// In a group with distinct keys, every child is the one that its key
/// leads to.
pub proof fn lemma_every_child_is_reached(entries: Seq<(Seq<char>, NodeView)>, i: int)
    requires
        distinct_keys(NodeView::Group(entries)),
        0 <= i < entries.len(),
    ensures
        child_view(NodeView::Group(entries), SegmentView::Named(entries[i].0)) == Some(
            entries[i].1,
        ),
{
    lemma_find_key_is(entries, entries[i].0, i);
}

/// A child with distinct keys put in place of a child keeps the keys
/// distinct.
pub proof fn lemma_with_child_distinct(node: NodeView, segment: SegmentView, child: NodeView)
    requires
        distinct_keys(node),
        distinct_keys(child),
    ensures
        distinct_keys(with_child(node, segment, child)),
{
    match (node, segment) {
        (NodeView::Group(entries), SegmentView::Named(key)) => {
            let i = find_key(entries, key);
            lemma_find_key(entries, key);
            if i < entries.len() {
                let after = entries.update(i, (key, child));
                assert forall|a: int, b: int| 0 <= a < b < after.len() implies (#[trigger] after[a]).0
                    != (#[trigger] after[b]).0 by {
                    assert(after[a].0 == entries[a].0);
                    assert(after[b].0 == entries[b].0);
                }
                assert forall|j: int| 0 <= j < after.len() implies distinct_keys(
                    (#[trigger] after[j]).1,
                ) by {
                    if j != i {
                        assert(after[j] == entries[j]);
                    }
                }
            }
        },
        (NodeView::List(items), SegmentView::Indexed(i)) => {
            if i < items.len() {
                let after = items.update(i as int, child);
                assert forall|j: int| 0 <= j < after.len() implies distinct_keys(
                    #[trigger] after[j],
                ) by {
                    if j != i {
                        assert(after[j] == items[j]);
                    }
                }
            }
        },
        _ => {},
    }
}

/// A fresh tree around a node with distinct keys has distinct keys.
pub proof fn lemma_fresh_distinct(path: PathView, sub: NodeView)
    requires
        distinct_keys(sub),
        fresh_view(path, sub) is Some,
    ensures
        distinct_keys(fresh_view(path, sub)->0),
    decreases path.len(),
{
    if path.len() > 0 {
        lemma_fresh_distinct(path.drop_first(), sub);
        let key = path[0]->Named_0;
        let child = fresh_view(path.drop_first(), sub)->0;
        let entries = seq![(key, child)];
        assert forall|j: int| 0 <= j < entries.len() implies distinct_keys(
            (#[trigger] entries[j]).1,
        ) by {}
    }
}

/// Placing a node with distinct keys in a tree with distinct keys keeps the
/// keys distinct.
pub proof fn lemma_plant_distinct(node: NodeView, path: PathView, sub: NodeView)
    requires
        distinct_keys(node),
        distinct_keys(sub),
        plant_view(node, path, sub) is Some,
    ensures
        distinct_keys(plant_view(node, path, sub)->0),
    decreases path.len(),
{
    if path.len() > 0 {
        match child_view(node, path[0]) {
            Some(child) => {
                lemma_distinct_child(node, path[0]);
                lemma_plant_distinct(child, path.drop_first(), sub);
                lemma_with_child_distinct(
                    node,
                    path[0],
                    plant_view(child, path.drop_first(), sub)->0,
                );
            },
            None => {
                let entries = node->Group_0;
                let key = path[0]->Named_0;
                let made = fresh_view(path.drop_first(), sub)->0;
                lemma_fresh_distinct(path.drop_first(), sub);
                lemma_find_key(entries, key);
                let after = entries.push((key, made));
                assert forall|a: int, b: int| 0 <= a < b < after.len() implies (#[trigger] after[a]).0
                    != (#[trigger] after[b]).0 by {
                    assert(after[a] == entries[a]);
                    if b < entries.len() {
                        assert(after[b] == entries[b]);
                    }
                }
                assert forall|j: int| 0 <= j < after.len() implies distinct_keys(
                    (#[trigger] after[j]).1,
                ) by {
                    if j < entries.len() {
                        assert(after[j] == entries[j]);
                    }
                }
            },
        }
    }
}

/// Whether the entry that an edit adds, if it adds one, has distinct keys.
pub open spec fn distinct_edit(edit: ListEditView) -> bool {
    match edit {
        ListEditView::Push(entry) => distinct_keys(entry),
        ListEditView::Remove(_) => true,
    }
}

/// An edit of a section of a tree with distinct keys keeps the keys
/// distinct.
pub proof fn lemma_edit_list_distinct(node: NodeView, path: PathView, edit: ListEditView)
    requires
        distinct_keys(node),
        distinct_edit(edit),
        edit_list_view(node, path, edit) is Some,
    ensures
        distinct_keys(edit_list_view(node, path, edit)->0),
    decreases path.len(),
{
    if path.len() == 0 {
        let items = node->List_0;
        let after = edited_items(items, edit)->0;
        assert forall|j: int| 0 <= j < after.len() implies distinct_keys(#[trigger] after[j]) by {
            match edit {
                ListEditView::Push(entry) => {
                    if j < items.len() {
                        assert(after[j] == items[j]);
                    }
                },
                ListEditView::Remove(index) => {
                    if j < index {
                        assert(after[j] == items[j]);
                    } else {
                        assert(after[j] == items[j + 1]);
                    }
                },
            }
        }
    } else {
        let child = child_view(node, path[0])->0;
        lemma_distinct_child(node, path[0]);
        lemma_edit_list_distinct(child, path.drop_first(), edit);
        lemma_with_child_distinct(
            node,
            path[0],
            edit_list_view(child, path.drop_first(), edit)->0,
        );
    }
}

/// An edit of a repeatable section changes the entries of that section as
/// the edit says.
pub proof fn lemma_edit_list_at_section(node: NodeView, path: PathView, edit: ListEditView)
    requires
        edit_list_view(node, path, edit) is Some,
    ensures
        resolve_view(node, path) matches Some(NodeView::List(items)) && edited_items(items, edit)
            matches Some(after) && resolve_view(edit_list_view(node, path, edit)->0, path) == Some(
            NodeView::List(after),
        ),
    decreases path.len(),
{
    if path.len() > 0 {
        let child = child_view(node, path[0])->0;
        lemma_edit_list_at_section(child, path.drop_first(), edit);
        let edited = edit_list_view(child, path.drop_first(), edit)->0;
        lemma_with_child(node, path[0], edited, path[0]);
    }
}

/// A repeatable section can be edited exactly when the path leads to one
/// and the edit names no position that the section does not have.
pub proof fn lemma_edit_list_possible(node: NodeView, path: PathView, edit: ListEditView)
    ensures
        edit_list_view(node, path, edit) is Some <==> (section_entries(node, path) matches Some(
            items,
        ) && edited_items(items, edit) is Some),
    decreases path.len(),
{
    if path.len() > 0 {
        match child_view(node, path[0]) {
            Some(child) => {
                lemma_edit_list_possible(child, path.drop_first(), edit);
            },
            None => {},
        }
    }
}

/// An edit of a repeatable section leaves alone whatever lies beside the
/// section: a path that parts from the section's path leads to what it led
/// to before.
pub proof fn lemma_edit_list_elsewhere(
    node: NodeView,
    path: PathView,
    edit: ListEditView,
    other: PathView,
    k: int,
)
    requires
        edit_list_view(node, path, edit) is Some,
        0 <= k < path.len(),
        k < other.len(),
        other.take(k) == path.take(k),
        other[k] != path[k],
    ensures
        resolve_view(edit_list_view(node, path, edit)->0, other) == resolve_view(node, other),
    decreases path.len(),
{
    let child = child_view(node, path[0])->0;
    let edited = edit_list_view(child, path.drop_first(), edit)->0;
    if k == 0 {
        lemma_with_child(node, path[0], edited, other[0]);
    } else {
        assert(other[0] == other.take(k)[0]);
        assert(path[0] == path.take(k)[0]);
        lemma_with_child(node, path[0], edited, path[0]);
        assert(other.drop_first().take(k - 1) =~= other.take(k).drop_first());
        assert(path.drop_first().take(k - 1) =~= path.take(k).drop_first());
        lemma_edit_list_elsewhere(child, path.drop_first(), edit, other.drop_first(), k - 1);
    }
}

/// After the entry at `index` is taken out of a repeatable section, the
/// remaining entries are found at the positions from 0 without a gap and in
/// their old order: a path into position `j` leads to what it led to before
/// where `j` is below `index`, and to what the path into `j + 1` led to
/// before from `index` on.
pub proof fn lemma_remove_closes_the_gap(
    tree: NodeView,
    section: PathView,
    index: nat,
    j: nat,
    rest: PathView,
)
    requires
        edit_list_view(tree, section, ListEditView::Remove(index)) is Some,
    ensures
        ({
            let after = edit_list_view(tree, section, ListEditView::Remove(index))->0;
            let old_entries = resolve_view(tree, section)->0->List_0;
            &&& resolve_view(tree, section) == Some(NodeView::List(old_entries))
            &&& index < old_entries.len()
            &&& resolve_view(after, section) == Some(NodeView::List(old_entries.remove(index as int)))
            &&& j < index ==> resolve_view(after, section.push(SegmentView::Indexed(j)) + rest)
                == resolve_view(tree, section.push(SegmentView::Indexed(j)) + rest)
            &&& j >= index ==> resolve_view(after, section.push(SegmentView::Indexed(j)) + rest)
                == resolve_view(tree, section.push(SegmentView::Indexed(j + 1)) + rest)
        }),
{
    let edit = ListEditView::Remove(index);
    let after = edit_list_view(tree, section, edit)->0;
    lemma_edit_list_at_section(tree, section, edit);
    let old_entries = resolve_view(tree, section)->0->List_0;
    let new_entries = old_entries.remove(index as int);
    let from = if j < index {
        j
    } else {
        j + 1
    };
    let into_new = seq![SegmentView::Indexed(j)] + rest;
    let into_old = seq![SegmentView::Indexed(from as nat)] + rest;
    assert(section.push(SegmentView::Indexed(j)) + rest =~= section + into_new);
    assert(section.push(SegmentView::Indexed(from as nat)) + rest =~= section + into_old);
    lemma_resolve_joined(after, section, into_new);
    lemma_resolve_joined(tree, section, into_old);
    assert(into_new.drop_first() =~= rest);
    assert(into_old.drop_first() =~= rest);
    if j < new_entries.len() {
        assert(new_entries[j as int] == old_entries[from as int]);
    }
}

/// After an entry is added to a repeatable section, it is the last entry
/// and every entry that was there is where it was.
pub proof fn lemma_push_adds_last(tree: NodeView, section: PathView, entry: NodeView)
    requires
        edit_list_view(tree, section, ListEditView::Push(entry)) is Some,
    ensures
        ({
            let after = edit_list_view(tree, section, ListEditView::Push(entry))->0;
            let old_entries = resolve_view(tree, section)->0->List_0;
            &&& resolve_view(tree, section) == Some(NodeView::List(old_entries))
            &&& resolve_view(after, section) == Some(NodeView::List(old_entries.push(entry)))
            &&& resolve_view(after, section.push(SegmentView::Indexed(old_entries.len())))
                == Some(entry)
        }),
{
    let edit = ListEditView::Push(entry);
    let after = edit_list_view(tree, section, edit)->0;
    lemma_edit_list_at_section(tree, section, edit);
    let old_entries = resolve_view(tree, section)->0->List_0;
    let step = seq![SegmentView::Indexed(old_entries.len())];
    assert(section.push(SegmentView::Indexed(old_entries.len())) =~= section + step);
    lemma_resolve_joined(after, section, step);
    assert(step.drop_first() =~= Seq::<SegmentView>::empty());
    assert(resolve_view(entry, step.drop_first()) == Some(entry));
}

} // verus!
