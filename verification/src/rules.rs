//! Derived validators between fields, and the dependencies they create.
//!
//! A rule makes the error of its target depend on the value of its other
//! field. The rules of a form must not run in a circle.
use vstd::prelude::*;
use crate::path::{BindingPath, PathView};

verus! {

/// A derived validator: the value at `target` has to be the value at
/// `other`, or both have to be absent.
#[derive(Debug)]
pub struct EqualityRule {
    pub target: BindingPath,
    pub other: BindingPath,
}

/// The mathematical value of an [`EqualityRule`].
pub struct RuleView {
    pub target: PathView,
    pub other: PathView,
}

impl View for EqualityRule {
    type V = RuleView;

    open spec fn view(&self) -> RuleView {
        RuleView { target: self.target@, other: self.other@ }
    }
}

/// Whether `to` depends on `from` through at most `steps` rules, one after
/// the other: `from` itself, or the target of a rule on `from`, and so on.
pub open spec fn reaches_within(
    rules: Seq<RuleView>,
    from: PathView,
    to: PathView,
    steps: nat,
) -> bool
    decreases steps,
{
    from == to || (steps > 0 && exists|i: int|
        0 <= i < rules.len() && (#[trigger] rules[i]).other == from && reaches_within(
            rules,
            rules[i].target,
            to,
            (steps - 1) as nat,
        ))
}

/// Whether `to` depends on `from` through any number of rules.
pub open spec fn reaches(rules: Seq<RuleView>, from: PathView, to: PathView) -> bool {
    exists|steps: nat| reaches_within(rules, from, to, steps)
}

/// Whether a rule that makes `target` depend on `other` would close a
/// circle: `other` already depends on `target`, or is `target`.
pub open spec fn closes_circle(rules: Seq<RuleView>, target: PathView, other: PathView) -> bool {
    reaches(rules, target, other)
}

/// A chain of dependencies can be made longer by one rule at its end.
pub proof fn lemma_reaches_one_more(
    rules: Seq<RuleView>,
    from: PathView,
    mid: PathView,
    steps: nat,
    i: int,
)
    requires
        reaches_within(rules, from, mid, steps),
        0 <= i < rules.len(),
        rules[i].other == mid,
    ensures
        reaches_within(rules, from, rules[i].target, steps + 1),
    decreases steps,
{
    if from == mid {
        assert(reaches_within(rules, rules[i].target, rules[i].target, steps));
    } else {
        let k = choose|k: int|
            0 <= k < rules.len() && (#[trigger] rules[k]).other == from && reaches_within(
                rules,
                rules[k].target,
                mid,
                (steps - 1) as nat,
            );
        lemma_reaches_one_more(rules, rules[k].target, mid, (steps - 1) as nat, i);
    }
}

/// The number of `true` in `s`.
pub open spec fn count_true(s: Seq<bool>) -> nat
    decreases s.len(),
{
    if s.len() == 0 {
        0
    } else {
        count_true(s.drop_last()) + if s.last() {
            1nat
        } else {
            0nat
        }
    }
}

/// There are at most as many `true` as there are elements.
pub proof fn lemma_count_true_bound(s: Seq<bool>)
    ensures
        count_true(s) <= s.len(),
    decreases s.len(),
{
    if s.len() > 0 {
        lemma_count_true_bound(s.drop_last());
    }
}

/// Turning one `false` into `true` adds one to the count.
pub proof fn lemma_count_true_set(s: Seq<bool>, i: int)
    requires
        0 <= i < s.len(),
        !s[i],
    ensures
        count_true(s.update(i, true)) == count_true(s) + 1,
    decreases s.len(),
{
    let t = s.update(i, true);
    if i == s.len() - 1 {
        assert(t.drop_last() =~= s.drop_last());
    } else {
        lemma_count_true_set(s.drop_last(), i);
        assert(t.drop_last() =~= s.drop_last().update(i, true));
    }
}

/// Whether `path` is `start` or the target of a marked rule.
pub open spec fn in_marked(
    rules: Seq<RuleView>,
    marks: Seq<bool>,
    start: PathView,
    path: PathView,
) -> bool {
    path == start || exists|i: int|
        0 <= i < rules.len() && i < marks.len() && #[trigger] marks[i] && rules[i].target == path
}

/// Whether every marked rule's target depends on `start`.
pub open spec fn marks_sound(rules: Seq<RuleView>, marks: Seq<bool>, start: PathView) -> bool {
    forall|i: int|
        0 <= i < rules.len() && i < marks.len() && #[trigger] marks[i] ==> reaches(
            rules,
            start,
            rules[i].target,
        )
}

/// Whether every rule on a marked path is marked.
pub open spec fn marks_closed(rules: Seq<RuleView>, marks: Seq<bool>, start: PathView) -> bool {
    forall|i: int|
        0 <= i < rules.len() && i < marks.len() && in_marked(
            rules,
            marks,
            start,
            (#[trigger] rules[i]).other,
        ) ==> marks[i]
}

/// Where the marks are closed, everything that depends on `start` is
/// marked.
pub proof fn lemma_closed_marks_hold_all(
    rules: Seq<RuleView>,
    marks: Seq<bool>,
    start: PathView,
    from: PathView,
    to: PathView,
    steps: nat,
)
    requires
        marks.len() == rules.len(),
        marks_closed(rules, marks, start),
        in_marked(rules, marks, start, from),
        reaches_within(rules, from, to, steps),
    ensures
        in_marked(rules, marks, start, to),
    decreases steps,
{
    if from != to {
        let k = choose|k: int|
            0 <= k < rules.len() && (#[trigger] rules[k]).other == from && reaches_within(
                rules,
                rules[k].target,
                to,
                (steps - 1) as nat,
            );
        assert(marks[k]);
        lemma_closed_marks_hold_all(rules, marks, start, rules[k].target, to, (steps - 1) as nat);
    }
}

/// Whether `path` is `start` or the target of a marked rule.
fn is_marked(
    rules: &Vec<EqualityRule>,
    marks: &Vec<bool>,
    start: &BindingPath,
    path: &BindingPath,
) -> (r: bool)
    requires
        marks.len() == rules.len(),
    ensures
        r == in_marked(rules@.map_values(|r: EqualityRule| r@), marks@, start@, path@),
{
    if path.same(start) {
        return true;
    }
    let ghost views = rules@.map_values(|r: EqualityRule| r@);
    let mut i: usize = 0;
    while i < rules.len()
        invariant
            i <= rules.len(),
            marks.len() == rules.len(),
            views == rules@.map_values(|r: EqualityRule| r@),
            path@ != start@,
            forall|j: int| 0 <= j < i ==> !(#[trigger] marks@[j] && views[j].target == path@),
        decreases rules.len() - i,
    {
        if marks[i] && rules[i].target.same(path) {
            assert(marks@[i as int] && views[i as int].target == path@);
            return true;
        }
        i += 1;
    }
    false
}

/// Whether a rule that makes `target` depend on `other` would close a
/// circle among `rules`.
pub fn would_close_circle(
    rules: &Vec<EqualityRule>,
    target: &BindingPath,
    other: &BindingPath,
) -> (r: bool)
    ensures
        r == closes_circle(rules@.map_values(|r: EqualityRule| r@), target@, other@),
{
    let ghost views = rules@.map_values(|r: EqualityRule| r@);
    let n = rules.len();
    let mut marks: Vec<bool> = Vec::new();
    while marks.len() < n
        invariant
            marks.len() <= n,
            forall|j: int| 0 <= j < marks.len() ==> !marks@[j],
        decreases n - marks.len(),
    {
        marks.push(false);
    }
    proof {
        assert(reaches_within(views, target@, target@, 0));
    }
    loop
        invariant
            n == rules.len(),
            marks.len() == n,
            views == rules@.map_values(|r: EqualityRule| r@),
            marks_sound(views, marks@, target@),
        ensures
            marks.len() == n,
            marks_sound(views, marks@, target@),
            marks_closed(views, marks@, target@),
        decreases n - count_true(marks@),
    {
        let ghost at_start = marks@;
        proof {
            lemma_count_true_bound(marks@);
        }
        let mut changed = false;
        let mut i: usize = 0;
        while i < n
            invariant
                i <= n,
                n == rules.len(),
                marks.len() == n,
                views == rules@.map_values(|r: EqualityRule| r@),
                marks_sound(views, marks@, target@),
                !changed ==> marks@ == at_start,
                changed ==> count_true(marks@) > count_true(at_start),
                !changed ==> forall|j: int|
                    0 <= j < i && in_marked(views, marks@, target@, (#[trigger] views[j]).other)
                        ==> marks@[j],
            decreases n - i,
        {
            if !marks[i] && is_marked(rules, &marks, target, &rules[i].other) {
                let ghost before = marks@;
                proof {
                    // The other field of rule `i` depends on the start, and
                    // so does its target, one rule further.
                    let mid = views[i as int].other;
                    if mid == target@ {
                        lemma_reaches_one_more(views, target@, mid, 0, i as int);
                    } else {
                        let k = choose|k: int|
                            0 <= k < views.len() && k < before.len() && #[trigger] before[k]
                                && views[k].target == mid;
                        assert(reaches(views, target@, views[k].target));
                        let steps = choose|steps: nat|
                            reaches_within(views, target@, mid, steps);
                        lemma_reaches_one_more(views, target@, mid, steps, i as int);
                    }
                    lemma_count_true_set(before, i as int);
                }
                marks.set(i, true);
                changed = true;
                proof {
                    assert(marks@ =~= before.update(i as int, true));
                    assert forall|j: int|
                        0 <= j < views.len() && j < marks@.len() && #[trigger] marks@[j] implies reaches(
                        views,
                        target@,
                        views[j].target,
                    ) by {
                        if j != i {
                            assert(before[j]);
                        }
                    }
                }
            }
            i += 1;
        }
        if !changed {
            break;
        }
        proof {
            lemma_count_true_bound(marks@);
        }
    }
    let r = is_marked(rules, &marks, target, other);
    proof {
        if r {
            if other@ != target@ {
                let k = choose|k: int|
                    0 <= k < views.len() && k < marks@.len() && #[trigger] marks@[k]
                        && views[k].target == other@;
                assert(reaches(views, target@, views[k].target));
            } else {
                assert(reaches_within(views, target@, other@, 0));
            }
        } else {
            if reaches(views, target@, other@) {
                let steps = choose|steps: nat| reaches_within(views, target@, other@, steps);
                lemma_closed_marks_hold_all(views, marks@, target@, target@, other@, steps);
            }
        }
    }
    r
}

} // verus!
