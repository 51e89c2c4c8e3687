//! Pages and the navigator that moves between them.
//!
//! Moving back is always allowed. Moving to a later page is allowed only
//! while the current page is valid: no error stands under its paths, and
//! every required field under them has a value.
use vstd::prelude::*;
use crate::path::{BindingPath, PathView};
use crate::store::{
    blocking_errors, valid_under, FormStateStore, StoreView, ValidationError, ValidationErrorView,
};

verus! {

/// One page of a form.
#[derive(Debug)]
pub struct PageDescriptor {
    /// The identifier of the page.
    pub id: String,
    /// The key under which the page's label is looked up.
    pub label: String,
    /// The paths whose fields gate the page.
    pub paths: Vec<BindingPath>,
}

/// The mathematical value of a [`PageDescriptor`].
pub struct PageView {
    pub id: Seq<char>,
    pub label: Seq<char>,
    pub paths: Seq<PathView>,
}

impl View for PageDescriptor {
    type V = PageView;

    open spec fn view(&self) -> PageView {
        PageView {
            id: self.id@,
            label: self.label@,
            paths: self.paths@.map_values(|p: BindingPath| p@),
        }
    }
}

/// Why the navigator refuses to move. A refused move changes nothing.
#[derive(Debug)]
pub enum NavigationError {
    /// There is no page at the target position.
    UnknownPage,
    /// The current page is not valid, so no later page may be shown. The
    /// errors that stand on the current page come with it.
    ValidationRequiredBeforeAdvance(Vec<ValidationError>),
}

/// The mathematical value of a [`NavigationError`].
pub enum NavigationErrorView {
    UnknownPage,
    ValidationRequiredBeforeAdvance(Seq<ValidationErrorView>),
}

impl View for NavigationError {
    type V = NavigationErrorView;

    open spec fn view(&self) -> NavigationErrorView {
        match self {
            NavigationError::UnknownPage => NavigationErrorView::UnknownPage,
            NavigationError::ValidationRequiredBeforeAdvance(errors) => {
                NavigationErrorView::ValidationRequiredBeforeAdvance(
                    errors@.map_values(|e: ValidationError| e@),
                )
            },
        }
    }
}

/// Whether a move to a later page needs a valid current page.
#[derive(Debug, Clone, Copy, PartialEq, Eq, Structural)]
pub enum AdvancePolicy {
    /// A later page is shown only while the current page is valid.
    Gated,
    /// Any page is shown at any time.
    Free,
}

/// The mathematical value of a [`PageNavigator`].
pub struct NavigatorView {
    pub pages: Seq<PageView>,
    pub current: nat,
    pub policy: AdvancePolicy,
}

/// Whether the page at position `i` is valid in the store `s`.
pub open spec fn page_valid(pages: Seq<PageView>, i: int, s: StoreView) -> bool {
    valid_under(s, pages[i].paths)
}

/// The position that the navigator shows after it was asked for `target`,
/// or the reason why it stays where it is.
pub open spec fn goto_view(n: NavigatorView, s: StoreView, target: nat) -> Result<
    nat,
    NavigationErrorView,
> {
    if target >= n.pages.len() {
        Err(NavigationErrorView::UnknownPage)
    } else if target <= n.current || n.policy == AdvancePolicy::Free {
        Ok(target)
    } else if page_valid(n.pages, n.current as int, s) {
        Ok(target)
    } else {
        Err(
            NavigationErrorView::ValidationRequiredBeforeAdvance(
                blocking_errors(s, n.pages[n.current as int].paths),
            ),
        )
    }
}

/// The pages of a form in order, and the position of the page that is
/// shown. The position is that of a page, or 0 where there is no page.
#[derive(Debug)]
pub struct PageNavigator {
    pages: Vec<PageDescriptor>,
    current: usize,
    policy: AdvancePolicy,
}

impl View for PageNavigator {
    type V = NavigatorView;

    closed spec fn view(&self) -> NavigatorView {
        NavigatorView {
            pages: self.pages@.map_values(|p: PageDescriptor| p@),
            current: self.current as nat,
            policy: self.policy,
        }
    }
}

impl PageNavigator {
    #[verifier::type_invariant]
    spec fn in_range(self) -> bool {
        self.current == 0 || self.current < self.pages.len()
    }

    /// A navigator over `pages` that shows the first of them and lets
    /// nobody past a page that is not valid.
    pub fn new(pages: Vec<PageDescriptor>) -> (r: PageNavigator)
        ensures
            r@.pages == pages@.map_values(|p: PageDescriptor| p@),
            r@.current == 0,
            r@.policy == AdvancePolicy::Gated,
    {
        PageNavigator { pages, current: 0, policy: AdvancePolicy::Gated }
    }

    /// A navigator over `pages` that shows the first of them and follows
    /// `policy` for moves to later pages.
    pub fn with_policy(pages: Vec<PageDescriptor>, policy: AdvancePolicy) -> (r: PageNavigator)
        ensures
            r@.pages == pages@.map_values(|p: PageDescriptor| p@),
            r@.current == 0,
            r@.policy == policy,
    {
        PageNavigator { pages, current: 0, policy }
    }

    /// The policy for moves to later pages.
    pub fn policy(&self) -> (p: AdvancePolicy)
        ensures
            p == self@.policy,
    {
        self.policy
    }

    /// The number of pages.
    pub fn len(&self) -> (n: usize)
        ensures
            n == self@.pages.len(),
    {
        self.pages.len()
    }

    /// The position of the page that is shown.
    pub fn current_index(&self) -> (i: usize)
        ensures
            i == self@.current,
            i == 0 || i < self@.pages.len(),
    {
        proof {
            use_type_invariant(self);
        }
        self.current
    }

    /// The page at position `i`.
    pub fn page(&self, i: usize) -> (p: &PageDescriptor)
        requires
            i < self@.pages.len(),
        ensures
            p@ == self@.pages[i as int],
    {
        &self.pages[i]
    }

    /// Whether the page at position `i` is valid in `store`.
    pub fn is_page_valid(&self, i: usize, store: &FormStateStore) -> (r: bool)
        requires
            i < self@.pages.len(),
        ensures
            r == page_valid(self@.pages, i as int, store@),
    {
        store.is_valid_under(&self.pages[i].paths)
    }

    /// Asks for the page at position `target`.
    ///
    /// A page at or before the current one is shown at once. A later page
    /// is shown only if the current page is valid in `store`; if it is not,
    /// the navigator stays where it is and hands out the errors that stand
    /// on the current page.
    pub fn goto(&mut self, target: usize, store: &FormStateStore) -> (r: Result<
        (),
        NavigationError,
    >)
        ensures
            final(self)@.pages == old(self)@.pages,
            final(self)@.policy == old(self)@.policy,
            match r {
                Ok(()) => goto_view(old(self)@, store@, target as nat) == Ok::<
                    nat,
                    NavigationErrorView,
                >(final(self)@.current),
                Err(e) => goto_view(old(self)@, store@, target as nat) == Err::<
                    nat,
                    NavigationErrorView,
                >(e@) && final(self)@.current == old(self)@.current,
            },
    {
        proof {
            use_type_invariant(&*self);
        }
        if target >= self.pages.len() {
            return Err(NavigationError::UnknownPage);
        }
        if target <= self.current || self.policy == AdvancePolicy::Free {
            self.current = target;
            return Ok(());
        }
        if store.is_valid_under(&self.pages[self.current].paths) {
            self.current = target;
            Ok(())
        } else {
            Err(
                NavigationError::ValidationRequiredBeforeAdvance(
                    store.errors_under_any(&self.pages[self.current].paths),
                ),
            )
        }
    }

    /// Asks for the page after the current one.
    pub fn next(&mut self, store: &FormStateStore) -> (r: Result<(), NavigationError>)
        ensures
            final(self)@.pages == old(self)@.pages,
            final(self)@.policy == old(self)@.policy,
            match r {
                Ok(()) => goto_view(old(self)@, store@, old(self)@.current + 1) == Ok::<
                    nat,
                    NavigationErrorView,
                >(final(self)@.current),
                Err(e) => goto_view(old(self)@, store@, old(self)@.current + 1) == Err::<
                    nat,
                    NavigationErrorView,
                >(e@) && final(self)@.current == old(self)@.current,
            },
    {
        proof {
            use_type_invariant(&*self);
        }
        if self.current >= self.pages.len() {
            return Err(NavigationError::UnknownPage);
        }
        let target = self.current + 1;
        self.goto(target, store)
    }

    /// Shows the page before the current one, if there is one.
    pub fn prev(&mut self)
        ensures
            final(self)@.pages == old(self)@.pages,
            final(self)@.policy == old(self)@.policy,
            final(self)@.current == if old(self)@.current > 0 {
                (old(self)@.current - 1) as nat
            } else {
                0
            },
    {
        proof {
            use_type_invariant(&*self);
        }
        if self.current > 0 {
            self.current = self.current - 1;
        }
    }
}

/// Under the gated policy, a move to a later page is refused while the
/// current page is not valid, and the same move succeeds once the current
/// page is valid.
pub proof fn lemma_forward_needs_valid_page(
    n: NavigatorView,
    before: StoreView,
    after: StoreView,
    target: nat,
)
    requires
        n.policy == AdvancePolicy::Gated,
        n.current < target < n.pages.len(),
        !page_valid(n.pages, n.current as int, before),
        page_valid(n.pages, n.current as int, after),
    ensures
        goto_view(n, before, target) is Err,
        goto_view(n, after, target) == Ok::<nat, NavigationErrorView>(target),
{
}

/// A move to the current page or to an earlier one always succeeds.
pub proof fn lemma_backward_is_free(n: NavigatorView, s: StoreView, target: nat)
    requires
        target <= n.current,
        target < n.pages.len(),
    ensures
        goto_view(n, s, target) == Ok::<nat, NavigationErrorView>(target),
{
}

} // verus!
