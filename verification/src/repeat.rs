//! Repeatable sections: ordered entries that are addressed by position.
//!
//! The manager of a section adds an entry at the end and takes one out at a
//! position, within the bounds that the section is configured with.
use vstd::prelude::*;
use crate::path::{BindingPath, PathView, SegmentView};
use crate::store::{
    append_view, create_section_view, remove_view, FieldTemplate, FormStateStore, StoreError,
    StoreView, TemplateView,
};
use crate::tree::{
    lemma_push_adds_last, lemma_remove_closes_the_gap, resolve_view, section_entries,
};

verus! {

/// Why a section refuses a change. A refused change changes nothing.
#[derive(Debug, Clone, Copy, PartialEq, Eq, Structural)]
pub enum SectionError {
    /// The section already has as many entries as it may have.
    TooManyEntries,
    /// The section has no more entries than it must have.
    TooFewEntries,
    /// The store refused, for the reason given.
    Store(StoreError),
}

/// The mathematical value of a [`RepeatableSectionManager`].
pub struct SectionView {
    pub path: PathView,
    pub min: nat,
    pub max: nat,
    pub template: Seq<TemplateView>,
}

/// The store after the manager added an entry, or the reason why it did
/// not.
pub open spec fn section_append(m: SectionView, s: StoreView) -> Result<StoreView, SectionError> {
    match section_entries(s.tree, m.path) {
        None => Err(SectionError::Store(StoreError::NotASection)),
        Some(items) => if items.len() >= m.max {
            Err(SectionError::TooManyEntries)
        } else {
            match append_view(s, m.path, m.template) {
                Ok(after) => Ok(after),
                Err(e) => Err(SectionError::Store(e)),
            }
        },
    }
}

/// The store after the manager took out the entry at `index`, or the reason
/// why it did not.
pub open spec fn section_remove(m: SectionView, s: StoreView, index: nat) -> Result<
    StoreView,
    SectionError,
> {
    match section_entries(s.tree, m.path) {
        None => Err(SectionError::Store(StoreError::NotASection)),
        Some(items) => if index >= items.len() {
            Err(SectionError::Store(StoreError::NoSuchEntry))
        } else if items.len() <= m.min {
            Err(SectionError::TooFewEntries)
        } else {
            match remove_view(s, m.path, index) {
                Ok(after) => Ok(after),
                Err(e) => Err(SectionError::Store(e)),
            }
        },
    }
}

/// The configuration of one repeatable section: where it is, how many
/// entries it may have, and the fields of each entry.
#[derive(Debug)]
pub struct RepeatableSectionManager {
    path: BindingPath,
    min: usize,
    max: usize,
    template: Vec<FieldTemplate>,
}

impl View for RepeatableSectionManager {
    type V = SectionView;

    closed spec fn view(&self) -> SectionView {
        SectionView {
            path: self.path@,
            min: self.min as nat,
            max: self.max as nat,
            template: self.template@.map_values(|t: FieldTemplate| t@),
        }
    }
}

impl RepeatableSectionManager {
    /// The manager of the section at `path`, with at least `min` and at
    /// most `max` entries, each with the fields of `template`.
    pub fn new(path: BindingPath, min: usize, max: usize, template: Vec<FieldTemplate>) -> (r:
        RepeatableSectionManager)
        ensures
            r@ == (SectionView {
                path: path@,
                min: min as nat,
                max: max as nat,
                template: template@.map_values(|t: FieldTemplate| t@),
            }),
    {
        RepeatableSectionManager { path, min, max, template }
    }

    /// The path of the section.
    pub fn path(&self) -> (p: &BindingPath)
        ensures
            p@ == self@.path,
    {
        &self.path
    }

    /// The fields of each entry.
    pub fn template(&self) -> (t: &Vec<FieldTemplate>)
        ensures
            t@.map_values(|f: FieldTemplate| f@) == self@.template,
    {
        &self.template
    }

    /// Makes the section in the tree of `store`, without entries.
    pub fn attach(&self, store: &mut FormStateStore) -> (r: Result<(), StoreError>)
        ensures
            match r {
                Ok(()) => create_section_view(old(store)@, self@.path) == Ok::<
                    StoreView,
                    StoreError,
                >(final(store)@),
                Err(e) => create_section_view(old(store)@, self@.path) == Err::<
                    StoreView,
                    StoreError,
                >(e) && final(store)@ == old(store)@,
            },
    {
        store.create_section(&self.path)
    }

    /// The number of entries of the section in `store`, if it is there.
    pub fn len(&self, store: &FormStateStore) -> (r: Option<usize>)
        ensures
            match r {
                Some(n) => section_entries(store@.tree, self@.path) is Some && section_entries(
                    store@.tree,
                    self@.path,
                )->0.len() == n,
                None => section_entries(store@.tree, self@.path) is None,
            },
    {
        store.section_len(&self.path)
    }

    /// Adds a fresh entry at the end of the section and returns its
    /// position. The entry's fields start with the raw input of their
    /// kinds, so that a field that needs an input is in error at once.
    ///
    /// It is refused where the section is full.
    pub fn append(&self, store: &mut FormStateStore) -> (r: Result<u64, SectionError>)
        ensures
            match r {
                Ok(index) => section_append(self@, old(store)@) == Ok::<StoreView, SectionError>(
                    final(store)@,
                ) && section_entries(old(store)@.tree, self@.path) is Some && section_entries(
                    old(store)@.tree,
                    self@.path,
                )->0.len() == index,
                Err(e) => section_append(self@, old(store)@) == Err::<StoreView, SectionError>(e)
                    && final(store)@ == old(store)@,
            },
    {
        match store.section_len(&self.path) {
            None => Err(SectionError::Store(StoreError::NotASection)),
            Some(n) => {
                if n >= self.max {
                    return Err(SectionError::TooManyEntries);
                }
                match store.append_entry(&self.path, &self.template) {
                    Ok(index) => Ok(index),
                    Err(e) => Err(SectionError::Store(e)),
                }
            },
        }
    }

    /// Takes the entry at `index` out of the section. The entries behind
    /// it move down by one position, and so do the paths of their fields.
    ///
    /// It is refused where the section has no such entry or would be left
    /// with fewer entries than it must have.
    pub fn remove(&self, store: &mut FormStateStore, index: u64) -> (r: Result<(), SectionError>)
        ensures
            match r {
                Ok(()) => section_remove(self@, old(store)@, index as nat) == Ok::<
                    StoreView,
                    SectionError,
                >(final(store)@),
                Err(e) => section_remove(self@, old(store)@, index as nat) == Err::<
                    StoreView,
                    SectionError,
                >(e) && final(store)@ == old(store)@,
            },
    {
        match store.section_len(&self.path) {
            None => Err(SectionError::Store(StoreError::NotASection)),
            Some(n) => {
                if index >= n as u64 {
                    return Err(SectionError::Store(StoreError::NoSuchEntry));
                }
                if n <= self.min {
                    return Err(SectionError::TooFewEntries);
                }
                match store.remove_entry(&self.path, index) {
                    Ok(()) => Ok(()),
                    Err(e) => Err(SectionError::Store(e)),
                }
            },
        }
    }
}

/// After the manager took out the entry at `index`, the section holds the
/// entries that are left at the positions from 0 without a gap and in their
/// old order: whatever a path into position `j` leads to is what the path
/// into the same position led to before where `j` is below `index`, and
/// what the path into the next position led to before from `index` on.
pub proof fn lemma_remove_keeps_order(
    m: SectionView,
    s: StoreView,
    index: nat,
    j: nat,
    rest: PathView,
)
    requires
        section_remove(m, s, index) is Ok,
    ensures
        ({
            let after = section_remove(m, s, index)->Ok_0;
            let before = section_entries(s.tree, m.path)->0;
            &&& section_entries(s.tree, m.path) is Some
            &&& index < before.len()
            &&& section_entries(after.tree, m.path) == Some(before.remove(index as int))
            &&& resolve_view(after.tree, m.path.push(SegmentView::Indexed(j)) + rest)
                == resolve_view(
                s.tree,
                m.path.push(
                    SegmentView::Indexed(
                        if j < index {
                            j
                        } else {
                            j + 1
                        },
                    ),
                ) + rest,
            )
        }),
{
    lemma_remove_closes_the_gap(s.tree, m.path, index, j, rest);
}

/// After the manager added an entry, the section has one entry more, the
/// new entry is the last, and the entries that were there are where they
/// were.
pub proof fn lemma_append_adds_last(m: SectionView, s: StoreView)
    requires
        section_append(m, s) is Ok,
    ensures
        ({
            let after = section_append(m, s)->Ok_0;
            let before = section_entries(s.tree, m.path)->0;
            let entries = section_entries(after.tree, m.path)->0;
            &&& section_entries(s.tree, m.path) is Some
            &&& section_entries(after.tree, m.path) is Some
            &&& entries.len() == before.len() + 1
            &&& entries.take(before.len() as int) == before
            &&& resolve_view(after.tree, m.path.push(SegmentView::Indexed(before.len())))
                == Some(entries.last())
        }),
{
    let entry = crate::store::entry_state(m.template)->Ok_0;
    lemma_push_adds_last(s.tree, m.path, entry.tree);
    let before = section_entries(s.tree, m.path)->0;
    assert(before.push(entry.tree).take(before.len() as int) =~= before);
}

} // verus!
