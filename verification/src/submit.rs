//! The submission pipeline: one state machine per form session.
//!
//! `Initial → Pending → Success | Error`, and back to `Initial` with the
//! next edit. The pipeline decides; whoever holds it runs the renderer on
//! the request that `submit` hands out and reports the outcome to `finish`.
use vstd::prelude::*;
use crate::store::{all_valid, FormStateStore, StoreView};
use crate::tree::{distinct_keys, sound_tree, Node, NodeView};

verus! {

/// Why a submission did not end in an artifact.
#[derive(Debug)]
pub enum SubmitError {
    /// The form is not valid; the renderer was not asked.
    ValidationFailed,
    /// A submission is already with the renderer.
    AlreadyInProgress,
    /// The renderer failed, for the reason it gave.
    CollaboratorFailure(String),
}

/// The mathematical value of a [`SubmitError`].
pub enum SubmitErrorView {
    ValidationFailed,
    AlreadyInProgress,
    CollaboratorFailure(Seq<char>),
}

impl View for SubmitError {
    type V = SubmitErrorView;

    open spec fn view(&self) -> SubmitErrorView {
        match self {
            SubmitError::ValidationFailed => SubmitErrorView::ValidationFailed,
            SubmitError::AlreadyInProgress => SubmitErrorView::AlreadyInProgress,
            SubmitError::CollaboratorFailure(reason) => SubmitErrorView::CollaboratorFailure(
                reason@,
            ),
        }
    }
}

/// Where a form session stands with its submission.
#[derive(Debug)]
pub enum SubmissionState {
    /// Nothing was submitted since the last edit.
    Initial,
    /// The renderer was asked and has not answered.
    Pending,
    /// The renderer answered with an artifact.
    Success,
    /// The submission failed.
    Error(SubmitError),
}

/// The mathematical value of a [`SubmissionState`].
pub enum SubmissionStateView {
    Initial,
    Pending,
    Success,
    Error(SubmitErrorView),
}

impl View for SubmissionState {
    type V = SubmissionStateView;

    open spec fn view(&self) -> SubmissionStateView {
        match self {
            SubmissionState::Initial => SubmissionStateView::Initial,
            SubmissionState::Pending => SubmissionStateView::Pending,
            SubmissionState::Success => SubmissionStateView::Success,
            SubmissionState::Error(e) => SubmissionStateView::Error(e@),
        }
    }
}

/// What goes to the renderer beside the form's values.
#[derive(Debug)]
pub struct MetaData {
    /// The language in which the form was filled in.
    pub locale: String,
    /// The offset of the user's clock from UTC, in seconds.
    pub local_utc_offset: i32,
}

/// The mathematical value of a [`MetaData`].
pub struct MetaDataView {
    pub locale: Seq<char>,
    pub local_utc_offset: i32,
}

impl View for MetaData {
    type V = MetaDataView;

    open spec fn view(&self) -> MetaDataView {
        MetaDataView { locale: self.locale@, local_utc_offset: self.local_utc_offset }
    }
}

/// What the renderer is given: the values of the form as they were when it
/// was submitted, and the metadata.
#[derive(Debug)]
pub struct RenderRequest {
    pub form_data: Node,
    pub meta_data: MetaData,
}

/// The mathematical value of a [`RenderRequest`].
pub struct RenderRequestView {
    pub form_data: NodeView,
    pub meta_data: MetaDataView,
}

impl View for RenderRequest {
    type V = RenderRequestView;

    open spec fn view(&self) -> RenderRequestView {
        RenderRequestView { form_data: self.form_data@, meta_data: self.meta_data@ }
    }
}

/// What `submit` answers: the request for the renderer, or the reason why
/// there is none.
pub open spec fn submit_answer(
    state: SubmissionStateView,
    s: StoreView,
    meta: MetaDataView,
) -> Result<RenderRequestView, SubmitErrorView> {
    if state is Pending {
        Err(SubmitErrorView::AlreadyInProgress)
    } else if all_valid(s) {
        Ok(RenderRequestView { form_data: s.tree, meta_data: meta })
    } else {
        Err(SubmitErrorView::ValidationFailed)
    }
}

/// The state after `submit`.
pub open spec fn state_after_submit(
    state: SubmissionStateView,
    s: StoreView,
) -> SubmissionStateView {
    if state is Pending {
        state
    } else if all_valid(s) {
        SubmissionStateView::Pending
    } else {
        SubmissionStateView::Error(SubmitErrorView::ValidationFailed)
    }
}

/// The state after the renderer's outcome was reported: a pending
/// submission ends in success or in error, and any other state stays, since
/// nobody waits for that outcome any more.
pub open spec fn state_after_finish(
    state: SubmissionStateView,
    outcome: Result<Seq<char>, Seq<char>>,
) -> SubmissionStateView {
    if state is Pending {
        match outcome {
            Ok(_) => SubmissionStateView::Success,
            Err(reason) => SubmissionStateView::Error(SubmitErrorView::CollaboratorFailure(reason)),
        }
    } else {
        state
    }
}

/// What `finish` answers: the locator or the failure for a pending
/// submission, and nothing in any other state.
pub open spec fn finish_answer(
    state: SubmissionStateView,
    outcome: Result<Seq<char>, Seq<char>>,
) -> Option<Result<Seq<char>, SubmitErrorView>> {
    if state is Pending {
        match outcome {
            Ok(locator) => Some(Ok(locator)),
            Err(reason) => Some(Err(SubmitErrorView::CollaboratorFailure(reason))),
        }
    } else {
        None
    }
}

/// The mathematical value of what the renderer answered.
pub open spec fn outcome_view(outcome: Result<String, String>) -> Result<Seq<char>, Seq<char>> {
    match outcome {
        Ok(locator) => Ok(locator@),
        Err(reason) => Err(reason@),
    }
}

/// The state after an edit by the user: a finished submission, good or
/// bad, is forgotten.
pub open spec fn state_after_edit(state: SubmissionStateView) -> SubmissionStateView {
    match state {
        SubmissionStateView::Success => SubmissionStateView::Initial,
        SubmissionStateView::Error(_) => SubmissionStateView::Initial,
        _ => state,
    }
}

/// The submission state machine of one form session.
#[derive(Debug)]
pub struct SubmissionPipeline {
    state: SubmissionState,
}

impl View for SubmissionPipeline {
    type V = SubmissionStateView;

    closed spec fn view(&self) -> SubmissionStateView {
        self.state@
    }
}

impl SubmissionPipeline {
    /// A pipeline in the initial state.
    pub fn new() -> (r: SubmissionPipeline)
        ensures
            r@ == SubmissionStateView::Initial,
    {
        SubmissionPipeline { state: SubmissionState::Initial }
    }

    /// The current state.
    pub fn state(&self) -> (r: &SubmissionState)
        ensures
            r@ == self@,
    {
        &self.state
    }

    /// Whether a submission is with the renderer, so that the form must
    /// not be edited.
    pub fn is_pending(&self) -> (r: bool)
        ensures
            r == (self@ is Pending),
    {
        match self.state {
            SubmissionState::Pending => true,
            _ => false,
        }
    }

    /// Submits the form.
    ///
    /// While a submission is pending, another one is refused and nothing
    /// changes. Otherwise the whole form is checked: if every field is
    /// settled, the pipeline becomes pending and hands out the request for
    /// the renderer, which holds a copy of the tree and the metadata; if
    /// not, the pipeline goes to the error state and there is no request.
    /// Every value in a request keeps the promise of its variant, and no
    /// group of it holds two children under one key.
    pub fn submit(&mut self, store: &FormStateStore, meta: MetaData) -> (r: Result<
        RenderRequest,
        SubmitError,
    >)
        ensures
            final(self)@ == state_after_submit(old(self)@, store@),
            match r {
                Ok(request) => submit_answer(old(self)@, store@, meta@) == Ok::<
                    RenderRequestView,
                    SubmitErrorView,
                >(request@) && sound_tree(request@.form_data) && distinct_keys(
                    request@.form_data,
                ),
                Err(e) => submit_answer(old(self)@, store@, meta@) == Err::<
                    RenderRequestView,
                    SubmitErrorView,
                >(e@),
            },
    {
        if self.is_pending() {
            return Err(SubmitError::AlreadyInProgress);
        }
        if store.is_valid() {
            self.state = SubmissionState::Pending;
            Ok(RenderRequest { form_data: store.tree().clone(), meta_data: meta })
        } else {
            self.state = SubmissionState::Error(SubmitError::ValidationFailed);
            Err(SubmitError::ValidationFailed)
        }
    }

    /// Reports what the renderer answered: the locator of the artifact, or
    /// the reason of its failure.
    ///
    /// A pending submission ends: in success, and the locator is handed
    /// on, or in error with the renderer's reason. In any other state the
    /// outcome comes too late; it is dropped and the answer is `None`.
    pub fn finish(&mut self, outcome: Result<String, String>) -> (r: Option<
        Result<String, SubmitError>,
    >)
        ensures
            final(self)@ == state_after_finish(old(self)@, outcome_view(outcome)),
            match r {
                Some(Ok(locator)) => finish_answer(old(self)@, outcome_view(outcome)) == Some(
                    Ok::<Seq<char>, SubmitErrorView>(locator@),
                ),
                Some(Err(e)) => finish_answer(old(self)@, outcome_view(outcome)) == Some(
                    Err::<Seq<char>, SubmitErrorView>(e@),
                ),
                None => finish_answer(old(self)@, outcome_view(outcome)) is None,
            },
    {
        if !self.is_pending() {
            return None;
        }
        match outcome {
            Ok(locator) => {
                self.state = SubmissionState::Success;
                Some(Ok(locator))
            },
            Err(reason) => {
                self.state = SubmissionState::Error(
                    SubmitError::CollaboratorFailure(reason.clone()),
                );
                Some(Err(SubmitError::CollaboratorFailure(reason)))
            },
        }
    }

    /// Notes an edit by the user, which arms the pipeline again after a
    /// finished submission.
    pub fn edited(&mut self)
        ensures
            final(self)@ == state_after_edit(old(self)@),
    {
        match self.state {
            SubmissionState::Success => {
                self.state = SubmissionState::Initial;
            },
            SubmissionState::Error(_) => {
                self.state = SubmissionState::Initial;
            },
            _ => {},
        }
    }
}

/// After a submission that gave a request, every further submission is
/// refused as already in progress and leaves the state pending, until the
/// renderer's outcome is reported: one request, and so one call of the
/// renderer, per pending submission.
pub proof fn lemma_one_request_while_pending(
    state: SubmissionStateView,
    s: StoreView,
    meta: MetaDataView,
    later: StoreView,
    later_meta: MetaDataView,
)
    requires
        submit_answer(state, s, meta) is Ok,
    ensures
        state_after_submit(state, s) is Pending,
        submit_answer(state_after_submit(state, s), later, later_meta) == Err::<
            RenderRequestView,
            SubmitErrorView,
        >(SubmitErrorView::AlreadyInProgress),
        state_after_submit(state_after_submit(state, s), later) is Pending,
{
}

/// A form that is not valid never reaches the renderer: the submission
/// fails and the state is the validation error.
pub proof fn lemma_invalid_form_is_not_rendered(
    state: SubmissionStateView,
    s: StoreView,
    meta: MetaDataView,
)
    requires
        !(state is Pending),
        !all_valid(s),
    ensures
        submit_answer(state, s, meta) == Err::<RenderRequestView, SubmitErrorView>(
            SubmitErrorView::ValidationFailed,
        ),
        state_after_submit(state, s) == SubmissionStateView::Error(
            SubmitErrorView::ValidationFailed,
        ),
{
}

} // verus!
