//! The order of work over a batch of pictures.
//!
//! Whoever runs the batch does the work on files; what to do next is decided
//! here.  For each picture in turn the runner is first asked whether its
//! mosaic is already there.  If so the picture is skipped, else the runner is
//! asked to render it.  A failure ends the batch.

use vstd::prelude::*;

verus! {

/// What the runner reports back.
#[derive(Clone, Copy, Debug, PartialEq, Eq, Structural)]
pub enum BatchEvent {
    /// The mosaic of the picture asked about is already there.
    OutputExists,
    /// The mosaic of the picture asked about is not there yet.
    OutputMissing,
    /// The picture was rendered and its mosaic saved.
    Rendered,
    /// The picture could not be read, or its mosaic not saved.
    Failed,
}

/// What the runner is to do next.
#[derive(Clone, Copy, Debug, PartialEq, Eq, Structural)]
pub enum BatchAction {
    /// Say whether the mosaic of this picture is already there.
    Check(usize),
    /// Read this picture, build its mosaic and save it.
    Render(usize),
    /// Every picture was dealt with.
    Finish,
    /// Stop: a picture failed, or an event did not answer the last action.
    Abort,
}

/// Where a batch stands.
#[derive(Clone, Copy, Debug, PartialEq, Eq, Structural)]
pub enum BatchState {
    /// Waiting to hear whether the mosaic of this picture is there.
    Checking(usize),
    /// Waiting for this picture to be rendered.
    Rendering(usize),
    /// Every picture was dealt with.
    Finished,
    /// The batch was stopped.
    Aborted,
}

/// The state and the action with which work on picture `i` of `total`
/// begins; after the last picture the batch is finished.
pub open spec fn turn_to(i: int, total: usize) -> (BatchState, BatchAction) {
    if i < total {
        (BatchState::Checking(i as usize), BatchAction::Check(i as usize))
    } else {
        (BatchState::Finished, BatchAction::Finish)
    }
}

/// The state after an event, and the action that it calls for.
pub open spec fn step(state: BatchState, total: usize, event: BatchEvent) -> (
    BatchState,
    BatchAction,
) {
    match (state, event) {
        (BatchState::Checking(i), BatchEvent::OutputExists) => turn_to(i + 1, total),
        (BatchState::Checking(i), BatchEvent::OutputMissing) => (
            BatchState::Rendering(i),
            BatchAction::Render(i),
        ),
        (BatchState::Rendering(i), BatchEvent::Rendered) => turn_to(i + 1, total),
        (BatchState::Finished, _) => (BatchState::Finished, BatchAction::Finish),
        _ => (BatchState::Aborted, BatchAction::Abort),
    }
}

/// The actions that a run of events calls for, one after each event.
pub open spec fn run(state: BatchState, total: usize, events: Seq<BatchEvent>) -> Seq<BatchAction>
    decreases events.len(),
{
    if events.len() == 0 {
        Seq::empty()
    } else {
        let (next, action) = step(state, total, events[0]);
        seq![action] + run(next, total, events.subrange(1, events.len() as int))
    }
}

/// A batch of pictures, worked through in order.
#[derive(Clone, Copy, Debug)]
pub struct Batch {
    total: usize,
    state: BatchState,
}

impl Batch {
    /// The number of pictures.
    pub closed spec fn spec_total(&self) -> usize {
        self.total
    }

    /// Where the batch stands.
    pub closed spec fn spec_state(&self) -> BatchState {
        self.state
    }

    /// A picture that is waited for is one of the batch.
    pub open spec fn wf(&self) -> bool {
        match self.spec_state() {
            BatchState::Checking(i) => i < self.spec_total(),
            BatchState::Rendering(i) => i < self.spec_total(),
            _ => true,
        }
    }

    /// A batch of `total` pictures, and what to do first.
    pub fn start(total: usize) -> (res: (Batch, BatchAction))
        ensures
            res.0.wf(),
            res.0.spec_total() == total,
            (res.0.spec_state(), res.1) == turn_to(0, total),
    {
        if total > 0 {
            (Batch { total, state: BatchState::Checking(0) }, BatchAction::Check(0))
        } else {
            (Batch { total, state: BatchState::Finished }, BatchAction::Finish)
        }
    }

    /// Where the batch stands.
    #[verifier::when_used_as_spec(spec_state)]
    pub fn state(&self) -> (s: BatchState)
        ensures
            s == self.spec_state(),
    {
        self.state
    }

    /// Takes in what the runner reports and says what to do next, see
    /// [`step`].
    pub fn advance(&mut self, event: BatchEvent) -> (action: BatchAction)
        requires
            old(self).wf(),
        ensures
            final(self).wf(),
            final(self).spec_total() == old(self).spec_total(),
            (final(self).spec_state(), action) == step(
                old(self).spec_state(),
                old(self).spec_total(),
                event,
            ),
    {
        let (state, action) = match (self.state, event) {
            (BatchState::Checking(i), BatchEvent::OutputMissing) => (
                BatchState::Rendering(i),
                BatchAction::Render(i),
            ),
            (BatchState::Checking(i), BatchEvent::OutputExists) | (
                BatchState::Rendering(i),
                BatchEvent::Rendered,
            ) => {
                if i + 1 < self.total {
                    (BatchState::Checking(i + 1), BatchAction::Check(i + 1))
                } else {
                    (BatchState::Finished, BatchAction::Finish)
                }
            },
            (BatchState::Finished, _) => (BatchState::Finished, BatchAction::Finish),
            _ => (BatchState::Aborted, BatchAction::Abort),
        };
        self.state = state;
        action
    }
}

/// Where every mosaic is already there, nothing is rendered: a run in which
/// each event is `OutputExists` never calls for a `Render`.
pub proof fn lemma_resume_renders_nothing(state: BatchState, total: usize, events: Seq<BatchEvent>)
    requires
        !(state is Rendering),
        forall|k: int| 0 <= k < events.len() ==> events[k] == BatchEvent::OutputExists,
    ensures
        forall|k: int|
            0 <= k < run(state, total, events).len() ==> !(#[trigger] run(state, total, events)[k]
                is Render),
    decreases events.len(),
{
    if events.len() > 0 {
        let (next, action) = step(state, total, events[0]);
        let rest = events.subrange(1, events.len() as int);
        assert forall|k: int| 0 <= k < rest.len() implies rest[k] == BatchEvent::OutputExists by {
            assert(rest[k] == events[k + 1]);
        }
        lemma_resume_renders_nothing(next, total, rest);
    }
}

/// A picture is rendered only after its mosaic was reported missing.
pub proof fn lemma_render_follows_missing(state: BatchState, total: usize, event: BatchEvent)
    ensures
        step(state, total, event).1 is Render ==> event == BatchEvent::OutputMissing && state
            == BatchState::Checking(step(state, total, event).1->Render_0),
{
}

} // verus!
