//! What a commit does, step by step: it registers a lease, opens the backends, uploads the
//! blobs, and saves the state last.

use crate::backend::{BackendError, InitError, UploadError};
use crate::lease::{lease_end, seconds_since_epoch, Lease, LeaseView, LEASE_DURATION};
use crate::leases::ActiveLeases;
use crate::maps::{lemma_increasing_u32, ordered_keys};
use crate::prelude::BackendId;
use crate::state::{State, StateView};
use crate::upload::{
    lease_entries, offsets_fit, pending_uploads, uploads_all, UploadBlob, UploadPlan,
};
use std::collections::BTreeMap;
use vstd::prelude::*;

verus! {

/// Why a commit failed.
#[derive(Clone, Debug)]
pub enum CommitError {
    GetBackend(BackendError<InitError>),
    AddLease(BackendError<UploadError>),
    NoSourceFile(String),
    ChunkUpload(BackendError<UploadError>),
    SetState(BackendError<UploadError>),
    Io(String),
}

impl CommitError {
    /// The file that blobs are cut out of could not be opened.
    pub fn no_source_file(cause: String) -> (error: Self)
        ensures
            error == CommitError::NoSourceFile(cause),
    {
        CommitError::NoSourceFile(cause)
    }

    /// What is wrong, in words.
    pub fn message(&self) -> (text: String)
        ensures
            text@ == (match *self {
                CommitError::GetBackend(_) => "Failed to initialize a backend"@,
                CommitError::AddLease(_) => "Failed to register a new lease"@,
                CommitError::NoSourceFile(_) => "Tried to upload data from a non existing file"@,
                CommitError::ChunkUpload(_) => "Failed to upload a chunk"@,
                CommitError::SetState(_) => "Failed to upload local state"@,
                CommitError::Io(cause) => cause@,
            }),
    {
        match self {
            CommitError::GetBackend(_) => "Failed to initialize a backend".to_owned(),
            CommitError::AddLease(_) => "Failed to register a new lease".to_owned(),
            CommitError::NoSourceFile(_) =>
                "Tried to upload data from a non existing file".to_owned(),
            CommitError::ChunkUpload(_) => "Failed to upload a chunk".to_owned(),
            CommitError::SetState(_) => "Failed to upload local state".to_owned(),
            CommitError::Io(cause) => cause.clone(),
        }
    }
}

/// How far a commit has come.
#[derive(Clone, Copy, Debug, PartialEq, Eq, Structural)]
pub enum CommitStage {
    /// The lease is being registered.
    Leasing,
    /// That many backends are open, and the next one is being opened.
    Opening(usize),
    /// All backends are open, that many blobs are uploaded, and the others are on their way.
    Uploading(usize),
    /// All blobs are uploaded, and the state is being saved.
    Saving,
    /// The commit has come to its end.
    Done,
}

/// The outcome of what a commit asked for.
#[derive(Debug)]
pub enum CommitEvent {
    /// The lease was registered under an id, or not.
    Leased(Result<u128, BackendError<UploadError>>),
    /// A backend was opened, or not.
    Opened(Result<(), BackendError<InitError>>),
    /// A blob was uploaded, or not.
    Uploaded(Result<(), CommitError>),
    /// The state was saved, or not.
    Saved(Result<(), BackendError<UploadError>>),
}

/// What a commit asks for.
#[derive(Debug)]
pub enum CommitStep {
    /// Open this backend.
    OpenBackend(BackendId),
    /// Upload all the blobs.
    Upload,
    /// Wait for the uploads that are on their way.
    Wait,
    /// Save the state.
    SaveState,
    /// Stop all that is on its way: the commit has come to its end.
    Finished(Result<(), CommitError>),
}

impl CommitEvent {
    /// Why the commit has to fail after this event, if it has to.
    pub open spec fn failure(self) -> Option<CommitError> {
        match self {
            CommitEvent::Leased(Err(e)) => Some(CommitError::AddLease(e)),
            CommitEvent::Opened(Err(e)) => Some(CommitError::GetBackend(e)),
            CommitEvent::Uploaded(Err(e)) => Some(e),
            CommitEvent::Saved(Err(e)) => Some(CommitError::SetState(e)),
            _ => None,
        }
    }

    /// This is the outcome of what is asked for in a stage.
    pub open spec fn answers(self, stage: CommitStage) -> bool {
        match stage {
            CommitStage::Leasing => self is Leased,
            CommitStage::Opening(_) => self is Opened,
            CommitStage::Uploading(_) => self is Uploaded,
            CommitStage::Saving => self is Saved,
            CommitStage::Done => false,
        }
    }
}

/// The backends that the blobs go to.
pub open spec fn backends_of(actions: Seq<UploadBlob>) -> Set<BackendId> {
    actions.map_values(|b: UploadBlob| b.locator.backend_id).to_set()
}

/// The stage after the first `n` of so many backends are open.
pub open spec fn stage_with_open(n: int, backends: nat, blobs: nat) -> CommitStage {
    if n < backends {
        CommitStage::Opening(n as usize)
    } else {
        stage_with_uploaded(0, blobs)
    }
}

/// The stage after the first `n` of so many blobs are uploaded.
pub open spec fn stage_with_uploaded(n: int, blobs: nat) -> CommitStage {
    if n < blobs {
        CommitStage::Uploading(n as usize)
    } else {
        CommitStage::Saving
    }
}

/// The stage after an event.
pub open spec fn stage_after(
    stage: CommitStage,
    event: CommitEvent,
    backends: nat,
    blobs: nat,
) -> CommitStage {
    if event.failure() is Some {
        CommitStage::Done
    } else {
        match stage {
            CommitStage::Leasing => stage_with_open(0, backends, blobs),
            CommitStage::Opening(n) => stage_with_open(n + 1, backends, blobs),
            CommitStage::Uploading(n) => stage_with_uploaded(n + 1, blobs),
            _ => CommitStage::Done,
        }
    }
}

/// A commit that is under way.
#[derive(Debug)]
pub struct Commit {
    state: State,
    lease: Lease,
    actions: Vec<UploadBlob>,
    backends: Vec<BackendId>,
    stage: CommitStage,
}

/// A commit that is under way, as mathematical data.
pub struct CommitView {
    pub state: StateView,
    pub lease: LeaseView,
    pub actions: Seq<UploadBlob>,
    pub backends: Seq<BackendId>,
    pub stage: CommitStage,
}

impl View for Commit {
    type V = CommitView;

    closed spec fn view(&self) -> CommitView {
        CommitView {
            state: self.state@,
            lease: self.lease@,
            actions: self.actions@,
            backends: self.backends@,
            stage: self.stage,
        }
    }
}

impl CommitView {
    /// The backends are those that the blobs go to, in ascending order, and the stage is one
    /// that can be reached.
    pub open spec fn wf(self) -> bool {
        &&& self.backends.to_set() == backends_of(self.actions)
        &&& forall|i: int, j: int|
            0 <= i < j < self.backends.len() ==> #[trigger] self.backends[i]
                < #[trigger] self.backends[j]
        &&& self.actions.len() <= usize::MAX
        &&& self.backends.len() <= usize::MAX
        &&& match self.stage {
            CommitStage::Opening(n) => n < self.backends.len(),
            CommitStage::Uploading(n) => n < self.actions.len(),
            _ => true,
        }
    }

    /// What the commit asks for on entering its stage after an event.
    pub open spec fn asks(self, event: CommitEvent, step: CommitStep) -> bool {
        match self.stage {
            CommitStage::Leasing => false,
            CommitStage::Opening(n) => step == CommitStep::OpenBackend(self.backends[n as int]),
            CommitStage::Uploading(n) => step == (if n == 0 {
                CommitStep::Upload
            } else {
                CommitStep::Wait
            }),
            CommitStage::Saving => step is SaveState,
            CommitStage::Done => match event.failure() {
                Some(error) => step == CommitStep::Finished(Err(error)),
                None => step == CommitStep::Finished(Ok(())),
            },
        }
    }
}

/// The distinct backends that the blobs go to, in ascending order.
fn required_backends(actions: &Vec<UploadBlob>) -> (backends: Vec<BackendId>)
    ensures
        backends@.to_set() == backends_of(actions@),
        forall|i: int, j: int|
            0 <= i < j < backends.len() ==> #[trigger] backends[i] < #[trigger] backends[j],
{
    let mut ids: BTreeMap<BackendId, ()> = BTreeMap::new();
    let ghost all = actions@.map_values(|b: UploadBlob| b.locator.backend_id);
    let mut i: usize = 0;
    proof {
        assert(all.take(0).to_set() =~= ids@.dom());
    }
    while i < actions.len()
        invariant
            i <= actions.len(),
            all == actions@.map_values(|b: UploadBlob| b.locator.backend_id),
            ids@.dom() == all.take(i as int).to_set(),
        decreases actions.len() - i,
    {
        let ghost before = ids@.dom();
        let id: BackendId = actions[i].locator.backend_id;
        ids.insert(id, ());
        proof {
            let now = all.take(i + 1);
            let then = all.take(i as int);
            assert(now =~= then.push(id));
            assert forall|x: BackendId|
                now.to_set().contains(x) == (then.to_set().contains(x) || x == id) by {
                if then.contains(x) {
                    let k = choose|k: int| 0 <= k < then.len() && then[k] == x;
                    assert(now[k] == x);
                }
                assert(now[i as int] == id);
            }
            assert(now.to_set() =~= before.insert(id));
            assert(ids@.dom() =~= before.insert(id));
        }
        i += 1;
    }
    proof {
        assert(all.take(i as int) =~= all);
    }
    let backends = ordered_keys(&ids);
    proof {
        lemma_increasing_u32(backends@);
    }
    backends
}

impl Commit {
    /// The commit of a state, with the uploads that are planned for it.
    pub fn with_plan(state: State, plan: UploadPlan) -> (commit: Self)
        ensures
            commit@.wf(),
            commit@.state == state@,
            commit@.lease == plan.lease@,
            commit@.actions == plan.actions@,
            commit@.stage == CommitStage::Leasing,
    {
        let backends = required_backends(&plan.actions);
        proof {
            assert(plan.actions.len() <= usize::MAX && backends.len() <= usize::MAX);
        }
        Commit {
            state,
            lease: plan.lease,
            actions: plan.actions,
            backends,
            stage: CommitStage::Leasing,
        }
    }

    /// The commit of a state. There is none where no lease can be taken.
    pub fn new(state: State) -> (commit: Option<Self>)
        requires
            offsets_fit(state@.changes),
        ensures
            commit matches Some(c) ==> {
                &&& c@.wf()
                &&& c@.state == state@
                &&& c@.stage == CommitStage::Leasing
                &&& uploads_all(c@.actions, pending_uploads(state@.changes))
                &&& c@.lease.blobs == lease_entries(c@.actions)
                &&& c@.lease.valid_until_unix >= LEASE_DURATION
            },
    {
        Commit::new_by(state, seconds_since_epoch())
    }

    /// The commit of a state, with a lease that is taken at what a clock shows. There is none
    /// where no lease can be taken.
    pub fn new_by(state: State, clock: Option<u64>) -> (commit: Option<Self>)
        requires
            offsets_fit(state@.changes),
        ensures
            match lease_end(clock) {
                Some(end) => {
                    &&& commit matches Some(c)
                    &&& c@.wf()
                    &&& c@.state == state@
                    &&& c@.stage == CommitStage::Leasing
                    &&& uploads_all(c@.actions, pending_uploads(state@.changes))
                    &&& c@.lease.blobs == lease_entries(c@.actions)
                    &&& c@.lease.valid_until_unix == end
                },
                None => commit is None,
            },
    {
        match state.upload_plan_by(clock) {
            Some(plan) => Some(Commit::with_plan(state, plan)),
            None => None,
        }
    }

    /// The state that is committed.
    pub fn state(&self) -> (state: &State)
        ensures
            state@ == self@.state,
    {
        &self.state
    }

    /// The lease that has to be registered first.
    pub fn lease(&self) -> (lease: &Lease)
        ensures
            lease@ == self@.lease,
    {
        &self.lease
    }

    /// The blobs that have to be uploaded.
    pub fn actions(&self) -> (actions: &Vec<UploadBlob>)
        ensures
            actions@ == self@.actions,
    {
        &self.actions
    }

    /// How far the commit has come.
    pub fn stage(&self) -> (stage: CommitStage)
        ensures
            stage == self@.stage,
    {
        self.stage
    }

    /// The next step after so many backends were opened.
    fn after_opening(&mut self, open: usize) -> (step: CommitStep)
        requires
            old(self)@.wf(),
            open <= old(self)@.backends.len(),
        ensures
            final(self)@ == (CommitView {
                stage: stage_with_open(
                    open as int,
                    old(self)@.backends.len(),
                    old(self)@.actions.len(),
                ),
                ..old(self)@
            }),
            final(self)@.wf(),
            final(self)@.asks(CommitEvent::Opened(Ok(())), step),
    {
        if open < self.backends.len() {
            self.stage = CommitStage::Opening(open);
            CommitStep::OpenBackend(self.backends[open])
        } else if self.actions.len() > 0 {
            self.stage = CommitStage::Uploading(0);
            CommitStep::Upload
        } else {
            self.stage = CommitStage::Saving;
            CommitStep::SaveState
        }
    }

    /// The commit has failed.
    fn fail(&mut self, error: CommitError) -> (step: CommitStep)
        requires
            old(self)@.wf(),
        ensures
            final(self)@ == (CommitView { stage: CommitStage::Done, ..old(self)@ }),
            final(self)@.wf(),
            step == CommitStep::Finished(Err(error)),
    {
        self.stage = CommitStage::Done;
        CommitStep::Finished(Err(error))
    }

    /// Takes the outcome of what the commit asked for, and asks for the next thing. The lease is
    /// put in force as soon as it is registered.
    pub fn advance(&mut self, event: CommitEvent, leases: &mut ActiveLeases) -> (step: CommitStep)
        requires
            old(self)@.wf(),
            event.answers(old(self)@.stage),
        ensures
            final(self)@ == (CommitView {
                stage: stage_after(
                    old(self)@.stage,
                    event,
                    old(self)@.backends.len(),
                    old(self)@.actions.len(),
                ),
                ..old(self)@
            }),
            final(self)@.wf(),
            final(self)@.asks(event, step),
            final(leases)@ == (match event {
                CommitEvent::Leased(Ok(id)) => old(leases)@.insert(id, old(self)@.lease),
                _ => old(leases)@,
            }),
    {
        match event {
            CommitEvent::Leased(Err(e)) => self.fail(CommitError::AddLease(e)),
            CommitEvent::Leased(Ok(id)) => {
                leases.insert(id, self.lease.clone());
                self.after_opening(0)
            },
            CommitEvent::Opened(Err(e)) => self.fail(CommitError::GetBackend(e)),
            CommitEvent::Opened(Ok(())) => match self.stage {
                CommitStage::Opening(open) => self.after_opening(open + 1),
                _ => CommitStep::Wait,
            },
            CommitEvent::Uploaded(Err(e)) => self.fail(e),
            CommitEvent::Uploaded(Ok(())) => match self.stage {
                CommitStage::Uploading(uploaded) => if uploaded + 1 < self.actions.len() {
                    self.stage = CommitStage::Uploading(uploaded + 1);
                    CommitStep::Wait
                } else {
                    self.stage = CommitStage::Saving;
                    CommitStep::SaveState
                },
                _ => CommitStep::Wait,
            },
            CommitEvent::Saved(Err(e)) => self.fail(CommitError::SetState(e)),
            CommitEvent::Saved(Ok(())) => {
                self.stage = CommitStage::Done;
                CommitStep::Finished(Ok(()))
            },
        }
    }
}

/// The stage after a sequence of events, one after the other.
pub open spec fn stage_after_all(
    events: Seq<CommitEvent>,
    backends: nat,
    blobs: nat,
) -> CommitStage
    decreases events.len(),
{
    if events.len() == 0 {
        CommitStage::Leasing
    } else {
        stage_after(
            stage_after_all(events.drop_last(), backends, blobs),
            events.last(),
            backends,
            blobs,
        )
    }
}

/// Every event is the outcome of what was asked for before it.
pub open spec fn answers_all(events: Seq<CommitEvent>, backends: nat, blobs: nat) -> bool
    decreases events.len(),
{
    events.len() > 0 ==> {
        &&& answers_all(events.drop_last(), backends, blobs)
        &&& events.last().answers(stage_after_all(events.drop_last(), backends, blobs))
    }
}

/// How many of what a commit asks for were done when a stage is reached.
pub open spec fn done_before(stage: CommitStage, backends: nat, blobs: nat) -> int {
    match stage {
        CommitStage::Leasing => 0,
        CommitStage::Opening(n) => 1 + n,
        CommitStage::Uploading(n) => 1 + backends + n,
        _ => 1 + backends + blobs as int,
    }
}

/// The state is saved last: when a commit asks for it, the lease is registered, every backend
/// was opened and every blob is uploaded, and none of that failed.
pub proof fn the_state_is_saved_last(events: Seq<CommitEvent>, backends: nat, blobs: nat)
    requires
        backends <= usize::MAX,
        blobs <= usize::MAX,
        answers_all(events, backends, blobs),
        stage_after_all(events, backends, blobs) == CommitStage::Saving,
    ensures
        events.len() == 1 + backends + blobs,
        events[0] is Leased,
        forall|i: int| 1 <= i <= backends ==> (#[trigger] events[i]) is Opened,
        forall|i: int| backends < i < events.len() ==> (#[trigger] events[i]) is Uploaded,
        forall|i: int| 0 <= i < events.len() ==> (#[trigger] events[i]).failure() is None,
{
    lemma_progress(events, backends, blobs);
    assert forall|i: int| 0 <= i < events.len() implies {
        &&& i == 0 ==> (#[trigger] events[i]) is Leased
        &&& 1 <= i <= backends ==> events[i] is Opened
        &&& backends < i ==> events[i] is Uploaded
    } by {
        lemma_answers_before(events, backends, blobs, i);
        lemma_not_done_before(events, backends, blobs, i);
        lemma_progress(events.take(i), backends, blobs);
    }
}

/// A stage that lies within the number of backends and blobs.
spec fn stage_fits(stage: CommitStage, backends: nat, blobs: nat) -> bool {
    match stage {
        CommitStage::Opening(n) => n < backends,
        CommitStage::Uploading(n) => n < blobs,
        _ => true,
    }
}

/// One event that does not end the commit brings it one thing further.
proof fn lemma_one_further(stage: CommitStage, event: CommitEvent, backends: nat, blobs: nat)
    requires
        backends <= usize::MAX,
        blobs <= usize::MAX,
        event.answers(stage),
        stage_fits(stage, backends, blobs),
        stage_after(stage, event, backends, blobs) != CommitStage::Done,
    ensures
        stage_fits(stage_after(stage, event, backends, blobs), backends, blobs),
        done_before(stage_after(stage, event, backends, blobs), backends, blobs) == done_before(
            stage,
            backends,
            blobs,
        ) + 1,
        event.failure() is None,
{
}

/// The first events are outcomes of what was asked for too.
proof fn lemma_answers_before(events: Seq<CommitEvent>, backends: nat, blobs: nat, n: int)
    requires
        0 <= n <= events.len(),
        answers_all(events, backends, blobs),
    ensures
        answers_all(events.take(n), backends, blobs),
        n < events.len() ==> events[n].answers(stage_after_all(events.take(n), backends, blobs)),
    decreases events.len(),
{
    if n == events.len() {
        assert(events.take(n) =~= events);
    } else {
        if n < events.len() - 1 {
            assert(events.drop_last()[n] == events[n]);
        }
        lemma_answers_before(events.drop_last(), backends, blobs, n);
        assert(events.drop_last().take(n) =~= events.take(n));
        if n == events.len() - 1 {
            assert(events.take(n) =~= events.drop_last());
        }
    }
}

/// As long as a commit has not come to its end, nothing failed, and the stage tells how many
/// events there were.
proof fn lemma_progress(events: Seq<CommitEvent>, backends: nat, blobs: nat)
    requires
        backends <= usize::MAX,
        blobs <= usize::MAX,
        answers_all(events, backends, blobs),
        stage_after_all(events, backends, blobs) != CommitStage::Done,
    ensures
        events.len() == done_before(stage_after_all(events, backends, blobs), backends, blobs),
        stage_fits(stage_after_all(events, backends, blobs), backends, blobs),
        forall|i: int| 0 <= i < events.len() ==> (#[trigger] events[i]).failure() is None,
    decreases events.len(),
{
    if events.len() > 0 {
        let before = events.drop_last();
        let stage = stage_after_all(before, backends, blobs);
        lemma_progress(before, backends, blobs);
        lemma_one_further(stage, events.last(), backends, blobs);
        assert forall|i: int| 0 <= i < events.len() implies (
        #[trigger] events[i]).failure() is None by {
            if i < before.len() {
                assert(before[i] == events[i]);
            }
        }
    }
}

/// A commit that has not come to its end had not come to its end earlier.
proof fn lemma_not_done_before(events: Seq<CommitEvent>, backends: nat, blobs: nat, n: int)
    requires
        0 <= n <= events.len(),
        stage_after_all(events, backends, blobs) != CommitStage::Done,
    ensures
        stage_after_all(events.take(n), backends, blobs) != CommitStage::Done,
    decreases events.len(),
{
    if n == events.len() {
        assert(events.take(n) =~= events);
    } else {
        lemma_not_done_before(events.drop_last(), backends, blobs, n);
        assert(events.drop_last().take(n) =~= events.take(n));
    }
}

/// A commit that meets no failure has come to its end exactly when everything was done: the lease
/// was registered, every backend was opened, every blob was uploaded, and the state was saved, in
/// this order.
pub proof fn a_commit_succeeds_exactly_when_all_is_done(
    events: Seq<CommitEvent>,
    backends: nat,
    blobs: nat,
)
    requires
        backends <= usize::MAX,
        blobs <= usize::MAX,
        answers_all(events, backends, blobs),
        forall|i: int| 0 <= i < events.len() ==> (#[trigger] events[i]).failure() is None,
    ensures
        stage_after_all(events, backends, blobs) == CommitStage::Done <==> events.len() == 2
            + backends + blobs,
        events.len() <= 2 + backends + blobs,
        forall|i: int|
            0 <= i < events.len() ==> if i == 0 {
                (#[trigger] events[i]) is Leased
            } else if i <= backends {
                events[i] is Opened
            } else if i <= backends + blobs {
                events[i] is Uploaded
            } else {
                events[i] is Saved
            },
    decreases events.len(),
{
    if events.len() > 0 {
        let before = events.drop_last();
        assert forall|i: int| 0 <= i < before.len() implies (
        #[trigger] before[i]).failure() is None by {
            assert(before[i] == events[i]);
        }
        a_commit_succeeds_exactly_when_all_is_done(before, backends, blobs);
        lemma_progress(before, backends, blobs);
        let last = events.last();
        assert(last == events[events.len() - 1]);
        assert forall|i: int| 0 <= i < events.len() implies if i == 0 {
            (#[trigger] events[i]) is Leased
        } else if i <= backends {
            events[i] is Opened
        } else if i <= backends + blobs {
            events[i] is Uploaded
        } else {
            events[i] is Saved
        } by {
            if i < before.len() {
                assert(before[i] == events[i]);
            }
        }
        let after = stage_after_all(events, backends, blobs);
        if after != CommitStage::Done {
            lemma_progress(events, backends, blobs);
        }
    }
}

/// Whatever fails ends the commit at once, and the commit reports why: the lease, a backend, a blob
/// or the state.
pub proof fn a_failure_ends_the_commit(commit: CommitView, event: CommitEvent, step: CommitStep)
    requires
        commit.wf(),
        (CommitView {
            stage: stage_after(
                commit.stage,
                event,
                commit.backends.len(),
                commit.actions.len(),
            ),
            ..commit
        }).asks(event, step),
    ensures
        event matches CommitEvent::Leased(Err(e)) ==> step == CommitStep::Finished(
            Err(CommitError::AddLease(e)),
        ),
        event matches CommitEvent::Opened(Err(e)) ==> step == CommitStep::Finished(
            Err(CommitError::GetBackend(e)),
        ),
        event matches CommitEvent::Uploaded(Err(e)) ==> step == CommitStep::Finished(Err(e)),
        event matches CommitEvent::Saved(Err(e)) ==> step == CommitStep::Finished(
            Err(CommitError::SetState(e)),
        ),
{
}

/// A commit asks for the next thing as long as something is left: it reports success exactly after
/// the state was saved, has the state saved exactly once nothing else is left, and asks for the
/// uploads exactly once, when the last backend is open.
pub proof fn a_commit_asks_for_what_is_left(
    commit: CommitView,
    event: CommitEvent,
    step: CommitStep,
)
    requires
        commit.wf(),
        event.answers(commit.stage),
        event.failure() is None,
        (CommitView {
            stage: stage_after(
                commit.stage,
                event,
                commit.backends.len(),
                commit.actions.len(),
            ),
            ..commit
        }).asks(event, step),
    ensures
        step is Finished <==> event is Saved,
        step is Finished ==> step == CommitStep::Finished(Ok(())),
        step is SaveState <==> match event {
            CommitEvent::Leased(_) => commit.actions.len() == 0,
            CommitEvent::Uploaded(_) => commit.stage == CommitStage::Uploading(
                (commit.actions.len() - 1) as usize,
            ),
            _ => false,
        },
        step is Upload <==> event is Opened && commit.stage == CommitStage::Opening(
            (commit.backends.len() - 1) as usize,
        ),
        step is Wait ==> event is Uploaded,
        step matches CommitStep::OpenBackend(id) ==> match commit.stage {
            CommitStage::Leasing => id == commit.backends[0],
            CommitStage::Opening(n) => id == commit.backends[n + 1],
            _ => false,
        },
{
    let ids = commit.actions.map_values(|b: UploadBlob| b.locator.backend_id);
    if commit.actions.len() > 0 {
        assert(ids[0] == commit.actions[0].locator.backend_id);
        assert(ids.to_set().contains(ids[0]));
        assert(commit.backends.to_set().contains(ids[0]));
    }
    if commit.backends.len() > 0 {
        assert(commit.backends.to_set().contains(commit.backends[0]));
        assert(ids.to_set().contains(commit.backends[0]));
    }
}

/// The backends that a commit opens are those that its blobs go to, each of them once, and a
/// backend with a lower id before one with a higher id.
pub proof fn a_commit_opens_the_backends_of_its_blobs(commit: CommitView)
    requires
        commit.wf(),
    ensures
        forall|i: int|
            0 <= i < commit.actions.len() ==> commit.backends.contains(
                (#[trigger] commit.actions[i]).locator.backend_id,
            ),
        forall|id: BackendId| #[trigger]
            commit.backends.contains(id) ==> exists|i: int|
                0 <= i < commit.actions.len() && (#[trigger] commit.actions[i]).locator.backend_id
                    == id,
        forall|n: int, m: int|
            0 <= n < m < commit.backends.len() ==> #[trigger] commit.backends[n]
                < #[trigger] commit.backends[m],
{
    let ids = commit.actions.map_values(|b: UploadBlob| b.locator.backend_id);
    assert forall|i: int| 0 <= i < commit.actions.len() implies commit.backends.contains(
        (#[trigger] commit.actions[i]).locator.backend_id,
    ) by {
        assert(ids[i] == commit.actions[i].locator.backend_id);
        assert(ids.to_set().contains(ids[i]));
        assert(commit.backends.to_set().contains(ids[i]));
    }
    assert forall|id: BackendId| #[trigger] commit.backends.contains(id) implies exists|i: int|
        0 <= i < commit.actions.len() && (#[trigger] commit.actions[i]).locator.backend_id == id by {
        assert(commit.backends.to_set().contains(id));
        assert(ids.to_set().contains(id));
        let i = choose|i: int| 0 <= i < ids.len() && ids[i] == id;
        assert(commit.actions[i].locator.backend_id == id);
    }
}

} // verus!
