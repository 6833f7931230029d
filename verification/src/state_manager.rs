//! When the local state is committed: the decisions of the manager, as steps from one state of
//! the manager to the next.

use crate::state::{ChangeView, State, StateView};
use vstd::prelude::*;

verus! {

/// How long a commit that was asked for waits for further changes, in seconds.
pub const COMMIT_TIMEOUT: u64 = 5;

/// How soon a commit has to start.
#[derive(Clone, Copy, Debug, PartialEq, Eq, Structural)]
pub enum ManagerCommandKind {
    Enqueue,
    StartNow,
}

/// A request for a commit. `L` is what the outcome is reported to.
#[derive(Debug)]
pub struct ManagerCommand<L> {
    pub kind: ManagerCommandKind,
    pub result_return: Option<L>,
}

impl<L> ManagerCommand<L> {
    /// A request for a commit in some time.
    pub fn enqueue(resp: Option<L>) -> (command: Self)
        ensures
            command.kind == ManagerCommandKind::Enqueue,
            command.result_return == resp,
    {
        ManagerCommand { kind: ManagerCommandKind::Enqueue, result_return: resp }
    }

    /// A request for a commit at once.
    pub fn start_now(resp: Option<L>) -> (command: Self)
        ensures
            command.kind == ManagerCommandKind::StartNow,
            command.result_return == resp,
    {
        ManagerCommand { kind: ManagerCommandKind::StartNow, result_return: resp }
    }
}

/// What the manager shows to the outside.
#[derive(Debug)]
pub struct ManagerState {
    pub confirmed_state: State,
    commit_is_pending: bool,
    commiting_state: Option<State>,
}

/// What the manager shows to the outside, as mathematical data.
pub struct ManagerStateView {
    pub confirmed: StateView,
    /// Another commit is wanted.
    pub pending: bool,
    /// The state of the commit that is under way. A commit that came to its end with nothing
    /// wanted stays here.
    pub commiting: Option<StateView>,
}

impl View for ManagerState {
    type V = ManagerStateView;

    closed spec fn view(&self) -> ManagerStateView {
        ManagerStateView {
            confirmed: self.confirmed_state@,
            pending: self.commit_is_pending,
            commiting: match self.commiting_state {
                Some(state) => Some(state@),
                None => None,
            },
        }
    }
}

impl Clone for ManagerState {
    fn clone(&self) -> (copy: Self)
        ensures
            copy@ == self@,
    {
        ManagerState {
            confirmed_state: self.confirmed_state.clone(),
            commit_is_pending: self.commit_is_pending,
            commiting_state: match &self.commiting_state {
                Some(state) => Some(state.clone()),
                None => None,
            },
        }
    }
}

/// Whether a commit was started, and whether another one is wanted. A commit that came to its end
/// with nothing wanted is still shown as one that was started.
#[derive(Debug)]
pub enum ManagerCommitState<'a> {
    Idle,
    Pending,
    Commiting(&'a State),
    CommitingAndQueued(&'a State),
}

impl ManagerState {
    /// Nothing is under way, and nothing is wanted.
    pub fn new(confirmed_state: State) -> (state: Self)
        ensures
            state@ == (ManagerStateView {
                confirmed: confirmed_state@,
                pending: false,
                commiting: None,
            }),
    {
        ManagerState { confirmed_state, commit_is_pending: false, commiting_state: None }
    }

    /// Whether a commit was started, and whether another one is wanted.
    pub fn commiting_state<'a>(&'a self) -> (state: ManagerCommitState<'a>)
        ensures
            match (self@.commiting, self@.pending) {
                (None, false) => state is Idle,
                (None, true) => state is Pending,
                (Some(val), false) => state matches ManagerCommitState::Commiting(s) && s@ == val,
                (Some(val), true) => state matches ManagerCommitState::CommitingAndQueued(s) && s@
                    == val,
            },
    {
        match &self.commiting_state {
            None => if self.commit_is_pending {
                ManagerCommitState::Pending
            } else {
                ManagerCommitState::Idle
            },
            Some(val) => if self.commit_is_pending {
                ManagerCommitState::CommitingAndQueued(val)
            } else {
                ManagerCommitState::Commiting(val)
            },
        }
    }
}

/// What becomes of the timer.
#[derive(Clone, Copy, Debug, PartialEq, Eq, Structural)]
pub enum TimerStep {
    Keep,
    Arm,
    Disarm,
}

/// What has to be done after an event.
#[derive(Debug)]
pub struct ManagerStep {
    pub timer: TimerStep,
    /// The state that a commit has to be started for.
    pub commit: Option<State>,
    /// Whether the state of the manager has to be shown to the outside.
    pub publish: bool,
}

/// The manager. `L` is what the outcome of a commit is reported to.
#[derive(Debug)]
pub struct Manager<L> {
    state: ManagerState,
    timer_armed: bool,
    current_listeners: Vec<L>,
    queued_listeners: Vec<L>,
}

/// The manager, as mathematical data.
pub struct ManagerView<L> {
    pub state: ManagerStateView,
    pub timer_armed: bool,
    pub current: Seq<L>,
    pub queued: Seq<L>,
}

impl<L> View for Manager<L> {
    type V = ManagerView<L>;

    closed spec fn view(&self) -> ManagerView<L> {
        ManagerView {
            state: self.state@,
            timer_armed: self.timer_armed,
            current: self.current_listeners@,
            queued: self.queued_listeners@,
        }
    }
}

/// A sequence with an item more, if there is one.
pub open spec fn with_listener<L>(listeners: Seq<L>, listener: Option<L>) -> Seq<L> {
    match listener {
        Some(l) => listeners.push(l),
        None => listeners,
    }
}

impl<L> ManagerView<L> {
    /// The timer runs exactly while a commit is wanted and none was started.
    pub open spec fn wf(self) -> bool {
        self.timer_armed <==> self.state.commiting is None && self.state.pending
    }

    /// A commit of the given state is started.
    pub open spec fn commiting(self, local: StateView) -> Self {
        ManagerView {
            state: ManagerStateView { commiting: Some(local), ..self.state },
            timer_armed: false,
            ..self
        }
    }

    /// The manager after a command, while the local state is `local`.
    pub open spec fn commanded(
        self,
        kind: ManagerCommandKind,
        listener: Option<L>,
        local: StateView,
    ) -> Self {
        if self.state.commiting is Some {
            ManagerView {
                state: ManagerStateView { pending: true, ..self.state },
                queued: with_listener(self.queued, listener),
                ..self
            }
        } else {
            let listening = ManagerView { current: with_listener(self.current, listener), ..self };
            if kind == ManagerCommandKind::StartNow {
                listening.commiting(local)
            } else if self.state.pending {
                listening
            } else {
                ManagerView {
                    state: ManagerStateView { pending: true, ..self.state },
                    timer_armed: true,
                    ..listening
                }
            }
        }
    }

    /// The manager after a commit came to its end, while the local state is `local`. Where
    /// another commit is wanted, it starts at once. Where none is wanted, the commit that came to
    /// its end stays noted down as the one that was started, and no later command starts another.
    pub open spec fn finished(self, local: StateView) -> Self {
        let reported = ManagerView { current: Seq::empty(), ..self };
        if self.state.pending {
            ManagerView {
                state: ManagerStateView {
                    pending: false,
                    commiting: Some(local),
                    ..self.state
                },
                ..reported
            }
        } else {
            reported
        }
    }
}

/// What a local state becomes once a state that it started from is committed.
pub open spec fn without_commited(local: StateView, commited: StateView) -> StateView {
    StateView { changes: local.changes.skip(commited.changes.len() as int), ..local }
}

impl<L> Manager<L> {
    /// A manager with nothing to do.
    pub fn new(confirmed_state: State) -> (manager: Self)
        ensures
            manager@ == (ManagerView {
                state: ManagerStateView {
                    confirmed: confirmed_state@,
                    pending: false,
                    commiting: None,
                },
                timer_armed: false,
                current: Seq::<L>::empty(),
                queued: Seq::<L>::empty(),
            }),
            manager@.wf(),
    {
        Manager {
            state: ManagerState::new(confirmed_state),
            timer_armed: false,
            current_listeners: Vec::new(),
            queued_listeners: Vec::new(),
        }
    }

    /// What the manager shows to the outside.
    pub fn state(&self) -> (state: &ManagerState)
        ensures
            state@ == self@.state,
    {
        &self.state
    }

    /// A command came in while the local state was `local`.
    pub fn on_command(&mut self, command: ManagerCommand<L>, local: &State) -> (step: ManagerStep)
        requires
            old(self)@.wf(),
        ensures
            final(self)@ == old(self)@.commanded(command.kind, command.result_return, local@),
            final(self)@.wf(),
            ({
                let before = old(self)@;
                let idle = before.state.commiting is None;
                let start = idle && command.kind == ManagerCommandKind::StartNow;
                &&& step.timer == (if start {
                    TimerStep::Disarm
                } else if idle && !before.state.pending {
                    TimerStep::Arm
                } else {
                    TimerStep::Keep
                })
                &&& match step.commit {
                    Some(state) => start && state@ == local@ && (local.wf() ==> state.wf()),
                    None => !start,
                }
                &&& step.publish == (idle || !before.state.pending)
            }),
    {
        if self.state.commiting_state.is_some() {
            let publish = !self.state.commit_is_pending;
            self.state.commit_is_pending = true;
            if let Some(resp) = command.result_return {
                self.queued_listeners.push(resp);
            }
            ManagerStep { timer: TimerStep::Keep, commit: None, publish }
        } else {
            if let Some(resp) = command.result_return {
                self.current_listeners.push(resp);
            }
            if command.kind == ManagerCommandKind::StartNow {
                self.timer_armed = false;
                let state_to_commit = local.clone();
                self.state.commiting_state = Some(state_to_commit.clone());
                ManagerStep {
                    timer: TimerStep::Disarm,
                    commit: Some(state_to_commit),
                    publish: true,
                }
            } else if !self.state.commit_is_pending {
                self.state.commit_is_pending = true;
                self.timer_armed = true;
                ManagerStep { timer: TimerStep::Arm, commit: None, publish: true }
            } else {
                ManagerStep { timer: TimerStep::Keep, commit: None, publish: true }
            }
        }
    }

    /// The commit that was under way came to its end. What it covered is taken from the local
    /// state. Hands out the listeners that the outcome is to be reported to.
    pub fn on_commit_finished(&mut self, local: &mut State) -> (result: (Vec<L>, ManagerStep))
        requires
            old(self)@.wf(),
            old(self)@.state.commiting matches Some(commited) && commited.changes.len()
                <= old(local)@.changes.len(),
        ensures
            final(local)@ == without_commited(
                old(local)@,
                old(self)@.state.commiting->Some_0,
            ),
            old(local).wf() ==> final(local).wf(),
            final(self)@ == old(self)@.finished(final(local)@),
            final(self)@.wf(),
            result.0@ == old(self)@.current,
            result.1.timer == TimerStep::Keep,
            match result.1.commit {
                Some(state) => {
                    &&& old(self)@.state.pending
                    &&& state@ == final(local)@
                    &&& final(local).wf() ==> state.wf()
                },
                None => !old(self)@.state.pending,
            },
            result.1.publish,
    {
        if let Some(commited) = &self.state.commiting_state {
            local.update_by_commited(commited);
        }
        let mut commit = None;
        if self.state.commit_is_pending {
            self.state.commit_is_pending = false;
            let state_to_commit = local.clone();
            self.state.commiting_state = Some(state_to_commit.clone());
            commit = Some(state_to_commit);
        }
        let mut listeners: Vec<L> = Vec::new();
        listeners.append(&mut self.current_listeners);
        (listeners, ManagerStep { timer: TimerStep::Keep, commit, publish: true })
    }

    /// The timer fired while the local state was `local`.
    pub fn on_timer(&mut self, local: &State) -> (step: ManagerStep)
        requires
            old(self)@.wf(),
            old(self)@.timer_armed,
        ensures
            final(self)@ == old(self)@.commiting(local@),
            final(self)@.wf(),
            step.timer == TimerStep::Disarm,
            step.commit matches Some(state) && state@ == local@ && (local.wf() ==> state.wf()),
            !step.publish,
    {
        self.timer_armed = false;
        let state_to_commit = local.clone();
        self.state.commiting_state = Some(state_to_commit.clone());
        ManagerStep { timer: TimerStep::Disarm, commit: Some(state_to_commit), publish: false }
    }
}

/// No command starts a commit while one is under way: the commit under way stays what it is, and
/// the command is noted down for later.
pub proof fn one_commit_at_a_time<L>(
    manager: ManagerView<L>,
    kind: ManagerCommandKind,
    listener: Option<L>,
    local: StateView,
)
    requires
        manager.wf(),
        manager.state.commiting is Some,
    ensures
        manager.commanded(kind, listener, local).state.commiting == manager.state.commiting,
        manager.commanded(kind, listener, local).state.pending,
        !manager.timer_armed,
{
}

/// A command that comes in while a commit is under way leads to another commit when that one has
/// come to its end, and that commit is of the local state at that time. A commit that came to
/// its end already is not under way any more, though it stays noted down: no end follows then.
pub proof fn a_queued_command_is_served<L>(
    manager: ManagerView<L>,
    kind: ManagerCommandKind,
    listener: Option<L>,
    local: StateView,
    later: StateView,
)
    requires
        manager.wf(),
        manager.state.commiting is Some,
    ensures
        manager.commanded(kind, listener, local).finished(later).state.commiting == Some(later),
        !manager.commanded(kind, listener, local).finished(later).state.pending,
{
}

/// After a commit came to its end with nothing wanted, it stays noted down: later commands are
/// kept as wanted, and neither start a commit nor the timer.
pub proof fn commands_wait_after_an_end_with_nothing_wanted<L>(
    manager: ManagerView<L>,
    local: StateView,
    kind: ManagerCommandKind,
    listener: Option<L>,
    later: StateView,
)
    requires
        manager.wf(),
        manager.state.commiting is Some,
        !manager.state.pending,
    ensures
        ({
            let ended = manager.finished(local);
            let after = ended.commanded(kind, listener, later);
            &&& ended.wf()
            &&& ended.state == manager.state
            &&& after.state.commiting == manager.state.commiting
            &&& after.state.pending
            &&& !after.timer_armed
            &&& after.current == Seq::<L>::empty()
            &&& after.queued == with_listener(manager.queued, listener)
        }),
{
}

/// Where no commit was started, a command leads to a commit: at once, or when the timer fires.
pub proof fn a_command_is_served<L>(
    manager: ManagerView<L>,
    kind: ManagerCommandKind,
    listener: Option<L>,
    local: StateView,
)
    requires
        manager.wf(),
        manager.state.commiting is None,
    ensures
        ({
            let after = manager.commanded(kind, listener, local);
            after.state.commiting == Some(local) || after.timer_armed
        }),
{
}

/// The commit that is under way covers the first changes of the local state.
pub open spec fn covers<L>(manager: ManagerView<L>, local: StateView) -> bool {
    manager.state.commiting matches Some(commiting) ==> commiting.changes.is_prefix_of(local.changes)
}

/// Whatever happens, the commit that is under way covers the first changes of the local state:
/// when a command comes in, when the timer fires, when a change is performed, and when a commit
/// comes to its end and the next one starts.
pub proof fn the_commit_stays_covered<L>(
    manager: ManagerView<L>,
    local: StateView,
    kind: ManagerCommandKind,
    listener: Option<L>,
    change: ChangeView,
)
    requires
        manager.wf(),
        covers(manager, local),
    ensures
        covers(manager.commanded(kind, listener, local), local),
        covers(manager.commiting(local), local),
        covers(manager, StateView { changes: local.changes.push(change), ..local }),
        manager.state.pending ==> (manager.state.commiting matches Some(commited) ==> covers(
            manager.finished(without_commited(local, commited)),
            without_commited(local, commited),
        )),
{
    assert(local.changes.is_prefix_of(local.changes));
    if let Some(commiting) = manager.state.commiting {
        assert(commiting.changes =~= local.changes.push(change).subrange(
            0,
            commiting.changes.len() as int,
        ));
        let rest = without_commited(local, commiting);
        assert(rest.changes.is_prefix_of(rest.changes));
    }
}

/// The end of a commit takes from the local state the changes that the commit covered, and no
/// others.
pub proof fn a_commit_takes_what_it_covered(commited: StateView, local: StateView)
    requires
        commited.changes.is_prefix_of(local.changes),
    ensures
        local.changes == commited.changes + without_commited(local, commited).changes,
        without_commited(local, commited).contents == local.contents,
{
    assert(local.changes =~= commited.changes + without_commited(local, commited).changes);
}

/// No listener is dropped: a command keeps every listener there was, and its own. The end of a
/// commit gives out the current listeners, for the outcome to be reported to them. It keeps the
/// queued ones, which are not reported to.
pub proof fn no_listener_is_lost<L>(
    manager: ManagerView<L>,
    kind: ManagerCommandKind,
    listener: Option<L>,
    local: StateView,
)
    ensures
        ({
            let after = manager.commanded(kind, listener, local);
            (after.current + after.queued).to_multiset() == with_listener(
                manager.current + manager.queued,
                listener,
            ).to_multiset()
        }),
        manager.finished(local).queued == manager.queued,
        manager.finished(local).current == Seq::<L>::empty(),
{
    broadcast use vstd::seq_lib::group_to_multiset_ensures;

    let after = manager.commanded(kind, listener, local);
    if let Some(l) = listener {
        vstd::seq_lib::lemma_multiset_commutative(manager.current, manager.queued);
        vstd::seq_lib::lemma_multiset_commutative(after.current, after.queued);
        assert((manager.current + manager.queued).push(l).to_multiset() =~= (manager.current
            + manager.queued).to_multiset().insert(l));
        assert(manager.current.push(l).to_multiset() =~= manager.current.to_multiset().insert(l));
        assert(manager.queued.push(l).to_multiset() =~= manager.queued.to_multiset().insert(l));
        assert((after.current + after.queued).to_multiset() =~= (manager.current
            + manager.queued).to_multiset().insert(l));
    } else {
        assert(after.current + after.queued =~= manager.current + manager.queued);
    }
}

/// A command to commit in some time, while no commit was started, starts none: the timer runs, and
/// the listener waits with the current ones.
pub proof fn an_enqueued_command_waits_for_the_timer<L>(
    manager: ManagerView<L>,
    listener: Option<L>,
    local: StateView,
)
    requires
        manager.wf(),
        manager.state.commiting is None,
    ensures
        manager.commanded(ManagerCommandKind::Enqueue, listener, local) == (ManagerView {
            state: ManagerStateView {
                confirmed: manager.state.confirmed,
                pending: true,
                commiting: None,
            },
            timer_armed: true,
            current: match listener {
                Some(l) => manager.current.push(l),
                None => manager.current,
            },
            queued: manager.queued,
        }),
{
}

/// A command to commit at once, while no commit was started, starts a commit of the local state and
/// stops the timer. What was wanted before stays wanted, and the listener waits for this commit.
pub proof fn a_command_to_start_starts_at_once<L>(
    manager: ManagerView<L>,
    listener: Option<L>,
    local: StateView,
)
    requires
        manager.wf(),
        manager.state.commiting is None,
    ensures
        manager.commanded(ManagerCommandKind::StartNow, listener, local) == (ManagerView {
            state: ManagerStateView {
                confirmed: manager.state.confirmed,
                pending: manager.state.pending,
                commiting: Some(local),
            },
            timer_armed: false,
            current: match listener {
                Some(l) => manager.current.push(l),
                None => manager.current,
            },
            queued: manager.queued,
        }),
{
}

/// A command that comes in once a commit was started is wanted for later, whatever its kind. Its
/// listener is queued, and nothing else changes.
pub proof fn a_command_during_a_commit_is_queued<L>(
    manager: ManagerView<L>,
    kind: ManagerCommandKind,
    listener: Option<L>,
    local: StateView,
)
    requires
        manager.wf(),
        manager.state.commiting is Some,
    ensures
        manager.commanded(kind, listener, local) == (ManagerView {
            state: ManagerStateView {
                confirmed: manager.state.confirmed,
                pending: true,
                commiting: manager.state.commiting,
            },
            timer_armed: false,
            current: manager.current,
            queued: match listener {
                Some(l) => manager.queued.push(l),
                None => manager.queued,
            },
        }),
{
}

/// When the timer fires, a commit of the local state is started and the timer stops. What is wanted
/// stays wanted, and nobody stops listening.
pub proof fn the_timer_starts_a_commit<L>(manager: ManagerView<L>, local: StateView)
    requires
        manager.wf(),
        manager.timer_armed,
    ensures
        manager.commiting(local) == (ManagerView {
            state: ManagerStateView {
                confirmed: manager.state.confirmed,
                pending: true,
                commiting: Some(local),
            },
            timer_armed: false,
            current: manager.current,
            queued: manager.queued,
        }),
{
}

/// The end of a commit starts the next one of the local state exactly where one is wanted, which is
/// wanted no longer then. The timer and the confirmed state stay as they were, and so do the queued
/// listeners.
pub proof fn the_end_of_a_commit_starts_the_next_one<L>(manager: ManagerView<L>, local: StateView)
    ensures
        manager.finished(local) == (ManagerView {
            state: ManagerStateView {
                confirmed: manager.state.confirmed,
                pending: false,
                commiting: if manager.state.pending {
                    Some(local)
                } else {
                    manager.state.commiting
                },
            },
            timer_armed: manager.timer_armed,
            current: Seq::empty(),
            queued: manager.queued,
        }),
{
}

/// The end of a commit leaves the revision and the contents of the local state as they were, and
/// drops as many changes as the commit covered, the oldest first.
pub proof fn a_commit_drops_the_oldest_changes(local: StateView, commited: StateView)
    requires
        commited.changes.len() <= local.changes.len(),
    ensures
        ({
            let left = without_commited(local, commited);
            &&& left.rev == local.rev
            &&& left.contents == local.contents
            &&& left.changes.len() + commited.changes.len() == local.changes.len()
            &&& forall|i: int|
                0 <= i < left.changes.len() ==> #[trigger] left.changes[i] == local.changes[i
                    + commited.changes.len()]
        }),
{
}

} // verus!
