use ffs::backend::{
    BackendError, BackendKind, BackendStat, InitError, InitFailure, UploadError,
};
use ffs::commit::{Commit, CommitError, CommitEvent, CommitStage, CommitStep};
use ffs::file_tree::{BlobLocator, Extent, FileInode};
use ffs::leases::ActiveLeases;
use ffs::prelude::InodePath;
use ffs::state::{BackendMeta, State, StateChange};
use ffs::state_manager::{
    Manager, ManagerCommand, ManagerCommitState, ManagerState, TimerStep, COMMIT_TIMEOUT,
};

fn backend() -> StateChange {
    StateChange::AddedBackend(BackendMeta {
        kind: BackendKind::GoogleDrive,
        stat: BackendStat { used: 0, total: 1000 },
    })
}

/// A state with two backends and a file on both of them.
fn state_with_file() -> State {
    let mut state = State::default();
    state.perform_change(backend()).unwrap();
    state.perform_change(backend()).unwrap();
    let extent = |backend_id, uuid| Extent { length: 10, locator: BlobLocator { backend_id, uuid } };
    state
        .perform_change(StateChange::UploadFile {
            source_file: 1,
            path: InodePath::from_str("f").unwrap(),
            file_inode: FileInode {
                length: 30,
                extents: vec![extent(2, 21), extent(1, 22), extent(2, 23)],
            },
        })
        .unwrap();
    state
}

fn commit(state: State) -> Commit {
    let plan = state.upload_plan_at(100);
    Commit::with_plan(state, plan)
}

fn upload_failed() -> BackendError<UploadError> {
    BackendError::new(2, UploadError::OutOfSpace)
}

#[test]
fn a_commit_runs_to_its_end() {
    let mut commit = commit(state_with_file());
    let mut leases = ActiveLeases::default();
    assert_eq!(commit.stage(), CommitStage::Leasing);
    assert_eq!(commit.actions().len(), 3);
    assert_eq!(commit.lease().blobs.len(), 3);
    assert_eq!(commit.state().rev(), 0);
    let step = commit.advance(CommitEvent::Leased(Ok(77)), &mut leases);
    assert!(matches!(step, CommitStep::OpenBackend(1)));
    assert_eq!(leases.all_entries().len(), 3);
    let step = commit.advance(CommitEvent::Opened(Ok(())), &mut leases);
    assert!(matches!(step, CommitStep::OpenBackend(2)));
    let step = commit.advance(CommitEvent::Opened(Ok(())), &mut leases);
    assert!(matches!(step, CommitStep::Upload));
    for _ in 0..2 {
        let step = commit.advance(CommitEvent::Uploaded(Ok(())), &mut leases);
        assert!(matches!(step, CommitStep::Wait));
    }
    let step = commit.advance(CommitEvent::Uploaded(Ok(())), &mut leases);
    assert!(matches!(step, CommitStep::SaveState));
    assert_eq!(commit.stage(), CommitStage::Saving);
    let step = commit.advance(CommitEvent::Saved(Ok(())), &mut leases);
    assert!(matches!(step, CommitStep::Finished(Ok(()))));
    assert_eq!(commit.stage(), CommitStage::Done);
}

#[test]
fn a_commit_without_uploads_only_saves_the_state() {
    let mut commit = commit(State::default());
    let mut leases = ActiveLeases::default();
    let step = commit.advance(CommitEvent::Leased(Ok(1)), &mut leases);
    assert!(matches!(step, CommitStep::SaveState));
    let step = commit.advance(CommitEvent::Saved(Err(upload_failed())), &mut leases);
    assert!(matches!(step, CommitStep::Finished(Err(CommitError::SetState(_)))));
}

#[test]
fn a_commit_fails_without_a_lease() {
    let mut commit = commit(state_with_file());
    let mut leases = ActiveLeases::default();
    let step = commit.advance(CommitEvent::Leased(Err(upload_failed())), &mut leases);
    assert!(matches!(step, CommitStep::Finished(Err(CommitError::AddLease(_)))));
    assert!(leases.all_entries().is_empty());
    assert_eq!(commit.stage(), CommitStage::Done);
}

#[test]
fn a_commit_fails_without_its_backends() {
    let mut commit = commit(state_with_file());
    let mut leases = ActiveLeases::default();
    commit.advance(CommitEvent::Leased(Ok(1)), &mut leases);
    let failed = BackendError::new(1, InitError(InitFailure::BackendRejected));
    let step = commit.advance(CommitEvent::Opened(Err(failed)), &mut leases);
    assert!(matches!(
        step,
        CommitStep::Finished(Err(CommitError::GetBackend(e))) if e.backend_id == 1
    ));
    assert_eq!(leases.all_entries().len(), 3);
}

#[test]
fn a_commit_fails_with_its_first_failed_upload() {
    for error in [
        CommitError::no_source_file("gone".to_string()),
        CommitError::ChunkUpload(upload_failed()),
        CommitError::Io("short".to_string()),
    ] {
        let mut commit = commit(state_with_file());
        let mut leases = ActiveLeases::default();
        commit.advance(CommitEvent::Leased(Ok(1)), &mut leases);
        commit.advance(CommitEvent::Opened(Ok(())), &mut leases);
        commit.advance(CommitEvent::Opened(Ok(())), &mut leases);
        commit.advance(CommitEvent::Uploaded(Ok(())), &mut leases);
        let text = error.message();
        match commit.advance(CommitEvent::Uploaded(Err(error)), &mut leases) {
            CommitStep::Finished(Err(e)) => assert_eq!(e.message(), text),
            _ => panic!("the commit goes on"),
        }
    }
}

#[test]
fn a_commit_taken_now_covers_its_blobs() {
    let commit = Commit::new(state_with_file()).unwrap();
    assert_eq!(commit.actions().len(), 3);
    let sizes: Vec<u64> = commit.lease().blobs.iter().map(|b| b.size).collect();
    assert_eq!(sizes, vec![10, 10, 10]);
}

#[test]
fn commit_errors_are_worded() {
    let init = BackendError::new(1, InitError(InitFailure::Other("x".to_string())));
    let words = [
        (CommitError::GetBackend(init), "Failed to initialize a backend"),
        (CommitError::AddLease(upload_failed()), "Failed to register a new lease"),
        (
            CommitError::no_source_file("x".to_string()),
            "Tried to upload data from a non existing file",
        ),
        (CommitError::ChunkUpload(upload_failed()), "Failed to upload a chunk"),
        (CommitError::SetState(upload_failed()), "Failed to upload local state"),
        (CommitError::Io("broken pipe".to_string()), "broken pipe"),
    ];
    for (error, text) in words {
        assert_eq!(error.message(), text);
    }
}

#[test]
fn the_manager_shows_what_it_does() {
    let state = ManagerState::new(State::default());
    assert!(matches!(state.commiting_state(), ManagerCommitState::Idle));
    let local = state_with_file();
    let mut manager: Manager<u8> = Manager::new(State::default());
    manager.on_command(ManagerCommand::enqueue(None), &local);
    assert!(matches!(manager.state().commiting_state(), ManagerCommitState::Pending));
    manager.on_timer(&local);
    assert!(matches!(
        manager.state().commiting_state(),
        ManagerCommitState::CommitingAndQueued(s) if s.performed_changes.len() == 3
    ));
    let mut manager: Manager<u8> = Manager::new(State::default());
    manager.on_command(ManagerCommand::start_now(None), &local);
    assert!(matches!(manager.state().commiting_state(), ManagerCommitState::Commiting(_)));
    assert_eq!(manager.state().clone().confirmed_state.rev(), 0);
}

#[test]
fn an_enqueued_commit_waits_for_the_timer() {
    assert_eq!(COMMIT_TIMEOUT, 5);
    let mut local = state_with_file();
    let mut manager: Manager<u8> = Manager::new(State::default());
    let step = manager.on_command(ManagerCommand::enqueue(Some(1)), &local);
    assert_eq!(step.timer, TimerStep::Arm);
    assert!(step.commit.is_none());
    assert!(step.publish);
    // A second request neither starts the commit nor sets back the timer.
    let step = manager.on_command(ManagerCommand::enqueue(Some(2)), &local);
    assert_eq!(step.timer, TimerStep::Keep);
    assert!(step.commit.is_none());
    let step = manager.on_timer(&local);
    assert_eq!(step.timer, TimerStep::Disarm);
    assert_eq!(step.commit.unwrap().performed_changes.len(), 3);
    assert!(!step.publish);
    local.perform_change(backend()).unwrap();
    // The request is still noted down, so another commit follows.
    let (listeners, step) = manager.on_commit_finished(&mut local);
    assert_eq!(listeners, vec![1, 2]);
    assert_eq!(local.performed_changes.len(), 1);
    assert_eq!(step.commit.unwrap().performed_changes.len(), 1);
    assert!(step.publish);
    let (listeners, step) = manager.on_commit_finished(&mut local);
    assert!(listeners.is_empty());
    assert!(step.commit.is_none());
    assert!(local.performed_changes.is_empty());
}

#[test]
fn a_commit_that_starts_now_stops_the_timer() {
    let local = state_with_file();
    let mut manager: Manager<u8> = Manager::new(State::default());
    manager.on_command(ManagerCommand::enqueue(Some(1)), &local);
    let step = manager.on_command(ManagerCommand::start_now(Some(2)), &local);
    assert_eq!(step.timer, TimerStep::Disarm);
    assert_eq!(step.commit.unwrap().performed_changes.len(), 3);
    assert!(step.publish);
}

#[test]
fn commands_wait_while_a_commit_is_under_way() {
    let mut local = state_with_file();
    let mut manager: Manager<u8> = Manager::new(State::default());
    manager.on_command(ManagerCommand::start_now(Some(1)), &local);
    let step = manager.on_command(ManagerCommand::start_now(Some(2)), &local);
    assert_eq!(step.timer, TimerStep::Keep);
    assert!(step.commit.is_none());
    assert!(step.publish);
    let step = manager.on_command(ManagerCommand::enqueue(Some(3)), &local);
    assert!(step.commit.is_none());
    assert!(!step.publish);
    let (listeners, step) = manager.on_commit_finished(&mut local);
    assert_eq!(listeners, vec![1]);
    assert!(step.commit.is_some());
    assert!(matches!(manager.state().commiting_state(), ManagerCommitState::Commiting(_)));
}

#[test]
fn a_commit_depends_on_what_the_clock_shows() {
    let commit = Commit::new_by(state_with_file(), Some(400)).unwrap();
    assert_eq!(commit.actions().len(), 3);
    assert_eq!(commit.lease().valid_until_unix, 22000);
    assert_eq!(commit.stage(), CommitStage::Leasing);
    assert!(Commit::new_by(state_with_file(), None).is_none());
    assert!(Commit::new_by(state_with_file(), Some(u64::MAX)).is_none());
}
