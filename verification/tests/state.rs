use ffs::backend::{BackendKind, BackendStat};
use ffs::file_tree::{BlobLocator, Extent, FileInode, FileTree, FileTreeEntry};
use ffs::lease::{Lease, LeaseEntry, LEASE_DURATION};
use ffs::prelude::InodePath;
use ffs::state::{BackendMeta, State, StateChange, StateError};

fn path(text: &str) -> InodePath {
    InodePath::from_str(text).unwrap()
}

fn backend(used: u64, total: u64) -> BackendMeta {
    BackendMeta { kind: BackendKind::GoogleDrive, stat: BackendStat { used, total } }
}

fn extent(backend_id: u32, uuid: u128, length: u64) -> Extent {
    Extent { length, locator: BlobLocator { backend_id, uuid } }
}

fn upload(source_file: u128, at: &str, extents: Vec<Extent>) -> StateChange {
    let length = extents.iter().map(|e| e.length).sum();
    StateChange::UploadFile {
        source_file,
        path: path(at),
        file_inode: FileInode { length, extents },
    }
}

/// A state with one backend of a hundred bytes.
fn small_state() -> State {
    let mut state = State::default();
    state.perform_change(StateChange::AddedBackend(backend(0, 100))).unwrap();
    state
}

fn used(state: &State, id: u32) -> u64 {
    state.get_backend(id).unwrap().stat.used
}

#[test]
fn the_first_state_is_empty() {
    let state = State::default();
    assert_eq!(state.rev(), 0);
    assert!(state.get_backend(0).is_none());
    assert!(state.get_backend(1).is_none());
    assert!(state.performed_changes.is_empty());
    assert!(state.file_tree.entries().is_empty());
}

#[test]
fn a_child_has_the_next_revision_and_no_changes() {
    let state = small_state();
    let child = state.new_child();
    assert_eq!(child.rev(), 1);
    assert!(child.performed_changes.is_empty());
    assert_eq!(child.get_backend(1).unwrap().stat.total, 100);
}

#[test]
fn backends_get_ascending_ids() {
    let mut state = State::default();
    for total in [10, 20, 30] {
        state.perform_change(StateChange::AddedBackend(backend(0, total))).unwrap();
    }
    assert!(state.get_backend(0).is_none());
    assert_eq!(state.get_backend(1).unwrap().stat.total, 10);
    assert_eq!(state.get_backend(2).unwrap().stat.total, 20);
    assert_eq!(state.get_backend(3).unwrap().stat.total, 30);
    state.perform_change(StateChange::RemovedBackend(2)).unwrap();
    state.perform_change(StateChange::AddedBackend(backend(0, 40))).unwrap();
    assert!(state.get_backend(2).is_none());
    assert_eq!(state.get_backend(4).unwrap().stat.total, 40);
}

#[test]
fn backend_ids_run_out() {
    let mut state = State::default();
    state.backends.insert(u32::MAX, backend(0, 1));
    let result = state.perform_change(StateChange::AddedBackend(backend(0, 1)));
    assert_eq!(result, Err(StateError::OutOfBackendIds));
    assert!(state.performed_changes.is_empty());
}

#[test]
fn only_an_empty_backend_can_be_removed() {
    let mut state = small_state();
    assert_eq!(
        state.perform_change(StateChange::RemovedBackend(7)),
        Err(StateError::BackendNotFound)
    );
    state.perform_change(upload(1, "a", vec![extent(1, 5, 10)])).unwrap();
    assert_eq!(
        state.perform_change(StateChange::RemovedBackend(1)),
        Err(StateError::BackendNotEmpty)
    );
    state.perform_change(StateChange::RemoveFile(path("a"))).unwrap();
    state.perform_change(StateChange::RemovedBackend(1)).unwrap();
    assert!(state.get_backend(1).is_none());
    assert_eq!(state.performed_changes.len(), 4);
}

#[test]
fn uploading_charges_the_backends() {
    let mut state = small_state();
    state.perform_change(StateChange::AddedBackend(backend(5, 50))).unwrap();
    let extents = vec![extent(1, 1, 10), extent(2, 2, 20), extent(1, 3, 30)];
    state.perform_change(upload(9, "/file/", extents)).unwrap();
    assert_eq!(used(&state, 1), 40);
    assert_eq!(used(&state, 2), 25);
    let (name, entry) = &state.file_tree.entries()[0];
    assert_eq!(name, "file");
    assert!(matches!(entry, FileTreeEntry::File(inode) if inode.length == 60));
}

#[test]
fn refused_uploads_change_nothing() {
    let mut state = small_state();
    state.perform_change(upload(1, "a", vec![extent(1, 1, 60)])).unwrap();
    let cases = vec![
        (upload(2, "a", vec![]), StateError::FileExists),
        (upload(2, "b", vec![extent(1, 2, 41)]), StateError::BackendOutOfSpace),
        (upload(2, "b", vec![extent(1, 2, u64::MAX)]), StateError::BackendOutOfSpace),
        (upload(2, "b", vec![extent(1, 2, 1), extent(3, 2, 1)]), StateError::BackendNotFound),
        (upload(2, "x/b", vec![]), StateError::BrokenPath),
        (upload(2, "a/b", vec![]), StateError::BrokenPath),
        (upload(2, "/", vec![]), StateError::PathEmpty),
    ];
    for (change, why) in cases {
        assert_eq!(state.perform_change(change), Err(why));
        assert_eq!(used(&state, 1), 60);
        assert_eq!(state.performed_changes.len(), 2);
        assert_eq!(state.file_tree.entries().len(), 1);
    }
    state.perform_change(upload(2, "b", vec![extent(1, 2, 40)])).unwrap();
    assert_eq!(used(&state, 1), 100);
}

#[test]
fn removing_a_file_refunds_its_backends() {
    let mut state = small_state();
    state.perform_change(upload(1, "a", vec![extent(1, 1, 60), extent(1, 2, 5)])).unwrap();
    state.perform_change(StateChange::RemoveFile(path("a"))).unwrap();
    assert_eq!(used(&state, 1), 0);
    assert!(state.file_tree.entries().is_empty());
    assert_eq!(
        state.perform_change(StateChange::RemoveFile(path("a"))),
        Err(StateError::FileNotFound)
    );
    assert_eq!(
        state.perform_change(StateChange::RemoveFile(path(""))),
        Err(StateError::PathEmpty)
    );
}

#[test]
fn removing_refuses_what_cannot_be_right() {
    let mut state = small_state();
    state.perform_change(upload(1, "a", vec![extent(1, 1, 60)])).unwrap();
    state.backends.insert(1, backend(59, 100));
    assert_eq!(
        state.perform_change(StateChange::RemoveFile(path("a"))),
        Err(StateError::InvalidState)
    );
    state.backends.remove(&1);
    assert_eq!(
        state.perform_change(StateChange::RemoveFile(path("a"))),
        Err(StateError::InvalidState)
    );
    state.file_tree.insert("dir".to_string(), FileTreeEntry::Dir(FileTree::new()));
    assert_eq!(
        state.perform_change(StateChange::RemoveFile(path("dir"))),
        Err(StateError::PathNotAFile)
    );
    assert_eq!(state.file_tree.entries().len(), 2);
}

#[test]
fn files_lie_in_directories() {
    let mut state = small_state();
    let mut sub = FileTree::new();
    sub.insert("sub".to_string(), FileTreeEntry::Dir(FileTree::new()));
    state.file_tree.insert("dir".to_string(), FileTreeEntry::Dir(sub));
    state.perform_change(upload(1, "dir/sub/f", vec![extent(1, 1, 3)])).unwrap();
    let sub = state.resolve_dir(&path("dir/sub/anything")).unwrap();
    assert!(sub.get("f").is_some());
    assert!(matches!(state.resolve_dir(&path("dir/none/f")), Err(StateError::BrokenPath)));
    assert_eq!(state.resolve_dir(&path("")).unwrap().entries().len(), 1);
    state.perform_change(StateChange::RemoveFile(path("dir/sub/f"))).unwrap();
    assert!(state.resolve_dir(&path("dir/sub/f")).unwrap().get("f").is_none());
}

#[test]
fn paths_are_resolved() {
    let mut state = small_state();
    state.perform_change(upload(1, "a", vec![])).unwrap();
    assert!(matches!(state.resolve_path(&path("a")), Ok(FileTreeEntry::File(_))));
    assert!(matches!(state.resolve_path(&path("b")), Err(StateError::BrokenPath)));
    assert!(matches!(state.resolve_path(&path("")), Err(StateError::PathEmpty)));
    // The last name is looked up where the name before it lies.
    let mut dir = FileTree::new();
    dir.insert("f".to_string(), FileTreeEntry::Dir(FileTree::new()));
    state.file_tree.insert("dir".to_string(), FileTreeEntry::Dir(dir));
    assert!(matches!(state.resolve_path(&path("dir/f")), Err(StateError::BrokenPath)));
    assert!(matches!(state.resolve_path(&path("dir/a")), Ok(FileTreeEntry::File(_))));
    assert!(matches!(state.resolve_path(&path("dir/any/f")), Ok(FileTreeEntry::Dir(_))));
}

#[test]
fn names_are_kept_in_order() {
    let mut tree = FileTree::new();
    for name in ["b", "a", "ab", "", "ä", "B"] {
        assert!(tree
            .insert(name.to_string(), FileTreeEntry::Dir(FileTree::new()))
            .is_none());
    }
    let names: Vec<&str> = tree.entries().iter().map(|e| e.0.as_str()).collect();
    assert_eq!(names, vec!["", "B", "a", "ab", "b", "ä"]);
    let file = FileInode { length: 1, extents: vec![] };
    assert!(matches!(
        tree.insert("ab".to_string(), FileTreeEntry::File(file)),
        Some(FileTreeEntry::Dir(_))
    ));
    assert!(matches!(tree.get("ab"), Some(FileTreeEntry::File(_))));
    assert!(matches!(tree.remove("ab"), Some(FileTreeEntry::File(_))));
    assert!(tree.remove("ab").is_none());
    assert_eq!(tree.entries().len(), 5);
}

#[test]
fn the_upload_plan_is_ordered_by_path() {
    let mut state = small_state();
    state.perform_change(upload(7, "b", vec![extent(1, 1, 10), extent(1, 2, 5)])).unwrap();
    state.perform_change(upload(8, "a", vec![extent(1, 3, 20)])).unwrap();
    state.perform_change(upload(9, "c", vec![extent(1, 4, 1)])).unwrap();
    state.perform_change(StateChange::RemoveFile(path("c"))).unwrap();
    assert!(state.upload_offsets_fit());
    let plan = state.upload_plan_at(1000);
    let actions: Vec<(u128, u128, u64, u64)> = plan
        .actions
        .iter()
        .map(|b| (b.source_file, b.locator.uuid, b.offset, b.length))
        .collect();
    assert_eq!(actions, vec![(8, 3, 0, 20), (7, 1, 0, 10), (7, 2, 10, 5)]);
    assert_eq!(plan.lease.valid_until_unix, 1000 + 6 * 3600);
    let sizes: Vec<u64> = plan.lease.blobs.iter().map(|b| b.size).collect();
    assert_eq!(sizes, vec![20, 10, 5]);
    assert_eq!(plan.lease.blobs[0].locator, BlobLocator { backend_id: 1, uuid: 3 });
}

#[test]
fn a_file_that_is_uploaded_again_is_planned_once() {
    let mut state = small_state();
    state.perform_change(upload(7, "a", vec![extent(1, 1, 10)])).unwrap();
    state.perform_change(StateChange::RemoveFile(path("a"))).unwrap();
    state.perform_change(upload(8, "a", vec![extent(1, 2, 4)])).unwrap();
    let plan = state.upload_plan_at(0);
    assert_eq!(plan.actions.len(), 1);
    assert_eq!(plan.actions[0].source_file, 8);
}

#[test]
fn a_plan_taken_now_ends_in_the_future() {
    let mut state = small_state();
    state.perform_change(upload(7, "a", vec![extent(1, 1, 10)])).unwrap();
    let plan = state.upload_plan().unwrap();
    assert_eq!(plan.actions.len(), 1);
    // The clock has passed the year 2020.
    assert!(plan.lease.valid_until_unix > 1_577_836_800 + LEASE_DURATION);
    assert!(plan.lease.valid_until_unix < 10_000_000_000);
}

#[test]
fn offsets_that_cannot_be_written_down() {
    let mut state = State::default();
    state.performed_changes.push(StateChange::UploadFile {
        source_file: 1,
        path: path("a"),
        file_inode: FileInode {
            length: 0,
            extents: vec![extent(1, 1, u64::MAX), extent(1, 2, 1)],
        },
    });
    assert!(!state.upload_offsets_fit());
}

#[test]
fn a_lease_lasts_six_hours() {
    let entry = LeaseEntry::new(BlobLocator { backend_id: 2, uuid: 3 }, 9);
    let lease = Lease::new_with_blobs_at(vec![entry], 100);
    assert_eq!(lease.valid_until_unix, 21700);
    assert_eq!(lease.blobs, vec![entry]);
    assert!(Lease::new().unwrap().blobs.is_empty());
    assert_eq!(Lease::new_with_blobs(vec![entry]).unwrap().blobs, vec![entry]);
}

#[test]
fn a_commit_takes_its_changes_from_the_local_state() {
    let mut local = small_state();
    let commited = local.clone();
    local.perform_change(upload(1, "a", vec![extent(1, 1, 10)])).unwrap();
    local.update_by_commited(&commited);
    assert_eq!(local.performed_changes.len(), 1);
    assert!(matches!(local.performed_changes[0], StateChange::UploadFile { source_file: 1, .. }));
    assert_eq!(used(&local, 1), 10);
}

#[test]
fn replaying_the_changes_leads_to_the_state() {
    let parent = small_state();
    let mut child = parent.new_child();
    child.perform_change(upload(1, "a", vec![extent(1, 1, 10)])).unwrap();
    child.perform_change(upload(2, "b", vec![extent(1, 2, 20)])).unwrap();
    child.perform_change(StateChange::RemoveFile(path("a"))).unwrap();
    let mut replayed = parent.new_child();
    for change in &child.performed_changes {
        replayed.perform_change(change.clone()).unwrap();
    }
    assert_eq!(used(&replayed, 1), used(&child, 1));
    let names: Vec<&String> = replayed.file_tree.entries().iter().map(|e| &e.0).collect();
    assert_eq!(names, vec!["b"]);
}

#[test]
fn state_errors_are_worded() {
    let words = [
        (StateError::InvalidState, "This state is corrupted"),
        (StateError::OutOfBackendIds, "Ran out of backend ids"),
        (
            StateError::BackendNotFound,
            "Speified backend does not exist or was recently removed",
        ),
        (StateError::BackendNotEmpty, "Speified backend not empty"),
        (
            StateError::BackendOutOfSpace,
            "Backend can't hold the required ammount of new data",
        ),
        (StateError::NoFilenameGiven, "Specified file path contained no filename"),
        (StateError::PathEmpty, "Supplied path is empty"),
        (StateError::BrokenPath, "Supplied file path is broken"),
        (StateError::PathNotAFile, "Path is not a file"),
        (StateError::FileExists, "File with this name already exists"),
        (StateError::FileNotFound, "Specified file doesn't exist"),
    ];
    for (error, text) in words {
        assert_eq!(error.message(), text);
    }
}

#[test]
fn a_lease_depends_on_what_the_clock_shows() {
    let entry = LeaseEntry::new(BlobLocator { backend_id: 2, uuid: 3 }, 9);
    let lease = Lease::new_with_blobs_by(vec![entry], Some(100)).unwrap();
    assert_eq!(lease.valid_until_unix, 21700);
    assert_eq!(lease.blobs, vec![entry]);
    let last = u64::MAX - LEASE_DURATION;
    let lease = Lease::new_with_blobs_by(vec![], Some(last)).unwrap();
    assert_eq!(lease.valid_until_unix, u64::MAX);
    assert!(Lease::new_with_blobs_by(vec![], Some(last + 1)).is_none());
    assert!(Lease::new_with_blobs_by(vec![], None).is_none());
}

#[test]
fn a_plan_depends_on_what_the_clock_shows() {
    let mut state = small_state();
    state.perform_change(upload(7, "a", vec![extent(1, 1, 10)])).unwrap();
    let plan = state.upload_plan_by(Some(1000)).unwrap();
    assert_eq!(plan.actions.len(), 1);
    assert_eq!(plan.lease.blobs[0].size, 10);
    assert_eq!(plan.lease.valid_until_unix, 22600);
    assert!(state.upload_plan_by(Some(u64::MAX)).is_none());
    assert!(state.upload_plan_by(None).is_none());
}
