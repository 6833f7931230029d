//! The state of the file system, and the changes that lead from one state to the next.

use crate::backend::{BackendKind, BackendStat};
use crate::file_tree::{
    above, entry_at, resolved, walk, with_entry, without_entry, DirView, EntryView, Extent,
    FileInode, FileInodeView, FileTree, FileTreeEntry,
};
use crate::maps::{lemma_increasing_u32, ordered_keys};
use crate::prelude::{BackendId, InodePath};
use std::collections::BTreeMap;
use vstd::prelude::*;

verus! {

/// Why a change or a lookup was refused.
#[derive(Clone, Copy, Debug, PartialEq, Eq, Structural)]
pub enum StateError {
    InvalidState,
    OutOfBackendIds,
    BackendNotFound,
    BackendNotEmpty,
    BackendOutOfSpace,
    NoFilenameGiven,
    PathEmpty,
    BrokenPath,
    PathNotAFile,
    FileExists,
    FileNotFound,
}

impl StateError {
    /// What is wrong, in words.
    pub fn message(&self) -> (text: String)
        ensures
            text@ == (match *self {
                StateError::InvalidState => "This state is corrupted"@,
                StateError::OutOfBackendIds => "Ran out of backend ids"@,
                StateError::BackendNotFound =>
                    "Speified backend does not exist or was recently removed"@,
                StateError::BackendNotEmpty => "Speified backend not empty"@,
                StateError::BackendOutOfSpace =>
                    "Backend can't hold the required ammount of new data"@,
                StateError::NoFilenameGiven => "Specified file path contained no filename"@,
                StateError::PathEmpty => "Supplied path is empty"@,
                StateError::BrokenPath => "Supplied file path is broken"@,
                StateError::PathNotAFile => "Path is not a file"@,
                StateError::FileExists => "File with this name already exists"@,
                StateError::FileNotFound => "Specified file doesn't exist"@,
            }),
    {
        match self {
            StateError::InvalidState => "This state is corrupted".to_owned(),
            StateError::OutOfBackendIds => "Ran out of backend ids".to_owned(),
            StateError::BackendNotFound =>
                "Speified backend does not exist or was recently removed".to_owned(),
            StateError::BackendNotEmpty => "Speified backend not empty".to_owned(),
            StateError::BackendOutOfSpace =>
                "Backend can't hold the required ammount of new data".to_owned(),
            StateError::NoFilenameGiven => "Specified file path contained no filename".to_owned(),
            StateError::PathEmpty => "Supplied path is empty".to_owned(),
            StateError::BrokenPath => "Supplied file path is broken".to_owned(),
            StateError::PathNotAFile => "Path is not a file".to_owned(),
            StateError::FileExists => "File with this name already exists".to_owned(),
            StateError::FileNotFound => "Specified file doesn't exist".to_owned(),
        }
    }
}

/// What is known of a backend.
#[derive(Debug)]
pub struct BackendMeta {
    pub kind: BackendKind,
    /// This includes only confirmed, used bytes and not ones taken up by leases
    pub stat: BackendStat,
}

impl Clone for BackendMeta {
    fn clone(&self) -> (copy: Self)
        ensures
            copy == *self,
    {
        BackendMeta { kind: self.kind.clone(), stat: self.stat }
    }
}

/// A change to a state.
#[non_exhaustive]
#[derive(Debug)]
pub enum StateChange {
    AddedBackend(BackendMeta),
    RemovedBackend(BackendId),
    UploadFile { source_file: u128, path: InodePath, file_inode: FileInode },
    RemoveFile(InodePath),
}

/// A change to a state, as mathematical data.
pub enum ChangeView {
    AddedBackend(BackendMeta),
    RemovedBackend(BackendId),
    UploadFile { source_file: u128, path: Seq<Seq<char>>, file_inode: FileInodeView },
    RemoveFile(Seq<Seq<char>>),
}

impl View for StateChange {
    type V = ChangeView;

    open spec fn view(&self) -> ChangeView {
        match *self {
            StateChange::AddedBackend(meta) => ChangeView::AddedBackend(meta),
            StateChange::RemovedBackend(id) => ChangeView::RemovedBackend(id),
            StateChange::UploadFile { source_file, path, file_inode } => ChangeView::UploadFile {
                source_file,
                path: path@,
                file_inode: file_inode@,
            },
            StateChange::RemoveFile(path) => ChangeView::RemoveFile(path@),
        }
    }
}

impl Clone for StateChange {
    fn clone(&self) -> (copy: Self)
        ensures
            copy@ == self@,
    {
        match self {
            StateChange::AddedBackend(meta) => StateChange::AddedBackend(meta.clone()),
            StateChange::RemovedBackend(id) => StateChange::RemovedBackend(*id),
            StateChange::UploadFile { source_file, path, file_inode } => StateChange::UploadFile {
                source_file: *source_file,
                path: path.clone(),
                file_inode: file_inode.clone(),
            },
            StateChange::RemoveFile(path) => StateChange::RemoveFile(path.clone()),
        }
    }
}

/// The backends that are known, by id.
pub type BackendsView = Map<BackendId, BackendMeta>;

/// What a change acts on: the file tree and the backends.
pub struct Contents {
    pub tree: DirView,
    pub backends: BackendsView,
}

/// The changes that a sequence of changes denotes.
pub open spec fn change_views(changes: Seq<StateChange>) -> Seq<ChangeView> {
    changes.map_values(|c: StateChange| c@)
}

/// `id` is the greatest id in use.
pub open spec fn is_greatest_id(backends: BackendsView, id: BackendId) -> bool {
    &&& backends.contains_key(id)
    &&& forall|other: BackendId| #[trigger] backends.contains_key(other) ==> other <= id
}

/// The id that the next backend gets: one more than the greatest id in use, and 1 for the first
/// backend. There is none once the greatest possible id is in use.
pub open spec fn next_backend_id(backends: BackendsView) -> Option<BackendId> {
    if backends.dom() == Set::<BackendId>::empty() {
        Some(1)
    } else if backends.contains_key(BackendId::MAX) {
        None
    } else {
        Some(((choose|id: BackendId| is_greatest_id(backends, id)) + 1) as BackendId)
    }
}

/// A backend with another number of used bytes.
pub open spec fn with_used(meta: BackendMeta, used: u64) -> BackendMeta {
    BackendMeta { kind: meta.kind, stat: BackendStat { used, total: meta.stat.total } }
}

/// The backends after the bytes of the given extents were added to what they use, one extent
/// after the other.
pub open spec fn charged(backends: BackendsView, extents: Seq<Extent>) -> Result<
    BackendsView,
    StateError,
>
    decreases extents.len(),
{
    if extents.len() == 0 {
        Ok(backends)
    } else {
        match charged(backends, extents.drop_last()) {
            Err(why) => Err(why),
            Ok(b) => {
                let id = extents.last().locator.backend_id;
                let used = b[id].stat.used + extents.last().length;
                if !b.contains_key(id) {
                    Err(StateError::BackendNotFound)
                } else if used > b[id].stat.total {
                    Err(StateError::BackendOutOfSpace)
                } else {
                    Ok(b.insert(id, with_used(b[id], used as u64)))
                }
            },
        }
    }
}

/// The backends after the bytes of the given extents were taken from what they use, one extent
/// after the other.
pub open spec fn refunded(backends: BackendsView, extents: Seq<Extent>) -> Result<
    BackendsView,
    StateError,
>
    decreases extents.len(),
{
    if extents.len() == 0 {
        Ok(backends)
    } else {
        match refunded(backends, extents.drop_last()) {
            Err(why) => Err(why),
            Ok(b) => {
                let id = extents.last().locator.backend_id;
                let used = b[id].stat.used - extents.last().length;
                if !b.contains_key(id) || used < 0 {
                    Err(StateError::InvalidState)
                } else {
                    Ok(b.insert(id, with_used(b[id], used as u64)))
                }
            },
        }
    }
}

/// What a change makes of the file tree and the backends, or why it is refused.
pub open spec fn applied(c: Contents, change: ChangeView) -> Result<Contents, StateError> {
    match change {
        ChangeView::AddedBackend(meta) => match next_backend_id(c.backends) {
            None => Err(StateError::OutOfBackendIds),
            Some(id) => Ok(Contents { tree: c.tree, backends: c.backends.insert(id, meta) }),
        },
        ChangeView::RemovedBackend(id) => if !c.backends.contains_key(id) {
            Err(StateError::BackendNotFound)
        } else if c.backends[id].stat.used != 0 {
            Err(StateError::BackendNotEmpty)
        } else {
            Ok(Contents { tree: c.tree, backends: c.backends.remove(id) })
        },
        ChangeView::UploadFile { source_file, path, file_inode } => match entry_at(c.tree, path) {
            Err(why) => Err(why),
            Ok(Some(_)) => Err(StateError::FileExists),
            Ok(None) => match charged(c.backends, file_inode.extents) {
                Err(why) => Err(why),
                Ok(backends) => Ok(
                    Contents {
                        tree: with_entry(c.tree, path, EntryView::File(file_inode)),
                        backends,
                    },
                ),
            },
        },
        ChangeView::RemoveFile(path) => match entry_at(c.tree, path) {
            Err(why) => Err(why),
            Ok(None) => Err(StateError::FileNotFound),
            Ok(Some(EntryView::Dir(_))) => Err(StateError::PathNotAFile),
            Ok(Some(EntryView::File(inode))) => match refunded(c.backends, inode.extents) {
                Err(why) => Err(why),
                Ok(backends) => Ok(Contents { tree: without_entry(c.tree, path), backends }),
            },
        },
    }
}

/// A revision of the file system.
#[derive(Debug)]
pub struct State {
    /// The revision number as visible in the bootstrap
    pub rev: u64,
    pub file_tree: FileTree,
    pub backends: BTreeMap<BackendId, BackendMeta>,
    /// A list of changes that when replayed will transform the previous
    /// revision into the current one. Even if a new change undoes an existing
    /// change, it should not change previous ones
    pub performed_changes: Vec<StateChange>,
}

/// A revision of the file system, as mathematical data.
pub struct StateView {
    pub rev: u64,
    pub contents: Contents,
    pub changes: Seq<ChangeView>,
}

impl View for State {
    type V = StateView;

    open spec fn view(&self) -> StateView {
        StateView {
            rev: self.rev,
            contents: Contents { tree: self.file_tree@, backends: self.backends@ },
            changes: change_views(self.performed_changes@),
        }
    }
}

/// The greatest id in use, if there is any.
fn greatest_id(backends: &BTreeMap<BackendId, BackendMeta>) -> (greatest: Option<BackendId>)
    ensures
        greatest is None <==> backends@.dom() == Set::<BackendId>::empty(),
        greatest matches Some(id) ==> is_greatest_id(backends@, id),
{
    let ids = ordered_keys(backends);
    proof {
        lemma_increasing_u32(ids@);
    }
    if ids.len() == 0 {
        proof {
            assert(ids@.to_set() =~= Set::<BackendId>::empty());
        }
        None
    } else {
        let last: BackendId = ids[ids.len() - 1];
        proof {
            assert(ids@.to_set().contains(ids@[ids@.len() - 1]));
            assert forall|other: BackendId| #[trigger] backends@.contains_key(other) implies other
                <= last by {
                assert(ids@.to_set().contains(other));
                let i = choose|i: int| 0 <= i < ids@.len() && ids@[i] == other;
                assert(ids@[i] == other);
            }
        }
        Some(last)
    }
}

/// Adds the bytes of the extents to what their backends use.
fn charge(backends: &BTreeMap<BackendId, BackendMeta>, extents: &Vec<Extent>) -> (result: Result<
    BTreeMap<BackendId, BackendMeta>,
    StateError,
>)
    ensures
        match charged(backends@, extents@) {
            Ok(after) => result matches Ok(map) && map@ == after,
            Err(why) => result matches Err(e) && e == why,
        },
{
    let mut copy = backends.clone();
    let mut i: usize = 0;
    proof {
        assert(extents@.take(0) =~= Seq::<Extent>::empty());
    }
    while i < extents.len()
        invariant
            i <= extents.len(),
            charged(backends@, extents@.take(i as int)) == Ok::<BackendsView, StateError>(copy@),
        decreases extents.len() - i,
    {
        let extent: Extent = extents[i];
        let id: BackendId = extent.locator.backend_id;
        proof {
            assert(extents@.take(i + 1).drop_last() =~= extents@.take(i as int));
            lemma_charge_stops(backends@, extents@, i + 1);
        }
        match copy.get(&id) {
            None => {
                return Err(StateError::BackendNotFound);
            },
            Some(meta) => {
                let new_used: u64 = match meta.stat.used.checked_add(extent.length) {
                    None => {
                        return Err(StateError::BackendOutOfSpace);
                    },
                    Some(used) => used,
                };
                if new_used > meta.stat.total {
                    return Err(StateError::BackendOutOfSpace);
                }
                let updated = BackendMeta {
                    kind: meta.kind.clone(),
                    stat: BackendStat { used: new_used, total: meta.stat.total },
                };
                copy.insert(id, updated);
            },
        }
        i += 1;
    }
    proof {
        assert(extents@.take(i as int) =~= extents@);
    }
    Ok(copy)
}

/// Where charging the first extents fails, charging all of them fails in the same way.
proof fn lemma_charge_stops(backends: BackendsView, extents: Seq<Extent>, n: int)
    requires
        0 <= n <= extents.len(),
    ensures
        charged(backends, extents.take(n)) matches Err(why) ==> charged(backends, extents) == Err::<
            BackendsView,
            StateError,
        >(why),
    decreases extents.len() - n,
{
    if n < extents.len() {
        assert(extents.take(n + 1).drop_last() =~= extents.take(n));
        lemma_charge_stops(backends, extents, n + 1);
    } else {
        assert(extents.take(n) =~= extents);
    }
}

/// Takes the bytes of the extents from what their backends use.
fn refund(backends: &BTreeMap<BackendId, BackendMeta>, extents: &Vec<Extent>) -> (result: Result<
    BTreeMap<BackendId, BackendMeta>,
    StateError,
>)
    ensures
        match refunded(backends@, extents@) {
            Ok(after) => result matches Ok(map) && map@ == after,
            Err(why) => result matches Err(e) && e == why,
        },
{
    let mut copy = backends.clone();
    let mut i: usize = 0;
    proof {
        assert(extents@.take(0) =~= Seq::<Extent>::empty());
    }
    while i < extents.len()
        invariant
            i <= extents.len(),
            refunded(backends@, extents@.take(i as int)) == Ok::<BackendsView, StateError>(copy@),
        decreases extents.len() - i,
    {
        let extent: Extent = extents[i];
        let id: BackendId = extent.locator.backend_id;
        proof {
            assert(extents@.take(i + 1).drop_last() =~= extents@.take(i as int));
            lemma_refund_stops(backends@, extents@, i + 1);
        }
        match copy.get(&id) {
            None => {
                return Err(StateError::InvalidState);
            },
            Some(meta) => {
                let new_used: u64 = match meta.stat.used.checked_sub(extent.length) {
                    None => {
                        return Err(StateError::InvalidState);
                    },
                    Some(used) => used,
                };
                let updated = BackendMeta {
                    kind: meta.kind.clone(),
                    stat: BackendStat { used: new_used, total: meta.stat.total },
                };
                copy.insert(id, updated);
            },
        }
        i += 1;
    }
    proof {
        assert(extents@.take(i as int) =~= extents@);
    }
    Ok(copy)
}

/// Where refunding the first extents fails, refunding all of them fails in the same way.
proof fn lemma_refund_stops(backends: BackendsView, extents: Seq<Extent>, n: int)
    requires
        0 <= n <= extents.len(),
    ensures
        refunded(backends, extents.take(n)) matches Err(why) ==> refunded(backends, extents)
            == Err::<BackendsView, StateError>(why),
    decreases extents.len() - n,
{
    if n < extents.len() {
        assert(extents.take(n + 1).drop_last() =~= extents.take(n));
        lemma_refund_stops(backends, extents, n + 1);
    } else {
        assert(extents.take(n) =~= extents);
    }
}

impl Clone for State {
    fn clone(&self) -> (copy: Self)
        ensures
            copy@ == self@,
            self.wf() ==> copy.wf(),
    {
        let performed_changes = self.performed_changes.clone();
        proof {
            assert(change_views(performed_changes@) =~= change_views(self.performed_changes@));
        }
        State {
            rev: self.rev,
            file_tree: self.file_tree.clone(),
            backends: self.backends.clone(),
            performed_changes,
        }
    }
}

impl Default for State {
    /// The first revision: no files, no backends, no changes.
    fn default() -> (state: Self)
        ensures
            state.wf(),
            state@ == (StateView {
                rev: 0,
                contents: Contents { tree: Map::empty(), backends: Map::empty() },
                changes: Seq::empty(),
            }),
    {
        let state = State {
            rev: 0,
            file_tree: FileTree::new(),
            backends: BTreeMap::new(),
            performed_changes: Vec::new(),
        };
        proof {
            assert(state@.changes =~= Seq::<ChangeView>::empty());
        }
        state
    }
}

impl State {
    /// The file tree is well formed.
    pub open spec fn wf(self) -> bool {
        self.file_tree.wf()
    }

    /// The revision that follows this one, before any change.
    pub fn new_child(&self) -> (child: Self)
        requires
            self.rev < u64::MAX,
        ensures
            child@ == (StateView {
                rev: (self.rev + 1) as u64,
                contents: self@.contents,
                changes: Seq::empty(),
            }),
            self.wf() ==> child.wf(),
    {
        let child = State {
            rev: self.rev + 1,
            file_tree: self.file_tree.clone(),
            backends: self.backends.clone(),
            performed_changes: Vec::new(),
        };
        proof {
            assert(child@.changes =~= Seq::<ChangeView>::empty());
        }
        child
    }

    /// The number of this revision.
    pub fn rev(&self) -> (rev: u64)
        ensures
            rev == self@.rev,
    {
        self.rev
    }

    /// What is known of a backend.
    pub fn get_backend(&self, id: BackendId) -> (meta: Option<&BackendMeta>)
        ensures
            match meta {
                Some(m) => self@.contents.backends.contains_key(id) && *m
                    == self@.contents.backends[id],
                None => !self@.contents.backends.contains_key(id),
            },
    {
        self.backends.get(&id)
    }

    /// Performs a change and records it. A change that is refused leaves the state as it was.
    pub fn perform_change(&mut self, change: StateChange) -> (result: Result<(), StateError>)
        requires
            old(self).wf(),
        ensures
            final(self).wf(),
            match applied(old(self)@.contents, change@) {
                Ok(contents) => result is Ok && final(self)@ == (StateView {
                    rev: old(self)@.rev,
                    contents,
                    changes: old(self)@.changes.push(change@),
                }),
                Err(why) => result == Err::<(), StateError>(why) && final(self)@ == old(self)@,
            },
    {
        match &change {
            StateChange::AddedBackend(meta) => {
                let new_id: BackendId = match greatest_id(&self.backends) {
                    None => 1,
                    Some(greatest) => {
                        proof {
                            lemma_next_id(self.backends@, greatest);
                        }
                        match greatest.checked_add(1) {
                            None => {
                                return Err(StateError::OutOfBackendIds);
                            },
                            Some(id) => id,
                        }
                    },
                };
                self.backends.insert(new_id, meta.clone());
            },
            StateChange::RemovedBackend(backend_id) => {
                match self.backends.get(backend_id) {
                    None => {
                        return Err(StateError::BackendNotFound);
                    },
                    Some(meta) => {
                        if meta.stat.used != 0 {
                            return Err(StateError::BackendNotEmpty);
                        }
                    },
                }
                self.backends.remove(backend_id);
            },
            StateChange::UploadFile { source_file: _, path, file_inode } => {
                match self.file_tree.resolve_dir_entry(path.as_slice()) {
                    Err(why) => {
                        return Err(why);
                    },
                    Ok(Some(_)) => {
                        return Err(StateError::FileExists);
                    },
                    Ok(None) => {},
                }
                // Try to apply the extents to backends
                match charge(&self.backends, &file_inode.extents) {
                    Err(why) => {
                        return Err(why);
                    },
                    Ok(backends) => {
                        // All checks passed. Now modifying the state
                        proof {
                            assert(path@.skip(0) =~= path@);
                        }
                        self.file_tree.put(
                            path.as_slice(),
                            0,
                            FileTreeEntry::File(file_inode.clone()),
                        );
                        self.backends = backends;
                    },
                }
            },
            StateChange::RemoveFile(path) => {
                let refunded = match self.file_tree.resolve_dir_entry(path.as_slice()) {
                    Err(why) => {
                        return Err(why);
                    },
                    Ok(None) => {
                        return Err(StateError::FileNotFound);
                    },
                    Ok(Some(FileTreeEntry::Dir(_))) => {
                        return Err(StateError::PathNotAFile);
                    },
                    // Check if no backend has negative used now
                    Ok(Some(FileTreeEntry::File(inode))) => refund(&self.backends, &inode.extents),
                };
                match refunded {
                    Err(why) => {
                        return Err(why);
                    },
                    Ok(backends) => {
                        // All checks passed. Now modifying the state
                        proof {
                            assert(path@.skip(0) =~= path@);
                        }
                        self.file_tree.take(path.as_slice(), 0);
                        self.backends = backends;
                    },
                }
            },
        }
        self.performed_changes.push(change);
        proof {
            assert(self@.changes =~= old(self)@.changes.push(change@));
        }
        Ok(())
    }

    /// Updates the local state (self) to be correct in respect to the new
    /// confirmed state (other)
    pub fn update_by_commited(&mut self, other: &Self)
        requires
            other@.changes.len() <= old(self)@.changes.len(),
        ensures
            old(self).wf() ==> final(self).wf(),
            final(self)@ == (StateView {
                rev: old(self)@.rev,
                contents: old(self)@.contents,
                changes: old(self)@.changes.skip(other@.changes.len() as int),
            }),
    {
        let commited_changes: usize = other.performed_changes.len();
        let ghost before = self.performed_changes@;
        self.performed_changes = self.performed_changes.split_off(commited_changes);
        proof {
            assert(self@.changes =~= change_views(before).skip(commited_changes as int));
        }
    }

    /// The directory that holds the last segment of the path.
    pub fn resolve_dir(&self, path: &InodePath) -> (dir: Result<&FileTree, StateError>)
        requires
            self.wf(),
        ensures
            match walk(self@.contents.tree, above(path@)) {
                Some(found) => dir matches Ok(tree) && tree@ == found && tree.wf(),
                None => dir matches Err(why) && why == StateError::BrokenPath,
            },
    {
        self.file_tree.resolve_dir(path.as_slice())
    }

    /// The entry that the last segment names in the directory that holds the segment before it.
    pub fn resolve_path(&self, path: &InodePath) -> (entry: Result<&FileTreeEntry, StateError>)
        requires
            self.wf(),
        ensures
            match resolved(self@.contents.tree, path@) {
                Ok(found) => entry matches Ok(e) && e@ == found && e.wf(),
                Err(why) => entry matches Err(e) && e == why,
            },
    {
        self.file_tree.resolve_path(path.as_slice())
    }
}

/// The id after the greatest id in use is the next one.
proof fn lemma_next_id(backends: BackendsView, greatest: BackendId)
    requires
        is_greatest_id(backends, greatest),
    ensures
        next_backend_id(backends) == (if greatest == BackendId::MAX {
            None
        } else {
            Some((greatest + 1) as BackendId)
        }),
{
    assert(backends.dom().contains(greatest));
    let chosen = choose|id: BackendId| is_greatest_id(backends, id);
    assert(is_greatest_id(backends, chosen));
}

/// A change is seen with all that it says.
pub proof fn changes_are_seen_in_full(change: StateChange)
    ensures
        match change {
            StateChange::AddedBackend(meta) => change@ == ChangeView::AddedBackend(meta),
            StateChange::RemovedBackend(id) => change@ == ChangeView::RemovedBackend(id),
            StateChange::UploadFile { source_file, path, file_inode } => change@
                == ChangeView::UploadFile { source_file, path: path@, file_inode: file_inode@ },
            StateChange::RemoveFile(path) => change@ == ChangeView::RemoveFile(path@),
        },
{
}

/// A state is seen with its revision, its tree, its backends and all its changes in their order.
pub proof fn states_are_seen_in_full(state: State)
    ensures
        state@.rev == state.rev,
        state@.contents.tree == state.file_tree@,
        state@.contents.backends == state.backends@,
        state@.changes.len() == state.performed_changes@.len(),
        forall|i: int|
            0 <= i < state.performed_changes@.len() ==> #[trigger] state@.changes[i]
                == state.performed_changes@[i]@,
{
}

} // verus!
