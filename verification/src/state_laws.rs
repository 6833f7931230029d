//! What holds of states and changes as a whole.

use crate::file_tree::{
    entry_at, with_entry, without_entry, DirView, EntryView, Extent, FileInodeView,
};
use crate::prelude::BackendId;
use crate::state::{
    applied, charged, is_greatest_id, next_backend_id, refunded, with_used, BackendMeta,
    BackendsView, ChangeView, Contents, StateError, StateView,
};
use crate::tree_laws::{
    a_free_path_is_apart_from_a_file, an_entry_is_found_where_it_was_put, files_are_apart, leads_to,
    nothing_is_found_where_an_entry_was_taken, putting_leaves_the_rest, taking_leaves_the_rest,
    taking_undoes_putting,
};
use crate::upload::{blobs_of, pending_uploads};
use vstd::prelude::*;

verus! {

/// What a sequence of changes makes of the contents, one change after the other.
pub open spec fn replayed(base: Contents, changes: Seq<ChangeView>) -> Result<Contents, StateError>
    decreases changes.len(),
{
    if changes.len() == 0 {
        Ok(base)
    } else {
        match replayed(base, changes.drop_last()) {
            Err(why) => Err(why),
            Ok(c) => applied(c, changes.last()),
        }
    }
}

/// The state is what its recorded changes make of `base`.
pub open spec fn descends_from(state: StateView, base: Contents) -> bool {
    replayed(base, state.changes) == Ok::<Contents, StateError>(state.contents)
}

/// A state without recorded changes descends from its own contents: so does every new child.
pub proof fn a_child_descends_from_its_parent(parent: StateView, child: StateView)
    requires
        child.contents == parent.contents,
        child.changes == Seq::<ChangeView>::empty(),
    ensures
        descends_from(child, parent.contents),
{
}

/// Replaying the recorded changes leads from the previous revision to the current one: a change
/// that is performed keeps this true.
pub proof fn performing_keeps_the_descent(base: Contents, before: StateView, change: ChangeView)
    requires
        descends_from(before, base),
        applied(before.contents, change) is Ok,
    ensures
        descends_from(
            StateView {
                rev: before.rev,
                contents: applied(before.contents, change)->Ok_0,
                changes: before.changes.push(change),
            },
            base,
        ),
{
    assert(before.changes.push(change).drop_last() =~= before.changes);
}

/// Replaying two runs of changes is replaying the second on what the first leads to.
pub proof fn replaying_goes_on(base: Contents, first: Seq<ChangeView>, second: Seq<ChangeView>)
    ensures
        replayed(base, first + second) == (match replayed(base, first) {
            Ok(middle) => replayed(middle, second),
            Err(why) => Err(why),
        }),
    decreases second.len(),
{
    if second.len() == 0 {
        assert(first + second =~= first);
    } else {
        assert((first + second).drop_last() =~= first + second.drop_last());
        replaying_goes_on(base, first, second.drop_last());
    }
}

/// A local state that went on from a state that is commited since descends from what was
/// commited, once the commited changes are dropped from its record.
pub proof fn a_commit_hands_over_the_descent(base: Contents, local: StateView, commited: StateView)
    requires
        descends_from(local, base),
        descends_from(commited, base),
        commited.changes.len() <= local.changes.len(),
        local.changes.take(commited.changes.len() as int) == commited.changes,
    ensures
        descends_from(
            StateView {
                rev: local.rev,
                contents: local.contents,
                changes: local.changes.skip(commited.changes.len() as int),
            },
            commited.contents,
        ),
{
    let n = commited.changes.len() as int;
    assert(local.changes =~= commited.changes + local.changes.skip(n));
    replaying_goes_on(base, commited.changes, local.changes.skip(n));
}

/// No backend ever gets the id 0, which is reserved for the bootstrap, nor an id in use.
pub proof fn a_new_backend_gets_a_free_id(backends: BackendsView)
    requires
        backends.dom().finite(),
    ensures
        next_backend_id(backends) matches Some(id) ==> id != 0 && !backends.contains_key(id),
        next_backend_id(backends) is None <==> backends.contains_key(BackendId::MAX),
{
    if backends.dom() != Set::<BackendId>::empty() && !backends.contains_key(BackendId::MAX) {
        lemma_greatest_exists(backends.dom());
        let g = choose|g: BackendId|
            backends.dom().contains(g) && forall|o: BackendId| #[trigger]
                backends.dom().contains(o) ==> o <= g;
        assert(is_greatest_id(backends, g));
        let id = choose|id: BackendId| is_greatest_id(backends, id);
        assert(is_greatest_id(backends, id));
    }
}

proof fn lemma_greatest_exists(ids: Set<BackendId>)
    requires
        ids.finite(),
        ids != Set::<BackendId>::empty(),
    ensures
        exists|g: BackendId|
            ids.contains(g) && forall|o: BackendId| #[trigger] ids.contains(o) ==> o <= g,
    decreases ids.len(),
{
    let a = ids.choose();
    let rest = ids.remove(a);
    if exists|x: BackendId| ids.contains(x) {
        assert(ids.contains(a));
    } else {
        assert(ids =~= Set::<BackendId>::empty());
    }
    if rest =~= Set::<BackendId>::empty() {
        assert forall|o: BackendId| #[trigger] ids.contains(o) implies o <= a by {
            if o != a {
                assert(rest.contains(o));
            }
        }
    } else {
        lemma_greatest_exists(rest);
        let g = choose|g: BackendId|
            rest.contains(g) && forall|o: BackendId| #[trigger] rest.contains(o) ==> o <= g;
        let top = if a > g { a } else { g };
        assert forall|o: BackendId| #[trigger] ids.contains(o) implies o <= top by {
            if o != a {
                assert(rest.contains(o));
            }
        }
        assert(ids.contains(top));
    }
}

/// Removing a backend that was just added empty gives back the old contents.
pub proof fn removing_undoes_adding(c: Contents, meta: BackendMeta)
    requires
        c.backends.dom().finite(),
        next_backend_id(c.backends) is Some,
        meta.stat.used == 0,
    ensures
        applied(c, ChangeView::AddedBackend(meta)) matches Ok(added) && applied(
            added,
            ChangeView::RemovedBackend(next_backend_id(c.backends)->Some_0),
        ) == Ok::<Contents, StateError>(c),
{
    a_new_backend_gets_a_free_id(c.backends);
    let id = next_backend_id(c.backends)->Some_0;
    assert(c.backends.insert(id, meta).remove(id) =~= c.backends);
}

/// The bytes that the extents take up on one backend.
pub open spec fn bytes_on(extents: Seq<Extent>, id: BackendId) -> int
    decreases extents.len(),
{
    if extents.len() == 0 {
        0
    } else {
        bytes_on(extents.drop_last(), id) + (if extents.last().locator.backend_id == id {
            extents.last().length as int
        } else {
            0int
        })
    }
}

/// Every extent lies on a backend that is known.
pub open spec fn all_known(backends: BackendsView, extents: Seq<Extent>) -> bool {
    forall|i: int|
        0 <= i < extents.len() ==> backends.contains_key(
            (#[trigger] extents[i]).locator.backend_id,
        )
}

proof fn lemma_bytes_on_positive(extents: Seq<Extent>, id: BackendId)
    ensures
        bytes_on(extents, id) >= 0,
    decreases extents.len(),
{
    if extents.len() > 0 {
        lemma_bytes_on_positive(extents.drop_last(), id);
    }
}

/// Charging extents succeeds exactly where every extent lies on a known backend and every backend
/// that gets any has room for all that it gets. It adds to every backend what the extents take
/// up on it.
pub proof fn charging_adds_up(backends: BackendsView, extents: Seq<Extent>)
    ensures
        charged(backends, extents) is Ok <==> all_known(backends, extents) && forall|i: int|
            0 <= i < extents.len() ==> has_room(
                backends,
                extents,
                (#[trigger] extents[i]).locator.backend_id,
            ),
        charged(backends, extents) matches Ok(after) ==> after.dom() == backends.dom() && forall|
            id: BackendId,
        | #[trigger]
            after.contains_key(id) ==> after[id] == with_used(
                backends[id],
                (backends[id].stat.used + bytes_on(extents, id)) as u64,
            ) && backends[id].stat.used + bytes_on(extents, id) <= u64::MAX,
    decreases extents.len(),
{
    if extents.len() > 0 {
        let most = extents.drop_last();
        let last = extents.last();
        let at = last.locator.backend_id;
        charging_adds_up(backends, most);
        assert forall|i: int| 0 <= i < most.len() implies most[i] == extents[i] by {}
        lemma_bytes_on_positive(most, at);
        assert forall|id: BackendId| bytes_on(extents, id) >= bytes_on(most, id) by {}
        if charged(backends, extents) is Ok {
            assert forall|i: int| 0 <= i < extents.len() implies has_room(
                backends,
                extents,
                (#[trigger] extents[i]).locator.backend_id,
            ) by {
                if extents[i].locator.backend_id != at {
                    assert(most[i] == extents[i]);
                }
            }
            assert forall|i: int| 0 <= i < extents.len() implies backends.contains_key(
                (#[trigger] extents[i]).locator.backend_id,
            ) by {
                if i < most.len() {
                    assert(most[i] == extents[i]);
                }
            }
            assert(charged(backends, extents)->Ok_0.dom() =~= backends.dom());
        }
        if all_known(backends, extents) && forall|i: int|
            0 <= i < extents.len() ==> has_room(
                backends,
                extents,
                (#[trigger] extents[i]).locator.backend_id,
            ) {
            assert forall|i: int| 0 <= i < most.len() implies backends.contains_key(
                (#[trigger] most[i]).locator.backend_id,
            ) && has_room(backends, most, most[i].locator.backend_id) by {
                assert(most[i] == extents[i]);
            }
            assert(extents[extents.len() - 1] == last);
            assert(charged(backends, most) is Ok);
        }
    }
}

/// The backend can hold what the extents take up on it.
pub open spec fn has_room(backends: BackendsView, extents: Seq<Extent>, id: BackendId) -> bool {
    backends[id].stat.used + bytes_on(extents, id) <= backends[id].stat.total
}

/// Refunding extents succeeds exactly where every extent lies on a known backend and every such
/// backend uses at least what the extents take up on it. It takes from every backend what the
/// extents take up on it.
pub proof fn refunding_takes_off(backends: BackendsView, extents: Seq<Extent>)
    ensures
        refunded(backends, extents) is Ok <==> all_known(backends, extents) && forall|i: int|
            0 <= i < extents.len() ==> has_used(
                backends,
                extents,
                (#[trigger] extents[i]).locator.backend_id,
            ),
        refunded(backends, extents) matches Ok(after) ==> after.dom() == backends.dom() && forall|
            id: BackendId,
        | #[trigger]
            after.contains_key(id) ==> after[id] == with_used(
                backends[id],
                (backends[id].stat.used - bytes_on(extents, id)) as u64,
            ) && backends[id].stat.used - bytes_on(extents, id) >= 0,
    decreases extents.len(),
{
    if extents.len() > 0 {
        let most = extents.drop_last();
        let last = extents.last();
        let at = last.locator.backend_id;
        refunding_takes_off(backends, most);
        assert forall|i: int| 0 <= i < most.len() implies most[i] == extents[i] by {}
        lemma_bytes_on_positive(most, at);
        assert forall|id: BackendId| bytes_on(extents, id) >= bytes_on(most, id) by {}
        if refunded(backends, extents) is Ok {
            assert forall|i: int| 0 <= i < extents.len() implies has_used(
                backends,
                extents,
                (#[trigger] extents[i]).locator.backend_id,
            ) by {
                if extents[i].locator.backend_id != at {
                    assert(most[i] == extents[i]);
                }
            }
            assert forall|i: int| 0 <= i < extents.len() implies backends.contains_key(
                (#[trigger] extents[i]).locator.backend_id,
            ) by {
                if i < most.len() {
                    assert(most[i] == extents[i]);
                }
            }
            assert(refunded(backends, extents)->Ok_0.dom() =~= backends.dom());
        }
        if all_known(backends, extents) && forall|i: int|
            0 <= i < extents.len() ==> has_used(
                backends,
                extents,
                (#[trigger] extents[i]).locator.backend_id,
            ) {
            assert forall|i: int| 0 <= i < most.len() implies backends.contains_key(
                (#[trigger] most[i]).locator.backend_id,
            ) && has_used(backends, most, most[i].locator.backend_id) by {
                assert(most[i] == extents[i]);
            }
            assert(extents[extents.len() - 1] == last);
            assert(refunded(backends, most) is Ok);
        }
    }
}

/// The backend uses at least what the extents take up on it.
pub open spec fn has_used(backends: BackendsView, extents: Seq<Extent>, id: BackendId) -> bool {
    backends[id].stat.used - bytes_on(extents, id) >= 0
}

/// Removing a file that was just uploaded gives back the old contents.
pub proof fn removing_undoes_uploading(
    c: Contents,
    source_file: u128,
    path: Seq<Seq<char>>,
    file_inode: FileInodeView,
)
    requires
        applied(c, ChangeView::UploadFile { source_file, path, file_inode }) is Ok,
    ensures
        applied(
            applied(c, ChangeView::UploadFile { source_file, path, file_inode })->Ok_0,
            ChangeView::RemoveFile(path),
        ) == Ok::<Contents, StateError>(c),
{
    let extents = file_inode.extents;
    let entry = EntryView::File(file_inode);
    let after = applied(c, ChangeView::UploadFile { source_file, path, file_inode })->Ok_0;
    an_entry_is_found_where_it_was_put(c.tree, path, entry);
    taking_undoes_putting(c.tree, path, entry);
    charging_adds_up(c.backends, extents);
    refunding_takes_off(after.backends, extents);
    assert forall|id: BackendId| #[trigger] after.backends.contains_key(id) implies has_used(
        after.backends,
        extents,
        id,
    ) by {
        lemma_bytes_on_positive(extents, id);
    }
    let back = refunded(after.backends, extents)->Ok_0;
    assert(back =~= c.backends) by {
        assert forall|id: BackendId| back.contains_key(id) implies back[id] == c.backends[id] by {
            lemma_bytes_on_positive(extents, id);
            assert(after.backends.contains_key(id));
        }
    }
}

/// No backend uses more than it has.
pub open spec fn within_capacity(backends: BackendsView) -> bool {
    forall|id: BackendId| #[trigger]
        backends.contains_key(id) ==> backends[id].stat.used <= backends[id].stat.total
}

/// No change makes a backend use more than it has.
pub proof fn changes_stay_within_capacity(c: Contents, change: ChangeView)
    requires
        within_capacity(c.backends),
        change matches ChangeView::AddedBackend(meta) ==> meta.stat.used <= meta.stat.total,
        applied(c, change) is Ok,
    ensures
        within_capacity(applied(c, change)->Ok_0.backends),
{
    let after = applied(c, change)->Ok_0;
    match change {
        ChangeView::UploadFile { source_file, path, file_inode } => {
            lemma_charging_within_capacity(c.backends, file_inode.extents);
        },
        ChangeView::RemoveFile(path) => {
            let inode = entry_at(c.tree, path)->Ok_0->Some_0->File_0;
            refunding_takes_off(c.backends, inode.extents);
            assert forall|id: BackendId| #[trigger]
                after.backends.contains_key(id) implies after.backends[id].stat.used
                <= after.backends[id].stat.total by {
                assert(c.backends.contains_key(id));
                lemma_bytes_on_positive(inode.extents, id);
            }
        },
        _ => {},
    }
}

proof fn lemma_charging_within_capacity(backends: BackendsView, extents: Seq<Extent>)
    requires
        within_capacity(backends),
        charged(backends, extents) is Ok,
    ensures
        within_capacity(charged(backends, extents)->Ok_0),
    decreases extents.len(),
{
    if extents.len() > 0 {
        lemma_charging_within_capacity(backends, extents.drop_last());
    }
}

/// The uploads that are pending in a state are files of its tree: at every such path stands a
/// file whose extents are the blobs to upload.
pub proof fn pending_uploads_are_files(base: Contents, state: StateView, path: Seq<Seq<char>>)
    requires
        descends_from(state, base),
        pending_uploads(state.changes).contains_key(path),
    ensures
        entry_at(state.contents.tree, path) matches Ok(Some(EntryView::File(inode))) && exists|
            source_file: u128,
        |
            pending_uploads(state.changes)[path] == #[trigger] blobs_of(source_file, inode.extents),
    decreases state.changes.len(),
{
    let most = state.changes.drop_last();
    let last = state.changes.last();
    let before = replayed(base, most)->Ok_0;
    let earlier = StateView { rev: state.rev, contents: before, changes: most };
    match last {
        ChangeView::UploadFile { source_file, path: p, file_inode } => {
            let entry = EntryView::File(file_inode);
            if path == p {
                an_entry_is_found_where_it_was_put(before.tree, p, entry);
                let inode = entry_at(state.contents.tree, path)->Ok_0->Some_0->File_0;
                assert(inode == file_inode);
                assert(pending_uploads(state.changes)[path] == blobs_of(
                    source_file,
                    inode.extents,
                ));
            } else {
                pending_uploads_are_files(base, earlier, path);
                a_free_path_is_apart_from_a_file(before.tree, p, path);
                putting_leaves_the_rest(before.tree, p, entry, path);
            }
        },
        ChangeView::RemoveFile(p) => {
            pending_uploads_are_files(base, earlier, path);
            files_are_apart(before.tree, p, path);
            taking_leaves_the_rest(before.tree, p, path);
        },
        _ => {
            pending_uploads_are_files(base, earlier, path);
        },
    }
}

/// A file is never uploaded to a path at which an upload is pending.
pub proof fn no_upload_is_pending_twice(
    base: Contents,
    state: StateView,
    source_file: u128,
    path: Seq<Seq<char>>,
    file_inode: FileInodeView,
)
    requires
        descends_from(state, base),
        applied(
            state.contents,
            ChangeView::UploadFile { source_file, path, file_inode },
        ) is Ok,
    ensures
        !pending_uploads(state.changes).contains_key(path),
{
    if pending_uploads(state.changes).contains_key(path) {
        pending_uploads_are_files(base, state, path);
    }
}

/// The files of a tree, by path.
pub open spec fn files_of(tree: DirView) -> Map<Seq<Seq<char>>, FileInodeView> {
    Map::new(
        |path: Seq<Seq<char>>| entry_at(tree, path) matches Ok(Some(EntryView::File(_))),
        |path: Seq<Seq<char>>| entry_at(tree, path)->Ok_0->Some_0->File_0,
    )
}

/// The bytes that a finite set of files takes up on one backend.
pub open spec fn stored_on(files: Map<Seq<Seq<char>>, FileInodeView>, id: BackendId) -> int
    decreases files.dom().len(),
    when files.dom().finite()
{
    if files.dom().len() == 0 {
        0
    } else {
        let path = files.dom().choose();
        bytes_on(files[path].extents, id) + stored_on(files.remove(path), id)
    }
}

/// What a backend is said to use is what the files of the tree take up on it, and every extent
/// that takes up any bytes lies on a known backend.
pub open spec fn accounted(c: Contents) -> bool {
    &&& files_of(c.tree).dom().finite()
    &&& c.backends.dom().finite()
    &&& forall|id: BackendId| #[trigger]
        c.backends.contains_key(id) ==> c.backends[id].stat.used == stored_on(
            files_of(c.tree),
            id,
        )
    &&& forall|id: BackendId|
        !c.backends.contains_key(id) ==> #[trigger] stored_on(files_of(c.tree), id) == 0
}

proof fn lemma_stored_on(
    files: Map<Seq<Seq<char>>, FileInodeView>,
    path: Seq<Seq<char>>,
    id: BackendId,
)
    requires
        files.dom().finite(),
        files.contains_key(path),
    ensures
        stored_on(files, id) == bytes_on(files[path].extents, id) + stored_on(
            files.remove(path),
            id,
        ),
    decreases files.dom().len(),
{
    let q = files.dom().choose();
    assert(files.dom().len() > 0) by {
        if files.dom().len() == 0 {
            assert(files.dom() =~= Set::<Seq<Seq<char>>>::empty());
        }
    }
    assert(files.dom().contains(q));
    if q != path {
        assert(files.remove(q).dom() =~= files.dom().remove(q));
        assert(files.remove(path).dom() =~= files.dom().remove(path));
        lemma_stored_on(files.remove(q), path, id);
        lemma_stored_on(files.remove(path), q, id);
        assert(files.remove(q).remove(path) =~= files.remove(path).remove(q));
    }
}

proof fn lemma_stored_on_positive(files: Map<Seq<Seq<char>>, FileInodeView>, id: BackendId)
    requires
        files.dom().finite(),
    ensures
        stored_on(files, id) >= 0,
    decreases files.dom().len(),
{
    if files.dom().len() > 0 {
        let q = files.dom().choose();
        assert(files.dom().contains(q));
        assert(files.remove(q).dom() =~= files.dom().remove(q));
        lemma_bytes_on_positive(files[q].extents, id);
        lemma_stored_on_positive(files.remove(q), id);
    }
}

/// A file that is put at a free path is the only new file.
pub proof fn putting_a_file_adds_one_file(
    tree: DirView,
    path: Seq<Seq<char>>,
    inode: FileInodeView,
)
    requires
        entry_at(tree, path) == Ok::<Option<EntryView>, StateError>(None),
    ensures
        files_of(with_entry(tree, path, EntryView::File(inode))) == files_of(tree).insert(
            path,
            inode,
        ),
{
    let entry = EntryView::File(inode);
    let after = with_entry(tree, path, entry);
    an_entry_is_found_where_it_was_put(tree, path, entry);
    let want = files_of(tree).insert(path, inode);
    assert forall|q: Seq<Seq<char>>|
        #![trigger files_of(after).dom().contains(q)]
        #![trigger want.dom().contains(q)]
        files_of(after).dom().contains(q) == want.dom().contains(q) && (want.dom().contains(q)
            ==> files_of(after)[q] == want[q]) by {
        if q != path {
            if files_of(tree).contains_key(q) {
                a_free_path_is_apart_from_a_file(tree, path, q);
                putting_leaves_the_rest(tree, path, entry, q);
            }
            if files_of(after).contains_key(q) {
                files_are_apart(after, path, q);
                putting_leaves_the_rest(tree, path, entry, q);
            }
        }
    }
    assert(files_of(after) =~= want);
}

/// Taking out a file takes out no other file.
pub proof fn taking_a_file_drops_one_file(tree: DirView, path: Seq<Seq<char>>)
    requires
        entry_at(tree, path) matches Ok(Some(EntryView::File(_))),
    ensures
        files_of(without_entry(tree, path)) == files_of(tree).remove(path),
{
    let after = without_entry(tree, path);
    nothing_is_found_where_an_entry_was_taken(tree, path);
    let want = files_of(tree).remove(path);
    assert forall|q: Seq<Seq<char>>|
        #![trigger files_of(after).dom().contains(q)]
        #![trigger want.dom().contains(q)]
        files_of(after).dom().contains(q) == want.dom().contains(q) && (want.dom().contains(q)
            ==> files_of(after)[q] == want[q]) by {
        if q != path {
            if files_of(tree).contains_key(q) {
                files_are_apart(tree, path, q);
                taking_leaves_the_rest(tree, path, q);
            }
            if files_of(after).contains_key(q) {
                a_free_path_is_apart_from_a_file(after, path, q);
                taking_leaves_the_rest(tree, path, q);
            }
        }
    }
    assert(files_of(after) =~= want);
}

/// Every change keeps the books: a backend is said to use what the files take up on it, if that
/// held before and if a backend that is added is empty.
pub proof fn changes_keep_the_books(c: Contents, change: ChangeView)
    requires
        accounted(c),
        change matches ChangeView::AddedBackend(meta) ==> meta.stat.used == 0,
        applied(c, change) is Ok,
    ensures
        accounted(applied(c, change)->Ok_0),
{
    let after = applied(c, change)->Ok_0;
    let files = files_of(c.tree);
    match change {
        ChangeView::AddedBackend(meta) => {
            a_new_backend_gets_a_free_id(c.backends);
        },
        ChangeView::RemovedBackend(id) => {},
        ChangeView::UploadFile { source_file, path, file_inode } => {
            let now = files.insert(path, file_inode);
            putting_a_file_adds_one_file(c.tree, path, file_inode);
            charging_adds_up(c.backends, file_inode.extents);
            assert(now.dom() =~= files.dom().insert(path));
            assert(now.remove(path) =~= files);
            assert forall|id: BackendId| #[trigger]
                after.backends.contains_key(id) implies after.backends[id].stat.used == stored_on(
                now,
                id,
            ) by {
                assert(c.backends.contains_key(id));
                lemma_stored_on(now, path, id);
                lemma_bytes_on_positive(file_inode.extents, id);
            }
            assert forall|id: BackendId| !after.backends.contains_key(id) implies #[trigger] stored_on(
                now,
                id,
            ) == 0 by {
                lemma_unknown_bytes(c.backends, file_inode.extents, id);
                lemma_stored_on(now, path, id);
            }
        },
        ChangeView::RemoveFile(path) => {
            let inode = entry_at(c.tree, path)->Ok_0->Some_0->File_0;
            let now = files.remove(path);
            taking_a_file_drops_one_file(c.tree, path);
            refunding_takes_off(c.backends, inode.extents);
            assert(now.dom() =~= files.dom().remove(path));
            assert forall|id: BackendId| #[trigger]
                after.backends.contains_key(id) implies after.backends[id].stat.used == stored_on(
                now,
                id,
            ) by {
                assert(c.backends.contains_key(id));
                lemma_stored_on(files, path, id);
                lemma_bytes_on_positive(inode.extents, id);
            }
            assert forall|id: BackendId| !after.backends.contains_key(id) implies #[trigger] stored_on(
                now,
                id,
            ) == 0 by {
                lemma_unknown_bytes(c.backends, inode.extents, id);
                lemma_stored_on(files, path, id);
            }
        },
    }
}

/// Extents on known backends take up nothing elsewhere.
proof fn lemma_unknown_bytes(backends: BackendsView, extents: Seq<Extent>, id: BackendId)
    requires
        all_known(backends, extents),
        !backends.contains_key(id),
    ensures
        bytes_on(extents, id) == 0,
    decreases extents.len(),
{
    if extents.len() > 0 {
        let most = extents.drop_last();
        assert forall|i: int| 0 <= i < most.len() implies backends.contains_key(
            (#[trigger] most[i]).locator.backend_id,
        ) by {
            assert(most[i] == extents[i]);
        }
        lemma_unknown_bytes(backends, most, id);
        assert(backends.contains_key(extents[extents.len() - 1].locator.backend_id));
    }
}

/// While the books are kept, every file whose extents lie on known backends can be removed.
pub proof fn files_can_be_removed(c: Contents, path: Seq<Seq<char>>)
    requires
        accounted(c),
        entry_at(c.tree, path) matches Ok(Some(EntryView::File(inode))) && all_known(
            c.backends,
            inode.extents,
        ),
    ensures
        applied(c, ChangeView::RemoveFile(path)) is Ok,
{
    let inode = entry_at(c.tree, path)->Ok_0->Some_0->File_0;
    let files = files_of(c.tree);
    assert(files.contains_key(path));
    refunding_takes_off(c.backends, inode.extents);
    assert forall|i: int| 0 <= i < inode.extents.len() implies has_used(
        c.backends,
        inode.extents,
        (#[trigger] inode.extents[i]).locator.backend_id,
    ) by {
        let id = inode.extents[i].locator.backend_id;
        lemma_stored_on(files, path, id);
        assert(files.remove(path).dom() =~= files.dom().remove(path));
        lemma_stored_on_positive(files.remove(path), id);
        assert(c.backends.contains_key(id));
    }
}

/// The first revision keeps the books.
pub proof fn the_first_revision_keeps_the_books()
    ensures
        accounted(Contents { tree: Map::empty(), backends: Map::empty() }),
{
    let tree: DirView = Map::empty();
    assert forall|path: Seq<Seq<char>>| !files_of(tree).contains_key(path) by {}
    assert(files_of(tree).dom() =~= Set::<Seq<Seq<char>>>::empty());
}

/// A backend that is added is kept exactly as it was given, under the id right behind the greatest
/// id in use, or under 1 where there is none. All else stays as it was. It is refused exactly where
/// the greatest possible id is in use.
pub proof fn an_added_backend_is_kept_as_given(c: Contents, meta: BackendMeta) -> (id: BackendId)
    requires
        c.backends.dom().finite(),
    ensures
        c.backends.contains_key(BackendId::MAX) ==> applied(c, ChangeView::AddedBackend(meta))
            == Err::<Contents, StateError>(StateError::OutOfBackendIds),
        !c.backends.contains_key(BackendId::MAX) ==> {
            &&& applied(c, ChangeView::AddedBackend(meta)) == Ok::<Contents, StateError>(
                Contents { tree: c.tree, backends: c.backends.insert(id, meta) },
            )
            &&& forall|other: BackendId| #[trigger] c.backends.contains_key(other) ==> other < id
            &&& id == 1 || c.backends.contains_key((id - 1) as BackendId)
            &&& id != 0
        },
{
    a_new_backend_gets_a_free_id(c.backends);
    if c.backends.contains_key(BackendId::MAX) {
        assert(c.backends.dom().contains(BackendId::MAX));
        0
    } else if c.backends.dom() == Set::<BackendId>::empty() {
        1
    } else {
        lemma_greatest_exists(c.backends.dom());
        let g = choose|g: BackendId|
            c.backends.dom().contains(g) && forall|o: BackendId| #[trigger]
                c.backends.dom().contains(o) ==> o <= g;
        assert(is_greatest_id(c.backends, g));
        let top = choose|id: BackendId| is_greatest_id(c.backends, id);
        assert(is_greatest_id(c.backends, top));
        (top + 1) as BackendId
    }
}

/// A backend is removed exactly where it is known and nothing is used on it. All else stays as it
/// was.
pub proof fn an_empty_backend_can_be_removed(c: Contents, id: BackendId)
    ensures
        applied(c, ChangeView::RemovedBackend(id)) == (if !c.backends.contains_key(id) {
            Err(StateError::BackendNotFound)
        } else if c.backends[id].stat.used > 0 {
            Err(StateError::BackendNotEmpty)
        } else {
            Ok::<Contents, StateError>(Contents { backends: c.backends.remove(id), ..c })
        }),
{
}

proof fn lemma_bytes_are_a_sum(extents: Seq<Extent>, id: BackendId)
    ensures
        bytes_on(extents, id) == extents.fold_left(
            0int,
            |sum: int, e: Extent|
                if e.locator.backend_id == id {
                    sum + e.length
                } else {
                    sum
                },
        ),
    decreases extents.len(),
{
    if extents.len() > 0 {
        lemma_bytes_are_a_sum(extents.drop_last(), id);
    }
}

/// A file is uploaded exactly where its path is free and every backend that gets a part of it is
/// known and has room for all that it gets. The file then stands at its path as it was given, the
/// entries elsewhere stay as they were, and every backend uses as many more bytes as the extents on
/// it are long. Nothing else about a backend changes.
pub proof fn an_uploaded_file_is_charged_and_found(
    c: Contents,
    source_file: u128,
    path: Seq<Seq<char>>,
    file_inode: FileInodeView,
)
    ensures
        applied(c, ChangeView::UploadFile { source_file, path, file_inode }) is Ok <==> {
            &&& entry_at(c.tree, path) == Ok::<Option<EntryView>, StateError>(None)
            &&& forall|i: int|
                #![trigger file_inode.extents[i]]
                0 <= i < file_inode.extents.len() ==> {
                    let id = file_inode.extents[i].locator.backend_id;
                    &&& c.backends.contains_key(id)
                    &&& c.backends[id].stat.used + file_inode.extents.fold_left(
                        0int,
                        |sum: int, e: Extent|
                            if e.locator.backend_id == id {
                                sum + e.length
                            } else {
                                sum
                            },
                    ) <= c.backends[id].stat.total
                }
        },
        applied(c, ChangeView::UploadFile { source_file, path, file_inode }) matches Ok(after) ==> {
            &&& entry_at(after.tree, path) == Ok::<Option<EntryView>, StateError>(
                Some(EntryView::File(file_inode)),
            )
            &&& forall|other: Seq<Seq<char>>|
                !path.is_prefix_of(other) && !other.is_prefix_of(path) ==> #[trigger] entry_at(
                    after.tree,
                    other,
                ) == entry_at(c.tree, other)
            &&& after.backends.dom() == c.backends.dom()
            &&& forall|id: BackendId| #[trigger]
                c.backends.contains_key(id) ==> {
                    &&& after.backends[id].kind == c.backends[id].kind
                    &&& after.backends[id].stat.total == c.backends[id].stat.total
                    &&& after.backends[id].stat.used == c.backends[id].stat.used
                        + file_inode.extents.fold_left(
                        0int,
                        |sum: int, e: Extent|
                            if e.locator.backend_id == id {
                                sum + e.length
                            } else {
                                sum
                            },
                    )
                }
        },
{
    let extents = file_inode.extents;
    charging_adds_up(c.backends, extents);
    assert forall|i: int|
        #![trigger extents[i]]
        0 <= i < extents.len() && c.backends.contains_key(
            extents[i].locator.backend_id,
        ) implies has_room(c.backends, extents, extents[i].locator.backend_id) == (c.backends[
        extents[i].locator.backend_id].stat.used + extents.fold_left(
        0int,
        |sum: int, e: Extent|
            if e.locator.backend_id == extents[i].locator.backend_id {
                sum + e.length
            } else {
                sum
            },
    ) <= c.backends[extents[i].locator.backend_id].stat.total) by {
        lemma_bytes_are_a_sum(extents, extents[i].locator.backend_id);
    }
    if let Ok(after) = applied(c, ChangeView::UploadFile { source_file, path, file_inode }) {
        let entry = EntryView::File(file_inode);
        an_entry_is_found_where_it_was_put(c.tree, path, entry);
        assert forall|other: Seq<Seq<char>>|
            !path.is_prefix_of(other) && !other.is_prefix_of(path) implies #[trigger] entry_at(
            after.tree,
            other,
        ) == entry_at(c.tree, other) by {
            lemma_not_a_prefix(path, other);
            lemma_not_a_prefix(other, path);
            putting_leaves_the_rest(c.tree, path, entry, other);
        }
        assert forall|id: BackendId| #[trigger] c.backends.contains_key(id) implies {
            &&& after.backends[id].kind == c.backends[id].kind
            &&& after.backends[id].stat.total == c.backends[id].stat.total
            &&& after.backends[id].stat.used == c.backends[id].stat.used + extents.fold_left(
                0int,
                |sum: int, e: Extent|
                    if e.locator.backend_id == id {
                        sum + e.length
                    } else {
                        sum
                    },
            )
        } by {
            assert(after.backends.contains_key(id));
            lemma_bytes_are_a_sum(extents, id);
            lemma_bytes_on_positive(extents, id);
        }
    }
}

/// A path that is no prefix of another does not lead to it.
proof fn lemma_not_a_prefix(a: Seq<Seq<char>>, b: Seq<Seq<char>>)
    ensures
        a.is_prefix_of(b) <==> leads_to(a, b),
{
    if a.len() <= b.len() {
        assert(b.take(a.len() as int) =~= b.subrange(0, a.len() as int));
    }
}

/// An upload is refused for the first thing that is wrong: its path, what stands there already, or
/// the first extent whose backend is not known or has no room left after the extents before it.
pub proof fn an_upload_is_refused_for_the_first_fault(
    c: Contents,
    source_file: u128,
    path: Seq<Seq<char>>,
    file_inode: FileInodeView,
) -> (n: int)
    requires
        applied(c, ChangeView::UploadFile { source_file, path, file_inode }) is Err,
    ensures
        ({
            let why = applied(
                c,
                ChangeView::UploadFile { source_file, path, file_inode },
            )->Err_0;
            match entry_at(c.tree, path) {
                Err(wrong) => why == wrong,
                Ok(Some(_)) => why == StateError::FileExists,
                Ok(None) => {
                    let first = FileInodeView {
                        length: file_inode.length,
                        extents: file_inode.extents.take(n),
                    };
                    let fault = file_inode.extents[n];
                    let id = fault.locator.backend_id;
                    &&& 0 <= n < file_inode.extents.len()
                    &&& applied(
                        c,
                        ChangeView::UploadFile { source_file, path, file_inode: first },
                    ) matches Ok(middle) && if !c.backends.contains_key(id) {
                        why == StateError::BackendNotFound
                    } else {
                        &&& why == StateError::BackendOutOfSpace
                        &&& middle.backends[id].stat.used + fault.length
                            > middle.backends[id].stat.total
                    }
                },
            }
        }),
{
    if entry_at(c.tree, path) == Ok::<Option<EntryView>, StateError>(None) {
        let n = lemma_first_uncharged(c.backends, file_inode.extents);
        charging_adds_up(c.backends, file_inode.extents.take(n));
        n
    } else {
        0
    }
}

proof fn lemma_first_uncharged(backends: BackendsView, extents: Seq<Extent>) -> (n: int)
    requires
        charged(backends, extents) is Err,
    ensures
        0 <= n < extents.len(),
        charged(backends, extents.take(n)) matches Ok(b) && charged(backends, extents) == Err::<
            BackendsView,
            StateError,
        >(
            if !b.contains_key(extents[n].locator.backend_id) {
                StateError::BackendNotFound
            } else {
                StateError::BackendOutOfSpace
            },
        ) && (b.contains_key(extents[n].locator.backend_id)
            ==> b[extents[n].locator.backend_id].stat.used + extents[n].length
            > b[extents[n].locator.backend_id].stat.total),
    decreases extents.len(),
{
    let most = extents.drop_last();
    if charged(backends, most) is Err {
        let n = lemma_first_uncharged(backends, most);
        assert(most.take(n) =~= extents.take(n));
        n
    } else {
        assert(extents.take(extents.len() - 1) =~= most);
        extents.len() - 1
    }
}

/// A file is removed exactly where one stands at the path and every backend that holds a part of it
/// is known and uses at least what the parts on it take up. Nothing stands at the path then, the
/// entries elsewhere stay as they were, and every backend uses as many bytes less as the extents on
/// it are long. Nothing else about a backend changes.
pub proof fn a_removed_file_is_refunded_and_gone(c: Contents, path: Seq<Seq<char>>)
    ensures
        match entry_at(c.tree, path) {
            Err(why) => applied(c, ChangeView::RemoveFile(path)) == Err::<Contents, StateError>(why),
            Ok(None) => applied(c, ChangeView::RemoveFile(path)) == Err::<Contents, StateError>(
                StateError::FileNotFound,
            ),
            Ok(Some(EntryView::Dir(_))) => applied(c, ChangeView::RemoveFile(path)) == Err::<
                Contents,
                StateError,
            >(StateError::PathNotAFile),
            Ok(Some(EntryView::File(inode))) => {
                &&& applied(c, ChangeView::RemoveFile(path)) is Ok <==> forall|i: int|
                    #![trigger inode.extents[i]]
                    0 <= i < inode.extents.len() ==> {
                        let id = inode.extents[i].locator.backend_id;
                        &&& c.backends.contains_key(id)
                        &&& c.backends[id].stat.used >= inode.extents.fold_left(
                            0int,
                            |sum: int, e: Extent|
                                if e.locator.backend_id == id {
                                    sum + e.length
                                } else {
                                    sum
                                },
                        )
                    }
                &&& applied(c, ChangeView::RemoveFile(path)) matches Err(why) ==> why
                    == StateError::InvalidState
                &&& applied(c, ChangeView::RemoveFile(path)) matches Ok(after) ==> {
                    &&& entry_at(after.tree, path) == Ok::<Option<EntryView>, StateError>(None)
                    &&& forall|other: Seq<Seq<char>>|
                        !path.is_prefix_of(other) && !other.is_prefix_of(path)
                            ==> #[trigger] entry_at(after.tree, other) == entry_at(c.tree, other)
                    &&& after.backends.dom() == c.backends.dom()
                    &&& forall|id: BackendId| #[trigger]
                        c.backends.contains_key(id) ==> {
                            &&& after.backends[id].kind == c.backends[id].kind
                            &&& after.backends[id].stat.total == c.backends[id].stat.total
                            &&& after.backends[id].stat.used == c.backends[id].stat.used
                                - inode.extents.fold_left(
                                0int,
                                |sum: int, e: Extent|
                                    if e.locator.backend_id == id {
                                        sum + e.length
                                    } else {
                                        sum
                                    },
                            )
                        }
                }
            },
        },
{
    if let Ok(Some(EntryView::File(inode))) = entry_at(c.tree, path) {
        let extents = inode.extents;
        refunding_takes_off(c.backends, extents);
        lemma_refusals(c.backends, extents);
        assert forall|i: int|
            #![trigger extents[i]]
            0 <= i < extents.len() && c.backends.contains_key(
                extents[i].locator.backend_id,
            ) implies has_used(c.backends, extents, extents[i].locator.backend_id)
            == (c.backends[extents[i].locator.backend_id].stat.used >= extents.fold_left(
            0int,
            |sum: int, e: Extent|
                if e.locator.backend_id == extents[i].locator.backend_id {
                    sum + e.length
                } else {
                    sum
                },
        )) by {
            lemma_bytes_are_a_sum(extents, extents[i].locator.backend_id);
        }
        if let Ok(after) = applied(c, ChangeView::RemoveFile(path)) {
            nothing_is_found_where_an_entry_was_taken(c.tree, path);
            assert forall|other: Seq<Seq<char>>|
                !path.is_prefix_of(other) && !other.is_prefix_of(path) implies #[trigger] entry_at(
                after.tree,
                other,
            ) == entry_at(c.tree, other) by {
                lemma_not_a_prefix(path, other);
                lemma_not_a_prefix(other, path);
                taking_leaves_the_rest(c.tree, path, other);
            }
            assert forall|id: BackendId| #[trigger] c.backends.contains_key(id) implies {
                &&& after.backends[id].kind == c.backends[id].kind
                &&& after.backends[id].stat.total == c.backends[id].stat.total
                &&& after.backends[id].stat.used == c.backends[id].stat.used - extents.fold_left(
                    0int,
                    |sum: int, e: Extent|
                        if e.locator.backend_id == id {
                            sum + e.length
                        } else {
                            sum
                        },
                )
            } by {
                assert(after.backends.contains_key(id));
                lemma_bytes_are_a_sum(extents, id);
                lemma_bytes_on_positive(extents, id);
            }
        }
    }
}

proof fn lemma_refusals(backends: BackendsView, extents: Seq<Extent>)
    ensures
        refunded(backends, extents) matches Err(why) ==> why == StateError::InvalidState,
    decreases extents.len(),
{
    if extents.len() > 0 {
        lemma_refusals(backends, extents.drop_last());
    }
}

} // verus!
