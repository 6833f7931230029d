//! What the transactions keep, and how they fit together.

use crate::bytes::every_number_fits;
use crate::db::types::{
    BackendId, BackendMeta, ChunkData, ChunkId, InodeId, InodeMeta, InodeMetaView, Metadata,
};
use crate::db::{
    backend_ids_ascend, backend_rows_of, backends_holding, new_tables, rows_of, space_on,
    space_taken, Db, DbError, DbView, IdBound, IdRange, OutOfIdsKind,
};
use crate::maps::{in_order, lemma_has_order};
use vstd::prelude::*;

verus! {

impl DbView {
    /// An inode is a directory that can be read.
    pub open spec fn is_readable_dir(self, id: InodeId) -> bool {
        self.inodes.contains_key(id) && (self.inodes[id] matches Some(meta) && meta.is_dir())
    }

    /// The inodes form a tree: the root has no parent and every other inode has one, which is a
    /// directory and holds it, and no two inodes in a directory have one name.
    pub open spec fn is_tree(self) -> bool {
        &&& self.is_readable_dir(0)
        &&& !self.parents.contains_key(0)
        &&& forall|id: InodeId| #[trigger]
            self.inodes.contains_key(id) && id != 0 ==> self.parents.contains_key(id)
        &&& forall|id: InodeId| #[trigger]
            self.parents.contains_key(id) ==> {
                &&& self.inodes.contains_key(id)
                &&& self.is_readable_dir(self.parents[id])
            }
        &&& forall|dir: InodeId, id: InodeId| #[trigger]
            self.links.contains((dir, id)) <==> self.parents.contains_key(id) && self.parents[id]
                == dir
        &&& forall|dir: InodeId| (#[trigger] self.children_of(dir)).finite()
        &&& forall|a: InodeId, b: InodeId|
            #![trigger self.parents.contains_key(a), self.parents.contains_key(b)]
            self.parents.contains_key(a) && self.parents.contains_key(b) && a != b
                && self.parents[a] == self.parents[b] && self.inodes[a] is Some
                && self.inodes[b] is Some ==> self.inodes[a]->Some_0.name
                != self.inodes[b]->Some_0.name
    }

    /// Every inode can be read.
    pub open spec fn is_readable(self) -> bool {
        forall|id: InodeId| #[trigger] self.inodes.contains_key(id) ==> self.inodes[id] is Some
    }

    /// No chunk is both pending and marked to be dropped.
    pub open spec fn chunks_are_apart(self) -> bool {
        forall|id: ChunkId| #[trigger]
            self.temp_chunks.contains(id) ==> !self.chunks_to_drop.contains(id)
    }
}

/// The tables of a new database are a tree, and no chunk is pending or to be dropped.
pub proof fn new_tables_are_a_tree()
    ensures
        new_tables().is_tree(),
        new_tables().is_readable(),
        new_tables().chunks_are_apart(),
{
    assert(0u8 & 1u8 != 1u8) by (bit_vector);
    assert forall|dir: InodeId| (#[trigger] new_tables().children_of(dir)).finite() by {
        assert(new_tables().children_of(dir) =~= Set::<InodeId>::empty());
    }
}

/// Making an inode under an id that is not in use keeps the tree.
pub proof fn creating_keeps_the_tree(db: DbView, parent: InodeId, id: InodeId, meta: InodeMetaView)
    requires
        db.is_tree(),
        !db.inodes.contains_key(id),
        db.with_inode(parent, id, meta) is Ok,
    ensures
        db.with_inode(parent, id, meta)->Ok_0.is_tree(),
        db.is_readable() ==> db.with_inode(parent, id, meta)->Ok_0.is_readable(),
{
    let after = db.with_inode(parent, id, meta)->Ok_0;
    assert(!db.parents.contains_key(id));
    assert forall|dir: InodeId| (#[trigger] after.children_of(dir)).finite() by {
        assert(db.children_of(dir).finite());
        if dir == parent {
            assert(after.children_of(dir) =~= db.children_of(dir).insert(id));
        } else {
            assert(after.children_of(dir) =~= db.children_of(dir));
        }
    }
    assert forall|dir: InodeId, other: InodeId| #[trigger]
        after.links.contains((dir, other)) <==> after.parents.contains_key(other)
        && after.parents[other] == dir by {
        assert(db.links.contains((dir, other)) <==> db.parents.contains_key(other)
            && db.parents[other] == dir);
    }
    assert forall|other: InodeId| #[trigger] after.parents.contains_key(other) implies {
        &&& after.inodes.contains_key(other)
        &&& after.is_readable_dir(after.parents[other])
    } by {
        if other != id {
            assert(db.parents.contains_key(other));
            assert(db.is_readable_dir(db.parents[other]));
        }
    }
    assert forall|a: InodeId, b: InodeId|
        #![trigger after.parents.contains_key(a), after.parents.contains_key(b)]
        after.parents.contains_key(a) && after.parents.contains_key(b) && a != b
            && after.parents[a] == after.parents[b] && after.inodes[a] is Some
            && after.inodes[b] is Some implies after.inodes[a]->Some_0.name
        != after.inodes[b]->Some_0.name by {
        if a != id && b != id {
            assert(db.parents.contains_key(a) && db.parents.contains_key(b));
        } else {
            let other = if a == id { b } else { a };
            assert(db.parents.contains_key(other));
            assert(db.links.contains((parent, other)));
            assert(db.children_of(parent).contains(other));
        }
    }
}

/// Removing an inode keeps the tree.
pub proof fn removing_keeps_the_tree(db: DbView, id: InodeId)
    requires
        db.is_tree(),
        db.without_inode(id) is Ok,
    ensures
        db.without_inode(id)->Ok_0.is_tree(),
        db.is_readable() ==> db.without_inode(id)->Ok_0.is_readable(),
{
    let after = db.without_inode(id)->Ok_0;
    assert(db.parents.contains_key(id));
    assert(id != 0);
    assert forall|other: InodeId| #[trigger] db.parents.contains_key(other) implies db.parents[other]
        != id by {
        if db.parents[other] == id {
            assert(db.links.contains((id, other)));
            assert(db.children_of(id).contains(other));
            assert(db.is_readable_dir(id));
        }
    }
    assert forall|dir: InodeId| (#[trigger] after.children_of(dir)).finite() by {
        assert(db.children_of(dir).finite());
        if dir == db.parents[id] {
            assert(after.children_of(dir) =~= db.children_of(dir).remove(id));
        } else {
            assert(after.children_of(dir) =~= db.children_of(dir));
        }
    }
    assert forall|dir: InodeId, other: InodeId| #[trigger]
        after.links.contains((dir, other)) <==> after.parents.contains_key(other)
        && after.parents[other] == dir by {
        assert(db.links.contains((dir, other)) <==> db.parents.contains_key(other)
            && db.parents[other] == dir);
    }
    assert forall|other: InodeId| #[trigger] after.parents.contains_key(other) implies {
        &&& after.inodes.contains_key(other)
        &&& after.is_readable_dir(after.parents[other])
    } by {
        assert(db.parents.contains_key(other));
        assert(db.is_readable_dir(db.parents[other]));
    }
    assert forall|other: InodeId| #[trigger]
        after.inodes.contains_key(other) && other != 0 implies after.parents.contains_key(other) by {
        assert(db.inodes.contains_key(other));
    }
    assert forall|a: InodeId, b: InodeId|
        #![trigger after.parents.contains_key(a), after.parents.contains_key(b)]
        after.parents.contains_key(a) && after.parents.contains_key(b) && a != b
            && after.parents[a] == after.parents[b] && after.inodes[a] is Some
            && after.inodes[b] is Some implies after.inodes[a]->Some_0.name
        != after.inodes[b]->Some_0.name by {
        assert(db.parents.contains_key(a) && db.parents.contains_key(b));
    }
}

/// The root cannot be removed.
pub proof fn the_root_stays(db: DbView)
    requires
        db.is_tree(),
    ensures
        db.without_inode(0) is Err,
{
}

/// Removing an inode that was just made under an id that was not in use undoes the making.
pub proof fn removing_undoes_creating(db: DbView, parent: InodeId, id: InodeId, meta: InodeMetaView)
    requires
        db.is_tree(),
        !db.inodes.contains_key(id),
        db.with_inode(parent, id, meta) is Ok,
    ensures
        db.with_inode(parent, id, meta)->Ok_0.without_inode(id) == Ok::<DbView, DbError>(db),
{
    let after = db.with_inode(parent, id, meta)->Ok_0;
    assert(!db.parents.contains_key(id));
    assert forall|child: InodeId| !#[trigger] after.children_of(id).contains(child) by {
        assert(after.children_of(id).contains(child) == after.links.contains((id, child)));
        assert(db.links.contains((id, child)) <==> db.parents.contains_key(child)
            && db.parents[child] == id);
        if db.parents.contains_key(child) {
            assert(db.is_readable_dir(db.parents[child]));
        }
    }
    assert(!db.links.contains((parent, id)));
    let back = after.without_inode(id)->Ok_0;
    assert(back.inodes =~= db.inodes);
    assert(back.links =~= db.links);
    assert(back.parents =~= db.parents);
}

/// An inode that was made under an id that was not in use is found under its name.
pub proof fn a_created_inode_is_found(
    db: DbView,
    parent: InodeId,
    id: InodeId,
    meta: InodeMetaView,
)
    requires
        db.is_tree(),
        db.is_readable(),
        !db.inodes.contains_key(id),
        db.with_inode(parent, id, meta) is Ok,
    ensures
        db.with_inode(parent, id, meta)->Ok_0.lookup(parent, seq![meta.name]) == Ok::<
            Option<InodeId>,
            DbError,
        >(Some(id)),
{
    let after = db.with_inode(parent, id, meta)->Ok_0;
    creating_keeps_the_tree(db, parent, id, meta);
    assert(after.children_of(parent).finite());
    lemma_has_order(after.children_of(parent));
    let order = in_order(after.children_of(parent));
    assert(after.links.contains((parent, id)));
    assert(after.children_of(parent).contains(id));
    assert(order.to_set().contains(id));
    assert forall|k: int| 0 <= k < order.len() implies after.row(#[trigger] order[k]) is Ok && (
    after.row(order[k])->Ok_0.name == meta.name ==> order[k] == id) by {
        let other = order[k];
        assert(order.to_set().contains(other));
        assert(after.children_of(parent).contains(other));
        assert(after.links.contains((parent, other)));
        assert(after.parents.contains_key(other) && after.parents.contains_key(id));
        assert(after.inodes.contains_key(other));
    }
    lemma_scan_finds(after, order, meta.name, id);
    let path = seq![meta.name];
    assert(path.first() == meta.name);
    assert(path.drop_first() =~= Seq::<Seq<char>>::empty());
    assert(after.lookup(id, path.drop_first()) == Ok::<Option<InodeId>, DbError>(Some(id)));
}

/// The name of an inode that was removed is not found any more.
pub proof fn a_removed_inode_is_not_found(db: DbView, id: InodeId)
    requires
        db.is_tree(),
        db.is_readable(),
        db.without_inode(id) is Ok,
    ensures
        db.without_inode(id)->Ok_0.lookup(
            db.parents[id],
            seq![db.inodes[id]->Some_0.name],
        ) == Ok::<Option<InodeId>, DbError>(None),
{
    let after = db.without_inode(id)->Ok_0;
    let parent = db.parents[id];
    let name = db.inodes[id]->Some_0.name;
    removing_keeps_the_tree(db, id);
    assert(after.children_of(parent).finite());
    lemma_has_order(after.children_of(parent));
    let order = in_order(after.children_of(parent));
    assert forall|k: int| 0 <= k < order.len() implies after.row(#[trigger] order[k]) is Ok
        && after.row(order[k])->Ok_0.name != name by {
        let other = order[k];
        assert(order.to_set().contains(other));
        assert(after.children_of(parent).contains(other));
        assert(after.links.contains((parent, other)));
        assert(after.parents.contains_key(other));
        assert(db.parents.contains_key(other) && db.parents.contains_key(id));
        assert(after.inodes.contains_key(other));
    }
    lemma_scan_misses(after, order, name);
    assert(seq![name].first() == name);
}

/// Looking up two paths one behind the other is looking up the second from where the first leads.
pub proof fn looking_up_goes_on(
    db: DbView,
    from: InodeId,
    first: Seq<Seq<char>>,
    second: Seq<Seq<char>>,
)
    ensures
        db.lookup(from, first + second) == (match db.lookup(from, first) {
            Ok(Some(middle)) => db.lookup(middle, second),
            other => other,
        }),
    decreases first.len(),
{
    if first.len() == 0 {
        assert(first + second =~= second);
    } else {
        let path = first + second;
        assert(path.first() == first.first());
        assert(path.drop_first() =~= first.drop_first() + second);
        if let Ok(Some(child)) = db.scan(in_order(db.children_of(from)), first.first()) {
            looking_up_goes_on(db, child, first.drop_first(), second);
        }
    }
}

/// A search among rows that can be read finds the one inode that has the name.
proof fn lemma_scan_finds(db: DbView, order: Seq<InodeId>, name: Seq<char>, id: InodeId)
    requires
        order.contains(id),
        db.row(id) matches Ok(meta) && meta.name == name,
        forall|k: int|
            0 <= k < order.len() ==> db.row(#[trigger] order[k]) is Ok && (db.row(
                order[k],
            )->Ok_0.name == name ==> order[k] == id),
    ensures
        db.scan(order, name) == Ok::<Option<InodeId>, DbError>(Some(id)),
    decreases order.len(),
{
    assert(db.row(order[0]) is Ok);
    if order[0] != id {
        let rest = order.drop_first();
        let k = choose|k: int| 0 <= k < order.len() && order[k] == id;
        assert(rest[k - 1] == id);
        assert forall|m: int| 0 <= m < rest.len() implies db.row(#[trigger] rest[m]) is Ok && (db.row(
            rest[m],
        )->Ok_0.name == name ==> rest[m] == id) by {
            assert(rest[m] == order[m + 1]);
        }
        lemma_scan_finds(db, rest, name, id);
    }
}

/// A search among rows that can be read finds nothing where no inode has the name.
proof fn lemma_scan_misses(db: DbView, order: Seq<InodeId>, name: Seq<char>)
    requires
        forall|k: int|
            0 <= k < order.len() ==> db.row(#[trigger] order[k]) is Ok && db.row(
                order[k],
            )->Ok_0.name != name,
    ensures
        db.scan(order, name) == Ok::<Option<InodeId>, DbError>(None),
    decreases order.len(),
{
    if order.len() > 0 {
        let rest = order.drop_first();
        assert(db.row(order[0]) is Ok);
        assert forall|m: int| 0 <= m < rest.len() implies db.row(#[trigger] rest[m]) is Ok && db.row(
            rest[m],
        )->Ok_0.name != name by {
            assert(rest[m] == order[m + 1]);
        }
        lemma_scan_misses(db, rest, name);
    }
}

/// An id of a chunk or of an inode is handed out once: what is handed out next starts behind what
/// was handed out before, and the other numbers are as they were.
pub proof fn ids_are_handed_out_once(db: DbView, key: Metadata, count: nat)
    requires
        db.next(key) + count <= u64::MAX,
    ensures
        ({
            let after = db.with_next(key, db.next(key) + count, 8);
            &&& after.has_number(key, 8)
            &&& after.next(key) == db.next(key) + count
            &&& forall|other: Metadata| #[trigger]
                other.spec_key() != key.spec_key() ==> after.next(other) == db.next(other)
        }),
{
    every_number_fits();
    let n = (db.next(key) + count) as u64;
    crate::bytes::reading_bytes_undoes_writing(n as nat, 8);
    assert(crate::bytes::le_value(crate::bytes::le_bytes(n as nat, 8)) == n);
}

/// An id of a backend is handed out once.
pub proof fn backend_ids_are_handed_out_once(db: DbView)
    requires
        db.next(Metadata::NextBackend) < BackendId::MAX,
    ensures
        ({
            let key = Metadata::NextBackend;
            let after = db.with_next(key, db.next(key) + 1, 4);
            after.has_number(key, 4) && after.next(key) == db.next(key) + 1
        }),
{
    every_number_fits();
    let n = (db.next(Metadata::NextBackend) + 1) as u32;
    crate::bytes::reading_bytes_undoes_writing(n as nat, 4);
    assert(crate::bytes::le_value(crate::bytes::le_bytes(n as nat, 4)) == n);
}

/// Keeping chunks takes from every backend the space of the chunks on it, and nothing from a
/// backend that holds none of them.
pub proof fn kept_chunks_take_their_space(
    backends: Map<BackendId, Option<BackendMeta>>,
    order: Seq<BackendId>,
    chunks: Map<ChunkId, ChunkData>,
    ids: Seq<ChunkId>,
)
    requires
        backend_ids_ascend(order),
        space_taken(backends, order, chunks, ids) is Ok,
    ensures
        ({
            let after = space_taken(backends, order, chunks, ids)->Ok_0;
            &&& after.dom() == backends.dom()
            &&& forall|b: BackendId| #[trigger]
                order.contains(b) ==> {
                    &&& backends.contains_key(b)
                    &&& backends[b] is Some
                    &&& after[b] == Some(
                        BackendMeta {
                            free: (backends[b]->Some_0.free - space_on(chunks, ids, b)) as u64,
                            ..backends[b]->Some_0
                        },
                    )
                    &&& space_on(chunks, ids, b) <= backends[b]->Some_0.free
                }
            &&& forall|b: BackendId| !#[trigger] order.contains(b) ==> after[b] == backends[b]
        }),
    decreases order.len(),
{
    if order.len() > 0 {
        let rest = order.drop_last();
        let last = order.last();
        assert forall|i: int, j: int| 0 <= i < j < rest.len() implies #[trigger] rest[i]
            < #[trigger] rest[j] by {
            assert(order[i] < order[j]);
        }
        kept_chunks_take_their_space(backends, rest, chunks, ids);
        let before = space_taken(backends, rest, chunks, ids)->Ok_0;
        let after = space_taken(backends, order, chunks, ids)->Ok_0;
        assert(!rest.contains(last)) by {
            if rest.contains(last) {
                let k = choose|k: int| 0 <= k < rest.len() && rest[k] == last;
                assert(order[k] < order[order.len() - 1]);
            }
        }
        assert(before.dom().contains(last));
        assert(after.dom() =~= backends.dom());
        assert forall|b: BackendId| order.contains(b) == (rest.contains(b) || b == last) by {
            if order.contains(b) {
                let k = choose|k: int| 0 <= k < order.len() && order[k] == b;
                if k < rest.len() {
                    assert(rest[k] == b);
                }
            }
            if rest.contains(b) {
                let k = choose|k: int| 0 <= k < rest.len() && rest[k] == b;
                assert(order[k] == b);
            }
            assert(order[order.len() - 1] == last);
        }
    }
}

/// Cancelling and keeping pending chunks leaves no chunk both pending and marked to be dropped.
pub proof fn chunks_stay_apart(db: DbView, ids: IdRange, order: Seq<BackendId>)
    requires
        db.chunks_are_apart(),
    ensures
        db.with_cancelled(ids).chunks_are_apart(),
        db.with_commited(ids, order) matches Ok(after) ==> after.chunks_are_apart(),
{
}

/// Adding pending chunks leaves no chunk both pending and marked to be dropped, where none of
/// them is marked to be dropped.
pub proof fn added_chunks_stay_apart(db: DbView, added: Seq<(ChunkId, ChunkData)>)
    requires
        db.chunks_are_apart(),
        forall|k: int|
            0 <= k < added.len() ==> !db.chunks_to_drop.contains((#[trigger] added[k]).0),
    ensures
        db.with_temp_chunks(added).chunks_are_apart(),
        db.with_temp_chunks(added).chunks_to_drop == db.chunks_to_drop,
    decreases added.len(),
{
    if added.len() > 0 {
        let rest = added.drop_last();
        assert forall|k: int| 0 <= k < rest.len() implies !db.chunks_to_drop.contains(
            (#[trigger] rest[k]).0,
        ) by {
            assert(rest[k] == added[k]);
        }
        added_chunks_stay_apart(db, rest);
        assert(added[added.len() - 1] == added.last());
    }
}

/// Every chunk that was added is pending, until it is cancelled or kept.
pub proof fn added_chunks_are_pending(db: DbView, added: Seq<(ChunkId, ChunkData)>, k: int)
    requires
        0 <= k < added.len(),
    ensures
        db.with_temp_chunks(added).temp_chunks.contains(added[k].0),
        db.with_temp_chunks(added).chunks.contains_key(added[k].0),
    decreases added.len(),
{
    if k < added.len() - 1 {
        added_chunks_are_pending(db, added.drop_last(), k);
    }
}

/// Listing inodes gives one row for each of them, in their order. A row that can be read is the id
/// with exactly the metadata that is stored for it; a missing or unreadable one is an error.
pub proof fn a_listing_gives_what_is_stored(
    db: DbView,
    order: Seq<InodeId>,
    rows: Seq<Result<(InodeId, InodeMeta), DbError>>,
)
    requires
        rows_of(db, order, rows),
    ensures
        rows.len() == order.len(),
        forall|i: int|
            #![trigger rows[i]]
            0 <= i < rows.len() ==> {
                &&& rows[i] matches Ok(row) ==> {
                    &&& row.0 == order[i]
                    &&& db.inodes.contains_key(order[i])
                    &&& db.inodes[order[i]] == Some(row.1@)
                }
                &&& rows[i] matches Err(why) ==> {
                    &&& !db.inodes.contains_key(order[i]) ==> why == DbError::CorruptedStructure
                    &&& db.inodes.contains_key(order[i]) ==> db.inodes[order[i]] is None && why
                        == DbError::CorruptedData
                }
            },
{
    assert forall|i: int|
        #![trigger rows[i]]
        0 <= i < rows.len() implies {
        &&& rows[i] matches Ok(row) ==> {
            &&& row.0 == order[i]
            &&& db.inodes.contains_key(order[i])
            &&& db.inodes[order[i]] == Some(row.1@)
        }
        &&& rows[i] matches Err(why) ==> {
            &&& !db.inodes.contains_key(order[i]) ==> why == DbError::CorruptedStructure
            &&& db.inodes.contains_key(order[i]) ==> db.inodes[order[i]] is None && why
                == DbError::CorruptedData
        }
    } by {
        let row = rows[i];
        assert(db.row(order[i]) is Ok || db.row(order[i]) is Err);
    }
}

/// The listing of a directory holds every inode in it once, in ascending order of the ids, and
/// nothing else.
pub proof fn a_directory_is_listed_in_full(db: DbView, dir: InodeId)
    requires
        db.children_of(dir).finite(),
    ensures
        forall|id: InodeId|
            in_order(db.children_of(dir)).contains(id) <==> #[trigger] db.links.contains((dir, id)),
        forall|i: int, j: int|
            0 <= i < j < in_order(db.children_of(dir)).len() ==> #[trigger] in_order(
                db.children_of(dir),
            )[i] < #[trigger] in_order(db.children_of(dir))[j],
{
    lemma_has_order(db.children_of(dir));
    let order = in_order(db.children_of(dir));
    assert forall|id: InodeId| order.contains(id) <==> #[trigger] db.links.contains((dir, id)) by {
        assert(order.to_set().contains(id) == db.children_of(dir).contains(id));
    }
}

/// An inode that was made under an id that was not in use is listed in its directory with exactly
/// the metadata that it was made with.
pub proof fn a_created_inode_is_listed_as_it_was_made(
    db: DbView,
    parent: InodeId,
    id: InodeId,
    meta: InodeMetaView,
    rows: Seq<Result<(InodeId, InodeMeta), DbError>>,
) -> (at: int)
    requires
        db.is_tree(),
        !db.inodes.contains_key(id),
        db.with_inode(parent, id, meta) matches Ok(after) && rows_of(
            after,
            in_order(after.children_of(parent)),
            rows,
        ),
    ensures
        0 <= at < rows.len(),
        rows[at] matches Ok(row) && row.0 == id && row.1@ == meta,
{
    let after = db.with_inode(parent, id, meta)->Ok_0;
    creating_keeps_the_tree(db, parent, id, meta);
    assert(after.children_of(parent).finite());
    a_directory_is_listed_in_full(after, parent);
    let order = in_order(after.children_of(parent));
    assert(after.links.contains((parent, id)));
    assert(order.contains(id));
    let at = choose|at: int| 0 <= at < order.len() && order[at] == id;
    a_listing_gives_what_is_stored(after, order, rows);
    let row = rows[at];
    at
}

/// An inode is made exactly where its directory is there, can be read and is a directory, and no
/// inode in it that can be read has the name. It is refused for the first of these that does not
/// hold, the name first. Where it is made, it is stored as given, and nothing else changes.
pub proof fn an_inode_is_stored_as_it_was_made(
    db: DbView,
    parent: InodeId,
    id: InodeId,
    meta: InodeMetaView,
)
    ensures
        ({
            let taken = exists|child: InodeId| #[trigger]
                db.links.contains((parent, child)) && db.inodes.contains_key(child)
                    && db.inodes[child] is Some && db.inodes[child]->Some_0.name == meta.name;
            match db.with_inode(parent, id, meta) {
                Err(why) => if taken {
                    why == DbError::NameConflict
                } else if !db.inodes.contains_key(parent) {
                    why == DbError::AttemptedOrphan
                } else {
                    match db.inodes[parent] {
                        None => why == DbError::CorruptedData,
                        Some(dir) => why == DbError::ParentNotDir && dir.flags % 2 == 1,
                    }
                },
                Ok(after) => {
                    &&& !taken
                    &&& db.inodes.contains_key(parent)
                    &&& db.inodes[parent] matches Some(dir) && dir.flags % 2 == 0
                    &&& after == (DbView {
                        inodes: db.inodes.insert(id, Some(meta)),
                        links: db.links.insert((parent, id)),
                        parents: db.parents.insert(id, parent),
                        ..db
                    })
                },
            }
        }),
{
    let taken = exists|child: InodeId| #[trigger]
        db.links.contains((parent, child)) && db.inodes.contains_key(child)
            && db.inodes[child] is Some && db.inodes[child]->Some_0.name == meta.name;
    assert(taken == db.name_taken(parent, meta.name)) by {
        if taken {
            let child = choose|child: InodeId| #[trigger]
                db.links.contains((parent, child)) && db.inodes.contains_key(child)
                    && db.inodes[child] is Some && db.inodes[child]->Some_0.name == meta.name;
            assert(db.children_of(parent).contains(child));
        }
        if db.name_taken(parent, meta.name) {
            let child = choose|child: InodeId| #[trigger]
                db.children_of(parent).contains(child) && (db.row(child) matches Ok(found)
                    && found.name == meta.name);
            assert(db.links.contains((parent, child)));
        }
    }
    if db.inodes.contains_key(parent) {
        if let Some(dir) = db.inodes[parent] {
            a_directory_has_an_even_flag(dir);
        }
    }
}

/// An inode is a directory exactly where its lowest flag is not set.
pub proof fn a_directory_has_an_even_flag(meta: InodeMetaView)
    ensures
        meta.is_dir() <==> meta.flags % 2 == 0,
{
    let flags = meta.flags;
    assert((flags & 1u8 != 1u8) == (flags % 2 == 0)) by (bit_vector);
}

/// An inode is removed exactly where it can be read, is no directory that holds anything, and has a
/// parent. It is refused for the first of these that does not hold. Where it is removed, it is gone
/// from its directory, and nothing else changes.
pub proof fn a_removed_inode_is_gone(db: DbView, id: InodeId)
    ensures
        ({
            let full = exists|child: InodeId| #[trigger] db.links.contains((id, child));
            match db.without_inode(id) {
                Err(why) => if !db.inodes.contains_key(id) || db.inodes[id] is None {
                    why == DbError::NotFound(OutOfIdsKind::Inode)
                } else if db.inodes[id]->Some_0.flags % 2 == 0 && full {
                    why == DbError::HasChildren
                } else {
                    why == DbError::CorruptedStructure && !db.parents.contains_key(id)
                },
                Ok(after) => {
                    &&& db.inodes.contains_key(id)
                    &&& db.inodes[id] matches Some(meta) && (meta.flags % 2 == 0 ==> !full)
                    &&& db.parents.contains_key(id)
                    &&& after == (DbView {
                        inodes: db.inodes.remove(id),
                        links: db.links.remove((db.parents[id], id)),
                        parents: db.parents.remove(id),
                        ..db
                    })
                },
            }
        }),
{
    let full = exists|child: InodeId| #[trigger] db.links.contains((id, child));
    assert(full == exists|child: InodeId| #[trigger] db.children_of(id).contains(child)) by {
        if full {
            let child = choose|child: InodeId| #[trigger] db.links.contains((id, child));
            assert(db.children_of(id).contains(child));
        }
        if exists|child: InodeId| #[trigger] db.children_of(id).contains(child) {
            let child = choose|child: InodeId| #[trigger] db.children_of(id).contains(child);
            assert(db.links.contains((id, child)));
        }
    }
    if db.inodes.contains_key(id) {
        if let Some(meta) = db.inodes[id] {
            a_directory_has_an_even_flag(meta);
        }
    }
}

/// A file that holds something is one that can be read, is no directory and is not empty.
pub proof fn a_file_holds_its_size(db: DbView, id: InodeId)
    ensures
        db.holds_data(id) <==> db.inodes.contains_key(id) && (db.inodes[id] matches Some(meta)
            && meta.flags % 2 == 1 && meta.size > 0),
{
    if db.inodes.contains_key(id) {
        if let Some(meta) = db.inodes[id] {
            a_directory_has_an_even_flag(meta);
        }
    }
}

/// What a name is looked up as: the inode in the directory with the least id that has the name,
/// provided that all inodes before it can be read. Nothing is found exactly where all inodes in
/// the directory can be read and none has the name. Else the first row that cannot be read is the
/// error.
pub proof fn a_name_is_looked_up_among_the_children(db: DbView, dir: InodeId, name: Seq<char>)
    requires
        db.children_of(dir).finite(),
    ensures
        match db.lookup(dir, seq![name]) {
            Ok(Some(id)) => {
                &&& db.links.contains((dir, id))
                &&& db.inodes.contains_key(id)
                &&& db.inodes[id] matches Some(meta) && meta.name == name
                &&& forall|other: InodeId| #[trigger]
                    db.links.contains((dir, other)) && other < id ==> db.inodes.contains_key(other)
                        && (db.inodes[other] matches Some(meta) && meta.name != name)
            },
            Ok(None) => forall|other: InodeId| #[trigger]
                db.links.contains((dir, other)) ==> db.inodes.contains_key(other) && (
                db.inodes[other] matches Some(meta) && meta.name != name),
            Err(why) => exists|id: InodeId|
                {
                    &&& #[trigger] db.links.contains((dir, id))
                    &&& if db.inodes.contains_key(id) {
                        db.inodes[id] is None && why == DbError::CorruptedData
                    } else {
                        why == DbError::CorruptedStructure
                    }
                    &&& forall|other: InodeId| #[trigger]
                        db.links.contains((dir, other)) && other < id ==> db.inodes.contains_key(
                            other,
                        ) && (db.inodes[other] matches Some(meta) && meta.name != name)
                },
        },
        db.lookup(dir, Seq::empty()) == Ok::<Option<InodeId>, DbError>(Some(dir)),
{
    a_directory_is_listed_in_full(db, dir);
    let order = in_order(db.children_of(dir));
    let path = seq![name];
    assert(path.first() == name);
    assert(path.drop_first() =~= Seq::<Seq<char>>::empty());
    let n = lemma_scan_stops(db, order, name);
    assert forall|other: InodeId| #[trigger]
        db.links.contains((dir, other)) implies exists|k: int|
        0 <= k < order.len() && #[trigger] order[k] == other by {
        assert(order.contains(other));
    }
    if n < order.len() {
        assert(order.contains(order[n]));
        assert(db.links.contains((dir, order[n])));
        assert forall|other: InodeId| #[trigger]
            db.links.contains((dir, other)) && other < order[n] implies db.inodes.contains_key(
            other,
        ) && (db.inodes[other] matches Some(meta) && meta.name != name) by {
            let k = choose|k: int| 0 <= k < order.len() && #[trigger] order[k] == other;
            if n < k {
                assert(order[n] < order[k]);
            }
            assert(db.row(order[k]) is Ok);
        }
        if db.row(order[n]) is Ok {
            assert(db.lookup(order[n], path.drop_first()) == Ok::<Option<InodeId>, DbError>(
                Some(order[n]),
            ));
        }
    } else {
        assert forall|other: InodeId| #[trigger]
            db.links.contains((dir, other)) implies db.inodes.contains_key(other) && (
        db.inodes[other] matches Some(meta) && meta.name != name) by {
            let k = choose|k: int| 0 <= k < order.len() && #[trigger] order[k] == other;
            assert(db.row(order[k]) is Ok);
        }
    }
}

/// A search goes through rows that can be read and have other names, up to where it stops.
proof fn lemma_scan_stops(db: DbView, order: Seq<InodeId>, name: Seq<char>) -> (n: int)
    ensures
        0 <= n <= order.len(),
        forall|k: int|
            0 <= k < n ==> db.row(#[trigger] order[k]) is Ok && db.row(order[k])->Ok_0.name != name,
        n == order.len() ==> db.scan(order, name) == Ok::<Option<InodeId>, DbError>(None),
        n < order.len() ==> match db.row(order[n]) {
            Ok(meta) => meta.name == name && db.scan(order, name) == Ok::<
                Option<InodeId>,
                DbError,
            >(Some(order[n])),
            Err(why) => db.scan(order, name) == Err::<Option<InodeId>, DbError>(why),
        },
    decreases order.len(),
{
    if order.len() == 0 {
        0
    } else {
        match db.row(order.first()) {
            Ok(meta) => if meta.name == name {
                0
            } else {
                let rest = order.drop_first();
                let n = lemma_scan_stops(db, rest, name);
                assert forall|k: int| 0 <= k < n + 1 implies db.row(#[trigger] order[k]) is Ok
                    && db.row(order[k])->Ok_0.name != name by {
                    if k > 0 {
                        assert(rest[k - 1] == order[k]);
                    }
                }
                if n < rest.len() {
                    assert(rest[n] == order[n + 1]);
                }
                n + 1
            },
            Err(why) => 0,
        }
    }
}

/// A chunk that is added is stored as it was given, and is pending, where it is not added again
/// under the same id.
pub proof fn an_added_chunk_is_stored_as_given(
    db: DbView,
    added: Seq<(ChunkId, ChunkData)>,
    k: int,
)
    requires
        0 <= k < added.len(),
        forall|j: int| k < j < added.len() ==> (#[trigger] added[j]).0 != added[k].0,
    ensures
        db.with_temp_chunks(added).chunks.contains_key(added[k].0),
        db.with_temp_chunks(added).chunks[added[k].0] == added[k].1,
        db.with_temp_chunks(added).temp_chunks.contains(added[k].0),
    decreases added.len(),
{
    let rest = added.drop_last();
    assert(added[added.len() - 1] == added.last());
    if k < rest.len() {
        assert(rest[k] == added[k]);
        assert forall|j: int| k < j < rest.len() implies (#[trigger] rest[j]).0 != rest[k].0 by {
            assert(rest[j] == added[j]);
        }
        an_added_chunk_is_stored_as_given(db, rest, k);
    }
}

/// Adding chunks leaves every other chunk as it was, and all tables but those of the chunks and of
/// the pending ones.
pub proof fn adding_chunks_leaves_the_rest(
    db: DbView,
    added: Seq<(ChunkId, ChunkData)>,
    id: ChunkId,
)
    requires
        forall|k: int| 0 <= k < added.len() ==> (#[trigger] added[k]).0 != id,
    ensures
        ({
            let after = db.with_temp_chunks(added);
            &&& after.chunks.contains_key(id) == db.chunks.contains_key(id)
            &&& after.chunks[id] == db.chunks[id]
            &&& after.temp_chunks.contains(id) == db.temp_chunks.contains(id)
            &&& after == (DbView {
                chunks: after.chunks,
                temp_chunks: after.temp_chunks,
                ..db
            })
        }),
    decreases added.len(),
{
    if added.len() > 0 {
        let rest = added.drop_last();
        assert(added[added.len() - 1] == added.last());
        assert forall|k: int| 0 <= k < rest.len() implies (#[trigger] rest[k]).0 != id by {
            assert(rest[k] == added[k]);
        }
        adding_chunks_leaves_the_rest(db, rest, id);
    }
}

/// An id is in a range exactly where it lies between its ends.
pub proof fn a_range_holds_what_lies_between_its_ends(start: u64, end: u64, id: u64)
    ensures
        (IdRange { start: IdBound::Included(start), end: IdBound::Included(end) }).ids().contains(
            id,
        ) <==> start <= id <= end,
        (IdRange { start: IdBound::Included(start), end: IdBound::Excluded(end) }).ids().contains(
            id,
        ) <==> start <= id < end,
        (IdRange { start: IdBound::Excluded(start), end: IdBound::Included(end) }).ids().contains(
            id,
        ) <==> start < id <= end,
        (IdRange { start: IdBound::Excluded(start), end: IdBound::Excluded(end) }).ids().contains(
            id,
        ) <==> start < id < end,
        (IdRange { start: IdBound::Included(start), end: IdBound::Unbounded }).ids().contains(
            id,
        ) <==> start <= id,
        (IdRange { start: IdBound::Excluded(start), end: IdBound::Unbounded }).ids().contains(
            id,
        ) <==> start < id,
        (IdRange { start: IdBound::Unbounded, end: IdBound::Included(end) }).ids().contains(id)
            <==> id <= end,
        (IdRange { start: IdBound::Unbounded, end: IdBound::Excluded(end) }).ids().contains(id)
            <==> id < end,
        (IdRange { start: IdBound::Unbounded, end: IdBound::Unbounded }).ids().contains(id),
{
}

/// Cancelling moves the pending chunks in the range to those that are to be dropped, and leaves the
/// other pending chunks, the rows of all chunks and the other tables as they were.
pub proof fn cancelled_chunks_are_to_be_dropped(db: DbView, ids: IdRange)
    ensures
        forall|id: ChunkId| #[trigger]
            db.with_cancelled(ids).temp_chunks.contains(id) <==> db.temp_chunks.contains(id)
                && !ids.ids().contains(id),
        forall|id: ChunkId| #[trigger]
            db.with_cancelled(ids).chunks_to_drop.contains(id) <==> db.chunks_to_drop.contains(id)
                || (db.temp_chunks.contains(id) && ids.ids().contains(id)),
        forall|id: ChunkId| #[trigger]
            db.pending(ids).contains(id) <==> db.temp_chunks.contains(id) && ids.ids().contains(id),
        db.with_cancelled(ids) == (DbView {
            temp_chunks: db.with_cancelled(ids).temp_chunks,
            chunks_to_drop: db.with_cancelled(ids).chunks_to_drop,
            ..db
        }),
{
}

proof fn lemma_space_is_a_sum(
    chunks: Map<ChunkId, ChunkData>,
    ids: Seq<ChunkId>,
    backend: BackendId,
)
    ensures
        space_on(chunks, ids, backend) == ids.fold_left(
            0int,
            |sum: int, id: ChunkId|
                if chunks[id].backend_id == backend {
                    sum + chunks[id].length
                } else {
                    sum
                },
        ),
    decreases ids.len(),
{
    if ids.len() > 0 {
        lemma_space_is_a_sum(chunks, ids.drop_last(), backend);
    }
}

/// A backend holds some of the chunks exactly where one of them is on it.
proof fn lemma_backends_holding(
    chunks: Map<ChunkId, ChunkData>,
    ids: Seq<ChunkId>,
    backend: BackendId,
)
    ensures
        backends_holding(chunks, ids).contains(backend) <==> exists|k: int|
            0 <= k < ids.len() && chunks[#[trigger] ids[k]].backend_id == backend,
{
    let homes = ids.map_values(|id: ChunkId| chunks[id].backend_id);
    if backends_holding(chunks, ids).contains(backend) {
        let k = choose|k: int| 0 <= k < homes.len() && homes[k] == backend;
        assert(chunks[ids[k]].backend_id == backend);
    }
    if exists|k: int| 0 <= k < ids.len() && chunks[#[trigger] ids[k]].backend_id == backend {
        let k = choose|k: int|
            0 <= k < ids.len() && chunks[#[trigger] ids[k]].backend_id == backend;
        assert(homes[k] == backend);
    }
}

/// Keeping pending chunks takes from what is free on a backend as many bytes as the chunks in the
/// range on it are long. It succeeds only where every backend that holds any of them is known, can
/// be read and has as much free. Nothing changes on a backend that holds none of them.
pub proof fn kept_chunks_are_paid_for(
    db: DbView,
    ids: IdRange,
    order: Seq<BackendId>,
    b: BackendId,
)
    requires
        backend_ids_ascend(order),
        order.to_set() == backends_holding(db.chunks, in_order(db.pending(ids))),
        db.with_commited(ids, order) is Ok,
    ensures
        ({
            let after = db.with_commited(ids, order)->Ok_0;
            let kept = in_order(db.pending(ids));
            let space = kept.fold_left(
                0int,
                |sum: int, id: ChunkId|
                    if db.chunks[id].backend_id == b {
                        sum + db.chunks[id].length
                    } else {
                        sum
                    },
            );
            &&& after.backends.contains_key(b) == db.backends.contains_key(b)
            &&& if exists|k: int|
                0 <= k < kept.len() && db.chunks[#[trigger] kept[k]].backend_id == b {
                &&& db.backends.contains_key(b)
                &&& db.backends[b] matches Some(meta) && {
                    &&& space <= meta.free
                    &&& after.backends[b] == Some(
                        BackendMeta { free: (meta.free - space) as u64, ..meta },
                    )
                }
            } else {
                after.backends[b] == db.backends[b]
            }
        }),
{
    let kept = in_order(db.pending(ids));
    kept_chunks_take_their_space(db.backends, order, db.chunks, kept);
    lemma_space_is_a_sum(db.chunks, kept, b);
    lemma_backends_holding(db.chunks, kept, b);
    assert(order.to_set().contains(b) == order.contains(b));
    let after = db.with_commited(ids, order)->Ok_0;
    assert(after.backends.dom().contains(b) == db.backends.dom().contains(b));
}

/// The chunks that are kept are pending no longer, and the other pending ones stay pending. The
/// rows of the chunks stay as they were, and so does all else but the backends.
pub proof fn kept_chunks_are_pending_no_longer(db: DbView, ids: IdRange, order: Seq<BackendId>)
    requires
        db.with_commited(ids, order) is Ok,
    ensures
        ({
            let after = db.with_commited(ids, order)->Ok_0;
            &&& forall|id: ChunkId| #[trigger]
                after.temp_chunks.contains(id) <==> db.temp_chunks.contains(id)
                    && !ids.ids().contains(id)
            &&& after == (DbView {
                backends: after.backends,
                temp_chunks: after.temp_chunks,
                ..db
            })
        }),
{
}

/// Keeping pending chunks is refused only where some backend that holds any of them is not known,
/// cannot be read or has too little free, and for the first such backend.
pub proof fn keeping_is_refused_for_the_first_fault(
    db: DbView,
    ids: IdRange,
    order: Seq<BackendId>,
) -> (b: BackendId)
    requires
        backend_ids_ascend(order),
        order.to_set() == backends_holding(db.chunks, in_order(db.pending(ids))),
        db.with_commited(ids, order) is Err,
    ensures
        ({
            let why = db.with_commited(ids, order)->Err_0;
            let kept = in_order(db.pending(ids));
            &&& exists|k: int|
                0 <= k < kept.len() && db.chunks[#[trigger] kept[k]].backend_id == b
            &&& if !db.backends.contains_key(b) {
                why == DbError::CorruptedStructure
            } else {
                match db.backends[b] {
                    None => why == DbError::CorruptedData,
                    Some(meta) => why == DbError::CorruptedStructure && meta.free < kept.fold_left(
                        0int,
                        |sum: int, id: ChunkId|
                            if db.chunks[id].backend_id == b {
                                sum + db.chunks[id].length
                            } else {
                                sum
                            },
                    ),
                }
            }
            &&& forall|k: int|
                #![trigger kept[k]]
                0 <= k < kept.len() && db.chunks[kept[k]].backend_id < b ==> {
                    &&& db.backends.contains_key(db.chunks[kept[k]].backend_id)
                    &&& db.backends[db.chunks[kept[k]].backend_id] is Some
                }
        }),
{
    let kept = in_order(db.pending(ids));
    let n = lemma_first_unpaid(db.backends, order, db.chunks, kept);
    let b = order[n];
    let paid = order.take(n);
    assert(order.to_set().contains(b));
    lemma_backends_holding(db.chunks, kept, b);
    assert forall|i: int, j: int| 0 <= i < j < paid.len() implies #[trigger] paid[i]
        < #[trigger] paid[j] by {
        assert(order[i] < order[j]);
    }
    kept_chunks_take_their_space(db.backends, paid, db.chunks, kept);
    assert forall|k: int|
        #![trigger kept[k]]
        0 <= k < kept.len() && db.chunks[kept[k]].backend_id < b implies {
        &&& db.backends.contains_key(db.chunks[kept[k]].backend_id)
        &&& db.backends[db.chunks[kept[k]].backend_id] is Some
    } by {
        let other = db.chunks[kept[k]].backend_id;
        lemma_backends_holding(db.chunks, kept, other);
        assert(order.to_set().contains(other));
        let m = choose|m: int| 0 <= m < order.len() && order[m] == other;
        if m > n {
            assert(order[n] < order[m]);
        }
        assert(paid[m] == other);
        assert(paid.contains(other));
    }
    b
}

proof fn lemma_first_unpaid(
    backends: Map<BackendId, Option<BackendMeta>>,
    order: Seq<BackendId>,
    chunks: Map<ChunkId, ChunkData>,
    ids: Seq<ChunkId>,
) -> (n: int)
    requires
        backend_ids_ascend(order),
        space_taken(backends, order, chunks, ids) is Err,
    ensures
        0 <= n < order.len(),
        ({
            let why = space_taken(backends, order, chunks, ids)->Err_0;
            let b = order[n];
            &&& if !backends.contains_key(b) {
                why == DbError::CorruptedStructure
            } else {
                match backends[b] {
                    None => why == DbError::CorruptedData,
                    Some(meta) => why == DbError::CorruptedStructure && meta.free < ids.fold_left(
                        0int,
                        |sum: int, id: ChunkId|
                            if chunks[id].backend_id == b {
                                sum + chunks[id].length
                            } else {
                                sum
                            },
                    ),
                }
            }
            &&& space_taken(backends, order.take(n), chunks, ids) is Ok
        }),
    decreases order.len(),
{
    let rest = order.drop_last();
    let last = order.last();
    assert forall|i: int, j: int| 0 <= i < j < rest.len() implies #[trigger] rest[i]
        < #[trigger] rest[j] by {
        assert(order[i] < order[j]);
    }
    if space_taken(backends, rest, chunks, ids) is Err {
        let n = lemma_first_unpaid(backends, rest, chunks, ids);
        assert(rest.take(n) =~= order.take(n));
        n
    } else {
        kept_chunks_take_their_space(backends, rest, chunks, ids);
        lemma_space_is_a_sum(chunks, ids, last);
        assert(!rest.contains(last)) by {
            if rest.contains(last) {
                let k = choose|k: int| 0 <= k < rest.len() && rest[k] == last;
                assert(order[k] < order[order.len() - 1]);
            }
        }
        assert(order.take(order.len() - 1) =~= rest);
        let before = space_taken(backends, rest, chunks, ids)->Ok_0;
        assert(before.dom().contains(last) == backends.dom().contains(last));
        order.len() - 1
    }
}

/// A chunk is missing exactly where it is pending in the range and has no row.
pub proof fn a_pending_chunk_without_a_row_is_missed(db: DbView, ids: IdRange)
    ensures
        db.misses_chunk(ids) <==> exists|id: ChunkId| #[trigger]
            db.temp_chunks.contains(id) && ids.ids().contains(id) && !db.chunks.contains_key(id),
{
    if exists|id: ChunkId| #[trigger]
        db.temp_chunks.contains(id) && ids.ids().contains(id) && !db.chunks.contains_key(id) {
        let id = choose|id: ChunkId| #[trigger]
            db.temp_chunks.contains(id) && ids.ids().contains(id) && !db.chunks.contains_key(id);
        assert(db.pending(ids).contains(id));
    }
    if db.misses_chunk(ids) {
        let id = choose|id: ChunkId| #[trigger]
            db.pending(ids).contains(id) && !db.chunks.contains_key(id);
        assert(db.temp_chunks.contains(id));
    }
}

/// A new database holds one directory, the root, which has no name and holds nothing. The first
/// backend gets the id 0, and the first inode and the first chunk get the id 1.
pub proof fn a_new_database_is_empty()
    ensures
        forall|id: InodeId| #[trigger] new_tables().inodes.contains_key(id) <==> id == 0,
        new_tables().inodes[0] matches Some(root) && root.name.len() == 0 && root.size == 0
            && root.flags == 0,
        forall|link: (InodeId, InodeId)| !#[trigger] new_tables().links.contains(link),
        forall|id: InodeId| !#[trigger] new_tables().parents.contains_key(id),
        forall|id: BackendId| !#[trigger] new_tables().backends.contains_key(id),
        forall|id: ChunkId| !#[trigger] new_tables().chunks.contains_key(id),
        forall|id: ChunkId| !#[trigger] new_tables().temp_chunks.contains(id),
        forall|id: ChunkId| !#[trigger] new_tables().chunks_to_drop.contains(id),
        new_tables().has_number(Metadata::NextBackend, 4),
        new_tables().has_number(Metadata::NextInode, 8),
        new_tables().has_number(Metadata::NextChunk, 8),
        new_tables().next(Metadata::NextBackend) == 0,
        new_tables().next(Metadata::NextInode) == 1,
        new_tables().next(Metadata::NextChunk) == 1,
{
    every_number_fits();
    crate::bytes::reading_bytes_undoes_writing(0, 4);
    crate::bytes::reading_bytes_undoes_writing(1, 8);
    assert(crate::bytes::le_value(crate::bytes::le_bytes(0u32 as nat, 4)) == 0);
    assert(crate::bytes::le_value(crate::bytes::le_bytes(1u64 as nat, 8)) == 1);
}

/// The words for what an id belongs to are different ones.
pub proof fn every_kind_of_id_has_its_own_word(kind: OutOfIdsKind)
    ensures
        kind.word() == "backend"@ <==> kind == OutOfIdsKind::Backend,
        kind.word() == "inode"@ <==> kind == OutOfIdsKind::Inode,
        kind.word() == "chunk"@ <==> kind == OutOfIdsKind::Chunk,
{
    reveal_strlit("backend");
    reveal_strlit("inode");
    reveal_strlit("chunk");
    assert("backend"@[0] == 'b' && "inode"@[0] == 'i' && "chunk"@[0] == 'c');
}

/// Every kind of number in the metadata has a key of its own.
pub proof fn every_number_has_its_own_key(a: Metadata, b: Metadata)
    ensures
        a.spec_key() == b.spec_key() <==> a == b,
        Metadata::NextBackend.spec_key() == 0,
        Metadata::NextInode.spec_key() == 1,
        Metadata::NextChunk.spec_key() == 2,
{
}

/// Writing down the next id changes that number and nothing else.
pub proof fn only_the_number_changes(db: DbView, key: Metadata, next: nat, width: nat)
    ensures
        ({
            let after = db.with_next(key, next, width);
            &&& forall|other: u8|
                other != key.spec_key() ==> {
                    &&& #[trigger] after.metadata.contains_key(other) == db.metadata.contains_key(
                        other,
                    )
                    &&& after.metadata[other] == db.metadata[other]
                }
            &&& after.metadata.contains_key(key.spec_key())
            &&& after.metadata[key.spec_key()].len() == width
            &&& after == (DbView { metadata: after.metadata, ..db })
        }),
{
    crate::bytes::reading_bytes_undoes_writing(next, width);
}

/// Listing backends gives one row for each of them, in ascending order of the ids: the id with
/// exactly what is recorded of it, or an error where that cannot be read.
pub proof fn backends_are_listed_as_recorded(
    backends: Map<BackendId, Option<BackendMeta>>,
    order: Seq<BackendId>,
    rows: Seq<Result<(BackendId, BackendMeta), DbError>>,
)
    requires
        backend_ids_ascend(order),
        backend_rows_of(backends, order, rows),
    ensures
        rows.len() == order.len(),
        forall|i: int, j: int|
            0 <= i < j < order.len() ==> #[trigger] order[i] < #[trigger] order[j],
        forall|i: int|
            #![trigger rows[i]]
            0 <= i < rows.len() ==> {
                &&& rows[i] matches Ok(row) ==> row.0 == order[i] && backends[order[i]] == Some(
                    row.1,
                )
                &&& rows[i] matches Err(why) ==> backends[order[i]] is None && why
                    == DbError::CorruptedData
            },
{
}

/// The tables are seen as they are, every row of them. An inode is in a directory exactly where the
/// table of children has it there.
pub proof fn tables_are_seen_in_full(db: Db)
    ensures
        db@.backends == db.backends@,
        db@.chunks == db.chunks@,
        db@.chunks_to_drop == db.chunks_to_drop@,
        db@.temp_chunks == db.temp_chunks@,
        db@.parents == db.parents@,
        db@.inodes.dom() == db.inodes@.dom(),
        forall|id: InodeId| #[trigger]
            db.inodes@.contains_key(id) ==> match db.inodes@[id] {
                Some(meta) => db@.inodes[id] == Some(meta@),
                None => db@.inodes[id] is None,
            },
        forall|dir: InodeId, id: InodeId| #[trigger]
            db@.links.contains((dir, id)) <==> db.children@.contains_key(dir)
                && db.children@[dir]@.contains(id),
        db@.metadata.dom() == db.metadata@.dom(),
        forall|key: u8| #[trigger]
            db.metadata@.contains_key(key) ==> db@.metadata[key] == db.metadata@[key]@,
{
    assert(db@.inodes.dom() =~= db.inodes@.dom());
    assert(db@.metadata.dom() =~= db.metadata@.dom());
}

} // verus!
