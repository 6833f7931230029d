//! The database: the tables as plain values, and the transactions on them. A transaction that
//! fails leaves the tables as they were.

pub mod laws;
pub mod records;
pub mod types;

pub use self::types::{
    BackendId, BackendKind, BackendKindSpecifier, BackendMeta, BackendParseError, ChunkData,
    ChunkId, InodeFlags, InodeId, InodeMeta, Metadata,
};
pub use crate::prelude::{InodePath, InodePathParseError};

use self::types::InodeMetaView;
use crate::bytes::{le_bytes, le_value, read_le, read_u32, write_le};
use crate::chunk_alloc::BackendStat;
use crate::maps::{
    ascends, in_order, lemma_in_order, lemma_increasing_u32, lemma_only, only, ordered_keys,
    ordered_members,
};
use crate::text::{text_order, Order};
use std::collections::{BTreeMap, BTreeSet, HashMap};
use std::ops::RangeInclusive;
use vstd::prelude::*;

verus! {

/// What an id belongs to.
#[derive(Clone, Copy, Debug, PartialEq, Eq, Structural)]
pub enum OutOfIdsKind {
    Backend,
    Inode,
    Chunk,
}

impl OutOfIdsKind {
    /// The word for it.
    pub open spec fn word(self) -> Seq<char> {
        match self {
            OutOfIdsKind::Backend => "backend"@,
            OutOfIdsKind::Inode => "inode"@,
            OutOfIdsKind::Chunk => "chunk"@,
        }
    }

    /// The word for it.
    pub fn name(&self) -> (name: String)
        ensures
            name@ == self.word(),
    {
        match self {
            OutOfIdsKind::Backend => "backend".to_owned(),
            OutOfIdsKind::Inode => "inode".to_owned(),
            OutOfIdsKind::Chunk => "chunk".to_owned(),
        }
    }
}

/// A failure of the storage that holds the tables.
#[derive(Debug)]
pub enum StorageFault {
    /// What is stored cannot be right.
    Corrupted(&'static str),
    /// Any other failure, in words.
    Other(String),
}

/// Why a transaction failed.
#[derive(Debug)]
pub enum DbError {
    Internal(StorageFault),
    Corrupted(&'static str),
    CorruptedData,
    CorruptedStructure,
    OutOfIds(OutOfIdsKind),
    DuplicateId(OutOfIdsKind),
    NotFound(OutOfIdsKind),
    AttemptedOrphan,
    NameConflict,
    ParentNotDir,
    HasChildren,
}

impl DbError {
    /// What is wrong, in words.
    pub fn message(&self) -> (text: String)
        ensures
            text@ == (match *self {
                DbError::Internal(_) => "Operation on the database failed"@,
                DbError::Corrupted(what) => "Db is corrupted: "@ + what@,
                DbError::CorruptedData => "Corrupted data in the database"@,
                DbError::CorruptedStructure => "Corrupted database relations"@,
                DbError::OutOfIds(kind) => "Ran out if "@ + kind.word() + " ids"@,
                DbError::DuplicateId(kind) => kind.word() + " with this id already exists"@,
                DbError::NotFound(kind) => kind.word() + " with the specified id doesnt exist"@,
                DbError::AttemptedOrphan => "Specified parent doesnt exist"@,
                DbError::NameConflict => "This name is already in use"@,
                DbError::ParentNotDir => "Parent is not a directory"@,
                DbError::HasChildren => "Attempted to remove a non empty directory"@,
            }),
    {
        match self {
            DbError::Internal(_) => "Operation on the database failed".to_owned(),
            DbError::Corrupted(what) => {
                let mut text = "Db is corrupted: ".to_owned();
                text.append(what);
                text
            },
            DbError::CorruptedData => "Corrupted data in the database".to_owned(),
            DbError::CorruptedStructure => "Corrupted database relations".to_owned(),
            DbError::OutOfIds(kind) => {
                let mut text = "Ran out if ".to_owned();
                text.append(kind.name().as_str());
                text.append(" ids");
                text
            },
            DbError::DuplicateId(kind) => {
                let mut text = kind.name();
                text.append(" with this id already exists");
                text
            },
            DbError::NotFound(kind) => {
                let mut text = kind.name();
                text.append(" with the specified id doesnt exist");
                text
            },
            DbError::AttemptedOrphan => "Specified parent doesnt exist".to_owned(),
            DbError::NameConflict => "This name is already in use".to_owned(),
            DbError::ParentNotDir => "Parent is not a directory".to_owned(),
            DbError::HasChildren => "Attempted to remove a non empty directory".to_owned(),
        }
    }
}

/// An end of a range of ids.
#[derive(Clone, Copy, Debug, PartialEq, Eq, Structural)]
pub enum IdBound {
    Included(u64),
    Excluded(u64),
    Unbounded,
}

/// A range of ids.
#[derive(Clone, Copy, Debug, PartialEq, Eq, Structural)]
pub struct IdRange {
    pub start: IdBound,
    pub end: IdBound,
}

impl IdRange {
    /// The ids in the range.
    pub open spec fn ids(self) -> Set<u64> {
        Set::new(
            |id: u64|
                {
                    &&& match self.start {
                        IdBound::Included(start) => start <= id,
                        IdBound::Excluded(start) => start < id,
                        IdBound::Unbounded => true,
                    }
                    &&& match self.end {
                        IdBound::Included(end) => id <= end,
                        IdBound::Excluded(end) => id < end,
                        IdBound::Unbounded => true,
                    }
                },
        )
    }

    /// Whether an id is in the range.
    pub fn contains(&self, id: u64) -> (inside: bool)
        ensures
            inside == self.ids().contains(id),
    {
        let behind_start = match self.start {
            IdBound::Included(start) => start <= id,
            IdBound::Excluded(start) => start < id,
            IdBound::Unbounded => true,
        };
        let before_end = match self.end {
            IdBound::Included(end) => id <= end,
            IdBound::Excluded(end) => id < end,
            IdBound::Unbounded => true,
        };
        behind_start && before_end
    }
}

/// What the app starts with.
#[derive(Debug)]
pub struct AppInitData {
    pub backends_stat: HashMap<BackendId, BackendStat>,
}

/// The tables. A row that cannot be decoded is `None`.
#[derive(Debug)]
pub struct Db {
    /// Metadata of a specific backend
    pub backends: BTreeMap<BackendId, Option<BackendMeta>>,
    /// Chunks making up the inodes
    pub chunks: BTreeMap<ChunkId, ChunkData>,
    /// Chunks marked to be dropped
    pub chunks_to_drop: BTreeSet<ChunkId>,
    /// Chunks for pending uploads
    pub temp_chunks: BTreeSet<ChunkId>,
    /// Metadata of an inode
    pub inodes: BTreeMap<InodeId, Option<InodeMeta>>,
    /// The children of a directory
    pub children: BTreeMap<InodeId, BTreeSet<InodeId>>,
    /// The directory that holds an inode
    pub parents: BTreeMap<InodeId, InodeId>,
    pub metadata: BTreeMap<u8, Vec<u8>>,
}

/// The tables, as mathematical data. A link is a directory and an inode in it.
pub struct DbView {
    pub backends: Map<BackendId, Option<BackendMeta>>,
    pub chunks: Map<ChunkId, ChunkData>,
    pub chunks_to_drop: Set<ChunkId>,
    pub temp_chunks: Set<ChunkId>,
    pub inodes: Map<InodeId, Option<InodeMetaView>>,
    pub links: Set<(InodeId, InodeId)>,
    pub parents: Map<InodeId, InodeId>,
    pub metadata: Map<u8, Seq<u8>>,
}

/// The inodes of a table of inodes.
pub open spec fn inode_views(inodes: Map<InodeId, Option<InodeMeta>>) -> Map<
    InodeId,
    Option<InodeMetaView>,
> {
    inodes.map_values(
        |row: Option<InodeMeta>|
            match row {
                Some(meta) => Some(meta@),
                None => None,
            },
    )
}

/// The links of a table of children.
pub open spec fn links_of(children: Map<InodeId, BTreeSet<InodeId>>) -> Set<(InodeId, InodeId)> {
    Set::new(
        |link: (InodeId, InodeId)|
            children.contains_key(link.0) && children[link.0]@.contains(link.1),
    )
}

impl View for Db {
    type V = DbView;

    open spec fn view(&self) -> DbView {
        DbView {
            backends: self.backends@,
            chunks: self.chunks@,
            chunks_to_drop: self.chunks_to_drop@,
            temp_chunks: self.temp_chunks@,
            inodes: inode_views(self.inodes@),
            links: links_of(self.children@),
            parents: self.parents@,
            metadata: self.metadata@.map_values(|bytes: Vec<u8>| bytes@),
        }
    }
}

impl DbView {
    /// The inodes in a directory.
    pub open spec fn children_of(self, id: InodeId) -> Set<InodeId> {
        Set::new(|child: InodeId| self.links.contains((id, child)))
    }

    /// The row of an inode that a directory holds.
    pub open spec fn row(self, id: InodeId) -> Result<InodeMetaView, DbError> {
        if !self.inodes.contains_key(id) {
            Err(DbError::CorruptedStructure)
        } else {
            match self.inodes[id] {
                Some(meta) => Ok(meta),
                None => Err(DbError::CorruptedData),
            }
        }
    }

    /// The first of the given inodes that has the given name. A row that cannot be read before
    /// it stops the search.
    pub open spec fn scan(self, order: Seq<InodeId>, name: Seq<char>) -> Result<
        Option<InodeId>,
        DbError,
    >
        decreases order.len(),
    {
        if order.len() == 0 {
            Ok(None)
        } else {
            match self.row(order.first()) {
                Err(why) => Err(why),
                Ok(meta) => if meta.name == name {
                    Ok(Some(order.first()))
                } else {
                    self.scan(order.drop_first(), name)
                },
            }
        }
    }

    /// The inode that a path leads to.
    pub open spec fn lookup(self, from: InodeId, path: Seq<Seq<char>>) -> Result<
        Option<InodeId>,
        DbError,
    >
        decreases path.len(),
    {
        if path.len() == 0 {
            Ok(Some(from))
        } else {
            match self.scan(in_order(self.children_of(from)), path.first()) {
                Ok(Some(child)) => self.lookup(child, path.drop_first()),
                other => other,
            }
        }
    }

    /// Some inode in a directory has the given name.
    pub open spec fn name_taken(self, parent: InodeId, name: Seq<char>) -> bool {
        exists|child: InodeId| #[trigger]
            self.children_of(parent).contains(child) && (self.row(child) matches Ok(meta)
                && meta.name == name)
    }

    /// The tables after an inode was made in a directory, or why it cannot be made.
    pub open spec fn with_inode(
        self,
        parent: InodeId,
        id: InodeId,
        meta: InodeMetaView,
    ) -> Result<DbView, DbError> {
        if self.name_taken(parent, meta.name) {
            Err(DbError::NameConflict)
        } else if !self.inodes.contains_key(parent) {
            Err(DbError::AttemptedOrphan)
        } else {
            match self.inodes[parent] {
                None => Err(DbError::CorruptedData),
                Some(dir) => if !dir.is_dir() {
                    Err(DbError::ParentNotDir)
                } else {
                    Ok(
                        DbView {
                            inodes: self.inodes.insert(id, Some(meta)),
                            links: self.links.insert((parent, id)),
                            parents: self.parents.insert(id, parent),
                            ..self
                        },
                    )
                },
            }
        }
    }

    /// The inode is a file that holds something.
    pub open spec fn holds_data(self, id: InodeId) -> bool {
        &&& self.inodes.contains_key(id)
        &&& self.inodes[id] matches Some(meta) && !meta.is_dir() && meta.size != 0
    }

    /// The tables after an inode was removed, or why it cannot be removed.
    pub open spec fn without_inode(self, id: InodeId) -> Result<DbView, DbError> {
        if !self.inodes.contains_key(id) || self.inodes[id] is None {
            Err(DbError::NotFound(OutOfIdsKind::Inode))
        } else if self.inodes[id]->Some_0.is_dir() && exists|child: InodeId| #[trigger]
            self.children_of(id).contains(child) {
            Err(DbError::HasChildren)
        } else if !self.parents.contains_key(id) {
            Err(DbError::CorruptedStructure)
        } else {
            Ok(
                DbView {
                    inodes: self.inodes.remove(id),
                    links: self.links.remove((self.parents[id], id)),
                    parents: self.parents.remove(id),
                    ..self
                },
            )
        }
    }

    /// The tables after a number was written to the metadata.
    pub open spec fn with_next(self, key: Metadata, next: nat, width: nat) -> DbView {
        DbView { metadata: self.metadata.insert(key.spec_key(), le_bytes(next, width)), ..self }
    }

    /// The number in the metadata, where there are as many bytes as there have to be.
    pub open spec fn next(self, key: Metadata) -> nat {
        le_value(self.metadata[key.spec_key()])
    }

    /// There is a number of so many bytes in the metadata.
    pub open spec fn has_number(self, key: Metadata, width: nat) -> bool {
        self.metadata.contains_key(key.spec_key()) && self.metadata[key.spec_key()].len() == width
    }

    /// The tables after chunks were added for a pending upload.
    pub open spec fn with_temp_chunks(self, added: Seq<(ChunkId, ChunkData)>) -> DbView
        decreases added.len(),
    {
        if added.len() == 0 {
            self
        } else {
            let before = self.with_temp_chunks(added.drop_last());
            DbView {
                chunks: before.chunks.insert(added.last().0, added.last().1),
                temp_chunks: before.temp_chunks.insert(added.last().0),
                ..before
            }
        }
    }

    /// The pending chunks in a range.
    pub open spec fn pending(self, ids: IdRange) -> Set<ChunkId> {
        self.temp_chunks.intersect(ids.ids())
    }
}

/// The bytes that the chunks take up on a backend.
pub open spec fn space_on(
    chunks: Map<ChunkId, ChunkData>,
    ids: Seq<ChunkId>,
    backend: BackendId,
) -> int
    decreases ids.len(),
{
    if ids.len() == 0 {
        0
    } else {
        let before = space_on(chunks, ids.drop_last(), backend);
        if chunks[ids.last()].backend_id == backend {
            before + chunks[ids.last()].length
        } else {
            before
        }
    }
}

/// The backends that hold the chunks.
pub open spec fn backends_holding(
    chunks: Map<ChunkId, ChunkData>,
    ids: Seq<ChunkId>,
) -> Set<BackendId> {
    ids.map_values(|id: ChunkId| chunks[id].backend_id).to_set()
}

/// The ids of backends ascend strictly.
pub open spec fn backend_ids_ascend(order: Seq<BackendId>) -> bool {
    forall|i: int, j: int| 0 <= i < j < order.len() ==> #[trigger] order[i] < #[trigger] order[j]
}

/// The backends after the space of the chunks was taken from what is free, one backend after
/// the other, or why that cannot be.
pub open spec fn space_taken(
    backends: Map<BackendId, Option<BackendMeta>>,
    order: Seq<BackendId>,
    chunks: Map<ChunkId, ChunkData>,
    ids: Seq<ChunkId>,
) -> Result<Map<BackendId, Option<BackendMeta>>, DbError>
    decreases order.len(),
{
    if order.len() == 0 {
        Ok(backends)
    } else {
        match space_taken(backends, order.drop_last(), chunks, ids) {
            Err(why) => Err(why),
            Ok(b) => {
                let id = order.last();
                if !b.contains_key(id) {
                    Err(DbError::CorruptedStructure)
                } else {
                    match b[id] {
                        None => Err(DbError::CorruptedData),
                        Some(meta) => if meta.free < space_on(chunks, ids, id) {
                            Err(DbError::CorruptedStructure)
                        } else {
                            Ok(
                                b.insert(
                                    id,
                                    Some(
                                        BackendMeta {
                                            free: (meta.free - space_on(chunks, ids, id)) as u64,
                                            ..meta
                                        },
                                    ),
                                ),
                            )
                        },
                    }
                }
            },
        }
    }
}

impl DbView {
    /// The tables after the pending chunks in a range were marked to be dropped.
    pub open spec fn with_cancelled(self, ids: IdRange) -> DbView {
        DbView {
            temp_chunks: self.temp_chunks.difference(ids.ids()),
            chunks_to_drop: self.chunks_to_drop.union(self.pending(ids)),
            ..self
        }
    }

    /// Some pending chunk in a range is not in the table of chunks.
    pub open spec fn misses_chunk(self, ids: IdRange) -> bool {
        exists|id: ChunkId| #[trigger]
            self.pending(ids).contains(id) && !self.chunks.contains_key(id)
    }

    /// The tables after the pending chunks in a range were kept, or why they cannot be. `order`
    /// are the backends that hold them, in ascending order.
    pub open spec fn with_commited(self, ids: IdRange, order: Seq<BackendId>) -> Result<
        DbView,
        DbError,
    > {
        match space_taken(self.backends, order, self.chunks, in_order(self.pending(ids))) {
            Err(why) => Err(why),
            Ok(backends) => Ok(
                DbView {
                    backends,
                    temp_chunks: self.temp_chunks.difference(ids.ids()),
                    ..self
                },
            ),
        }
    }
}

/// The tables of a new database: an empty root directory, and the first ids.
pub open spec fn new_tables() -> DbView {
    DbView {
        backends: Map::empty(),
        chunks: Map::empty(),
        chunks_to_drop: Set::empty(),
        temp_chunks: Set::empty(),
        inodes: Map::<InodeId, Option<InodeMetaView>>::empty().insert(
            0,
            Some(InodeMetaView { name: Seq::empty(), size: 0, flags: 0 }),
        ),
        links: Set::empty(),
        parents: Map::empty(),
        metadata: Map::<u8, Seq<u8>>::empty().insert(
            Metadata::NextBackend.spec_key(),
            le_bytes(0, 4),
        ).insert(Metadata::NextInode.spec_key(), le_bytes(1, 8)).insert(
            Metadata::NextChunk.spec_key(),
            le_bytes(1, 8),
        ),
    }
}

/// The rows of a list of inodes, one for each of them.
pub open spec fn rows_of(
    db: DbView,
    order: Seq<InodeId>,
    rows: Seq<Result<(InodeId, InodeMeta), DbError>>,
) -> bool {
    &&& rows.len() == order.len()
    &&& forall|i: int|
        0 <= i < order.len() ==> match db.row(order[i]) {
            Ok(meta) => (#[trigger] rows[i]) matches Ok(row) && row.0 == order[i] && row.1@ == meta,
            Err(why) => rows[i] == Err::<(InodeId, InodeMeta), DbError>(why),
        }
}

/// The rows of a list of backends, one for each of them.
pub open spec fn backend_rows_of(
    backends: Map<BackendId, Option<BackendMeta>>,
    order: Seq<BackendId>,
    rows: Seq<Result<(BackendId, BackendMeta), DbError>>,
) -> bool {
    &&& rows.len() == order.len()
    &&& forall|i: int|
        0 <= i < order.len() ==> (#[trigger] rows[i]) == match backends[order[i]] {
            Some(meta) => Ok::<(BackendId, BackendMeta), DbError>((order[i], meta)),
            None => Err(DbError::CorruptedData),
        }
}

impl Db {
    /// The tables of a new database: the root directory, and the first ids.
    pub fn new() -> (db: Self)
        ensures
            db@ == new_tables(),
    {
        let mut inodes: BTreeMap<InodeId, Option<InodeMeta>> = BTreeMap::new();
        let root_name = String::new();
        // init root inode
        inodes.insert(0, Some(InodeMeta::new_directory(root_name)));
        let mut metadata: BTreeMap<u8, Vec<u8>> = BTreeMap::new();
        metadata.insert(Metadata::NextBackend.key(), write_le(0, 4));
        // this inits at 1 since root inode is reserved
        metadata.insert(Metadata::NextInode.key(), write_le(1, 8));
        // this inits at 1 since 0 is reserved for marker chunks in backends
        metadata.insert(Metadata::NextChunk.key(), write_le(1, 8));
        let db = Db {
            backends: BTreeMap::new(),
            chunks: BTreeMap::new(),
            chunks_to_drop: BTreeSet::new(),
            temp_chunks: BTreeSet::new(),
            inodes,
            children: BTreeMap::new(),
            parents: BTreeMap::new(),
            metadata,
        };
        proof {
            assert(root_name@ =~= Seq::<char>::empty());
            assert(db@.inodes =~= new_tables().inodes);
            assert(db@.links =~= new_tables().links);
            assert(db@.metadata =~= new_tables().metadata);
        }
        db
    }

    /// The free space of every backend.
    pub fn app_init_data(&self) -> (data: Result<AppInitData, DbError>)
        ensures
            match data {
                Ok(init) => {
                    &&& forall|id: BackendId| #[trigger]
                        self@.backends.contains_key(id) ==> self@.backends[id] is Some
                    &&& init.backends_stat@.dom() == self@.backends.dom()
                    &&& forall|id: BackendId| #[trigger]
                        self@.backends.contains_key(id) ==> init.backends_stat@[id].free
                            == self@.backends[id]->Some_0.free
                },
                Err(why) => {
                    &&& why matches DbError::Corrupted(what) && what@
                        == "Failed to read backend metadata"@
                    &&& exists|id: BackendId| #[trigger]
                        self@.backends.contains_key(id) && self@.backends[id] is None
                },
            },
    {
        broadcast use vstd::std_specs::hash::group_hash_axioms;

        let ids = ordered_keys(&self.backends);
        let mut stats: HashMap<BackendId, BackendStat> = HashMap::new();
        let mut i: usize = 0;
        proof {
            assert(stats@.dom() =~= ids@.take(0).to_set());
        }
        while i < ids.len()
            invariant
                i <= ids.len(),
                ids@.to_set() == self.backends@.dom(),
                stats@.dom() == ids@.take(i as int).to_set(),
                forall|k: int|
                    0 <= k < i ==> self.backends@[#[trigger] ids@[k]] is Some && stats@[ids@[k]].free
                        == self.backends@[ids@[k]]->Some_0.free,
            decreases ids.len() - i,
        {
            let id: BackendId = ids[i];
            let ghost before = stats@;
            proof {
                assert(ids@.to_set().contains(ids@[i as int]));
            }
            match self.backends.get(&id) {
                Some(Some(meta)) => {
                    stats.insert(id, BackendStat::new(meta.free));
                },
                _ => {
                    proof {
                        assert(self@.backends.contains_key(id));
                    }
                    return Err(DbError::Corrupted("Failed to read backend metadata"));
                },
            }
            proof {
                let now = ids@.take(i + 1);
                let then = ids@.take(i as int);
                assert(now =~= then.push(id));
                assert forall|x: BackendId|
                    now.to_set().contains(x) == (then.to_set().contains(x) || x == id) by {
                    if then.contains(x) {
                        let k = choose|k: int| 0 <= k < then.len() && then[k] == x;
                        assert(now[k] == x);
                    }
                    assert(now[i as int] == id);
                }
                assert(stats@.dom() =~= now.to_set());
            }
            i += 1;
        }
        proof {
            assert(ids@.take(i as int) =~= ids@);
            assert forall|id: BackendId| #[trigger] self@.backends.contains_key(id) implies {
                &&& self@.backends[id] is Some
                &&& stats@[id].free == self@.backends[id]->Some_0.free
            } by {
                assert(ids@.to_set().contains(id));
                let k = choose|k: int| 0 <= k < ids@.len() && ids@[k] == id;
                assert(ids@[k] == id);
            }
        }
        Ok(AppInitData { backends_stat: stats })
    }

    /// The inodes in a directory, in ascending order.
    fn child_ids(&self, id: InodeId) -> (ids: Vec<InodeId>)
        ensures
            ids@ == in_order(self@.children_of(id)),
            ascends(ids@),
            ids@.to_set() == self@.children_of(id),
    {
        match self.children.get(&id) {
            Some(children) => {
                proof {
                    assert(self@.children_of(id) =~= children@);
                }
                ordered_members(children)
            },
            None => {
                let ids: Vec<InodeId> = Vec::new();
                proof {
                    assert(ids@.to_set() =~= self@.children_of(id));
                    lemma_in_order(ids@);
                }
                ids
            },
        }
    }

    /// The row of an inode that a directory holds.
    fn child_row(&self, id: InodeId) -> (row: Result<InodeMeta, DbError>)
        ensures
            match self@.row(id) {
                Ok(meta) => row matches Ok(r) && r@ == meta,
                Err(why) => row == Err::<InodeMeta, DbError>(why),
            },
    {
        match self.inodes.get(&id) {
            None => Err(DbError::CorruptedStructure),
            Some(None) => Err(DbError::CorruptedData),
            Some(Some(meta)) => Ok(meta.clone()),
        }
    }

    /// The inodes in a directory, in ascending order of their ids.
    pub fn iter_children(&self, id: InodeId) -> (rows: Vec<Result<(InodeId, InodeMeta), DbError>>)
        ensures
            rows_of(self@, in_order(self@.children_of(id)), rows@),
    {
        let ids = self.child_ids(id);
        let mut rows: Vec<Result<(InodeId, InodeMeta), DbError>> = Vec::new();
        let mut i: usize = 0;
        while i < ids.len()
            invariant
                i <= ids.len(),
                rows_of(self@, ids@.take(i as int), rows@),
            decreases ids.len() - i,
        {
            let child: InodeId = ids[i];
            let ghost before = rows@;
            match self.child_row(child) {
                Ok(meta) => {
                    rows.push(Ok((child, meta)));
                },
                Err(why) => {
                    rows.push(Err(why));
                },
            }
            proof {
                assert forall|k: int| 0 <= k < i + 1 implies match self@.row(
                    ids@.take(i + 1)[k],
                ) {
                    Ok(meta) => (#[trigger] rows@[k]) matches Ok(row) && row.0 == ids@.take(
                        i + 1,
                    )[k] && row.1@ == meta,
                    Err(why) => rows@[k] == Err::<(InodeId, InodeMeta), DbError>(why),
                } by {
                    if k < i {
                        assert(before[k] == rows@[k]);
                        assert(ids@.take(i as int)[k] == ids@.take(i + 1)[k]);
                    }
                }
            }
            i += 1;
        }
        proof {
            assert(ids@.take(i as int) =~= ids@);
        }
        rows
    }

    /// The inode with the given name in a directory.
    fn find_child(&self, id: InodeId, name: &str) -> (child: Result<Option<InodeId>, DbError>)
        ensures
            child == self@.scan(in_order(self@.children_of(id)), name@),
    {
        let ids = self.child_ids(id);
        let mut i: usize = 0;
        proof {
            assert(ids@.skip(0) =~= ids@);
        }
        while i < ids.len()
            invariant
                i <= ids.len(),
                ids@ == in_order(self@.children_of(id)),
                self@.scan(ids@, name@) == self@.scan(ids@.skip(i as int), name@),
            decreases ids.len() - i,
        {
            let child: InodeId = ids[i];
            proof {
                assert(ids@.skip(i as int).first() == child);
                assert(ids@.skip(i as int).drop_first() =~= ids@.skip(i + 1));
            }
            match self.child_row(child) {
                Err(why) => {
                    return Err(why);
                },
                Ok(meta) => {
                    if text_order(meta.name.as_str(), name) == Order::Equal {
                        return Ok(Some(child));
                    }
                },
            }
            i += 1;
        }
        Ok(None)
    }

    /// Maps the `InodePath` to a `InodeId`, returns `Ok(None)` if no such file exists
    pub fn inode_lookup(&self, path: &InodePath) -> (found: Result<Option<InodeId>, DbError>)
        ensures
            found == self@.lookup(0, path@),
    {
        let mut current_inode: InodeId = 0;
        let segments = path.as_slice();
        let mut i: usize = 0;
        proof {
            assert(path@.skip(0) =~= path@);
        }
        while i < segments.len()
            invariant
                i <= segments@.len(),
                path@ == crate::prelude::names(segments@),
                self@.lookup(0, path@) == self@.lookup(current_inode, path@.skip(i as int)),
            decreases segments.len() - i,
        {
            proof {
                assert(path@.skip(i as int).first() == segments@[i as int]@);
                assert(path@.skip(i as int).drop_first() =~= path@.skip(i + 1));
            }
            match self.find_child(current_inode, segments[i].as_str()) {
                Err(why) => {
                    return Err(why);
                },
                Ok(None) => {
                    return Ok(None);
                },
                Ok(Some(child)) => {
                    current_inode = child;
                },
            }
            i += 1;
        }
        Ok(Some(current_inode))
    }

    /// Metadata of an inode, where there is any that can be read.
    pub fn inode_meta(&self, inode: InodeId) -> (meta: Result<Option<InodeMeta>, DbError>)
        ensures
            meta matches Ok(found) && match found {
                Some(m) => self@.inodes.contains_key(inode) && self@.inodes[inode] == Some(m@),
                None => !self@.inodes.contains_key(inode) || self@.inodes[inode] is None,
            },
    {
        match self.inodes.get(&inode) {
            Some(Some(meta)) => Ok(Some(meta.clone())),
            _ => Ok(None),
        }
    }

    /// Whether some inode in a directory has the given name.
    fn has_child_named(&self, parent: InodeId, name: &str) -> (taken: bool)
        ensures
            taken == self@.name_taken(parent, name@),
    {
        let ids = self.child_ids(parent);
        let mut i: usize = 0;
        while i < ids.len()
            invariant
                i <= ids.len(),
                ids@.to_set() == self@.children_of(parent),
                forall|k: int|
                    0 <= k < i ==> !(self@.row(#[trigger] ids@[k]) matches Ok(meta) && meta.name
                        == name@),
            decreases ids.len() - i,
        {
            let child: InodeId = ids[i];
            proof {
                assert(ids@.to_set().contains(ids@[i as int]));
            }
            if let Ok(meta) = self.child_row(child) {
                if text_order(meta.name.as_str(), name) == Order::Equal {
                    proof {
                        assert(self@.children_of(parent).contains(child));
                    }
                    return true;
                }
            }
            i += 1;
        }
        proof {
            assert forall|child: InodeId| #[trigger]
                self@.children_of(parent).contains(child) implies !(self@.row(child) matches Ok(
                meta,
            ) && meta.name == name@) by {
                assert(ids@.to_set().contains(child));
                let k = choose|k: int| 0 <= k < ids@.len() && ids@[k] == child;
                assert(ids@[k] == child);
            }
        }
        false
    }

    /// Makes an inode in a directory.
    pub fn create_inode(&mut self, parent: InodeId, id: InodeId, meta: InodeMeta) -> (result: Result<
        (),
        DbError,
    >)
        ensures
            match old(self)@.with_inode(parent, id, meta@) {
                Ok(after) => result is Ok && final(self)@ == after,
                Err(why) => result == Err::<(), DbError>(why) && final(self)@ == old(self)@,
            },
    {
        if self.has_child_named(parent, meta.name.as_str()) {
            return Err(DbError::NameConflict);
        }
        match self.inodes.get(&parent) {
            None => {
                return Err(DbError::AttemptedOrphan);
            },
            Some(None) => {
                return Err(DbError::CorruptedData);
            },
            Some(Some(parent_meta)) => {
                if !parent_meta.is_dir() {
                    return Err(DbError::ParentNotDir);
                }
            },
        }
        let ghost before = self@;
        self.inodes.insert(id, Some(meta));
        let mut siblings = match self.children.get(&parent) {
            Some(children) => children.clone(),
            None => BTreeSet::new(),
        };
        siblings.insert(id);
        self.children.insert(parent, siblings);
        self.parents.insert(id, parent);
        proof {
            assert(self@.inodes =~= before.inodes.insert(id, Some(meta@)));
            assert(self@.links =~= before.links.insert((parent, id)));
        }
        Ok(())
    }

    /// Removes an inode. A file that holds something cannot be removed yet: its chunks would
    /// have to be cleaned up.
    pub fn remove_inode(&mut self, inode: InodeId) -> (result: Result<(), DbError>)
        requires
            !old(self)@.holds_data(inode),
        ensures
            match old(self)@.without_inode(inode) {
                Ok(after) => result is Ok && final(self)@ == after,
                Err(why) => result == Err::<(), DbError>(why) && final(self)@ == old(self)@,
            },
    {
        match self.inodes.get(&inode) {
            Some(Some(meta)) => {
                if meta.is_dir() {
                    let children = self.child_ids(inode);
                    if children.len() > 0 {
                        proof {
                            assert(children@.to_set().contains(children@[0]));
                            assert(self@.children_of(inode).contains(children@[0]));
                        }
                        return Err(DbError::HasChildren);
                    }
                    proof {
                        assert forall|child: InodeId| !#[trigger]
                            self@.children_of(inode).contains(child) by {
                            assert(!children@.to_set().contains(child));
                        }
                    }
                }
            },
            _ => {
                return Err(DbError::NotFound(OutOfIdsKind::Inode));
            },
        }
        let parent_id: InodeId = match self.parents.get(&inode) {
            None => {
                return Err(DbError::CorruptedStructure);
            },
            Some(parent_id) => *parent_id,
        };
        let ghost before = self@;
        self.inodes.remove(&inode);
        self.parents.remove(&inode);
        let siblings = match self.children.get(&parent_id) {
            Some(children) => {
                let mut siblings = children.clone();
                siblings.remove(&inode);
                Some(siblings)
            },
            None => None,
        };
        if let Some(siblings) = siblings {
            self.children.insert(parent_id, siblings);
        }
        proof {
            assert(self@.inodes =~= before.inodes.remove(inode));
            assert(self@.links =~= before.links.remove((parent_id, inode)));
        }
        Ok(())
    }

    /// Hands out the next id of a backend.
    pub fn new_backend_id(&mut self) -> (id: Result<BackendId, DbError>)
        ensures
            ({
                let key = Metadata::NextBackend;
                let before = old(self)@;
                if !before.metadata.contains_key(key.spec_key()) {
                    id == Err::<BackendId, DbError>(DbError::CorruptedStructure) && final(self)@
                        == before
                } else if before.metadata[key.spec_key()].len() != 4 {
                    id == Err::<BackendId, DbError>(DbError::CorruptedData) && final(self)@
                        == before
                } else if before.next(key) == BackendId::MAX {
                    id == Err::<BackendId, DbError>(DbError::OutOfIds(OutOfIdsKind::Backend))
                        && final(self)@ == before
                } else {
                    id matches Ok(n) && n == before.next(key) && final(self)@ == before.with_next(
                        key,
                        before.next(key) + 1,
                        4,
                    )
                }
            }),
    {
        let key: u8 = Metadata::NextBackend.key();
        let new_id: BackendId = match self.metadata.get(&key) {
            None => {
                return Err(DbError::CorruptedStructure);
            },
            Some(bytes) => {
                if bytes.len() != 4 {
                    return Err(DbError::CorruptedData);
                }
                read_u32(bytes.as_slice())
            },
        };
        match new_id.checked_add(1) {
            None => Err(DbError::OutOfIds(OutOfIdsKind::Backend)),
            Some(next) => {
                self.write_next(Metadata::NextBackend, next as u64, 4);
                Ok(new_id)
            },
        }
    }

    /// Writes a number to the metadata.
    fn write_next(&mut self, key: Metadata, next: u64, width: usize)
        ensures
            final(self)@ == old(self)@.with_next(key, next as nat, width as nat),
    {
        self.metadata.insert(key.key(), write_le(next, width));
        proof {
            assert(self@.metadata =~= old(self)@.metadata.insert(
                key.spec_key(),
                le_bytes(next as nat, width as nat),
            ));
        }
    }

    /// Reads a number of eight bytes from the metadata.
    fn read_next(&self, key: Metadata) -> (next: Result<u64, DbError>)
        ensures
            if !self@.metadata.contains_key(key.spec_key()) {
                next matches Err(DbError::Internal(StorageFault::Corrupted(what))) && what@
                    == "Missing kv store"@
            } else if self@.metadata[key.spec_key()].len() != 8 {
                next matches Err(DbError::Internal(StorageFault::Corrupted(what))) && what@
                    == "Corrupted kv store"@
            } else {
                next matches Ok(n) && n == self@.next(key)
            },
    {
        match self.metadata.get(&key.key()) {
            None => Err(DbError::Internal(StorageFault::Corrupted("Missing kv store"))),
            Some(bytes) => if bytes.len() != 8 {
                Err(DbError::Internal(StorageFault::Corrupted("Corrupted kv store")))
            } else {
                Ok(read_le(bytes.as_slice()))
            },
        }
    }

    /// Records a backend.
    pub fn add_backend(&mut self, id: BackendId, meta: BackendMeta) -> (result: Result<(), DbError>)
        ensures
            if old(self)@.backends.contains_key(id) {
                &&& result == Err::<(), DbError>(DbError::DuplicateId(OutOfIdsKind::Backend))
                &&& final(self)@ == old(self)@
            } else {
                result is Ok && final(self)@ == (DbView {
                    backends: old(self)@.backends.insert(id, Some(meta)),
                    ..old(self)@
                })
            },
    {
        if self.backends.contains_key(&id) {
            return Err(DbError::DuplicateId(OutOfIdsKind::Backend));
        }
        self.backends.insert(id, Some(meta));
        Ok(())
    }

    /// What is recorded of a backend.
    pub fn get_backend(&self, id: &BackendId) -> (meta: Result<Option<BackendMeta>, DbError>)
        ensures
            meta == (if !self@.backends.contains_key(*id) {
                Ok::<Option<BackendMeta>, DbError>(None)
            } else {
                match self@.backends[*id] {
                    Some(m) => Ok(Some(m)),
                    None => Err(DbError::CorruptedData),
                }
            }),
    {
        match self.backends.get(id) {
            None => Ok(None),
            Some(Some(meta)) => Ok(Some(meta.clone())),
            Some(None) => Err(DbError::CorruptedData),
        }
    }

    /// What is recorded of all backends, in ascending order of their ids.
    pub fn list_backends(&self) -> (rows: Vec<Result<(BackendId, BackendMeta), DbError>>)
        ensures
            exists|order: Seq<BackendId>|
                {
                    &&& #[trigger] backend_ids_ascend(order)
                    &&& order.to_set() == self@.backends.dom()
                    &&& backend_rows_of(self@.backends, order, rows@)
                },
    {
        let ids = ordered_keys(&self.backends);
        proof {
            lemma_increasing_u32(ids@);
        }
        let mut rows: Vec<Result<(BackendId, BackendMeta), DbError>> = Vec::new();
        let mut i: usize = 0;
        while i < ids.len()
            invariant
                i <= ids.len(),
                backend_ids_ascend(ids@),
                ids@.to_set() == self.backends@.dom(),
                backend_rows_of(self@.backends, ids@.take(i as int), rows@),
            decreases ids.len() - i,
        {
            let id: BackendId = ids[i];
            let ghost before = rows@;
            proof {
                assert(ids@.to_set().contains(ids@[i as int]));
            }
            match self.backends.get(&id) {
                Some(Some(meta)) => {
                    rows.push(Ok((id, meta.clone())));
                },
                _ => {
                    rows.push(Err(DbError::CorruptedData));
                },
            }
            proof {
                assert forall|k: int| 0 <= k < i + 1 implies (#[trigger] rows@[k])
                    == match self@.backends[ids@.take(i + 1)[k]] {
                    Some(meta) => Ok::<(BackendId, BackendMeta), DbError>(
                        (ids@.take(i + 1)[k], meta),
                    ),
                    None => Err(DbError::CorruptedData),
                } by {
                    if k < i {
                        assert(before[k] == rows@[k]);
                        assert(ids@.take(i as int)[k] == ids@.take(i + 1)[k]);
                    }
                }
            }
            i += 1;
        }
        proof {
            assert(ids@.take(i as int) =~= ids@);
        }
        rows
    }

    /// Hands out the next ids of chunks, as many as asked for.
    pub fn reserve_chunk_ids(&mut self, count: u64) -> (ids: Result<
        RangeInclusive<ChunkId>,
        DbError,
    >)
        requires
            count > 0 || !old(self)@.has_number(Metadata::NextChunk, 8) || old(self)@.next(
                Metadata::NextChunk,
            ) > 0,
        ensures
            ({
                let key = Metadata::NextChunk;
                let before = old(self)@;
                if !before.metadata.contains_key(key.spec_key()) {
                    &&& ids matches Err(DbError::Internal(StorageFault::Corrupted(what)))
                    &&& what@ == "Missing kv store"@
                    &&& final(self)@ == before
                } else if before.metadata[key.spec_key()].len() != 8 {
                    &&& ids matches Err(DbError::Internal(StorageFault::Corrupted(what)))
                    &&& what@ == "Corrupted kv store"@
                    &&& final(self)@ == before
                } else if before.next(key) + count > ChunkId::MAX {
                    &&& ids matches Err(DbError::OutOfIds(kind)) && kind == OutOfIdsKind::Chunk
                    &&& final(self)@ == before
                } else {
                    &&& ids matches Ok(range)
                    &&& range@.start == before.next(key)
                    &&& range@.end == before.next(key) + count - 1
                    &&& !range@.exhausted
                    &&& final(self)@ == before.with_next(key, before.next(key) + count as nat, 8)
                }
            }),
    {
        let next_id: ChunkId = match self.read_next(Metadata::NextChunk) {
            Err(why) => {
                return Err(why);
            },
            Ok(next_id) => next_id,
        };
        match next_id.checked_add(count) {
            None => Err(DbError::OutOfIds(OutOfIdsKind::Chunk)),
            Some(new_next_id) => {
                self.write_next(Metadata::NextChunk, new_next_id, 8);
                Ok(RangeInclusive::new(next_id, new_next_id - 1))
            },
        }
    }

    /// Hands out the next id of an inode.
    pub fn reserve_inode_id(&mut self) -> (id: Result<InodeId, DbError>)
        ensures
            ({
                let key = Metadata::NextInode;
                let before = old(self)@;
                if !before.metadata.contains_key(key.spec_key()) {
                    &&& id matches Err(DbError::Internal(StorageFault::Corrupted(what)))
                    &&& what@ == "Missing kv store"@
                    &&& final(self)@ == before
                } else if before.metadata[key.spec_key()].len() != 8 {
                    &&& id matches Err(DbError::Internal(StorageFault::Corrupted(what)))
                    &&& what@ == "Corrupted kv store"@
                    &&& final(self)@ == before
                } else if before.next(key) == InodeId::MAX {
                    &&& id matches Err(DbError::OutOfIds(kind)) && kind == OutOfIdsKind::Inode
                    &&& final(self)@ == before
                } else {
                    &&& id matches Ok(n) && n == before.next(key)
                    &&& final(self)@ == before.with_next(key, before.next(key) + 1, 8)
                }
            }),
    {
        let next_id: InodeId = match self.read_next(Metadata::NextInode) {
            Err(why) => {
                return Err(why);
            },
            Ok(next_id) => next_id,
        };
        match next_id.checked_add(1) {
            None => Err(DbError::OutOfIds(OutOfIdsKind::Inode)),
            Some(new_next_id) => {
                self.write_next(Metadata::NextInode, new_next_id, 8);
                Ok(next_id)
            },
        }
    }

    /// Adds chunks for a pending upload.
    pub fn add_temp_chunks(&mut self, temp_chunks: &Vec<(ChunkId, ChunkData)>) -> (result: Result<
        (),
        DbError,
    >)
        ensures
            result is Ok,
            final(self)@ == old(self)@.with_temp_chunks(temp_chunks@),
    {
        let ghost before = self@;
        let mut i: usize = 0;
        proof {
            assert(temp_chunks@.take(0) =~= Seq::<(ChunkId, ChunkData)>::empty());
        }
        while i < temp_chunks.len()
            invariant
                i <= temp_chunks.len(),
                self@ == before.with_temp_chunks(temp_chunks@.take(i as int)),
            decreases temp_chunks.len() - i,
        {
            let (id, chunk): (ChunkId, ChunkData) = temp_chunks[i];
            proof {
                assert(temp_chunks@.take(i + 1).drop_last() =~= temp_chunks@.take(i as int));
            }
            self.chunks.insert(id, chunk);
            self.temp_chunks.insert(id);
            i += 1;
        }
        proof {
            assert(temp_chunks@.take(i as int) =~= temp_chunks@);
        }
        Ok(())
    }

    /// The pending chunks in a range, in ascending order.
    fn pending_ids(&self, ids: IdRange) -> (chosen: Vec<ChunkId>)
        ensures
            chosen@ == in_order(self@.pending(ids)),
            chosen@.to_set() == self@.pending(ids),
    {
        let members = ordered_members(&self.temp_chunks);
        let mut chosen: Vec<ChunkId> = Vec::new();
        let mut i: usize = 0;
        proof {
            assert(members@.take(0) =~= Seq::<ChunkId>::empty());
        }
        while i < members.len()
            invariant
                i <= members.len(),
                chosen@ == only(members@.take(i as int), ids.ids()),
            decreases members.len() - i,
        {
            let id: ChunkId = members[i];
            proof {
                assert(members@.take(i + 1).drop_last() =~= members@.take(i as int));
                assert(members@.take(i + 1).last() == id);
            }
            if ids.contains(id) {
                chosen.push(id);
            }
            i += 1;
        }
        proof {
            assert(members@.take(i as int) =~= members@);
            lemma_only(members@, ids.ids());
            lemma_in_order(chosen@);
        }
        chosen
    }

    /// Takes the chunks out of the pending ones.
    fn drop_pending(&mut self, chosen: &Vec<ChunkId>)
        ensures
            final(self)@ == (DbView {
                temp_chunks: old(self)@.temp_chunks.difference(chosen@.to_set()),
                ..old(self)@
            }),
    {
        let ghost before = self@;
        let mut i: usize = 0;
        proof {
            assert(before.temp_chunks.difference(chosen@.take(0).to_set()) =~= before.temp_chunks);
        }
        while i < chosen.len()
            invariant
                i <= chosen.len(),
                self@ == (DbView {
                    temp_chunks: before.temp_chunks.difference(chosen@.take(i as int).to_set()),
                    ..before
                }),
            decreases chosen.len() - i,
        {
            let id: ChunkId = chosen[i];
            self.temp_chunks.remove(&id);
            proof {
                lemma_one_more(chosen@, i as int);
                assert(self@.temp_chunks =~= before.temp_chunks.difference(
                    chosen@.take(i + 1).to_set(),
                ));
            }
            i += 1;
        }
        proof {
            assert(chosen@.take(i as int) =~= chosen@);
        }
    }

    /// Marks temp chunks as to delete. Returns true if any chunks were moved
    pub fn cancel_temp_chunks(&mut self, ids: IdRange) -> (moved: Result<bool, DbError>)
        ensures
            moved matches Ok(any) && any == (exists|id: ChunkId| #[trigger]
                old(self)@.pending(ids).contains(id)),
            final(self)@ == old(self)@.with_cancelled(ids),
    {
        let chosen = self.pending_ids(ids);
        let ghost before = self@;
        self.drop_pending(&chosen);
        let mut i: usize = 0;
        proof {
            assert(before.temp_chunks.difference(chosen@.to_set()) =~= before.temp_chunks.difference(
                ids.ids(),
            ));
            assert(before.chunks_to_drop.union(chosen@.take(0).to_set())
                =~= before.chunks_to_drop);
        }
        while i < chosen.len()
            invariant
                i <= chosen.len(),
                self@ == (DbView {
                    temp_chunks: before.temp_chunks.difference(ids.ids()),
                    chunks_to_drop: before.chunks_to_drop.union(chosen@.take(i as int).to_set()),
                    ..before
                }),
            decreases chosen.len() - i,
        {
            let id: ChunkId = chosen[i];
            self.chunks_to_drop.insert(id);
            proof {
                lemma_one_more(chosen@, i as int);
                assert(self@.chunks_to_drop =~= before.chunks_to_drop.union(
                    chosen@.take(i + 1).to_set(),
                ));
            }
            i += 1;
        }
        proof {
            assert(chosen@.take(i as int) =~= chosen@);
            if chosen.len() > 0 {
                assert(chosen@.to_set().contains(chosen@[0]));
                assert(before.pending(ids).contains(chosen@[0]));
            } else {
                assert forall|id: ChunkId| !#[trigger] before.pending(ids).contains(id) by {
                    assert(!chosen@.to_set().contains(id));
                }
            }
        }
        Ok(chosen.len() > 0)
    }

    /// The space that the chunks take up, by backend. There is none where a chunk is missing.
    fn space_of(&self, chosen: &Vec<ChunkId>) -> (space: Option<BTreeMap<BackendId, u64>>)
        requires
            forall|b: BackendId| #[trigger] space_on(self@.chunks, chosen@, b) <= u64::MAX,
        ensures
            match space {
                Some(map) => {
                    &&& forall|k: int|
                        0 <= k < chosen@.len() ==> self@.chunks.contains_key(#[trigger] chosen@[k])
                    &&& map@.dom() == backends_holding(self@.chunks, chosen@)
                    &&& forall|b: BackendId| #[trigger]
                        map@.contains_key(b) ==> map@[b] == space_on(self@.chunks, chosen@, b)
                },
                None => exists|k: int|
                    0 <= k < chosen@.len() && !self@.chunks.contains_key(#[trigger] chosen@[k]),
            },
    {
        let mut space: BTreeMap<BackendId, u64> = BTreeMap::new();
        let ghost chunks = self@.chunks;
        let ghost homes = chosen@.map_values(|id: ChunkId| chunks[id].backend_id);
        let mut i: usize = 0;
        proof {
            assert(homes.take(0).to_set() =~= space@.dom());
        }
        while i < chosen.len()
            invariant
                i <= chosen.len(),
                chunks == self.chunks@,
                homes == chosen@.map_values(|id: ChunkId| chunks[id].backend_id),
                forall|b: BackendId| #[trigger] space_on(chunks, chosen@, b) <= u64::MAX,
                forall|k: int| 0 <= k < i ==> chunks.contains_key(#[trigger] chosen@[k]),
                space@.dom() == homes.take(i as int).to_set(),
                forall|b: BackendId| #[trigger]
                    space@.contains_key(b) ==> space@[b] == space_on(
                        chunks,
                        chosen@.take(i as int),
                        b,
                    ),
            decreases chosen.len() - i,
        {
            let id: ChunkId = chosen[i];
            let ghost before = space@;
            let chunk: ChunkData = match self.chunks.get(&id) {
                None => {
                    proof {
                        assert(!chunks.contains_key(chosen@[i as int]));
                    }
                    return None;
                },
                Some(chunk) => *chunk,
            };
            let home: BackendId = chunk.backend_id;
            proof {
                assert(chosen@.take(i + 1).drop_last() =~= chosen@.take(i as int));
                assert(chosen@.take(i + 1).last() == id);
                assert(space_on(chunks, chosen@, home) <= u64::MAX);
                lemma_space_grows(chunks, chosen@, home, i + 1);
                lemma_space_grows(chunks, chosen@, home, i as int);
                assert(homes[i as int] == home);
                if !before.contains_key(home) {
                    assert forall|k: int| 0 <= k < i implies chunks[#[trigger] chosen@[k]].backend_id
                        != home by {
                        if chunks[chosen@[k]].backend_id == home {
                            assert(homes.take(i as int)[k] == home);
                            assert(homes.take(i as int).to_set().contains(home));
                        }
                    }
                    lemma_no_space(chunks, chosen@.take(i as int), home);
                }
            }
            let taken: u64 = match space.get(&home) {
                Some(taken) => *taken,
                None => 0,
            };
            space.insert(home, taken + chunk.length as u64);
            proof {
                let now = homes.take(i + 1);
                let then = homes.take(i as int);
                assert(now =~= then.push(home));
                assert forall|x: BackendId|
                    now.to_set().contains(x) == (then.to_set().contains(x) || x == home) by {
                    if then.contains(x) {
                        let k = choose|k: int| 0 <= k < then.len() && then[k] == x;
                        assert(now[k] == x);
                    }
                    assert(now[i as int] == home);
                }
                assert(space@.dom() =~= now.to_set());
            }
            i += 1;
        }
        proof {
            assert(homes.take(i as int) =~= homes);
            assert(chosen@.take(i as int) =~= chosen@);
        }
        Some(space)
    }

    /// Marks temp chunks as not temp
    pub fn commit_temp_chunks(&mut self, ids: IdRange) -> (result: Result<(), DbError>)
        requires
            forall|b: BackendId| #[trigger]
                space_on(old(self)@.chunks, in_order(old(self)@.pending(ids)), b) <= u64::MAX,
        ensures
            if old(self)@.misses_chunk(ids) {
                &&& result == Err::<(), DbError>(DbError::CorruptedStructure)
                &&& final(self)@ == old(self)@
            } else {
                exists|order: Seq<BackendId>|
                    {
                        &&& #[trigger] backend_ids_ascend(order)
                        &&& order.to_set() == backends_holding(
                            old(self)@.chunks,
                            in_order(old(self)@.pending(ids)),
                        )
                        &&& match old(self)@.with_commited(ids, order) {
                            Ok(after) => result is Ok && final(self)@ == after,
                            Err(why) => {
                                &&& result == Err::<(), DbError>(why)
                                &&& final(self)@ == old(self)@
                            },
                        }
                    }
            },
    {
        let chosen = self.pending_ids(ids);
        let ghost before = self@;
        let space = match self.space_of(&chosen) {
            None => {
                proof {
                    let k = choose|k: int|
                        0 <= k < chosen@.len() && !before.chunks.contains_key(#[trigger] chosen@[k]);
                    assert(chosen@.to_set().contains(chosen@[k]));
                    assert(before.pending(ids).contains(chosen@[k]));
                }
                return Err(DbError::CorruptedStructure);
            },
            Some(space) => space,
        };
        let order = ordered_keys(&space);
        proof {
            lemma_increasing_u32(order@);
            assert(backend_ids_ascend(order@));
            assert forall|id: ChunkId| #[trigger]
                before.pending(ids).contains(id) implies before.chunks.contains_key(id) by {
                assert(chosen@.to_set().contains(id));
                let k = choose|k: int| 0 <= k < chosen@.len() && chosen@[k] == id;
                assert(chosen@[k] == id);
            }
        }
        let mut backends = self.backends.clone();
        let mut i: usize = 0;
        proof {
            assert(order@.take(0) =~= Seq::<BackendId>::empty());
        }
        while i < order.len()
            invariant
                i <= order.len(),
                self@ == before,
                backend_ids_ascend(order@),
                order@.to_set() == space@.dom(),
                space@.dom() == backends_holding(before.chunks, chosen@),
                chosen@ == in_order(before.pending(ids)),
                forall|id: ChunkId| #[trigger]
                    before.pending(ids).contains(id) ==> before.chunks.contains_key(id),
                forall|b: BackendId| #[trigger]
                    space@.contains_key(b) ==> space@[b] == space_on(before.chunks, chosen@, b),
                space_taken(before.backends, order@.take(i as int), before.chunks, chosen@) == Ok::<
                    Map<BackendId, Option<BackendMeta>>,
                    DbError,
                >(backends@),
            decreases order.len() - i,
        {
            let id: BackendId = order[i];
            proof {
                assert(order@.to_set().contains(order@[i as int]));
                assert(space@.contains_key(id));
                assert(order@.take(i + 1).drop_last() =~= order@.take(i as int));
                assert(order@.take(i + 1).last() == id);
                lemma_taking_stops(before.backends, order@, before.chunks, chosen@, i + 1);
            }
            let amount: u64 = match space.get(&id) {
                Some(amount) => *amount,
                None => 0,
            };
            let updated = match backends.get(&id) {
                None => {
                    return Err(DbError::CorruptedStructure);
                },
                Some(None) => {
                    return Err(DbError::CorruptedData);
                },
                Some(Some(meta)) => match meta.free.checked_sub(amount) {
                    None => {
                        return Err(DbError::CorruptedStructure);
                    },
                    Some(free) => BackendMeta {
                        free,
                        total: meta.total,
                        chunks_contained: meta.chunks_contained,
                        kind: meta.kind.clone(),
                    },
                },
            };
            backends.insert(id, Some(updated));
            i += 1;
        }
        proof {
            assert(order@.take(i as int) =~= order@);
            assert(before.temp_chunks.difference(chosen@.to_set()) =~= before.temp_chunks.difference(
                ids.ids(),
            ));
        }
        self.drop_pending(&chosen);
        self.backends = backends;
        Ok(())
    }
}

/// The members of one more item.
proof fn lemma_one_more(s: Seq<u64>, i: int)
    requires
        0 <= i < s.len(),
    ensures
        s.take(i + 1).to_set() == s.take(i).to_set().insert(s[i]),
{
    let now = s.take(i + 1);
    let then = s.take(i);
    assert(now =~= then.push(s[i]));
    assert forall|x: u64|
        now.to_set().contains(x) == then.to_set().insert(s[i]).contains(x) by {
        if then.contains(x) {
            let k = choose|k: int| 0 <= k < then.len() && then[k] == x;
            assert(now[k] == x);
        }
        assert(now[i] == s[i]);
        if now.contains(x) {
            let k = choose|k: int| 0 <= k < now.len() && now[k] == x;
            if k < i {
                assert(then[k] == x);
            }
        }
    }
    assert(now.to_set() =~= then.to_set().insert(s[i]));
}

/// More chunks take up at least as much space.
proof fn lemma_space_grows(
    chunks: Map<ChunkId, ChunkData>,
    ids: Seq<ChunkId>,
    backend: BackendId,
    n: int,
)
    requires
        0 <= n <= ids.len(),
    ensures
        0 <= space_on(chunks, ids.take(n), backend) <= space_on(chunks, ids, backend),
    decreases ids.len(),
{
    if n == ids.len() {
        assert(ids.take(n) =~= ids);
        if n > 0 {
            lemma_space_grows(chunks, ids.drop_last(), backend, n - 1);
        }
    } else {
        assert(ids.drop_last().take(n) =~= ids.take(n));
        lemma_space_grows(chunks, ids.drop_last(), backend, n);
    }
}

/// Chunks on other backends take up no space on this one.
proof fn lemma_no_space(chunks: Map<ChunkId, ChunkData>, ids: Seq<ChunkId>, backend: BackendId)
    requires
        forall|k: int| 0 <= k < ids.len() ==> chunks[#[trigger] ids[k]].backend_id != backend,
    ensures
        space_on(chunks, ids, backend) == 0,
    decreases ids.len(),
{
    if ids.len() > 0 {
        let rest = ids.drop_last();
        assert forall|k: int| 0 <= k < rest.len() implies chunks[#[trigger] rest[k]].backend_id
            != backend by {
            assert(rest[k] == ids[k]);
        }
        assert(ids[ids.len() - 1] == ids.last());
        lemma_no_space(chunks, rest, backend);
    }
}

/// Where taking space from the first backends fails, taking it from all of them fails in the
/// same way.
proof fn lemma_taking_stops(
    backends: Map<BackendId, Option<BackendMeta>>,
    order: Seq<BackendId>,
    chunks: Map<ChunkId, ChunkData>,
    ids: Seq<ChunkId>,
    n: int,
)
    requires
        0 <= n <= order.len(),
    ensures
        space_taken(backends, order.take(n), chunks, ids) matches Err(why) ==> space_taken(
            backends,
            order,
            chunks,
            ids,
        ) == Err::<Map<BackendId, Option<BackendMeta>>, DbError>(why),
    decreases order.len() - n,
{
    if n < order.len() {
        assert(order.take(n + 1).drop_last() =~= order.take(n));
        lemma_taking_stops(backends, order, chunks, ids, n + 1);
    } else {
        assert(order.take(n) =~= order);
    }
}

} // verus!
