use ffs::bytes::{read_le, read_u32, write_le};
use ffs::chunk_alloc::{BackendStat, ChunkAlloc};
use ffs::db::records;
use ffs::db::{
    BackendKind, BackendMeta, ChunkData, Db, DbError, IdBound, IdRange, InodeFlags, InodeMeta,
    InodePath, Metadata, OutOfIdsKind, StorageFault,
};
use ffs::text::Order;
use std::collections::HashMap;

fn file(name: &str) -> InodeMeta {
    InodeMeta::new_file(name.to_string(), 0)
}

fn dir(name: &str) -> InodeMeta {
    InodeMeta::new_directory(name.to_string())
}

fn path(text: &str) -> InodePath {
    InodePath::from_str(text).unwrap()
}

fn backend(free: u64) -> BackendMeta {
    BackendMeta { free, total: 1000, chunks_contained: 2, kind: BackendKind::GoogleDrive }
}

fn chunk(backend_id: u32, length: u32) -> ChunkData {
    ChunkData { inode_id: 1, offset: 0, length, backend_id }
}

fn between(start: u64, end: u64) -> IdRange {
    IdRange { start: IdBound::Included(start), end: IdBound::Included(end) }
}

const ALL: IdRange = IdRange { start: IdBound::Unbounded, end: IdBound::Unbounded };

#[test]
fn numbers_are_stored_least_byte_first() {
    assert_eq!(write_le(0x0102, 4), vec![2, 1, 0, 0]);
    assert_eq!(write_le(u64::MAX, 8), u64::MAX.to_le_bytes());
    for n in [0u64, 1, 255, 256, 0x123456789abcdef0, u64::MAX] {
        assert_eq!(write_le(n, 8), n.to_le_bytes());
        assert_eq!(read_le(&n.to_le_bytes()), n);
    }
    assert_eq!(read_u32(&[1, 0, 0, 128]), 0x80000001);
    assert_eq!(read_le(&[]), 0);
}

#[test]
fn a_new_database_holds_the_root() {
    let db = Db::new();
    let root = db.inode_meta(0).unwrap().unwrap();
    assert_eq!(root.name, "");
    assert!(root.is_dir());
    assert_eq!(db.inodes.len(), 1);
    assert_eq!(db.metadata[&0], vec![0, 0, 0, 0]);
    assert_eq!(db.metadata[&1], vec![1, 0, 0, 0, 0, 0, 0, 0]);
    assert_eq!(db.metadata[&2], vec![1, 0, 0, 0, 0, 0, 0, 0]);
    assert!(db.list_backends().is_empty());
    assert_eq!(db.inode_lookup(&path("")).unwrap(), Some(0));
}

#[test]
fn inodes_are_made_and_found() {
    let mut db = Db::new();
    db.create_inode(0, 5, dir("docs")).unwrap();
    db.create_inode(5, 3, file("a.txt")).unwrap();
    db.create_inode(5, 9, file("b.txt")).unwrap();
    assert_eq!(db.inode_lookup(&path("docs")).unwrap(), Some(5));
    assert_eq!(db.inode_lookup(&path("docs/b.txt")).unwrap(), Some(9));
    assert_eq!(db.inode_lookup(&path("docs/c.txt")).unwrap(), None);
    assert_eq!(db.inode_lookup(&path("docs/a.txt/x")).unwrap(), None);
    let rows: Vec<(u64, String)> = db
        .iter_children(5)
        .into_iter()
        .map(|r| r.unwrap())
        .map(|(id, meta)| (id, meta.name))
        .collect();
    assert_eq!(rows, vec![(3, "a.txt".to_string()), (9, "b.txt".to_string())]);
    assert!(db.iter_children(77).is_empty());
    assert!(db.inode_meta(77).unwrap().is_none());
}

#[test]
fn inodes_that_cannot_be_made() {
    let mut db = Db::new();
    db.create_inode(0, 1, file("f")).unwrap();
    assert!(matches!(db.create_inode(0, 2, dir("f")), Err(DbError::NameConflict)));
    assert!(matches!(db.create_inode(8, 2, dir("g")), Err(DbError::AttemptedOrphan)));
    assert!(matches!(db.create_inode(1, 2, dir("g")), Err(DbError::ParentNotDir)));
    db.inodes.insert(4, None);
    assert!(matches!(db.create_inode(4, 2, dir("g")), Err(DbError::CorruptedData)));
    assert!(!db.inodes.contains_key(&2));
    assert_eq!(db.parents.len(), 1);
}

#[test]
fn rows_that_cannot_be_read() {
    let mut db = Db::new();
    db.create_inode(0, 1, file("a")).unwrap();
    db.create_inode(0, 2, file("b")).unwrap();
    db.create_inode(0, 3, file("c")).unwrap();
    db.inodes.insert(2, None);
    assert_eq!(db.inode_lookup(&path("a")).unwrap(), Some(1));
    assert!(matches!(db.inode_lookup(&path("c")), Err(DbError::CorruptedData)));
    assert!(db.inode_meta(2).unwrap().is_none());
    db.inodes.remove(&2);
    assert!(matches!(db.inode_lookup(&path("c")), Err(DbError::CorruptedStructure)));
    let rows = db.iter_children(0);
    assert!(rows[0].is_ok());
    assert!(matches!(rows[1], Err(DbError::CorruptedStructure)));
    assert!(rows[2].is_ok());
}

#[test]
fn inodes_are_removed() {
    let mut db = Db::new();
    db.create_inode(0, 1, dir("d")).unwrap();
    db.create_inode(1, 2, file("f")).unwrap();
    assert!(matches!(db.remove_inode(1), Err(DbError::HasChildren)));
    assert!(matches!(db.remove_inode(7), Err(DbError::NotFound(OutOfIdsKind::Inode))));
    db.remove_inode(2).unwrap();
    assert_eq!(db.inode_lookup(&path("d/f")).unwrap(), None);
    db.remove_inode(1).unwrap();
    assert_eq!(db.inode_lookup(&path("d")).unwrap(), None);
    assert!(matches!(db.remove_inode(0), Err(DbError::CorruptedStructure)));
    assert!(db.inode_meta(0).unwrap().is_some());
    assert_eq!(db.inodes.len(), 1);
    assert!(db.parents.is_empty());
    db.inodes.insert(6, None);
    assert!(matches!(db.remove_inode(6), Err(DbError::NotFound(OutOfIdsKind::Inode))));
}

#[test]
fn backends_are_recorded() {
    let mut db = Db::new();
    assert_eq!(db.new_backend_id().unwrap(), 0);
    assert_eq!(db.new_backend_id().unwrap(), 1);
    db.add_backend(1, backend(10)).unwrap();
    db.add_backend(0, backend(20)).unwrap();
    assert!(matches!(
        db.add_backend(1, backend(30)),
        Err(DbError::DuplicateId(OutOfIdsKind::Backend))
    ));
    assert_eq!(db.get_backend(&1).unwrap(), Some(backend(10)));
    assert_eq!(db.get_backend(&5).unwrap(), None);
    let ids: Vec<u32> = db.list_backends().into_iter().map(|r| r.unwrap().0).collect();
    assert_eq!(ids, vec![0, 1]);
    let stats = db.app_init_data().unwrap().backends_stat;
    assert_eq!(stats.len(), 2);
    assert_eq!(stats[&0], BackendStat::new(20));
    db.backends.insert(3, None);
    assert!(matches!(db.get_backend(&3), Err(DbError::CorruptedData)));
    assert!(matches!(db.list_backends()[2], Err(DbError::CorruptedData)));
    assert!(matches!(
        db.app_init_data(),
        Err(DbError::Corrupted("Failed to read backend metadata"))
    ));
}

#[test]
fn backend_numbers_that_cannot_be_right() {
    let mut db = Db::new();
    db.metadata.insert(0, vec![255; 4]);
    assert!(matches!(db.new_backend_id(), Err(DbError::OutOfIds(OutOfIdsKind::Backend))));
    db.metadata.insert(0, vec![255; 3]);
    assert!(matches!(db.new_backend_id(), Err(DbError::CorruptedData)));
    db.metadata.remove(&0);
    assert!(matches!(db.new_backend_id(), Err(DbError::CorruptedStructure)));
}

#[test]
fn ids_are_reserved() {
    let mut db = Db::new();
    assert_eq!(db.reserve_chunk_ids(3).unwrap(), 1..=3);
    assert_eq!(db.reserve_chunk_ids(1).unwrap(), 4..=4);
    assert_eq!(db.reserve_chunk_ids(0).unwrap().count(), 0);
    assert_eq!(db.reserve_inode_id().unwrap(), 1);
    assert_eq!(db.reserve_inode_id().unwrap(), 2);
    assert_eq!(db.reserve_chunk_ids(300).unwrap(), 5..=304);
    assert!(matches!(
        db.reserve_chunk_ids(u64::MAX),
        Err(DbError::OutOfIds(OutOfIdsKind::Chunk))
    ));
    assert_eq!(db.reserve_chunk_ids(1).unwrap(), 305..=305);
    db.metadata.insert(1, vec![255; 8]);
    assert!(matches!(db.reserve_inode_id(), Err(DbError::OutOfIds(OutOfIdsKind::Inode))));
}

#[test]
fn numbers_that_cannot_be_right() {
    let mut db = Db::new();
    db.metadata.insert(1, vec![1]);
    assert!(matches!(
        db.reserve_inode_id(),
        Err(DbError::Internal(StorageFault::Corrupted("Corrupted kv store")))
    ));
    db.metadata.clear();
    assert!(matches!(
        db.reserve_inode_id(),
        Err(DbError::Internal(StorageFault::Corrupted("Missing kv store")))
    ));
    assert!(matches!(
        db.reserve_chunk_ids(1),
        Err(DbError::Internal(StorageFault::Corrupted("Missing kv store")))
    ));
    db.metadata.insert(2, vec![0; 9]);
    assert!(matches!(
        db.reserve_chunk_ids(1),
        Err(DbError::Internal(StorageFault::Corrupted("Corrupted kv store")))
    ));
}

/// A database with two backends and four pending chunks.
fn with_chunks() -> Db {
    let mut db = Db::new();
    db.add_backend(1, backend(100)).unwrap();
    db.add_backend(2, backend(50)).unwrap();
    let chunks =
        vec![(10, chunk(1, 30)), (11, chunk(2, 20)), (12, chunk(1, 40)), (20, chunk(1, 99))];
    db.add_temp_chunks(&chunks).unwrap();
    db
}

fn free(db: &Db, id: u32) -> u64 {
    db.get_backend(&id).unwrap().unwrap().free
}

#[test]
fn pending_chunks_are_kept() {
    let mut db = with_chunks();
    assert_eq!(db.temp_chunks.len(), 4);
    db.commit_temp_chunks(between(10, 12)).unwrap();
    assert_eq!(free(&db, 1), 30);
    assert_eq!(free(&db, 2), 30);
    assert_eq!(db.temp_chunks.iter().copied().collect::<Vec<u64>>(), vec![20]);
    assert_eq!(db.chunks.len(), 4);
    assert!(db.chunks_to_drop.is_empty());
    // More than what is free.
    assert!(matches!(db.commit_temp_chunks(ALL), Err(DbError::CorruptedStructure)));
    assert_eq!(free(&db, 1), 30);
    assert_eq!(db.temp_chunks.len(), 1);
    db.commit_temp_chunks(between(30, 40)).unwrap();
}

#[test]
fn pending_chunks_that_cannot_be_kept() {
    let mut db = with_chunks();
    db.backends.insert(2, None);
    assert!(matches!(db.commit_temp_chunks(between(10, 11)), Err(DbError::CorruptedData)));
    assert_eq!(free(&db, 1), 100);
    db.backends.remove(&2);
    assert!(matches!(db.commit_temp_chunks(between(11, 11)), Err(DbError::CorruptedStructure)));
    db.chunks.remove(&12);
    assert!(matches!(db.commit_temp_chunks(between(12, 12)), Err(DbError::CorruptedStructure)));
    assert_eq!(db.temp_chunks.len(), 4);
}

#[test]
fn pending_chunks_are_cancelled() {
    let mut db = with_chunks();
    let range = IdRange { start: IdBound::Excluded(10), end: IdBound::Excluded(20) };
    assert!(db.cancel_temp_chunks(range).unwrap());
    assert!(!db.cancel_temp_chunks(range).unwrap());
    assert_eq!(db.temp_chunks.iter().copied().collect::<Vec<u64>>(), vec![10, 20]);
    assert_eq!(db.chunks_to_drop.iter().copied().collect::<Vec<u64>>(), vec![11, 12]);
    assert_eq!(free(&db, 1), 100);
    assert!(range.contains(11) && !range.contains(10) && !range.contains(20));
    assert!(ALL.contains(0) && ALL.contains(u64::MAX));
}

#[test]
fn database_errors_are_worded() {
    let words = vec![
        (
            DbError::Internal(StorageFault::Other("x".to_string())),
            "Operation on the database failed",
        ),
        (DbError::Corrupted("lost"), "Db is corrupted: lost"),
        (DbError::CorruptedData, "Corrupted data in the database"),
        (DbError::CorruptedStructure, "Corrupted database relations"),
        (DbError::OutOfIds(OutOfIdsKind::Chunk), "Ran out if chunk ids"),
        (
            DbError::DuplicateId(OutOfIdsKind::Backend),
            "backend with this id already exists",
        ),
        (
            DbError::NotFound(OutOfIdsKind::Inode),
            "inode with the specified id doesnt exist",
        ),
        (DbError::AttemptedOrphan, "Specified parent doesnt exist"),
        (DbError::NameConflict, "This name is already in use"),
        (DbError::ParentNotDir, "Parent is not a directory"),
        (DbError::HasChildren, "Attempted to remove a non empty directory"),
    ];
    for (error, text) in words {
        assert_eq!(error.message(), text);
    }
}

#[test]
fn chunks_are_stored_and_read_back() {
    let data = ChunkData {
        inode_id: 0x0102030405060708,
        offset: 0x1112131415161718,
        length: 0x21222324,
        backend_id: 0x31323334,
    };
    let bytes = data.as_bytes();
    assert_eq!(
        bytes,
        vec![
            8, 7, 6, 5, 4, 3, 2, 1, 0x18, 0x17, 0x16, 0x15, 0x14, 0x13, 0x12, 0x11, 0x24, 0x23,
            0x22, 0x21, 0x34, 0x33, 0x32, 0x31,
        ]
    );
    assert_eq!(ChunkData::fixed_width(), Some(24));
    assert_eq!(ChunkData::from_bytes(&bytes), data);
    assert_eq!(ChunkData::from_bytes(&chunk(7, 9).as_bytes()), chunk(7, 9));
}

#[test]
fn a_chunk_covers_a_range() {
    let data = ChunkData { inode_id: 1, offset: 100, length: 20, backend_id: 1 };
    assert_eq!(data.as_range(), 100..120);
}

#[test]
fn inodes_are_files_or_directories() {
    assert!(dir("d").is_dir());
    assert_eq!(dir("d").size, 0);
    let meta = InodeMeta::new_file("f".to_string(), 9);
    assert!(!meta.is_dir());
    assert_eq!((meta.name.as_str(), meta.size), ("f", 9));
    assert_eq!(meta.inode_flags, InodeFlags::is_file());
    assert_eq!(meta.clone().name, "f");
    assert!(InodeFlags(3).contains(InodeFlags::is_file()));
    assert!(!InodeFlags(2).contains(InodeFlags::is_file()));
    assert!(InodeFlags(2).contains(InodeFlags::empty()));
    assert_eq!(InodeFlags(3).bits(), 3);
    assert_eq!(
        [Metadata::NextBackend.key(), Metadata::NextInode.key(), Metadata::NextChunk.key()],
        [0, 1, 2]
    );
}

#[test]
fn stored_chunks_are_ordered_by_their_first_bytes() {
    let a = [1, 2, 3, 4, 5, 6, 7, 8, 99];
    let b = [1, 2, 3, 4, 5, 6, 7, 9, 0];
    let c = [1, 2, 3, 4, 5, 6, 7, 8, 0];
    assert_eq!(records::ChunkData::compare(&a, &b), Order::Less);
    assert_eq!(records::ChunkData::compare(&b, &a), Order::Greater);
    assert_eq!(records::ChunkData::compare(&a, &c), Order::Equal);
    assert_eq!(records::InodeFlags::file_type().0, 1);
}

const MIB: u64 = 1 << 20;

fn spread(stats: &[(u32, u64)]) -> ChunkAlloc {
    let stat: HashMap<u32, BackendStat> =
        stats.iter().map(|(id, free)| (*id, BackendStat::new(*free))).collect();
    ChunkAlloc::new(stat).unwrap()
}

#[test]
fn chunks_are_spread_by_free_space() {
    let mut spreading = spread(&[(1, 30 * MIB), (2, 10 * MIB), (3, MIB)]);
    let mut counts: HashMap<u32, usize> = HashMap::new();
    for _ in 0..8 {
        *counts.entry(spreading.allocate(1).unwrap()).or_insert(0) += 1;
    }
    assert_eq!(counts[&1], 6);
    assert_eq!(counts[&2], 2);
    assert!(!counts.contains_key(&3));
}

#[test]
fn nothing_is_placed_where_there_is_no_room() {
    assert_eq!(spread(&[]).allocate(1), None);
    assert_eq!(spread(&[(1, 4 * MIB - 1)]).allocate(1), None);
    let mut one = spread(&[(1, 9 * MIB)]);
    assert_eq!(one.allocate(4 * MIB as u32), Some(1));
    assert_eq!(one.allocate(MIB as u32), Some(1));
    // Four are left, which is room for one more chunk.
    assert_eq!(one.allocate(5 * MIB as u32), None);
    assert_eq!(one.allocate(1), Some(1));
    assert_eq!(one.allocate(1), None);
}

#[test]
fn a_full_backend_leaves_the_choice() {
    let mut two = spread(&[(1, 5 * MIB), (2, 400 * MIB)]);
    let mut placed = Vec::new();
    for _ in 0..90 {
        placed.push(two.allocate(4 * MIB as u32).unwrap());
    }
    assert_eq!(placed.iter().filter(|id| **id == 1).count(), 1);
}

#[test]
fn free_space_that_is_out_of_range() {
    let mut two = spread(&[(1, 30 * MIB), (2, 30 * MIB)]);
    assert!(matches!(two.try_allocate(1), Some(Some(_))));
    assert_eq!(spread(&[]).try_allocate(1), Some(None));
    assert_eq!(spread(&[(1, u64::MAX)]).try_allocate(1), Some(Some(1)));
    assert_eq!(spread(&[(1, u64::MAX), (2, 30 * MIB)]).try_allocate(1), None);
    assert_eq!(spread(&[(1, 1 << 62), (2, 1 << 62)]).try_allocate(1), None);
}
