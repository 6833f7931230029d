//! The rows of the database.

use crate::bytes::{every_number_fits, le_bytes, le_value, read_le, read_u32, write_le};
use std::ops::Range;
use vstd::prelude::*;

pub use crate::backend::{BackendKind, BackendKindSpecifier, BackendParseError};

verus! {

/// Id of the backend instance
pub type BackendId = u32;

pub type InodeId = u64;

/// Id of a data chunk
pub type ChunkId = u64;

/// Metadata of a specific backend
#[derive(Debug, PartialEq, Eq, PartialOrd, Ord)]
pub struct BackendMeta {
    pub free: u64,
    pub total: u64,
    pub chunks_contained: u32,
    pub kind: BackendKind,
}

impl Clone for BackendMeta {
    fn clone(&self) -> (copy: Self)
        ensures
            copy == *self,
    {
        BackendMeta {
            free: self.free,
            total: self.total,
            chunks_contained: self.chunks_contained,
            kind: self.kind.clone(),
        }
    }
}

/// A run of bytes of an inode, and the backend that stores it.
#[derive(Clone, Copy, Debug, PartialEq, Eq, PartialOrd, Ord, Structural)]
pub struct ChunkData {
    pub inode_id: InodeId,
    pub offset: u64,
    pub length: u32,
    pub backend_id: BackendId,
}

impl ChunkData {
    /// The number of bytes that a chunk takes up in the database.
    pub open spec fn width() -> nat {
        24
    }

    /// A chunk as it is stored: its fields one after the other, least significant byte first.
    pub open spec fn stored(self) -> Seq<u8> {
        le_bytes(self.inode_id as nat, 8) + le_bytes(self.offset as nat, 8) + le_bytes(
            self.length as nat,
            4,
        ) + le_bytes(self.backend_id as nat, 4)
    }

    /// The bytes of the inode that the chunk holds.
    pub fn as_range(&self) -> (range: Range<usize>)
        requires
            self.offset + self.length <= usize::MAX,
        ensures
            range.start == self.offset,
            range.end == self.offset + self.length,
    {
        let offset: usize = self.offset as usize;
        Range { start: offset, end: offset + self.length as usize }
    }

    /// The number of bytes that a chunk takes up in the database.
    pub fn fixed_width() -> (width: Option<usize>)
        ensures
            width matches Some(w) && w == ChunkData::width(),
    {
        Some(24)
    }

    /// The chunk that is stored in the first bytes of `data`. Every chunk is read back from the
    /// bytes that it is stored as.
    pub fn from_bytes(data: &[u8]) -> (chunk: Self)
        requires
            data@.len() >= ChunkData::width(),
        ensures
            chunk.inode_id == le_value(data@.subrange(0, 8)),
            chunk.offset == le_value(data@.subrange(8, 16)),
            chunk.length == le_value(data@.subrange(16, 20)),
            chunk.backend_id == le_value(data@.subrange(20, 24)),
            forall|stored: ChunkData| data@ == #[trigger] stored.stored() ==> chunk == stored,
    {
        let inode_id: InodeId = read_le(vstd::slice::slice_subrange(data, 0, 8));
        let offset: u64 = read_le(vstd::slice::slice_subrange(data, 8, 16));
        let length: u32 = read_u32(vstd::slice::slice_subrange(data, 16, 20));
        let backend_id: BackendId = read_u32(vstd::slice::slice_subrange(data, 20, 24));
        let chunk = ChunkData { inode_id, offset, length, backend_id };
        proof {
            assert forall|stored: ChunkData|
                data@ == #[trigger] stored.stored() implies chunk == stored by {
                every_number_fits();
                lemma_parts(stored);
                let parts = stored.stored();
                assert(parts.subrange(0, 8) =~= le_bytes(stored.inode_id as nat, 8));
                assert(parts.subrange(8, 16) =~= le_bytes(stored.offset as nat, 8));
                assert(parts.subrange(16, 20) =~= le_bytes(stored.length as nat, 4));
                assert(parts.subrange(20, 24) =~= le_bytes(stored.backend_id as nat, 4));
            }
        }
        chunk
    }

    /// The bytes that the chunk is stored as.
    pub fn as_bytes(&self) -> (bytes: Vec<u8>)
        ensures
            bytes@ == self.stored(),
            bytes@.len() == ChunkData::width(),
    {
        let mut bytes = write_le(self.inode_id, 8);
        let mut offset = write_le(self.offset, 8);
        let mut length = write_le(self.length as u64, 4);
        let mut backend_id = write_le(self.backend_id as u64, 4);
        bytes.append(&mut offset);
        bytes.append(&mut length);
        bytes.append(&mut backend_id);
        proof {
            lemma_parts(*self);
        }
        bytes
    }
}

/// The lengths of the parts that a chunk is stored as.
proof fn lemma_parts(chunk: ChunkData)
    ensures
        le_bytes(chunk.inode_id as nat, 8).len() == 8,
        le_bytes(chunk.offset as nat, 8).len() == 8,
        le_bytes(chunk.length as nat, 4).len() == 4,
        le_bytes(chunk.backend_id as nat, 4).len() == 4,
{
    crate::bytes::reading_bytes_undoes_writing(chunk.inode_id as nat, 8);
    crate::bytes::reading_bytes_undoes_writing(chunk.offset as nat, 8);
    crate::bytes::reading_bytes_undoes_writing(chunk.length as nat, 4);
    crate::bytes::reading_bytes_undoes_writing(chunk.backend_id as nat, 4);
}

/// What kind of inode it is.
#[derive(Clone, Copy, Debug, PartialEq, Eq, Structural)]
pub struct InodeFlags(pub u8);

impl InodeFlags {
    /// The flag of a file: 0 for a directory, 1 for a file
    pub fn is_file() -> (flags: Self)
        ensures
            flags.0 == 1,
    {
        InodeFlags(1)
    }

    /// No flag is set.
    pub fn empty() -> (flags: Self)
        ensures
            flags.0 == 0,
    {
        InodeFlags(0)
    }

    /// The flags as a number.
    pub fn bits(&self) -> (bits: u8)
        ensures
            bits == self.0,
    {
        self.0
    }

    /// Whether all the other flags are set.
    pub fn contains(&self, other: InodeFlags) -> (all: bool)
        ensures
            all == (self.0 & other.0 == other.0),
    {
        self.0 & other.0 == other.0
    }
}

/// Metadata of an inode
#[derive(Debug)]
pub struct InodeMeta {
    pub name: String,
    pub size: u64,
    pub inode_flags: InodeFlags,
}

/// Metadata of an inode, as mathematical data.
pub struct InodeMetaView {
    pub name: Seq<char>,
    pub size: u64,
    pub flags: u8,
}

impl View for InodeMeta {
    type V = InodeMetaView;

    open spec fn view(&self) -> InodeMetaView {
        InodeMetaView { name: self.name@, size: self.size, flags: self.inode_flags.0 }
    }
}

impl InodeMetaView {
    /// This is a directory, and not a file.
    pub open spec fn is_dir(self) -> bool {
        self.flags & 1u8 != 1u8
    }
}

impl Clone for InodeMeta {
    fn clone(&self) -> (copy: Self)
        ensures
            copy@ == self@,
    {
        InodeMeta { name: self.name.clone(), size: self.size, inode_flags: self.inode_flags }
    }
}

impl InodeMeta {
    pub fn new_directory(name: String) -> (meta: Self)
        ensures
            meta@ == (InodeMetaView { name: name@, size: 0, flags: 0 }),
            meta@.is_dir(),
    {
        proof {
            assert(0u8 & 1u8 != 1u8) by (bit_vector);
        }
        InodeMeta { size: 0, inode_flags: InodeFlags::empty(), name }
    }

    pub fn new_file(name: String, size: u64) -> (meta: Self)
        ensures
            meta@ == (InodeMetaView { name: name@, size, flags: 1 }),
            !meta@.is_dir(),
    {
        proof {
            assert(1u8 & 1u8 == 1u8) by (bit_vector);
        }
        InodeMeta { size, inode_flags: InodeFlags::is_file(), name }
    }

    pub fn is_dir(&self) -> (dir: bool)
        ensures
            dir == self@.is_dir(),
    {
        !self.inode_flags.contains(InodeFlags::is_file())
    }
}

/// Keys for the metadata table
#[derive(Clone, Copy, Debug, PartialEq, Eq, PartialOrd, Ord, Structural)]
pub enum Metadata {
    /// Stored as `BackendId`
    NextBackend,
    /// Stored as `InodeId`
    NextInode,
    /// Stored as `ChunkId`
    NextChunk,
}

impl Metadata {
    /// The key as it stands in the table.
    pub open spec fn spec_key(self) -> u8 {
        match self {
            Metadata::NextBackend => 0,
            Metadata::NextInode => 1,
            Metadata::NextChunk => 2,
        }
    }

    /// The key as it stands in the table.
    pub fn key(&self) -> (key: u8)
        ensures
            key == self.spec_key(),
    {
        match self {
            Metadata::NextBackend => 0,
            Metadata::NextInode => 1,
            Metadata::NextChunk => 2,
        }
    }
}

/// A chunk is stored in 24 bytes: its inode in the first eight, its offset in the next eight, its
/// length in the next four, and its backend in the last four, the least significant byte first.
pub proof fn a_chunk_is_stored_field_by_field(chunk: ChunkData)
    ensures
        ChunkData::width() == 24,
        chunk.stored().len() == 24,
        le_value(chunk.stored().subrange(0, 8)) == chunk.inode_id,
        le_value(chunk.stored().subrange(8, 16)) == chunk.offset,
        le_value(chunk.stored().subrange(16, 20)) == chunk.length,
        le_value(chunk.stored().subrange(20, 24)) == chunk.backend_id,
{
    every_number_fits();
    lemma_parts(chunk);
    let parts = chunk.stored();
    assert(parts.subrange(0, 8) =~= le_bytes(chunk.inode_id as nat, 8));
    assert(parts.subrange(8, 16) =~= le_bytes(chunk.offset as nat, 8));
    assert(parts.subrange(16, 20) =~= le_bytes(chunk.length as nat, 4));
    assert(parts.subrange(20, 24) =~= le_bytes(chunk.backend_id as nat, 4));
}

/// An inode is seen with its name, its size and its flags.
pub proof fn inodes_are_seen_in_full(meta: InodeMeta)
    ensures
        meta@.name == meta.name@,
        meta@.size == meta.size,
        meta@.flags == meta.inode_flags.0,
{
}

} // verus!
