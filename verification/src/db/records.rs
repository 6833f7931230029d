//! Rows of fixed width: the layout in which every field stands at a fixed place.

use crate::text::Order;
use vstd::prelude::*;

pub use crate::db::types::{BackendId, ChunkId};

verus! {

/// The space of a backend.
#[derive(Clone, Copy, Debug, PartialEq, Eq, PartialOrd, Ord, Structural)]
pub struct BackendData {
    pub free: u64,
    pub total: u64,
    pub chunks_contained: u32,
    pub _padding: u32,
}

/// A chunk of an inode.
#[derive(Clone, Copy, Debug, PartialEq, Eq, PartialOrd, Ord, Structural)]
pub struct ChunkData {
    pub offset: u64,
    pub length: u32,
    pub backend_id: BackendId,
    pub chunk_id: ChunkId,
}

/// The first bytes of `a` come before those of `b`, from the first to the last of `n` bytes.
pub open spec fn bytes_before(a: Seq<u8>, b: Seq<u8>, n: int) -> bool {
    exists|i: int|
        {
            &&& 0 <= i < n
            &&& #[trigger] a[i] < b[i]
            &&& a.take(i) == b.take(i)
        }
}

impl ChunkData {
    /// The order of two stored chunks: that of their first eight bytes.
    pub fn compare(data1: &[u8], data2: &[u8]) -> (order: Order)
        requires
            data1@.len() >= 8,
            data2@.len() >= 8,
        ensures
            match order {
                Order::Less => bytes_before(data1@, data2@, 8),
                Order::Equal => data1@.take(8) == data2@.take(8),
                Order::Greater => bytes_before(data2@, data1@, 8),
            },
    {
        let mut i: usize = 0;
        while i < 8
            invariant
                i <= 8,
                data1@.len() >= 8,
                data2@.len() >= 8,
                data1@.take(i as int) == data2@.take(i as int),
            decreases 8 - i,
        {
            if data1[i] < data2[i] {
                return Order::Less;
            }
            if data2[i] < data1[i] {
                return Order::Greater;
            }
            proof {
                assert(data1@.take(i + 1) =~= data1@.take(i as int).push(data1@[i as int]));
                assert(data2@.take(i + 1) =~= data2@.take(i as int).push(data2@[i as int]));
            }
            i += 1;
        }
        Order::Equal
    }
}

/// What kind of inode it is.
#[derive(Clone, Copy, Debug, PartialEq, Eq, Structural)]
pub struct InodeFlags(pub u16);

impl InodeFlags {
    /// The flag of a file: 0 for a directory, 1 for a file
    pub fn file_type() -> (flags: Self)
        ensures
            flags.0 == 1,
    {
        InodeFlags(1)
    }
}

/// An inode.
#[derive(Clone, Copy, Debug, PartialEq, Eq, Structural)]
pub struct InodeMeta {
    pub size: u64,
    pub _padding_u32: u32,
    pub _padding_u16: u16,
    pub inode_type: InodeFlags,
}

/// Keys for the metadata table
#[derive(Clone, Copy, Debug, PartialEq, Eq, PartialOrd, Ord, Structural)]
pub enum Metadata {
    Backend,
    Inode,
    Chunk,
}

/// Two stored chunks come in one order only.
pub proof fn stored_chunks_have_one_order(a: Seq<u8>, b: Seq<u8>)
    requires
        a.len() >= 8,
        b.len() >= 8,
    ensures
        !(bytes_before(a, b, 8) && bytes_before(b, a, 8)),
        bytes_before(a, b, 8) ==> a.take(8) != b.take(8),
{
    if bytes_before(a, b, 8) {
        let i = choose|i: int|
            {
                &&& 0 <= i < 8
                &&& #[trigger] a[i] < b[i]
                &&& a.take(i) == b.take(i)
            };
        assert(a.take(8)[i] == a[i] && b.take(8)[i] == b[i]);
        if bytes_before(b, a, 8) {
            let j = choose|j: int|
                {
                    &&& 0 <= j < 8
                    &&& #[trigger] b[j] < a[j]
                    &&& b.take(j) == a.take(j)
                };
            if i < j {
                assert(a.take(j)[i] == a[i] && b.take(j)[i] == b[i]);
            } else if j < i {
                assert(a.take(i)[j] == a[j] && b.take(i)[j] == b[j]);
            }
        }
    }
}

/// The order of two stored chunks is decided by the first byte in which they differ: the one with
/// the lower byte there comes first.
pub proof fn the_first_different_byte_decides(a: Seq<u8>, b: Seq<u8>, i: int)
    requires
        a.len() >= 8,
        b.len() >= 8,
        0 <= i < 8,
        a.take(i) == b.take(i),
        a[i] != b[i],
    ensures
        bytes_before(a, b, 8) <==> a[i] < b[i],
        bytes_before(b, a, 8) <==> b[i] < a[i],
{
    if a[i] < b[i] {
        assert(bytes_before(a, b, 8));
        stored_chunks_have_one_order(a, b);
    } else {
        assert(bytes_before(b, a, 8));
        stored_chunks_have_one_order(b, a);
    }
}

} // verus!
