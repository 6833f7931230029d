//! What can be done with any backend: finding states and leases among its blobs.

use crate::backend::{BackendError, BlobId, GetError, ListError};
use crate::backend::blob::BlobName;
use crate::prelude::BackendId;
use std::collections::BTreeMap;
use vstd::prelude::*;

verus! {

/// Why the latest state could not be read.
#[derive(Clone, Debug)]
pub enum GetLatestStateError {
    GetError(BackendError<GetError>),
    ListError(BackendError<ListError>),
    NoState,
}

impl GetLatestStateError {
    /// What is wrong, in words.
    pub fn message(&self) -> (text: String)
        ensures
            text@ == (match *self {
                GetLatestStateError::GetError(e) => BackendError::<GetError>::text_for(
                    e.backend_id,
                ),
                GetLatestStateError::ListError(e) => BackendError::<ListError>::text_for(
                    e.backend_id,
                ),
                GetLatestStateError::NoState => "No state revision found"@,
            }),
    {
        match self {
            GetLatestStateError::GetError(e) => e.message(),
            GetLatestStateError::ListError(e) => e.message(),
            GetLatestStateError::NoState => "No state revision found".to_owned(),
        }
    }
}

/// The names of a sequence of blobs.
pub open spec fn blob_names(blobs: Seq<BlobId>) -> Seq<BlobName> {
    blobs.map_values(|b: BlobId| b@)
}

/// The revisions of the states among the blobs, in the order of the blobs.
pub open spec fn revs_among(blobs: Seq<BlobName>) -> Seq<u64>
    decreases blobs.len(),
{
    if blobs.len() == 0 {
        Seq::empty()
    } else {
        let before = revs_among(blobs.drop_last());
        match blobs.last() {
            BlobName::Meta(rev) => before.push(rev),
            _ => before,
        }
    }
}

/// The ids of the leases among the blobs, in the order of the blobs.
pub open spec fn leases_among(blobs: Seq<BlobName>) -> Seq<u128>
    decreases blobs.len(),
{
    if blobs.len() == 0 {
        Seq::empty()
    } else {
        let before = leases_among(blobs.drop_last());
        match blobs.last() {
            BlobName::Lease(id) => before.push(id),
            _ => before,
        }
    }
}

/// The revisions of the states among the blobs.
pub fn state_revs(blobs: &Vec<BlobId>) -> (revs: Vec<u64>)
    ensures
        revs@ == revs_among(blob_names(blobs@)),
{
    let mut revs: Vec<u64> = Vec::new();
    let mut i: usize = 0;
    let ghost names = blob_names(blobs@);
    proof {
        assert(names.take(0) =~= Seq::<BlobName>::empty());
    }
    while i < blobs.len()
        invariant
            i <= blobs.len(),
            names == blob_names(blobs@),
            revs@ == revs_among(names.take(i as int)),
        decreases blobs.len() - i,
    {
        proof {
            assert(names.take(i + 1).drop_last() =~= names.take(i as int));
            assert(names.take(i + 1).last() == blobs@[i as int]@);
        }
        if let BlobId::Meta(rev) = &blobs[i] {
            revs.push(*rev);
        }
        i += 1;
    }
    proof {
        assert(names.take(i as int) =~= names);
    }
    revs
}

/// The ids of the leases among the blobs.
pub fn lease_ids(blobs: &Vec<BlobId>) -> (ids: Vec<u128>)
    ensures
        ids@ == leases_among(blob_names(blobs@)),
{
    let mut ids: Vec<u128> = Vec::new();
    let mut i: usize = 0;
    let ghost names = blob_names(blobs@);
    proof {
        assert(names.take(0) =~= Seq::<BlobName>::empty());
    }
    while i < blobs.len()
        invariant
            i <= blobs.len(),
            names == blob_names(blobs@),
            ids@ == leases_among(names.take(i as int)),
        decreases blobs.len() - i,
    {
        proof {
            assert(names.take(i + 1).drop_last() =~= names.take(i as int));
            assert(names.take(i + 1).last() == blobs@[i as int]@);
        }
        if let BlobId::Lease(id) = &blobs[i] {
            ids.push(*id);
        }
        i += 1;
    }
    proof {
        assert(names.take(i as int) =~= names);
    }
    ids
}

/// `rev` is the greatest revision of a state among the blobs.
pub open spec fn is_latest_rev(blobs: Seq<BlobName>, rev: u64) -> bool {
    &&& blobs.contains(BlobName::Meta(rev))
    &&& forall|other: u64| #[trigger] blobs.contains(BlobName::Meta(other)) ==> other <= rev
}

/// The revisions among the blobs are those that a blob is named after.
proof fn lemma_revs_among(blobs: Seq<BlobName>, rev: u64)
    ensures
        revs_among(blobs).contains(rev) == blobs.contains(BlobName::Meta(rev)),
    decreases blobs.len(),
{
    if blobs.len() > 0 {
        let before = blobs.drop_last();
        lemma_revs_among(before, rev);
        if before.contains(BlobName::Meta(rev)) {
            let k = choose|k: int| 0 <= k < before.len() && before[k] == BlobName::Meta(rev);
            assert(blobs[k] == BlobName::Meta(rev));
            let m = choose|m: int|
                0 <= m < revs_among(before).len() && revs_among(before)[m] == rev;
            assert(revs_among(blobs)[m] == rev);
        }
        if blobs.last() == BlobName::Meta(rev) {
            assert(blobs[blobs.len() - 1] == BlobName::Meta(rev));
            assert(revs_among(blobs)[revs_among(blobs).len() - 1] == rev);
        }
        if blobs.contains(BlobName::Meta(rev)) {
            let k = choose|k: int| 0 <= k < blobs.len() && blobs[k] == BlobName::Meta(rev);
            if k < before.len() {
                assert(before[k] == BlobName::Meta(rev));
            }
        }
        if revs_among(blobs).contains(rev) {
            let m = choose|m: int| 0 <= m < revs_among(blobs).len() && revs_among(blobs)[m] == rev;
            if m < revs_among(before).len() {
                assert(revs_among(before)[m] == rev);
            }
        }
    }
}

/// The name of the latest state among the listed blobs.
pub fn latest_state(listing: Result<Vec<BlobId>, BackendError<ListError>>) -> (latest: Result<
    BlobId,
    GetLatestStateError,
>)
    ensures
        match listing {
            Err(e) => latest == Err::<BlobId, GetLatestStateError>(
                GetLatestStateError::ListError(e),
            ),
            Ok(blobs) => match latest {
                Ok(blob) => blob@ matches BlobName::Meta(rev) && is_latest_rev(
                    blob_names(blobs@),
                    rev,
                ),
                Err(e) => e is NoState && forall|rev: u64|
                    !#[trigger] blob_names(blobs@).contains(BlobName::Meta(rev)),
            },
        },
{
    let blobs = match listing {
        Err(e) => {
            return Err(GetLatestStateError::ListError(e));
        },
        Ok(blobs) => blobs,
    };
    let revs = state_revs(&blobs);
    let ghost names = blob_names(blobs@);
    if revs.len() == 0 {
        proof {
            assert forall|rev: u64| !#[trigger] names.contains(BlobName::Meta(rev)) by {
                lemma_revs_among(names, rev);
            }
        }
        return Err(GetLatestStateError::NoState);
    }
    let mut latest: u64 = revs[0];
    let mut i: usize = 1;
    while i < revs.len()
        invariant
            1 <= i <= revs.len(),
            revs@.contains(latest),
            forall|k: int| 0 <= k < i ==> #[trigger] revs@[k] <= latest,
        decreases revs.len() - i,
    {
        if revs[i] > latest {
            latest = revs[i];
        }
        i += 1;
    }
    proof {
        lemma_revs_among(names, latest);
        assert forall|other: u64| #[trigger] names.contains(BlobName::Meta(other)) implies other
            <= latest by {
            lemma_revs_among(names, other);
            let k = choose|k: int| 0 <= k < revs@.len() && revs@[k] == other;
            assert(revs@[k] == other);
        }
    }
    Ok(BlobId::Meta(latest))
}

/// Once a state with a greater revision than all the others is among the blobs, it is the latest.
pub proof fn a_newer_state_becomes_the_latest(blobs: Seq<BlobName>, rev: u64)
    requires
        forall|other: u64| #[trigger] blobs.contains(BlobName::Meta(other)) ==> other < rev,
    ensures
        is_latest_rev(blobs.push(BlobName::Meta(rev)), rev),
{
    let after = blobs.push(BlobName::Meta(rev));
    assert(after[blobs.len() as int] == BlobName::Meta(rev));
    assert forall|other: u64| #[trigger] after.contains(BlobName::Meta(other)) implies other
        <= rev by {
        let k = choose|k: int| 0 <= k < after.len() && after[k] == BlobName::Meta(other);
        if k < blobs.len() {
            assert(blobs[k] == BlobName::Meta(other));
            assert(blobs.contains(BlobName::Meta(other)));
        }
    }
}

/// What came of reading a lease: its bytes, or why there are none.
pub type LeaseRead = Result<(u128, Vec<u8>), BackendError<GetError>>;

/// The place of the first read that failed for another reason than that the lease is gone.
pub open spec fn first_failure(reads: Seq<LeaseRead>) -> Option<int>
    decreases reads.len(),
{
    if reads.len() == 0 {
        None
    } else {
        match first_failure(reads.drop_last()) {
            Some(i) => Some(i),
            None => match reads.last() {
                Err(e) if e.kind is Other => Some(reads.len() - 1),
                _ => None,
            },
        }
    }
}

/// The leases that were read, by id. One that is gone is left out.
pub open spec fn leases_read(reads: Seq<LeaseRead>) -> Map<u128, Seq<u8>>
    decreases reads.len(),
{
    if reads.len() == 0 {
        Map::empty()
    } else {
        let before = leases_read(reads.drop_last());
        match reads.last() {
            Ok((id, bytes)) => before.insert(id, bytes@),
            Err(_) => before,
        }
    }
}

/// The bytes of every entry of a map.
pub open spec fn bytes_of(map: Map<u128, Vec<u8>>) -> Map<u128, Seq<u8>> {
    map.map_values(|bytes: Vec<u8>| bytes@)
}

proof fn lemma_first_failure_stays(reads: Seq<LeaseRead>, n: int)
    requires
        0 <= n <= reads.len(),
    ensures
        first_failure(reads.take(n)) is Some ==> first_failure(reads) == first_failure(
            reads.take(n),
        ),
        first_failure(reads.take(n)) matches Some(i) ==> 0 <= i < n,
    decreases reads.len(),
{
    if n == reads.len() {
        assert(reads.take(n) =~= reads);
        if n > 0 {
            assert(reads.drop_last().take(n - 1) =~= reads.drop_last());
            lemma_first_failure_stays(reads.drop_last(), n - 1);
        }
    } else {
        assert(reads.drop_last().take(n) =~= reads.take(n));
        lemma_first_failure_stays(reads.drop_last(), n);
    }
}

/// The leases that a backend gave out, by id. A lease that is gone by now is left out; any other
/// failure is passed on, the first one where there are several.
pub fn collect_leases(backend_id: BackendId, reads: Vec<LeaseRead>) -> (leases: Result<
    BTreeMap<u128, Vec<u8>>,
    BackendError<ListError>,
>)
    ensures
        match first_failure(reads@) {
            Some(i) => leases matches Err(e) && e.backend_id == backend_id && e.kind
                == ListError::Other(reads@[i]->Err_0.kind->Other_0),
            None => leases matches Ok(map) && bytes_of(map@) == leases_read(reads@),
        },
{
    let mut output: BTreeMap<u128, Vec<u8>> = BTreeMap::new();
    let ghost all = reads@;
    proof {
        assert(all.take(0) =~= Seq::<LeaseRead>::empty());
        assert(bytes_of(output@) =~= Map::<u128, Seq<u8>>::empty());
    }
    for read in it: reads
        invariant
            it.seq() == all,
            all == reads@,
            first_failure(all.take(it.index())) is None,
            bytes_of(output@) == leases_read(all.take(it.index())),
    {
        proof {
            assert(all.take(it.index() + 1).drop_last() =~= all.take(it.index()));
            assert(all.take(it.index() + 1).last() == read);
            lemma_first_failure_stays(all, it.index() + 1);
        }
        match read {
            Ok((id, buf)) => {
                let ghost before = bytes_of(output@);
                output.insert(id, buf);
                proof {
                    assert(bytes_of(output@) =~= before.insert(id, buf@));
                }
            },
            Err(err) => match err.kind {
                GetError::BlobNotFound => {},
                GetError::Other(error) => {
                    return Err(BackendError::new(backend_id, ListError::Other(error)));
                },
            },
        }
    }
    proof {
        assert(all.take(all.len() as int) =~= all);
    }
    Ok(output)
}

/// The revisions among the blobs are those of all states among them, in their order.
pub proof fn the_revisions_are_those_of_the_states(blobs: Seq<BlobName>)
    ensures
        revs_among(blobs) == blobs.filter(|blob: BlobName| blob is Meta).map_values(
            |blob: BlobName| blob->Meta_0,
        ),
    decreases blobs.len(),
{
    reveal(Seq::filter);
    let states = blobs.filter(|blob: BlobName| blob is Meta);
    if blobs.len() > 0 {
        the_revisions_are_those_of_the_states(blobs.drop_last());
    }
    assert(revs_among(blobs) =~= states.map_values(|blob: BlobName| blob->Meta_0));
}

/// The ids of leases among the blobs are those of all leases among them, in their order.
pub proof fn the_lease_ids_are_those_of_the_leases(blobs: Seq<BlobName>)
    ensures
        leases_among(blobs) == blobs.filter(|blob: BlobName| blob is Lease).map_values(
            |blob: BlobName| blob->Lease_0,
        ),
    decreases blobs.len(),
{
    reveal(Seq::filter);
    let leases = blobs.filter(|blob: BlobName| blob is Lease);
    if blobs.len() > 0 {
        the_lease_ids_are_those_of_the_leases(blobs.drop_last());
    }
    assert(leases_among(blobs) =~= leases.map_values(|blob: BlobName| blob->Lease_0));
}

/// The latest revision is that of a state among the blobs, and none of them has a greater one.
pub proof fn no_state_is_newer_than_the_latest(blobs: Seq<BlobName>, rev: u64)
    ensures
        is_latest_rev(blobs, rev) <==> blobs.contains(BlobName::Meta(rev)) && forall|i: int|
            0 <= i < blobs.len() ==> ((#[trigger] blobs[i]) matches BlobName::Meta(other) ==> other
                <= rev),
{
    if is_latest_rev(blobs, rev) {
        assert forall|i: int| 0 <= i < blobs.len() implies ((
        #[trigger] blobs[i]) matches BlobName::Meta(other) ==> other <= rev) by {
            if let BlobName::Meta(other) = blobs[i] {
                assert(blobs.contains(BlobName::Meta(other)));
            }
        }
    }
    if blobs.contains(BlobName::Meta(rev)) && forall|i: int|
        0 <= i < blobs.len() ==> ((#[trigger] blobs[i]) matches BlobName::Meta(other) ==> other
            <= rev) {
        assert forall|other: u64| #[trigger] blobs.contains(BlobName::Meta(other)) implies other
            <= rev by {
            let k = choose|k: int| 0 <= k < blobs.len() && blobs[k] == BlobName::Meta(other);
            assert(blobs[k] == BlobName::Meta(other));
        }
    }
}

/// The first read that failed is the first that failed for another reason than that the lease is
/// gone, and there is none exactly where no read failed so.
pub proof fn the_first_failure_comes_first(reads: Seq<LeaseRead>)
    ensures
        match first_failure(reads) {
            Some(i) => {
                &&& 0 <= i < reads.len()
                &&& reads[i] matches Err(e) && e.kind is Other
                &&& forall|j: int|
                    0 <= j < i ==> ((#[trigger] reads[j]) matches Err(e) ==> e.kind is BlobNotFound)
            },
            None => forall|j: int|
                0 <= j < reads.len() ==> ((#[trigger] reads[j]) matches Err(e)
                    ==> e.kind is BlobNotFound),
        },
    decreases reads.len(),
{
    if reads.len() > 0 {
        let before = reads.drop_last();
        the_first_failure_comes_first(before);
        assert(reads[reads.len() - 1] == reads.last());
        match first_failure(before) {
            Some(i) => {
                assert(reads[i] == before[i]);
                assert forall|j: int| 0 <= j < i implies ((
                #[trigger] reads[j]) matches Err(e) ==> e.kind is BlobNotFound) by {
                    assert(reads[j] == before[j]);
                }
            },
            None => {
                assert forall|j: int| 0 <= j < before.len() implies ((
                #[trigger] reads[j]) matches Err(e) ==> e.kind is BlobNotFound) by {
                    assert(reads[j] == before[j]);
                }
            },
        }
    }
}

/// Every lease that was read is kept with the bytes that were read for it, the last ones where it
/// was read more than once.
pub proof fn a_lease_is_kept_as_it_was_read(reads: Seq<LeaseRead>, i: int)
    requires
        0 <= i < reads.len(),
        reads[i] is Ok,
        forall|j: int|
            i < j < reads.len() ==> ((#[trigger] reads[j]) matches Ok((id, _)) ==> id
                != reads[i]->Ok_0.0),
    ensures
        leases_read(reads).contains_key(reads[i]->Ok_0.0),
        leases_read(reads)[reads[i]->Ok_0.0] == reads[i]->Ok_0.1@,
    decreases reads.len(),
{
    let before = reads.drop_last();
    assert(reads[reads.len() - 1] == reads.last());
    if i < before.len() {
        assert(before[i] == reads[i]);
        assert forall|j: int| i < j < before.len() implies ((
        #[trigger] before[j]) matches Ok((id, _)) ==> id != before[i]->Ok_0.0) by {
            assert(before[j] == reads[j]);
        }
        a_lease_is_kept_as_it_was_read(before, i);
    }
}

/// No lease is kept that was not read.
pub proof fn only_leases_that_were_read_are_kept(reads: Seq<LeaseRead>, id: u128)
    requires
        forall|j: int|
            0 <= j < reads.len() ==> ((#[trigger] reads[j]) matches Ok((other, _)) ==> other != id),
    ensures
        !leases_read(reads).contains_key(id),
    decreases reads.len(),
{
    if reads.len() > 0 {
        let before = reads.drop_last();
        assert(reads[reads.len() - 1] == reads.last());
        assert forall|j: int| 0 <= j < before.len() implies ((
        #[trigger] before[j]) matches Ok((other, _)) ==> other != id) by {
            assert(before[j] == reads[j]);
        }
        only_leases_that_were_read_are_kept(before, id);
    }
}

/// Blobs are named one by one, in their order.
pub proof fn every_blob_is_named(blobs: Seq<BlobId>)
    ensures
        blob_names(blobs).len() == blobs.len(),
        forall|i: int| 0 <= i < blobs.len() ==> #[trigger] blob_names(blobs)[i] == blobs[i]@,
{
}

/// What was read is kept byte by byte, under the same ids.
pub proof fn bytes_are_seen_in_full(map: Map<u128, Vec<u8>>)
    ensures
        bytes_of(map).dom() == map.dom(),
        forall|id: u128| #[trigger] map.contains_key(id) ==> bytes_of(map)[id] == map[id]@,
{
    assert(bytes_of(map).dom() =~= map.dom());
}

} // verus!
