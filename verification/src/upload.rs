//! What has to be uploaded before a state can be committed.

use crate::file_tree::{BlobLocator, Extent, FileInode};
use crate::lease::{lease_end, seconds_since_epoch, Lease, LeaseEntry, LEASE_DURATION};
use crate::prelude::InodePath;
use crate::state::{change_views, ChangeView, State, StateChange};
use crate::text::{
    path_before, path_before_is_irreflexive, path_before_is_total, path_before_is_transitive,
    path_order, Order,
};
use vstd::prelude::*;

verus! {

/// A run of bytes of a local file that becomes a blob.
#[derive(Clone, Copy, Debug, PartialEq, Eq, Structural)]
pub struct UploadBlob {
    pub locator: BlobLocator,
    pub source_file: u128,
    pub offset: u64,
    pub length: u64,
}

impl UploadBlob {
    pub fn new(locator: BlobLocator, source_file: u128, offset: u64, length: u64) -> (blob: Self)
        ensures
            blob == (UploadBlob { locator, source_file, offset, length }),
    {
        UploadBlob { locator, source_file, offset, length }
    }
}

/// The uploads that a commit needs, and the lease that covers them.
pub struct UploadPlan {
    pub lease: Lease,
    pub actions: Vec<UploadBlob>,
}

/// The total length of the first `n` extents.
pub open spec fn length_of_first(extents: Seq<Extent>, n: int) -> int
    decreases n,
{
    if n <= 0 {
        0
    } else {
        length_of_first(extents, n - 1) + extents[n - 1].length
    }
}

/// The blobs of a file: its extents, cut out of the source file one after the other.
pub open spec fn blobs_of(source_file: u128, extents: Seq<Extent>) -> Seq<UploadBlob> {
    Seq::new(
        extents.len(),
        |i: int|
            UploadBlob {
                locator: extents[i].locator,
                source_file,
                offset: length_of_first(extents, i) as u64,
                length: extents[i].length,
            },
    )
}

/// The files that a sequence of changes leaves to be uploaded, by path, with their blobs. A file
/// that is removed again needs no upload.
pub open spec fn pending_uploads(changes: Seq<ChangeView>) -> Map<Seq<Seq<char>>, Seq<UploadBlob>>
    decreases changes.len(),
{
    if changes.len() == 0 {
        Map::empty()
    } else {
        let before = pending_uploads(changes.drop_last());
        match changes.last() {
            ChangeView::UploadFile { source_file, path, file_inode } => before.insert(
                path,
                blobs_of(source_file, file_inode.extents),
            ),
            ChangeView::RemoveFile(path) => before.remove(path),
            _ => before,
        }
    }
}

/// The offsets into every uploaded file can be written down.
pub open spec fn offsets_fit(changes: Seq<ChangeView>) -> bool {
    forall|i: int|
        #![trigger changes[i]]
        0 <= i < changes.len() && changes[i] is UploadFile ==> length_of_first(
            changes[i]->file_inode.extents,
            changes[i]->file_inode.extents.len() as int,
        ) <= u64::MAX
}

/// The paths ascend strictly.
pub open spec fn paths_ascend(order: Seq<Seq<Seq<char>>>) -> bool {
    forall|i: int, j: int|
        0 <= i < j < order.len() ==> path_before(#[trigger] order[i], #[trigger] order[j])
}

/// The blobs of several files, file after file in the given order.
pub open spec fn blobs_in_order(
    order: Seq<Seq<Seq<char>>>,
    uploads: Map<Seq<Seq<char>>, Seq<UploadBlob>>,
) -> Seq<UploadBlob>
    decreases order.len(),
{
    if order.len() == 0 {
        Seq::empty()
    } else {
        blobs_in_order(order.drop_last(), uploads) + uploads[order.last()]
    }
}

/// The actions are the blobs of all pending uploads, file after file in ascending order of the
/// paths.
pub open spec fn uploads_all(
    actions: Seq<UploadBlob>,
    uploads: Map<Seq<Seq<char>>, Seq<UploadBlob>>,
) -> bool {
    exists|order: Seq<Seq<Seq<char>>>|
        {
            &&& #[trigger] paths_ascend(order)
            &&& order.to_set() == uploads.dom()
            &&& actions == blobs_in_order(order, uploads)
        }
}

/// The lease entries of a sequence of blobs.
pub open spec fn lease_entries(actions: Seq<UploadBlob>) -> Seq<LeaseEntry> {
    actions.map_values(|b: UploadBlob| LeaseEntry { locator: b.locator, size: b.length })
}

proof fn lemma_length_grows(extents: Seq<Extent>, n: int, m: int)
    requires
        0 <= n <= m,
    ensures
        0 <= length_of_first(extents, n) <= length_of_first(extents, m),
    decreases m,
{
    if m > 0 {
        if n < m {
            lemma_length_grows(extents, n, m - 1);
        } else {
            lemma_length_grows(extents, n - 1, m - 1);
        }
    }
}

/// Cuts the extents of a file out of its source, one after the other.
fn cut(source_file: u128, inode: &FileInode) -> (blobs: Vec<UploadBlob>)
    requires
        length_of_first(inode.extents@, inode.extents@.len() as int) <= u64::MAX,
    ensures
        blobs@ == blobs_of(source_file, inode.extents@),
{
    let mut blobs: Vec<UploadBlob> = Vec::new();
    let mut offset: u64 = 0;
    let mut i: usize = 0;
    while i < inode.extents.len()
        invariant
            length_of_first(inode.extents@, inode.extents@.len() as int) <= u64::MAX,
            i <= inode.extents.len(),
            offset == length_of_first(inode.extents@, i as int),
            blobs@ == blobs_of(source_file, inode.extents@).take(i as int),
        decreases inode.extents.len() - i,
    {
        let extent: Extent = inode.extents[i];
        proof {
            lemma_length_grows(inode.extents@, i + 1, inode.extents@.len() as int);
            assert(blobs_of(source_file, inode.extents@).take(i + 1) =~= blobs_of(
                source_file,
                inode.extents@,
            ).take(i as int).push(blobs_of(source_file, inode.extents@)[i as int]));
        }
        blobs.push(UploadBlob::new(extent.locator, source_file, offset, extent.length));
        offset = offset + extent.length;
        i += 1;
    }
    proof {
        assert(blobs_of(source_file, inode.extents@).take(i as int) =~= blobs_of(
            source_file,
            inode.extents@,
        ));
    }
    blobs
}

/// The pending uploads, in ascending order of their paths.
struct Pending {
    items: Vec<(InodePath, Vec<UploadBlob>)>,
}

/// The paths of the items ascend.
spec fn items_ascend(items: Seq<(InodePath, Vec<UploadBlob>)>) -> bool {
    forall|i: int, j: int|
        0 <= i < j < items.len() ==> path_before(#[trigger] items[i].0@, #[trigger] items[j].0@)
}

/// The items are the pairs of the map.
spec fn items_of(
    items: Seq<(InodePath, Vec<UploadBlob>)>,
    uploads: Map<Seq<Seq<char>>, Seq<UploadBlob>>,
) -> bool {
    &&& items_ascend(items)
    &&& forall|i: int|
        0 <= i < items.len() ==> uploads.contains_key(#[trigger] items[i].0@)
            && uploads[items[i].0@] == items[i].1@
    &&& forall|path: Seq<Seq<char>>| #[trigger]
        uploads.contains_key(path) ==> exists|i: int|
            0 <= i < items.len() && #[trigger] items[i].0@ == path
}

impl Pending {
    /// The place of a path: where it is, or where it has to be inserted.
    fn position(&self, path: &InodePath) -> (place: (bool, usize))
        requires
            items_ascend(self.items@),
        ensures
            place.1 <= self.items.len(),
            place.0 ==> place.1 < self.items.len() && self.items[place.1 as int].0@ == path@,
            forall|i: int| 0 <= i < place.1 ==> path_before(#[trigger] self.items[i].0@, path@),
            forall|i: int|
                place.1 <= i < self.items.len() && !(place.0 && i == place.1) ==> path_before(
                    path@,
                    #[trigger] self.items[i].0@,
                ),
    {
        let mut i: usize = 0;
        while i < self.items.len()
            invariant
                items_ascend(self.items@),
                i <= self.items.len(),
                forall|j: int| 0 <= j < i ==> path_before(#[trigger] self.items[j].0@, path@),
            decreases self.items.len() - i,
        {
            match path_order(self.items[i].0.as_slice(), path.as_slice()) {
                Order::Equal => {
                    return (true, i);
                },
                Order::Greater => {
                    proof {
                        path_before_is_total(self.items[i as int].0@, path@);
                        assert forall|j: int| i <= j < self.items.len() implies path_before(
                            path@,
                            #[trigger] self.items[j].0@,
                        ) by {
                            if j > i {
                                path_before_is_transitive(
                                    path@,
                                    self.items[i as int].0@,
                                    self.items[j].0@,
                                );
                            }
                        }
                    }
                    return (false, i);
                },
                Order::Less => {},
            }
            i += 1;
        }
        (false, i)
    }

    /// Makes `blobs` the pending upload at a path.
    fn set(
        &mut self,
        path: &InodePath,
        blobs: Vec<UploadBlob>,
        Ghost(uploads): Ghost<Map<Seq<Seq<char>>, Seq<UploadBlob>>>,
    )
        requires
            items_of(old(self).items@, uploads),
        ensures
            items_of(final(self).items@, uploads.insert(path@, blobs@)),
    {
        let (found, at) = self.position(path);
        let ghost before = self.items@;
        let copy = path.clone();
        if found {
            self.items.remove(at);
        }
        let ghost rest = self.items@;
        self.items.insert(at, (copy, blobs));
        proof {
            let after = self.items@;
            let skipped = if found { 1int } else { 0int };
            assert forall|i: int| 0 <= i < after.len() && i != at implies #[trigger] after[i]
                == before[if i < at {
                i
            } else {
                i - 1 + skipped
            }] by {}
            assert(after[at as int].0@ == path@);
            assert(items_ascend(after)) by {
                assert forall|i: int, j: int| 0 <= i < j < after.len() implies path_before(
                    #[trigger] after[i].0@,
                    #[trigger] after[j].0@,
                ) by {
                    let x = if i < at { i } else { i - 1 + skipped };
                    let y = if j < at { j } else { j - 1 + skipped };
                    if i != at && j != at {
                        assert(path_before(before[x].0@, before[y].0@));
                    } else if i == at {
                        assert(path_before(path@, before[y].0@));
                    } else {
                        assert(path_before(before[x].0@, path@));
                    }
                }
            }
            let want = uploads.insert(path@, blobs@);
            assert forall|i: int| 0 <= i < after.len() implies want.contains_key(
                #[trigger] after[i].0@,
            ) && want[after[i].0@] == after[i].1@ by {
                if i != at {
                    let x = if i < at { i } else { i - 1 + skipped };
                    assert(after[i] == before[x]);
                    path_before_is_irreflexive(path@);
                }
            }
            assert forall|p: Seq<Seq<char>>| #[trigger] want.contains_key(p) implies exists|i: int|
                0 <= i < after.len() && #[trigger] after[i].0@ == p by {
                if p == path@ {
                    assert(after[at as int].0@ == p);
                } else {
                    assert(uploads.contains_key(p));
                    let x = choose|x: int| 0 <= x < before.len() && #[trigger] before[x].0@ == p;
                    let i = if x < at { x } else { x + 1 - skipped };
                    assert(after[i].0@ == p);
                }
            }
        }
    }

    /// Drops the pending upload at a path, if there is one.
    fn unset(
        &mut self,
        path: &InodePath,
        Ghost(uploads): Ghost<Map<Seq<Seq<char>>, Seq<UploadBlob>>>,
    )
        requires
            items_of(old(self).items@, uploads),
        ensures
            items_of(final(self).items@, uploads.remove(path@)),
    {
        let (found, at) = self.position(path);
        let ghost before = self.items@;
        let ghost want = uploads.remove(path@);
        if found {
            self.items.remove(at);
            proof {
                let after = self.items@;
                assert forall|i: int| 0 <= i < after.len() implies #[trigger] after[i] == before[if i
                    < at {
                    i
                } else {
                    i + 1
                }] by {}
                assert(items_ascend(after));
                assert forall|i: int| 0 <= i < after.len() implies want.contains_key(
                    #[trigger] after[i].0@,
                ) && want[after[i].0@] == after[i].1@ by {
                    let x = if i < at { i } else { i + 1 };
                    assert(after[i] == before[x]);
                    path_before_is_irreflexive(path@);
                }
                assert forall|p: Seq<Seq<char>>| #[trigger]
                    want.contains_key(p) implies exists|i: int|
                    0 <= i < after.len() && #[trigger] after[i].0@ == p by {
                    assert(uploads.contains_key(p));
                    let x = choose|x: int| 0 <= x < before.len() && #[trigger] before[x].0@ == p;
                    let i = if x < at { x } else { x - 1 };
                    assert(after[i].0@ == p);
                }
            }
        } else {
            proof {
                assert forall|i: int| 0 <= i < before.len() implies before[i].0@ != path@ by {
                    path_before_is_irreflexive(path@);
                }
                assert(want =~= uploads) by {
                    if uploads.contains_key(path@) {
                        let x = choose|x: int|
                            0 <= x < before.len() && #[trigger] before[x].0@ == path@;
                        assert(before[x].0@ == path@);
                    }
                }
            }
        }
    }
}

/// Blobs that are taken from the same uploads in the same order are the same.
proof fn lemma_blobs_in_order(
    order: Seq<Seq<Seq<char>>>,
    uploads: Map<Seq<Seq<char>>, Seq<UploadBlob>>,
    n: int,
)
    requires
        0 <= n < order.len(),
    ensures
        blobs_in_order(order.take(n + 1), uploads) == blobs_in_order(order.take(n), uploads)
            + uploads[order[n]],
{
    assert(order.take(n + 1).drop_last() =~= order.take(n));
}

/// Whether the total length of the extents can be written down.
fn length_fits(extents: &Vec<Extent>) -> (fits: bool)
    ensures
        fits == (length_of_first(extents@, extents@.len() as int) <= u64::MAX),
{
    let mut length: u64 = 0;
    let mut i: usize = 0;
    while i < extents.len()
        invariant
            i <= extents.len(),
            length == length_of_first(extents@, i as int),
        decreases extents.len() - i,
    {
        proof {
            lemma_length_grows(extents@, i + 1, extents@.len() as int);
        }
        match length.checked_add(extents[i].length) {
            None => {
                return false;
            },
            Some(sum) => {
                length = sum;
            },
        }
        i += 1;
    }
    true
}

impl State {
    /// Whether the offsets into every uploaded file can be written down.
    pub fn upload_offsets_fit(&self) -> (fit: bool)
        ensures
            fit == offsets_fit(self@.changes),
    {
        let ghost changes = self@.changes;
        let mut i: usize = 0;
        while i < self.performed_changes.len()
            invariant
                changes == change_views(self.performed_changes@),
                i <= self.performed_changes.len(),
                forall|k: int|
                    #![trigger changes[k]]
                    0 <= k < i && changes[k] is UploadFile ==> length_of_first(
                        changes[k]->file_inode.extents,
                        changes[k]->file_inode.extents.len() as int,
                    ) <= u64::MAX,
            decreases self.performed_changes.len() - i,
        {
            proof {
                assert(changes[i as int] == self.performed_changes@[i as int]@);
            }
            if let StateChange::UploadFile { source_file: _, path: _, file_inode } =
                &self.performed_changes[i] {
                if !length_fits(&file_inode.extents) {
                    return false;
                }
            }
            i += 1;
        }
        true
    }

    /// The actions that bring the new blobs of this state to their backends, and a lease for
    /// them that is taken at `now`.
    pub fn upload_plan_at(&self, now: u64) -> (plan: UploadPlan)
        requires
            offsets_fit(self@.changes),
            now + LEASE_DURATION <= u64::MAX,
        ensures
            uploads_all(plan.actions@, pending_uploads(self@.changes)),
            plan.lease.blobs@ == lease_entries(plan.actions@),
            plan.lease.valid_until_unix == now + LEASE_DURATION,
    {
        let actions = self.upload_actions();
        let lease = Lease::new_with_blobs_at(covering(&actions), now);
        UploadPlan { lease, actions }
    }

    /// The actions that bring the new blobs of this state to their backends, and a lease for
    /// them that is taken now. There is none where no lease can be taken.
    pub fn upload_plan(&self) -> (plan: Option<UploadPlan>)
        requires
            offsets_fit(self@.changes),
        ensures
            plan matches Some(p) ==> {
                &&& uploads_all(p.actions@, pending_uploads(self@.changes))
                &&& p.lease.blobs@ == lease_entries(p.actions@)
                &&& p.lease.valid_until_unix >= LEASE_DURATION
            },
    {
        self.upload_plan_by(seconds_since_epoch())
    }

    /// The actions that bring the new blobs of this state to their backends, and a lease for
    /// them that is taken at what a clock shows. There is none where no lease can be taken.
    pub fn upload_plan_by(&self, clock: Option<u64>) -> (plan: Option<UploadPlan>)
        requires
            offsets_fit(self@.changes),
        ensures
            match lease_end(clock) {
                Some(end) => {
                    &&& plan matches Some(p)
                    &&& uploads_all(p.actions@, pending_uploads(self@.changes))
                    &&& p.lease.blobs@ == lease_entries(p.actions@)
                    &&& p.lease.valid_until_unix == end
                },
                None => plan is None,
            },
    {
        let actions = self.upload_actions();
        match Lease::new_with_blobs_by(covering(&actions), clock) {
            Some(lease) => Some(UploadPlan { lease, actions }),
            None => None,
        }
    }

    /// The blobs of all pending uploads.
    fn upload_actions(&self) -> (actions: Vec<UploadBlob>)
        requires
            offsets_fit(self@.changes),
        ensures
            uploads_all(actions@, pending_uploads(self@.changes)),
    {
        let mut pending = Pending { items: Vec::new() };
        let ghost changes = self@.changes;
        let mut i: usize = 0;
        proof {
            assert(changes.take(0) =~= Seq::<ChangeView>::empty());
        }
        while i < self.performed_changes.len()
            invariant
                changes == change_views(self.performed_changes@),
                offsets_fit(changes),
                i <= self.performed_changes.len(),
                items_of(pending.items@, pending_uploads(changes.take(i as int))),
            decreases self.performed_changes.len() - i,
        {
            let ghost uploads = pending_uploads(changes.take(i as int));
            proof {
                assert(changes.take(i + 1).drop_last() =~= changes.take(i as int));
                assert(changes.take(i + 1).last() == changes[i as int]);
                assert(changes[i as int] == self.performed_changes@[i as int]@);
            }
            match &self.performed_changes[i] {
                StateChange::UploadFile { source_file, path, file_inode } => {
                    let new_blobs = cut(*source_file, file_inode);
                    pending.set(path, new_blobs, Ghost(uploads));
                },
                StateChange::RemoveFile(path) => {
                    pending.unset(path, Ghost(uploads));
                },
                _ => {},
            }
            i += 1;
        }
        proof {
            assert(changes.take(i as int) =~= changes);
        }
        let ghost uploads = pending_uploads(changes);
        let ghost order = pending.items@.map_values(|item: (InodePath, Vec<UploadBlob>)| item.0@);
        let mut actions: Vec<UploadBlob> = Vec::new();
        let mut k: usize = 0;
        proof {
            assert(order.take(0) =~= Seq::<Seq<Seq<char>>>::empty());
        }
        while k < pending.items.len()
            invariant
                items_of(pending.items@, uploads),
                order == pending.items@.map_values(|item: (InodePath, Vec<UploadBlob>)| item.0@),
                k <= pending.items.len(),
                actions@ == blobs_in_order(order.take(k as int), uploads),
            decreases pending.items.len() - k,
        {
            let blobs = &pending.items[k].1;
            let ghost done = actions@;
            let mut j: usize = 0;
            while j < blobs.len()
                invariant
                    j <= blobs.len(),
                    actions@ == done + blobs@.take(j as int),
                decreases blobs.len() - j,
            {
                proof {
                    assert(blobs@.take(j + 1) =~= blobs@.take(j as int).push(blobs@[j as int]));
                }
                actions.push(blobs[j]);
                j += 1;
            }
            proof {
                assert(blobs@.take(j as int) =~= blobs@);
                lemma_blobs_in_order(order, uploads, k as int);
                assert(order[k as int] == pending.items@[k as int].0@);
            }
            k += 1;
        }
        proof {
            assert(order.take(k as int) =~= order);
            assert(order.to_set() =~= uploads.dom()) by {
                assert forall|p: Seq<Seq<char>>|
                    order.to_set().contains(p) == uploads.dom().contains(p) by {
                    if uploads.contains_key(p) {
                        let x = choose|x: int|
                            0 <= x < pending.items@.len() && #[trigger] pending.items@[x].0@ == p;
                        assert(order[x] == p);
                    }
                }
            }
            assert(paths_ascend(order));
        }
        actions
    }
}

/// The lease entries for a list of blobs.
fn covering(actions: &Vec<UploadBlob>) -> (entries: Vec<LeaseEntry>)
    ensures
        entries@ == lease_entries(actions@),
{
    let mut entries: Vec<LeaseEntry> = Vec::new();
    let mut i: usize = 0;
    while i < actions.len()
        invariant
            i <= actions.len(),
            entries@ == lease_entries(actions@).take(i as int),
        decreases actions.len() - i,
    {
        proof {
            assert(lease_entries(actions@).take(i + 1) =~= lease_entries(actions@).take(
                i as int,
            ).push(lease_entries(actions@)[i as int]));
        }
        entries.push(LeaseEntry::new(actions[i].locator, actions[i].length));
        i += 1;
    }
    proof {
        assert(lease_entries(actions@).take(i as int) =~= lease_entries(actions@));
    }
    entries
}

/// A change uploads a file at a path.
pub open spec fn uploads_at(change: ChangeView, path: Seq<Seq<char>>) -> bool {
    change matches ChangeView::UploadFile { source_file: _, path: p, file_inode: _ } && p == path
}

/// An upload stays pending, with the blobs of the file that was uploaded, until its file is removed
/// or another one is uploaded at its path. No other change touches it.
pub proof fn an_upload_stays_pending(changes: Seq<ChangeView>, i: int)
    requires
        0 <= i < changes.len(),
        changes[i] is UploadFile,
        forall|j: int|
            #![trigger changes[j]]
            i < j < changes.len() ==> changes[j] != ChangeView::RemoveFile(changes[i]->path)
                && !uploads_at(changes[j], changes[i]->path),
    ensures
        pending_uploads(changes).contains_key(changes[i]->path),
        pending_uploads(changes)[changes[i]->path] == blobs_of(
            changes[i]->source_file,
            changes[i]->file_inode.extents,
        ),
    decreases changes.len(),
{
    let most = changes.drop_last();
    let path = changes[i]->path;
    if i < changes.len() - 1 {
        assert(most[i] == changes[i]);
        assert forall|j: int|
            #![trigger most[j]]
            i < j < most.len() implies most[j] != ChangeView::RemoveFile(path) && !uploads_at(
            most[j],
            path,
        ) by {
            assert(most[j] == changes[j]);
        }
        an_upload_stays_pending(most, i);
        assert(changes[changes.len() - 1] == changes.last());
        assert(!uploads_at(changes.last(), path));
    }
}

/// An upload is pending only where its file was uploaded and neither removed nor replaced since,
/// and its blobs are those of that file.
pub proof fn what_is_pending_was_uploaded(
    changes: Seq<ChangeView>,
    path: Seq<Seq<char>>,
) -> (at: int)
    requires
        pending_uploads(changes).contains_key(path),
    ensures
        0 <= at < changes.len(),
        uploads_at(changes[at], path),
        pending_uploads(changes)[path] == blobs_of(
            changes[at]->source_file,
            changes[at]->file_inode.extents,
        ),
        forall|j: int|
            #![trigger changes[j]]
            at < j < changes.len() ==> changes[j] != ChangeView::RemoveFile(path) && !uploads_at(
                changes[j],
                path,
            ),
    decreases changes.len(),
{
    let most = changes.drop_last();
    let last = changes.last();
    if uploads_at(last, path) {
        changes.len() - 1
    } else {
        let at = what_is_pending_was_uploaded(most, path);
        assert(most[at] == changes[at]);
        assert forall|j: int|
            #![trigger changes[j]]
            at < j < changes.len() implies changes[j] != ChangeView::RemoveFile(path)
            && !uploads_at(changes[j], path) by {
            if j < most.len() {
                assert(most[j] == changes[j]);
            }
        }
        at
    }
}

/// The total length of extents.
spec fn all_lengths(extents: Seq<Extent>) -> int {
    extents.fold_left(0int, |sum: int, e: Extent| sum + e.length)
}

proof fn lemma_length_is_a_sum(extents: Seq<Extent>, n: int)
    requires
        0 <= n <= extents.len(),
    ensures
        length_of_first(extents, n) == all_lengths(extents.take(n)),
    decreases n,
{
    if n > 0 {
        lemma_length_is_a_sum(extents, n - 1);
        assert(extents.take(n).drop_last() =~= extents.take(n - 1));
    }
}

/// The blobs of a file are its extents, in their order, cut out of the source file from its start
/// on and one right behind the other.
pub proof fn blobs_lie_one_behind_the_other(source_file: u128, extents: Seq<Extent>)
    requires
        extents.fold_left(0int, |sum: int, e: Extent| sum + e.length) <= u64::MAX,
    ensures
        blobs_of(source_file, extents).len() == extents.len(),
        forall|i: int|
            0 <= i < extents.len() ==> {
                let blob = #[trigger] blobs_of(source_file, extents)[i];
                &&& blob.locator == extents[i].locator
                &&& blob.length == extents[i].length
                &&& blob.source_file == source_file
                &&& blob.offset == extents.take(i).fold_left(
                    0int,
                    |sum: int, e: Extent| sum + e.length,
                )
            },
{
    lemma_length_is_a_sum(extents, extents.len() as int);
    assert(extents.take(extents.len() as int) =~= extents);
    assert forall|i: int| 0 <= i < extents.len() implies {
        let blob = #[trigger] blobs_of(source_file, extents)[i];
        &&& blob.locator == extents[i].locator
        &&& blob.length == extents[i].length
        &&& blob.source_file == source_file
        &&& blob.offset == extents.take(i).fold_left(0int, |sum: int, e: Extent| sum + e.length)
    } by {
        lemma_length_is_a_sum(extents, i);
        lemma_length_grows(extents, i, extents.len() as int);
    }
}

/// The offsets into every uploaded file can be written down exactly where no uploaded file is
/// longer than the greatest offset.
pub proof fn offsets_fit_where_files_are_short(changes: Seq<ChangeView>)
    ensures
        offsets_fit(changes) <==> forall|i: int|
            #![trigger changes[i]]
            0 <= i < changes.len() && changes[i] is UploadFile
                ==> changes[i]->file_inode.extents.fold_left(
                0int,
                |sum: int, e: Extent| sum + e.length,
            ) <= u64::MAX,
{
    assert forall|i: int|
        #![trigger changes[i]]
        0 <= i < changes.len() && changes[i] is UploadFile implies length_of_first(
        changes[i]->file_inode.extents,
        changes[i]->file_inode.extents.len() as int,
    ) == changes[i]->file_inode.extents.fold_left(0int, |sum: int, e: Extent| sum + e.length) by {
        let extents = changes[i]->file_inode.extents;
        lemma_length_is_a_sum(extents, extents.len() as int);
        assert(extents.take(extents.len() as int) =~= extents);
    }
}

/// Some pending upload has a blob at a place among the actions.
pub open spec fn has_blob_at(
    uploads: Map<Seq<Seq<char>>, Seq<UploadBlob>>,
    starts: Map<Seq<Seq<char>>, int>,
    k: int,
) -> bool {
    exists|path: Seq<Seq<char>>| #[trigger]
        uploads.contains_key(path) && starts[path] <= k < starts[path] + uploads[path].len()
}

/// The actions are laid out file by file: the blobs of every pending upload stand together from its
/// start on, those of one path before those of the paths behind it, and nothing stands between.
pub open spec fn laid_out(
    actions: Seq<UploadBlob>,
    uploads: Map<Seq<Seq<char>>, Seq<UploadBlob>>,
    starts: Map<Seq<Seq<char>>, int>,
) -> bool {
    &&& forall|path: Seq<Seq<char>>| #[trigger]
        uploads.contains_key(path) ==> {
            &&& 0 <= starts[path] <= starts[path] + uploads[path].len() <= actions.len()
            &&& actions.subrange(starts[path], starts[path] + uploads[path].len()) == uploads[path]
        }
    &&& forall|a: Seq<Seq<char>>, b: Seq<Seq<char>>| #[trigger]
        uploads.contains_key(a) && #[trigger] uploads.contains_key(b) && path_before(a, b)
            ==> starts[a] + uploads[a].len() <= starts[b]
    &&& forall|k: int| 0 <= k < actions.len() ==> #[trigger] has_blob_at(uploads, starts, k)
}

/// Where the blobs of the file at a place of the order start.
spec fn start_of(
    order: Seq<Seq<Seq<char>>>,
    uploads: Map<Seq<Seq<char>>, Seq<UploadBlob>>,
    n: int,
) -> int {
    blobs_in_order(order.take(n), uploads).len() as int
}

proof fn lemma_blobs_go_on(
    order: Seq<Seq<Seq<char>>>,
    uploads: Map<Seq<Seq<char>>, Seq<UploadBlob>>,
    m: int,
    n: int,
)
    requires
        0 <= m <= n <= order.len(),
    ensures
        start_of(order, uploads, m) <= start_of(order, uploads, n),
        blobs_in_order(order.take(n), uploads).take(start_of(order, uploads, m))
            == blobs_in_order(order.take(m), uploads),
    decreases n,
{
    let all = blobs_in_order(order.take(n), uploads);
    if m == n {
        assert(all.take(all.len() as int) =~= all);
    } else {
        lemma_blobs_go_on(order, uploads, m, n - 1);
        lemma_blobs_in_order(order, uploads, n - 1);
        let before = blobs_in_order(order.take(n - 1), uploads);
        let at = start_of(order, uploads, m);
        assert(all.take(at) =~= before.take(at));
    }
}

proof fn lemma_some_file_holds(
    order: Seq<Seq<Seq<char>>>,
    uploads: Map<Seq<Seq<char>>, Seq<UploadBlob>>,
    n: int,
    k: int,
) -> (at: int)
    requires
        0 <= n <= order.len(),
        0 <= k < start_of(order, uploads, n),
    ensures
        0 <= at < n,
        start_of(order, uploads, at) <= k < start_of(order, uploads, at + 1),
    decreases n,
{
    if n == 0 {
        assert(order.take(0) =~= Seq::<Seq<Seq<char>>>::empty());
        0
    } else if k < start_of(order, uploads, n - 1) {
        lemma_some_file_holds(order, uploads, n - 1, k)
    } else {
        n - 1
    }
}

/// A plan uploads all the blobs of all pending uploads and nothing else, each of them once: they
/// are laid out file by file, in ascending order of the paths.
pub proof fn a_plan_uploads_what_is_pending(
    actions: Seq<UploadBlob>,
    uploads: Map<Seq<Seq<char>>, Seq<UploadBlob>>,
)
    requires
        uploads_all(actions, uploads),
    ensures
        exists|starts: Map<Seq<Seq<char>>, int>| #[trigger] laid_out(actions, uploads, starts),
{
    let order = choose|order: Seq<Seq<Seq<char>>>|
        {
            &&& #[trigger] paths_ascend(order)
            &&& order.to_set() == uploads.dom()
            &&& actions == blobs_in_order(order, uploads)
        };
    let starts = Map::<Seq<Seq<char>>, int>::new(
        |path: Seq<Seq<char>>| uploads.contains_key(path),
        |path: Seq<Seq<char>>| start_of(order, uploads, order.index_of(path)),
    );
    let all = order.len() as int;
    assert(order.take(all) =~= order);
    assert forall|path: Seq<Seq<char>>| #[trigger] uploads.contains_key(path) implies {
        let n = order.index_of(path);
        &&& 0 <= n < all
        &&& order[n] == path
        &&& starts[path] == start_of(order, uploads, n)
        &&& starts[path] + uploads[path].len() == start_of(order, uploads, n + 1)
        &&& 0 <= starts[path] <= starts[path] + uploads[path].len() <= actions.len()
        &&& actions.subrange(starts[path], starts[path] + uploads[path].len()) == uploads[path]
    } by {
        assert(order.to_set().contains(path));
        let n = order.index_of(path);
        lemma_blobs_in_order(order, uploads, n);
        lemma_blobs_go_on(order, uploads, n + 1, all);
        let there = blobs_in_order(order.take(n + 1), uploads);
        assert(actions.subrange(starts[path], starts[path] + uploads[path].len())
            =~= there.subrange(starts[path], starts[path] + uploads[path].len()));
        assert(there.subrange(starts[path], starts[path] + uploads[path].len())
            =~= uploads[path]);
    }
    assert forall|a: Seq<Seq<char>>, b: Seq<Seq<char>>| #[trigger]
        uploads.contains_key(a) && #[trigger] uploads.contains_key(b) && path_before(
            a,
            b,
        ) implies starts[a] + uploads[a].len() <= starts[b] by {
        let n = order.index_of(a);
        let m = order.index_of(b);
        path_before_is_irreflexive(a);
        if m < n {
            assert(path_before(order[m], order[n]));
            path_before_is_transitive(a, b, a);
        }
        lemma_blobs_go_on(order, uploads, n + 1, m);
    }
    assert forall|k: int| 0 <= k < actions.len() implies #[trigger] has_blob_at(
        uploads,
        starts,
        k,
    ) by {
        let n = lemma_some_file_holds(order, uploads, all, k);
        let path = order[n];
        assert(order.to_set().contains(path));
        assert(uploads.contains_key(path));
        let m = order.index_of(path);
        path_before_is_irreflexive(path);
        if m < n {
            assert(path_before(order[m], order[n]));
        } else if n < m {
            assert(path_before(order[n], order[m]));
        }
    }
    assert(laid_out(actions, uploads, starts));
}

/// A lease covers every blob that is uploaded, in the same order and with its length.
pub proof fn a_lease_covers_every_blob(actions: Seq<UploadBlob>)
    ensures
        lease_entries(actions).len() == actions.len(),
        forall|i: int|
            0 <= i < actions.len() ==> {
                &&& (#[trigger] lease_entries(actions)[i]).locator == actions[i].locator
                &&& lease_entries(actions)[i].size == actions[i].length
            },
{
}

/// A plan uploads every file that was uploaded and neither removed nor replaced since: all its
/// extents, in their order and together, each from where the extents before it end in the source
/// file.
pub proof fn every_upload_is_planned(
    actions: Seq<UploadBlob>,
    changes: Seq<ChangeView>,
    i: int,
) -> (start: int)
    requires
        uploads_all(actions, pending_uploads(changes)),
        offsets_fit(changes),
        0 <= i < changes.len(),
        changes[i] is UploadFile,
        forall|j: int|
            #![trigger changes[j]]
            i < j < changes.len() ==> changes[j] != ChangeView::RemoveFile(changes[i]->path)
                && !uploads_at(changes[j], changes[i]->path),
    ensures
        ({
            let extents = changes[i]->file_inode.extents;
            &&& 0 <= start <= start + extents.len() <= actions.len()
            &&& forall|k: int|
                #![trigger extents[k]]
                0 <= k < extents.len() ==> {
                    let blob = actions[start + k];
                    &&& blob.locator == extents[k].locator
                    &&& blob.length == extents[k].length
                    &&& blob.source_file == changes[i]->source_file
                    &&& blob.offset == extents.take(k).fold_left(
                        0int,
                        |sum: int, e: Extent| sum + e.length,
                    )
                }
        }),
{
    let uploads = pending_uploads(changes);
    let path = changes[i]->path;
    let extents = changes[i]->file_inode.extents;
    a_plan_uploads_what_is_pending(actions, uploads);
    let starts = choose|starts: Map<Seq<Seq<char>>, int>| #[trigger]
        laid_out(actions, uploads, starts);
    an_upload_stays_pending(changes, i);
    assert(uploads.contains_key(path));
    offsets_fit_where_files_are_short(changes);
    blobs_lie_one_behind_the_other(changes[i]->source_file, extents);
    let start = starts[path];
    let blobs = actions.subrange(start, start + extents.len());
    assert forall|k: int|
        #![trigger extents[k]]
        0 <= k < extents.len() implies {
        let blob = actions[start + k];
        &&& blob.locator == extents[k].locator
        &&& blob.length == extents[k].length
        &&& blob.source_file == changes[i]->source_file
        &&& blob.offset == extents.take(k).fold_left(0int, |sum: int, e: Extent| sum + e.length)
    } by {
        assert(blobs[k] == actions[start + k]);
        assert(blobs[k] == blobs_of(changes[i]->source_file, extents)[k]);
    }
    start
}

/// A plan uploads nothing but extents of files that were uploaded and neither removed nor replaced
/// since.
pub proof fn what_is_planned_was_uploaded(
    actions: Seq<UploadBlob>,
    changes: Seq<ChangeView>,
    n: int,
) -> (from: (int, int))
    requires
        uploads_all(actions, pending_uploads(changes)),
        offsets_fit(changes),
        0 <= n < actions.len(),
    ensures
        ({
            let (i, k) = from;
            let extents = changes[i]->file_inode.extents;
            &&& 0 <= i < changes.len()
            &&& changes[i] is UploadFile
            &&& forall|j: int|
                #![trigger changes[j]]
                i < j < changes.len() ==> changes[j] != ChangeView::RemoveFile(changes[i]->path)
                    && !uploads_at(changes[j], changes[i]->path)
            &&& 0 <= k < extents.len()
            &&& actions[n].locator == extents[k].locator
            &&& actions[n].length == extents[k].length
            &&& actions[n].source_file == changes[i]->source_file
            &&& actions[n].offset == extents.take(k).fold_left(
                0int,
                |sum: int, e: Extent| sum + e.length,
            )
        }),
{
    let uploads = pending_uploads(changes);
    a_plan_uploads_what_is_pending(actions, uploads);
    let starts = choose|starts: Map<Seq<Seq<char>>, int>| #[trigger]
        laid_out(actions, uploads, starts);
    assert(has_blob_at(uploads, starts, n));
    let path = choose|path: Seq<Seq<char>>| #[trigger]
        uploads.contains_key(path) && starts[path] <= n < starts[path] + uploads[path].len();
    let i = what_is_pending_was_uploaded(changes, path);
    let k = n - starts[path];
    let extents = changes[i]->file_inode.extents;
    offsets_fit_where_files_are_short(changes);
    assert(changes[i] is UploadFile);
    blobs_lie_one_behind_the_other(changes[i]->source_file, extents);
    let blobs = actions.subrange(starts[path], starts[path] + uploads[path].len());
    assert(blobs[k] == actions[n]);
    assert(blobs[k] == blobs_of(changes[i]->source_file, extents)[k]);
    (i, k)
}

} // verus!
