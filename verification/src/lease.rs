//! Leases: promises to the other users of a bootstrap that blobs are about to be used.

use crate::file_tree::BlobLocator;
use vstd::prelude::*;

verus! {

/// 6 hours
pub const LEASE_DURATION: u64 = 6 * 3600;

/// A blob that a lease covers.
#[derive(Clone, Copy, Debug, PartialEq, Eq, Structural)]
pub struct LeaseEntry {
    pub locator: BlobLocator,
    pub size: u64,
}

impl LeaseEntry {
    pub fn new(locator: BlobLocator, size: u64) -> (entry: Self)
        ensures
            entry == (LeaseEntry { locator, size }),
    {
        LeaseEntry { locator, size }
    }
}

/// A set of blobs that must not be cleaned up for some time.
#[derive(Debug)]
pub struct Lease {
    /// When the lease runs out, in seconds since the Unix epoch.
    pub valid_until_unix: u64,
    pub blobs: Vec<LeaseEntry>,
}

/// A lease, as mathematical data.
pub struct LeaseView {
    pub valid_until_unix: u64,
    pub blobs: Seq<LeaseEntry>,
}

impl View for Lease {
    type V = LeaseView;

    open spec fn view(&self) -> LeaseView {
        LeaseView { valid_until_unix: self.valid_until_unix, blobs: self.blobs@ }
    }
}

impl Clone for Lease {
    fn clone(&self) -> (copy: Self)
        ensures
            copy@ == self@,
    {
        let blobs = self.blobs.clone();
        proof {
            assert(blobs@ =~= self.blobs@);
        }
        Lease { valid_until_unix: self.valid_until_unix, blobs }
    }
}

/// The seconds since the Unix epoch: `std::time::SystemTime::elapsed` of `UNIX_EPOCH`, in whole
/// seconds. There are none while the clock stands before the epoch. What the clock shows is not
/// known, so nothing is claimed of the seconds.
#[verifier::external_body]
pub(crate) fn seconds_since_epoch() -> (now: Option<u64>)
{
    match std::time::UNIX_EPOCH.elapsed() {
        Ok(elapsed) => Some(elapsed.as_secs()),
        Err(_) => None,
    }
}

impl Lease {
    /// A lease on the given blobs that was taken at `now`.
    pub fn new_with_blobs_at(blobs: Vec<LeaseEntry>, now: u64) -> (lease: Self)
        requires
            now + LEASE_DURATION <= u64::MAX,
        ensures
            lease.blobs == blobs,
            lease.valid_until_unix == now + LEASE_DURATION,
    {
        Lease { valid_until_unix: now + LEASE_DURATION, blobs }
    }

    /// A lease on the given blobs that is taken now. There is none where the clock stands before
    /// the Unix epoch, or so late that the end of the lease cannot be written down.
    pub fn new_with_blobs(blobs: Vec<LeaseEntry>) -> (lease: Option<Self>)
        ensures
            lease matches Some(l) ==> l.blobs == blobs && l.valid_until_unix >= LEASE_DURATION,
    {
        Lease::new_with_blobs_by(blobs, seconds_since_epoch())
    }

    /// A lease on nothing that is taken now.
    pub fn new() -> (lease: Option<Self>)
        ensures
            lease matches Some(l) ==> l.blobs@.len() == 0 && l.valid_until_unix >= LEASE_DURATION,
    {
        Lease::new_with_blobs(Vec::new())
    }

    /// A lease on the given blobs that is taken at what a clock shows. There is none where the
    /// clock stands before the Unix epoch, or so late that the end of the lease cannot be written
    /// down.
    pub fn new_with_blobs_by(blobs: Vec<LeaseEntry>, clock: Option<u64>) -> (lease: Option<Self>)
        ensures
            match lease_end(clock) {
                Some(end) => lease matches Some(l) && l.blobs == blobs && l.valid_until_unix == end,
                None => lease is None,
            },
    {
        match clock {
            Some(now) if now <= u64::MAX - LEASE_DURATION => Some(
                Lease::new_with_blobs_at(blobs, now),
            ),
            _ => None,
        }
    }
}

/// When a lease runs out that is taken at what a clock shows: its seconds since the Unix epoch,
/// or nothing where it stands before the epoch.
pub open spec fn lease_end(clock: Option<u64>) -> Option<u64> {
    match clock {
        Some(now) if now + LEASE_DURATION <= u64::MAX => Some((now + LEASE_DURATION) as u64),
        _ => None,
    }
}

/// A lease lasts for six hours from what the clock shows. None can be taken exactly where the clock
/// shows nothing, or where that end cannot be written down.
pub proof fn a_lease_lasts_six_hours(clock: Option<u64>)
    ensures
        lease_end(clock) matches Some(end) ==> (clock matches Some(now) && end == now + 6 * 60
            * 60),
        lease_end(clock) is None <==> (clock matches Some(now) ==> now + 6 * 60 * 60 > u64::MAX),
{
}

/// A lease is seen with its end and with all its entries.
pub proof fn leases_are_seen_in_full(lease: Lease)
    ensures
        lease@.valid_until_unix == lease.valid_until_unix,
        lease@.blobs == lease.blobs@,
{
}

} // verus!
