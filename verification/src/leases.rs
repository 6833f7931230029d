//! The leases that are in force.

use crate::lease::{Lease, LeaseEntry, LeaseView};
use crate::maps::{lemma_increasing_u128, ordered_keys};
use std::collections::BTreeMap;
use vstd::prelude::*;

verus! {

/// The ids ascend strictly.
pub open spec fn ids_ascend(ids: Seq<u128>) -> bool {
    forall|i: int, j: int| 0 <= i < j < ids.len() ==> #[trigger] ids[i] < #[trigger] ids[j]
}

/// The leases of a map of leases.
pub open spec fn lease_views(leases: Map<u128, Lease>) -> Map<u128, LeaseView> {
    leases.map_values(|l: Lease| l@)
}

/// The entries of several leases, lease after lease in the given order.
pub open spec fn entries_in_order(
    order: Seq<u128>,
    leases: Map<u128, LeaseView>,
) -> Seq<LeaseEntry>
    decreases order.len(),
{
    if order.len() == 0 {
        Seq::empty()
    } else {
        entries_in_order(order.drop_last(), leases) + leases[order.last()].blobs
    }
}

/// The leases that are in force, by id.
#[derive(Debug)]
pub struct ActiveLeases {
    inner: BTreeMap<u128, Lease>,
}

impl View for ActiveLeases {
    type V = Map<u128, LeaseView>;

    closed spec fn view(&self) -> Map<u128, LeaseView> {
        lease_views(self.inner@)
    }
}

impl Default for ActiveLeases {
    /// No lease at all.
    fn default() -> (leases: Self)
        ensures
            leases@ == Map::<u128, LeaseView>::empty(),
    {
        let leases = ActiveLeases { inner: BTreeMap::new() };
        proof {
            assert(leases@ =~= Map::<u128, LeaseView>::empty());
        }
        leases
    }
}

/// What has to change for the leases in force to be the confirmed ones.
#[derive(Debug)]
pub struct LeaseRefresh {
    /// The leases that are no longer confirmed, in ascending order.
    pub to_drop: Vec<u128>,
    /// The leases that are confirmed and not in force, in ascending order.
    pub to_add: Vec<u128>,
}

impl LeaseRefresh {
    /// This is the way from the leases in force to the confirmed ones.
    pub open spec fn leads(self, active: Set<u128>, confirmed: Set<u128>) -> bool {
        &&& ids_ascend(self.to_drop@)
        &&& self.to_drop@.to_set() == active.difference(confirmed)
        &&& ids_ascend(self.to_add@)
        &&& self.to_add@.to_set() == confirmed.difference(active)
    }
}

/// The leases after a refresh: without the dropped ones, and with those that were fetched.
pub open spec fn refreshed(
    active: Map<u128, LeaseView>,
    dropped: Set<u128>,
    fetched: Map<u128, LeaseView>,
) -> Map<u128, LeaseView> {
    active.remove_keys(dropped).union_prefer_right(fetched)
}

/// The members of a list of ids, as the keys of a map.
fn as_keys(ids: &Vec<u128>) -> (set: BTreeMap<u128, ()>)
    ensures
        set@.dom() == ids@.to_set(),
{
    let mut set: BTreeMap<u128, ()> = BTreeMap::new();
    let mut i: usize = 0;
    proof {
        assert(ids@.take(0).to_set() =~= set@.dom());
    }
    while i < ids.len()
        invariant
            i <= ids.len(),
            set@.dom() == ids@.take(i as int).to_set(),
        decreases ids.len() - i,
    {
        let ghost before = set@.dom();
        let id: u128 = ids[i];
        set.insert(id, ());
        proof {
            assert(ids@.take(i + 1) =~= ids@.take(i as int).push(id));
            assert(before.insert(id) =~= ids@.take(i + 1).to_set()) by {
                assert forall|x: u128|
                    before.insert(id).contains(x) == ids@.take(i + 1).to_set().contains(x) by {
                    let all = ids@.take(i + 1);
                    if before.contains(x) {
                        let k = choose|k: int| 0 <= k < i && ids@.take(i as int)[k] == x;
                        assert(all[k] == x);
                    }
                    if x == id {
                        assert(all[i as int] == x);
                    }
                    if all.contains(x) {
                        let k = choose|k: int| 0 <= k < all.len() && all[k] == x;
                        if k < i {
                            assert(ids@.take(i as int)[k] == x);
                        }
                    }
                }
            }
            assert(set@.dom() =~= before.insert(id));
        }
        i += 1;
    }
    proof {
        assert(ids@.take(i as int) =~= ids@);
    }
    set
}

/// The keys of the first map that the second lacks, in ascending order.
fn missing<V, W>(first: &BTreeMap<u128, V>, second: &BTreeMap<u128, W>) -> (ids: Vec<u128>)
    ensures
        ids_ascend(ids@),
        ids@.to_set() == first@.dom().difference(second@.dom()),
{
    let keys = ordered_keys(first);
    proof {
        lemma_increasing_u128(keys@);
    }
    let mut ids: Vec<u128> = Vec::new();
    let mut i: usize = 0;
    while i < keys.len()
        invariant
            i <= keys.len(),
            ids_ascend(keys@),
            ids_ascend(ids@),
            forall|k: int| 0 <= k < ids.len() && i < keys.len() ==> #[trigger] ids[k] < keys[i as int],
            forall|x: u128|
                #![trigger ids@.contains(x)]
                ids@.contains(x) <==> !second@.contains_key(x) && exists|k: int|
                    0 <= k < i && #[trigger] keys@[k] == x,
        decreases keys.len() - i,
    {
        let id: u128 = keys[i];
        let ghost before = ids@;
        if !second.contains_key(&id) {
            ids.push(id);
        }
        proof {
            assert forall|x: u128|
                #![trigger ids@.contains(x)]
                ids@.contains(x) <==> !second@.contains_key(x) && exists|k: int|
                    0 <= k < i + 1 && #[trigger] keys@[k] == x by {
                if ids@.contains(x) {
                    let k = choose|k: int| 0 <= k < ids@.len() && ids@[k] == x;
                    if k < before.len() {
                        assert(before[k] == x);
                        assert(before.contains(x));
                    } else {
                        assert(keys@[i as int] == x);
                    }
                }
                if !second@.contains_key(x) && exists|k: int|
                    0 <= k < i + 1 && #[trigger] keys@[k] == x {
                    let k = choose|k: int| 0 <= k < i + 1 && #[trigger] keys@[k] == x;
                    if k < i {
                        assert(before.contains(x));
                        let m = choose|m: int| 0 <= m < before.len() && before[m] == x;
                        assert(ids@[m] == x);
                    } else {
                        assert(ids@[before.len() as int] == x);
                    }
                }
            }
        }
        i += 1;
    }
    proof {
        assert forall|x: u128|
            ids@.to_set().contains(x) == first@.dom().difference(second@.dom()).contains(x) by {
            assert(ids@.to_set().contains(x) == ids@.contains(x));
            assert(keys@.to_set().contains(x) == first@.dom().contains(x));
            if first@.dom().contains(x) {
                let k = choose|k: int| 0 <= k < keys@.len() && keys@[k] == x;
                assert(keys@[k] == x);
            }
        }
        assert(ids@.to_set() =~= first@.dom().difference(second@.dom()));
    }
    ids
}

impl ActiveLeases {
    /// Puts a lease in force.
    pub fn insert(&mut self, id: u128, lease: Lease)
        ensures
            final(self)@ == old(self)@.insert(id, lease@),
    {
        self.inner.insert(id, lease);
        proof {
            assert(self@ =~= old(self)@.insert(id, lease@));
        }
    }

    /// The entries of all leases, lease after lease in ascending order of the ids.
    pub fn all_entries(&self) -> (entries: Vec<LeaseEntry>)
        ensures
            exists|order: Seq<u128>|
                {
                    &&& #[trigger] ids_ascend(order)
                    &&& order.to_set() == self@.dom()
                    &&& entries@ == entries_in_order(order, self@)
                },
    {
        let ids = ordered_keys(&self.inner);
        proof {
            lemma_increasing_u128(ids@);
            assert(self@.dom() =~= self.inner@.dom());
        }
        let mut entries: Vec<LeaseEntry> = Vec::new();
        let mut i: usize = 0;
        proof {
            assert(ids@.take(0) =~= Seq::<u128>::empty());
        }
        while i < ids.len()
            invariant
                i <= ids.len(),
                ids_ascend(ids@),
                ids@.to_set() == self@.dom(),
                self@.dom() == self.inner@.dom(),
                entries@ == entries_in_order(ids@.take(i as int), self@),
            decreases ids.len() - i,
        {
            let id: u128 = ids[i];
            let ghost done = entries@;
            proof {
                assert(ids@.take(i + 1).drop_last() =~= ids@.take(i as int));
                assert(ids@.contains(id));
                assert(ids@.to_set().contains(id));
                assert(self.inner@.contains_key(id));
            }
            match self.inner.get(&id) {
                None => {},
                Some(lease) => {
                    let mut k: usize = 0;
                    while k < lease.blobs.len()
                        invariant
                            k <= lease.blobs.len(),
                            entries@ == done + lease.blobs@.take(k as int),
                        decreases lease.blobs.len() - k,
                    {
                        proof {
                            assert(lease.blobs@.take(k + 1) =~= lease.blobs@.take(k as int).push(
                                lease.blobs@[k as int],
                            ));
                        }
                        entries.push(lease.blobs[k]);
                        k += 1;
                    }
                    proof {
                        assert(lease.blobs@.take(k as int) =~= lease.blobs@);
                    }
                },
            }
            i += 1;
        }
        proof {
            assert(ids@.take(i as int) =~= ids@);
        }
        entries
    }

    /// What has to change for the leases in force to be the confirmed ones. There is nothing to
    /// change where they are.
    pub fn plan_refresh(&self, confirmed: &Vec<u128>) -> (plan: Option<LeaseRefresh>)
        ensures
            plan is None <==> self@.dom() == confirmed@.to_set(),
            plan matches Some(refresh) ==> refresh.leads(self@.dom(), confirmed@.to_set()),
    {
        let confirmed_ids = as_keys(confirmed);
        let to_drop = missing(&self.inner, &confirmed_ids);
        let to_add = missing(&confirmed_ids, &self.inner);
        proof {
            assert(self@.dom() =~= self.inner@.dom());
        }
        if to_drop.len() == 0 && to_add.len() == 0 {
            proof {
                assert forall|x: u128|
                    self@.dom().contains(x) == confirmed@.to_set().contains(x) by {
                    assert(!to_drop@.to_set().contains(x));
                    assert(!to_add@.to_set().contains(x));
                }
                assert(self@.dom() =~= confirmed@.to_set());
            }
            None
        } else {
            proof {
                if to_drop.len() > 0 {
                    assert(to_drop@.contains(to_drop@[0]));
                    assert(to_drop@.to_set().contains(to_drop@[0]));
                } else {
                    assert(to_add@.contains(to_add@[0]));
                    assert(to_add@.to_set().contains(to_add@[0]));
                }
            }
            Some(LeaseRefresh { to_drop, to_add })
        }
    }

    /// Drops the leases that are no longer confirmed, and puts the fetched ones in force.
    pub fn apply_refresh(&mut self, to_drop: &Vec<u128>, fetched: BTreeMap<u128, Lease>)
        ensures
            final(self)@ == refreshed(old(self)@, to_drop@.to_set(), lease_views(fetched@)),
    {
        let ghost before = self@;
        let mut i: usize = 0;
        proof {
            assert(before.remove_keys(to_drop@.take(0).to_set()) =~= before);
        }
        while i < to_drop.len()
            invariant
                i <= to_drop.len(),
                self@ == before.remove_keys(to_drop@.take(i as int).to_set()),
            decreases to_drop.len() - i,
        {
            let id: u128 = to_drop[i];
            let ghost current = self@;
            self.inner.remove(&id);
            proof {
                assert(self@ =~= current.remove(id));
                let now = to_drop@.take(i + 1);
                let then = to_drop@.take(i as int);
                assert(now =~= then.push(id));
                assert forall|x: u128|
                    now.to_set().contains(x) == (then.to_set().contains(x) || x == id) by {
                    if then.contains(x) {
                        let k = choose|k: int| 0 <= k < then.len() && then[k] == x;
                        assert(now[k] == x);
                    }
                    assert(now[i as int] == id);
                }
                assert(self@ =~= before.remove_keys(now.to_set()));
            }
            i += 1;
        }
        let ghost kept = self@;
        proof {
            assert(to_drop@.take(i as int) =~= to_drop@);
        }
        let ids = ordered_keys(&fetched);
        let mut k: usize = 0;
        proof {
            assert(ids@.take(0).to_set() =~= Set::<u128>::empty());
            assert(kept.union_prefer_right(lease_views(fetched@).restrict(Set::empty())) =~= kept);
        }
        while k < ids.len()
            invariant
                k <= ids.len(),
                ids@.to_set() == fetched@.dom(),
                self@ == kept.union_prefer_right(
                    lease_views(fetched@).restrict(ids@.take(k as int).to_set()),
                ),
            decreases ids.len() - k,
        {
            let id: u128 = ids[k];
            let ghost current = self@;
            proof {
                assert(ids@.contains(id));
                assert(ids@.to_set().contains(id));
            }
            match fetched.get(&id) {
                None => {},
                Some(lease) => {
                    self.insert(id, lease.clone());
                },
            }
            proof {
                let now = ids@.take(k + 1);
                let then = ids@.take(k as int);
                assert(now =~= then.push(id));
                assert forall|x: u128|
                    now.to_set().contains(x) == (then.to_set().contains(x) || x == id) by {
                    if then.contains(x) {
                        let m = choose|m: int| 0 <= m < then.len() && then[m] == x;
                        assert(now[m] == x);
                    }
                    assert(now[k as int] == id);
                }
                assert(self@ =~= kept.union_prefer_right(
                    lease_views(fetched@).restrict(now.to_set()),
                ));
            }
            k += 1;
        }
        proof {
            assert(ids@.take(k as int) =~= ids@);
            assert(lease_views(fetched@).restrict(ids@.to_set()) =~= lease_views(fetched@));
        }
    }
}

/// After a refresh that found every lease it looked for, the leases in force are the confirmed
/// ones. Those that were in force before are unchanged.
pub proof fn a_refresh_confirms_the_leases(
    active: Map<u128, LeaseView>,
    confirmed: Set<u128>,
    refresh: LeaseRefresh,
    fetched: Map<u128, LeaseView>,
)
    requires
        refresh.leads(active.dom(), confirmed),
        fetched.dom() == refresh.to_add@.to_set(),
    ensures
        refreshed(active, refresh.to_drop@.to_set(), fetched).dom() == confirmed,
        forall|id: u128|
            confirmed.contains(id) && #[trigger] active.contains_key(id) ==> refreshed(
                active,
                refresh.to_drop@.to_set(),
                fetched,
            )[id] == active[id],
{
    let after = refreshed(active, refresh.to_drop@.to_set(), fetched);
    assert forall|id: u128| after.dom().contains(id) == confirmed.contains(id) by {
        assert(fetched.dom().contains(id) == confirmed.difference(active.dom()).contains(id));
        assert(refresh.to_drop@.to_set().contains(id) == active.dom().difference(
            confirmed,
        ).contains(id));
    }
    assert(after.dom() =~= confirmed);
    assert forall|id: u128|
        confirmed.contains(id) && #[trigger] active.contains_key(id) implies after[id]
        == active[id] by {
        assert(!fetched.dom().contains(id));
        assert(!refresh.to_drop@.to_set().contains(id));
    }
}

/// After any refresh, whatever could be fetched of what it looked for, every lease in force is a
/// confirmed one.
pub proof fn a_refresh_keeps_only_confirmed_leases(
    active: Map<u128, LeaseView>,
    confirmed: Set<u128>,
    refresh: LeaseRefresh,
    fetched: Map<u128, LeaseView>,
)
    requires
        refresh.leads(active.dom(), confirmed),
        fetched.dom().subset_of(refresh.to_add@.to_set()),
    ensures
        refreshed(active, refresh.to_drop@.to_set(), fetched).dom().subset_of(confirmed),
{
    let after = refreshed(active, refresh.to_drop@.to_set(), fetched);
    assert forall|id: u128| after.dom().contains(id) implies confirmed.contains(id) by {
        assert(refresh.to_drop@.to_set().contains(id) == active.dom().difference(
            confirmed,
        ).contains(id));
        if fetched.dom().contains(id) {
            assert(refresh.to_add@.to_set().contains(id));
        }
    }
}

/// After a refresh every lease that was fetched is in force as it was fetched, every other lease
/// that was in force and was not dropped is in force as it was, and no other lease is.
pub proof fn a_refresh_takes_what_was_fetched(
    active: Map<u128, LeaseView>,
    dropped: Set<u128>,
    fetched: Map<u128, LeaseView>,
    id: u128,
)
    ensures
        ({
            let after = refreshed(active, dropped, fetched);
            if fetched.contains_key(id) {
                after.contains_key(id) && after[id] == fetched[id]
            } else if active.contains_key(id) && !dropped.contains(id) {
                after.contains_key(id) && after[id] == active[id]
            } else {
                !after.contains_key(id)
            }
        }),
{
}

/// A plan for a refresh drops exactly the leases in force that are not confirmed, and adds exactly
/// the confirmed ones that are not in force, each of them once and in ascending order.
pub proof fn a_refresh_is_planned_for_what_differs(
    refresh: LeaseRefresh,
    active: Set<u128>,
    confirmed: Set<u128>,
)
    requires
        refresh.leads(active, confirmed),
    ensures
        forall|id: u128| #[trigger]
            refresh.to_drop@.contains(id) <==> active.contains(id) && !confirmed.contains(id),
        forall|id: u128| #[trigger]
            refresh.to_add@.contains(id) <==> confirmed.contains(id) && !active.contains(id),
        forall|i: int, j: int|
            0 <= i < j < refresh.to_drop@.len() ==> #[trigger] refresh.to_drop@[i]
                < #[trigger] refresh.to_drop@[j],
        forall|i: int, j: int|
            0 <= i < j < refresh.to_add@.len() ==> #[trigger] refresh.to_add@[i]
                < #[trigger] refresh.to_add@[j],
{
    assert forall|id: u128| #[trigger]
        refresh.to_drop@.contains(id) <==> active.contains(id) && !confirmed.contains(id) by {
        assert(refresh.to_drop@.to_set().contains(id) == active.difference(confirmed).contains(id));
    }
    assert forall|id: u128| #[trigger]
        refresh.to_add@.contains(id) <==> confirmed.contains(id) && !active.contains(id) by {
        assert(refresh.to_add@.to_set().contains(id) == confirmed.difference(active).contains(id));
    }
}

/// The entries of several leases are those of every lease, complete and in their order, one lease
/// right behind the other, and there are no more.
pub proof fn entries_lie_lease_by_lease(order: Seq<u128>, leases: Map<u128, LeaseView>, n: int)
    requires
        0 <= n <= order.len(),
    ensures
        ({
            let entries = entries_in_order(order, leases);
            let at = order.take(n).fold_left(
                0int,
                |sum: int, id: u128| sum + leases[id].blobs.len(),
            );
            &&& 0 <= at <= entries.len()
            &&& n == order.len() ==> at == entries.len()
            &&& n < order.len() ==> {
                &&& at + leases[order[n]].blobs.len() <= entries.len()
                &&& entries.subrange(at, at + leases[order[n]].blobs.len())
                    == leases[order[n]].blobs
            }
        }),
    decreases order.len(),
{
    let entries = entries_in_order(order, leases);
    if order.len() == 0 {
        assert(order.take(n) =~= Seq::<u128>::empty());
    } else {
        let most = order.drop_last();
        let before = entries_in_order(most, leases);
        entries_lie_lease_by_lease(most, leases, most.len() as int);
        assert(most.take(most.len() as int) =~= most);
        if n == order.len() {
            assert(order.take(n) =~= order);
        } else if n == order.len() - 1 {
            assert(order.take(n) =~= most);
            let at = before.len() as int;
            assert(entries.subrange(at, at + leases[order[n]].blobs.len())
                =~= leases[order[n]].blobs);
        } else {
            entries_lie_lease_by_lease(most, leases, n);
            assert(most.take(n) =~= order.take(n));
            assert(most[n] == order[n]);
            let at = order.take(n).fold_left(
                0int,
                |sum: int, id: u128| sum + leases[id].blobs.len(),
            );
            assert(entries.subrange(at, at + leases[order[n]].blobs.len()) =~= before.subrange(
                at,
                at + leases[order[n]].blobs.len(),
            ));
        }
    }
}

/// The leases of a map are seen under their ids, every one of them.
pub proof fn all_leases_are_seen(leases: Map<u128, Lease>)
    ensures
        lease_views(leases).dom() == leases.dom(),
        forall|id: u128| #[trigger]
            leases.contains_key(id) ==> lease_views(leases)[id] == leases[id]@,
{
    assert(lease_views(leases).dom() =~= leases.dom());
}

} // verus!
