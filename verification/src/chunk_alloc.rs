//! Spreading chunks over backends, in proportion to the space that is free on them.

use crate::db::{BackendId, DbError};
use crate::splitter::DEFAULT_CHUNK_SIZE;
use std::collections::HashMap;
use vstd::prelude::*;
use vstd::std_specs::iter::IteratorSpec;
use weighted_rs::{SmoothWeight, Weight};

verus! {

/// The declared `weighted_rs::SmoothWeight`.
#[verifier::external_type_specification]
#[verifier::external_body]
#[verifier::reject_recursive_types(T)]
pub struct ExSmoothWeight<T>(weighted_rs::SmoothWeight<T>);

/// An item of a weighted choice: what it is, its weight and its current weight.
pub type WeightedItem = (BackendId, isize, isize);

/// The items of a weighted choice, in the order in which they were added.
pub uninterp spec fn weighted_items(choice: SmoothWeight<BackendId>) -> Seq<
    (BackendId, isize, isize),
>;

/// The sum of a sequence of integers.
pub open spec fn sum(s: Seq<int>) -> int
    decreases s.len(),
{
    if s.len() == 0 {
        0
    } else {
        sum(s.drop_last()) + s.last()
    }
}

/// The weights of the items.
pub open spec fn weights(items: Seq<WeightedItem>) -> Seq<int> {
    items.map_values(|item: WeightedItem| item.1 as int)
}

/// The current weights of the items.
pub open spec fn currents(items: Seq<WeightedItem>) -> Seq<int> {
    items.map_values(|item: WeightedItem| item.2 as int)
}

/// The current weights of the items once each was raised by the weight of its item.
pub open spec fn raised(items: Seq<WeightedItem>) -> Seq<int> {
    items.map_values(|item: WeightedItem| item.1 + item.2)
}

/// `b` is the place of the item that comes next: the only one, or the first whose raised current
/// weight is the greatest.
pub open spec fn comes_next(items: Seq<WeightedItem>, b: int) -> bool {
    &&& 0 <= b < items.len()
    &&& items.len() > 1 ==> {
        &&& forall|i: int| 0 <= i < items.len() ==> #[trigger] raised(items)[i] <= raised(items)[b]
        &&& forall|i: int| 0 <= i < b ==> #[trigger] raised(items)[i] < raised(items)[b]
    }
}

/// The items after the one at `b` came: every current weight is raised, and that of the item is
/// lowered by the sum of all weights. A single item stays as it is.
pub open spec fn after_next(items: Seq<WeightedItem>, b: int) -> Seq<WeightedItem> {
    if items.len() <= 1 {
        items
    } else {
        Seq::new(
            items.len(),
            |i: int|
                (
                    items[i].0,
                    items[i].1,
                    if i == b {
                        (raised(items)[i] - sum(weights(items))) as isize
                    } else {
                        raised(items)[i] as isize
                    },
                ),
        )
    }
}

/// An integer that can be held.
pub open spec fn fits(n: int) -> bool {
    isize::MIN <= n <= isize::MAX
}

/// Nothing that is computed for the next item is out of range.
pub open spec fn next_fits(items: Seq<WeightedItem>) -> bool {
    items.len() > 1 ==> {
        &&& forall|i: int| 0 <= i < items.len() ==> fits(#[trigger] raised(items)[i])
        &&& forall|n: int| 0 <= n <= items.len() ==> fits(sum(#[trigger] weights(items).take(n)))
        &&& forall|b: int| #[trigger]
            comes_next(items, b) ==> fits(raised(items)[b] - sum(weights(items)))
    }
}

/// `SmoothWeight::new`: no items.
#[verifier::external_body]
fn new_choice() -> (choice: SmoothWeight<BackendId>)
    ensures
        weighted_items(choice) == Seq::<WeightedItem>::empty(),
{
    SmoothWeight::new()
}

/// `Weight::remove_all` of `SmoothWeight`: no items are left.
#[verifier::external_body]
fn remove_all(choice: &mut SmoothWeight<BackendId>)
    ensures
        weighted_items(*final(choice)) == Seq::<WeightedItem>::empty(),
{
    choice.remove_all()
}

/// `Weight::add` of `SmoothWeight`: the item is the last one, and its current weight is zero.
#[verifier::external_body]
fn add_item(choice: &mut SmoothWeight<BackendId>, item: BackendId, weight: isize)
    requires
        weighted_items(*old(choice)).len() < isize::MAX,
    ensures
        weighted_items(*final(choice)) == weighted_items(*old(choice)).push((item, weight, 0)),
{
    choice.add(item, weight)
}

/// `Weight::next` of `SmoothWeight`: the first of the items whose raised current weight is the
/// greatest, and none where there are no items.
#[verifier::external_body]
fn next_item(choice: &mut SmoothWeight<BackendId>) -> (item: Option<BackendId>)
    requires
        next_fits(weighted_items(*old(choice))),
    ensures
        item is None <==> weighted_items(*old(choice)).len() == 0,
        item is None ==> weighted_items(*final(choice)) == weighted_items(*old(choice)),
        item matches Some(id) ==> exists|b: int| #[trigger]
            comes_next(weighted_items(*old(choice)), b) && id == weighted_items(*old(choice))[b].0
                && weighted_items(*final(choice)) == after_next(weighted_items(*old(choice)), b),
{
    choice.next()
}

/// The space of a backend that chunks are spread over.
#[derive(Clone, Copy, Debug, PartialEq, Eq, Structural)]
pub struct BackendStat {
    pub free: u64,
}

impl BackendStat {
    pub fn new(free: u64) -> (stat: Self)
        ensures
            stat.free == free,
    {
        BackendStat { free }
    }
}

/// The backends that have room for a chunk of the default size.
pub open spec fn roomy(stat: Map<BackendId, BackendStat>) -> Set<BackendId> {
    stat.dom().filter(|id: BackendId| stat[id].free >= DEFAULT_CHUNK_SIZE)
}

/// The items of a fresh choice among backends: their free bytes are their weights.
pub open spec fn fresh_items(
    order: Seq<BackendId>,
    stat: Map<BackendId, BackendStat>,
) -> Seq<WeightedItem> {
    order.map_values(|id: BackendId| (id, stat[id].free as isize, 0isize))
}

/// The items are a fresh choice among the backends that have room, in some order.
pub open spec fn calibrated(
    stat: Map<BackendId, BackendStat>,
    items: Seq<WeightedItem>,
) -> bool {
    exists|order: Seq<BackendId>|
        {
            &&& order.no_duplicates()
            &&& order.to_set() == roomy(stat)
            &&& items == #[trigger] fresh_items(order, stat)
        }
}

/// The weights are positive, and their sum can be counted once for every item.
pub open spec fn weights_in_range(items: Seq<WeightedItem>) -> bool {
    items.len() > 1 ==> {
        &&& forall|i: int| 0 <= i < items.len() ==> #[trigger] weights(items)[i] > 0
        &&& items.len() * sum(weights(items)) <= isize::MAX
    }
}

/// The items are the backends that have room.
pub open spec fn items_have_room(
    stat: Map<BackendId, BackendStat>,
    items: Seq<WeightedItem>,
) -> bool {
    items.map_values(|item: WeightedItem| item.0).to_set() == roomy(stat)
}

/// Spreads chunks over backends.
pub struct ChunkAlloc {
    stat: HashMap<BackendId, BackendStat>,
    weights: SmoothWeight<BackendId>,
    in_range: bool,
}

/// The state of spreading chunks, as mathematical data.
pub struct ChunkAllocView {
    pub stat: Map<BackendId, BackendStat>,
    pub items: Seq<WeightedItem>,
    /// The free bytes are few enough for every choice to stay in range.
    pub in_range: bool,
}

impl View for ChunkAlloc {
    type V = ChunkAllocView;

    closed spec fn view(&self) -> ChunkAllocView {
        ChunkAllocView {
            stat: self.stat@,
            items: weighted_items(self.weights),
            in_range: self.in_range,
        }
    }
}

impl ChunkAllocView {
    /// The choice is among the backends that have room, and is balanced where it is in range.
    pub open spec fn wf(self) -> bool {
        &&& self.stat.dom().len() <= isize::MAX
        &&& self.stat.dom().finite()
        &&& items_have_room(self.stat, self.items)
        &&& self.in_range ==> balanced(self.items)
    }

    /// The choice is a fresh one.
    pub open spec fn is_fresh(self) -> bool {
        &&& calibrated(self.stat, self.items)
        &&& self.in_range == weights_in_range(self.items)
    }

    /// `after` is the state after a chunk was given to the item at `b`, and `id` the backend
    /// that it was given to, if that has room for the chunk.
    pub open spec fn gives(
        self,
        chunk_size: u32,
        b: int,
        id: Option<BackendId>,
        after: ChunkAllocView,
    ) -> bool {
        let chosen = self.items[b].0;
        let free = self.stat[chosen].free;
        if free < chunk_size {
            &&& id is None
            &&& after.stat == self.stat
            &&& after.items == after_next(self.items, b)
            &&& after.in_range == self.in_range
        } else {
            &&& id == Some(chosen)
            &&& after.stat == self.stat.insert(
                chosen,
                BackendStat { free: (free - chunk_size) as u64 },
            )
            &&& if free - chunk_size < DEFAULT_CHUNK_SIZE {
                after.is_fresh()
            } else {
                after.items == after_next(self.items, b) && after.in_range == self.in_range
            }
        }
    }
}

/// Makes the choice a fresh one among the backends that have room, and tells whether its weights
/// are in range.
fn calibrate(
    stat: &HashMap<BackendId, BackendStat>,
    choice: &mut SmoothWeight<BackendId>,
) -> (in_range: bool)
    requires
        stat@.dom().len() <= isize::MAX,
    ensures
        calibrated(stat@, weighted_items(*final(choice))),
        in_range == weights_in_range(weighted_items(*final(choice))),
{
    broadcast use vstd::std_specs::hash::group_hash_axioms;

    remove_all(choice);
    let walk = stat.iter();
    let ghost pairs: Seq<(&BackendId, &BackendStat)> = walk.remaining();
    let ghost ids: Seq<BackendId> = pairs.map_values(|kv: (&BackendId, &BackendStat)| *kv.0);
    let ghost mut order: Seq<BackendId> = Seq::empty();
    let mut tally = Tally { count: 0, total: 0, positive: true };
    proof {
        assert forall|i: int, j: int| 0 <= i < j < ids.len() implies ids[i] != ids[j] by {
            assert(pairs[i] != pairs[j]);
            assert(stat@[*pairs[i].0] == *pairs[i].1);
            assert(stat@[*pairs[j].0] == *pairs[j].1);
        }
        assert(fresh_items(order, stat@) =~= Seq::<WeightedItem>::empty());
        assert forall|id: BackendId| #[trigger] stat@.contains_key(id) implies ids.contains(id) by {
            assert(pairs.contains((&id, &stat@[id])));
            let i = choose|i: int| 0 <= i < pairs.len() && pairs[i] == (&id, &stat@[id]);
            assert(ids[i] == id);
        }
        assert forall|i: int| 0 <= i < pairs.len() implies stat@.contains_key(
            *(#[trigger] pairs[i]).0,
        ) && stat@[*pairs[i].0] == *pairs[i].1 by {
            assert(stat@.contains_key(*pairs[i].0));
        }
    }
    for pair in it: walk
        invariant
            it.seq() == pairs,
            ids == pairs.map_values(|kv: (&BackendId, &BackendStat)| *kv.0),
            ids.no_duplicates(),
            forall|i: int|
                0 <= i < pairs.len() ==> stat@.contains_key(*(#[trigger] pairs[i]).0)
                    && stat@[*pairs[i].0] == *pairs[i].1,
            pairs.len() <= isize::MAX,
            order.len() <= it.index(),
            order.no_duplicates(),
            forall|id: BackendId|
                #![trigger order.contains(id)]
                order.contains(id) <==> stat@[id].free >= DEFAULT_CHUNK_SIZE && exists|k: int|
                    0 <= k < it.index() && #[trigger] ids[k] == id,
            weighted_items(*choice) == fresh_items(order, stat@),
            tally.counts(fresh_items(order, stat@)),
    {
        let ghost before = order;
        let ghost n = it.index();
        proof {
            assert(pair == pairs[n]);
            assert(ids[n] == *pair.0);
            assert(!before.contains(*pair.0)) by {
                if before.contains(*pair.0) {
                    let k = choose|k: int| 0 <= k < n && #[trigger] ids[k] == *pair.0;
                    assert(ids[k] == ids[n]);
                }
            }
        }
        if pair.1.free >= DEFAULT_CHUNK_SIZE as u64 {
            let weight: isize = pair.1.free as isize;
            add_item(choice, *pair.0, weight);
            tally.add(weight, Ghost(fresh_items(before, stat@)), *pair.0);
            proof {
                order = before.push(*pair.0);
                assert(fresh_items(order, stat@) =~= fresh_items(before, stat@).push(
                    (*pair.0, weight, 0isize),
                ));
            }
        }
        proof {
            assert forall|id: BackendId|
                #![trigger order.contains(id)]
                order.contains(id) <==> stat@[id].free >= DEFAULT_CHUNK_SIZE && exists|k: int|
                    0 <= k < n + 1 && #[trigger] ids[k] == id by {
                if order.contains(id) {
                    let m = choose|m: int| 0 <= m < order.len() && order[m] == id;
                    if m < before.len() {
                        assert(before[m] == id);
                        assert(before.contains(id));
                    } else {
                        assert(ids[n] == id);
                    }
                }
                if stat@[id].free >= DEFAULT_CHUNK_SIZE && exists|k: int|
                    0 <= k < n + 1 && #[trigger] ids[k] == id {
                    let k = choose|k: int| 0 <= k < n + 1 && #[trigger] ids[k] == id;
                    if k < n {
                        assert(before.contains(id));
                        let m = choose|m: int| 0 <= m < before.len() && before[m] == id;
                        assert(order[m] == id);
                    } else {
                        assert(order[before.len() as int] == id);
                    }
                }
            }
        }
    }
    proof {
        assert forall|id: BackendId| order.to_set().contains(id) == roomy(stat@).contains(id) by {
            assert(order.to_set().contains(id) == order.contains(id));
            if stat@.contains_key(id) {
                assert(ids.contains(id));
                let k = choose|k: int| 0 <= k < ids.len() && ids[k] == id;
                assert(ids[k] == id);
            }
            if order.contains(id) {
                let k = choose|k: int| 0 <= k < pairs.len() && #[trigger] ids[k] == id;
                assert(stat@.contains_key(*pairs[k].0));
            }
        }
        assert(order.to_set() =~= roomy(stat@));
        assert(weighted_items(*choice) == fresh_items(order, stat@));
    }
    tally.in_range(Ghost(weighted_items(*choice)))
}

/// A count of items and of their weights.
struct Tally {
    count: u64,
    total: u128,
    positive: bool,
}

impl Tally {
    /// The tally is that of the items.
    spec fn counts(self, items: Seq<WeightedItem>) -> bool {
        &&& self.count == items.len()
        &&& items.len() <= isize::MAX
        &&& self.positive <==> forall|i: int|
            0 <= i < items.len() ==> #[trigger] weights(items)[i] > 0
        &&& self.positive ==> {
            &&& self.total == sum(weights(items))
            &&& self.total <= self.count * (isize::MAX as int)
        }
    }

    /// Counts one more item.
    fn add(&mut self, weight: isize, Ghost(items): Ghost<Seq<WeightedItem>>, id: BackendId)
        requires
            old(self).counts(items),
            items.len() < isize::MAX,
        ensures
            final(self).counts(items.push((id, weight, 0isize))),
    {
        let ghost after = items.push((id, weight, 0isize));
        proof {
            assert(weights(after).drop_last() =~= weights(items));
            assert(weights(after)[items.len() as int] == weight);
            assert forall|i: int| 0 <= i < items.len() implies #[trigger] weights(after)[i]
                == weights(items)[i] by {}
            let n = self.count as int;
            let most = isize::MAX as int;
            assert(n * most <= most * most && (n + 1) * most == n * most + most) by (nonlinear_arith)
                requires
                    0 <= n <= most,
            ;
            assert(most * most + most <= u128::MAX) by (nonlinear_arith)
                requires
                    0 <= most <= 0x7fff_ffff_ffff_ffff,
            ;
        }
        self.count = self.count + 1;
        if weight > 0 {
            if self.positive {
                self.total = self.total + weight as u128;
            }
            proof {
                if old(self).positive {
                    assert forall|i: int| 0 <= i < after.len() implies #[trigger] weights(after)[i]
                        > 0 by {
                        if i < items.len() {
                            assert(weights(items)[i] > 0);
                        }
                    }
                } else {
                    let i = choose|i: int|
                        0 <= i < items.len() && !(#[trigger] weights(items)[i] > 0);
                    assert(!(weights(after)[i] > 0));
                }
            }
        } else {
            self.positive = false;
        }
    }

    /// Whether the weights of the items are in range.
    fn in_range(&self, Ghost(items): Ghost<Seq<WeightedItem>>) -> (in_range: bool)
        requires
            self.counts(items),
        ensures
            in_range == weights_in_range(items),
    {
        if self.count <= 1 {
            return true;
        }
        if !self.positive {
            return false;
        }
        match self.total.checked_mul(self.count as u128) {
            None => {
                proof {
                    assert(self.total * self.count == items.len() * sum(weights(items)))
                        by (nonlinear_arith)
                        requires
                            self.total == sum(weights(items)),
                            self.count == items.len(),
                    ;
                }
                false
            },
            Some(product) => {
                proof {
                    assert(self.total * self.count == items.len() * sum(weights(items)))
                        by (nonlinear_arith)
                        requires
                            self.total == sum(weights(items)),
                            self.count == items.len(),
                    ;
                }
                product <= isize::MAX as u128
            },
        }
    }
}

/// A fresh choice is among the backends that have room.
proof fn lemma_calibrated_has_room(stat: Map<BackendId, BackendStat>, items: Seq<WeightedItem>)
    requires
        calibrated(stat, items),
    ensures
        items_have_room(stat, items),
{
    let order = choose|order: Seq<BackendId>|
        {
            &&& order.no_duplicates()
            &&& order.to_set() == roomy(stat)
            &&& items == #[trigger] fresh_items(order, stat)
        };
    assert(items.map_values(|item: WeightedItem| item.0) =~= order);
}

impl ChunkAlloc {
    /// Spreads chunks over the given backends.
    pub fn new(stat: HashMap<BackendId, BackendStat>) -> (alloc: Result<Self, DbError>)
        requires
            stat@.dom().len() <= isize::MAX,
        ensures
            alloc matches Ok(a) && a@.wf() && a@.stat == stat@ && a@.is_fresh(),
    {
        let weights = new_choice();
        let mut round_robin = ChunkAlloc { stat, weights, in_range: false };
        round_robin.recalibrate();
        Ok(round_robin)
    }

    /// Starts to choose afresh among the backends that have room.
    pub fn recalibrate(&mut self)
        requires
            old(self)@.stat.dom().len() <= isize::MAX,
        ensures
            final(self)@.stat == old(self)@.stat,
            final(self)@.is_fresh(),
            final(self)@.wf(),
    {
        broadcast use vstd::std_specs::hash::group_hash_axioms;

        self.in_range = calibrate(&self.stat, &mut self.weights);
        proof {
            lemma_calibrated_has_room(self@.stat, self@.items);
            if self.in_range {
                a_fresh_choice_is_balanced(self@.stat, self@.items);
            }
        }
    }

    /// Return None when out of space
    pub fn allocate(&mut self, chunk_size: u32) -> (id: Option<BackendId>)
        requires
            old(self)@.wf(),
            next_fits(old(self)@.items),
        ensures
            final(self)@.wf(),
            if old(self)@.items.len() == 0 {
                id is None && final(self)@ == old(self)@
            } else {
                exists|b: int| #[trigger]
                    comes_next(old(self)@.items, b) && old(self)@.gives(
                        chunk_size,
                        b,
                        id,
                        final(self)@,
                    )
            },
    {
        broadcast use vstd::std_specs::hash::group_hash_axioms;

        let ghost before = self@;
        let id: BackendId = match next_item(&mut self.weights) {
            None => {
                return None;
            },
            Some(id) => id,
        };
        let ghost b = choose|b: int| #[trigger]
            comes_next(before.items, b) && id == before.items[b].0 && self@.items == after_next(
                before.items,
                b,
            );
        proof {
            lemma_next_keeps_ids(before.items, b);
            let ids = before.items.map_values(|item: WeightedItem| item.0);
            assert(ids[b] == id);
            assert(ids.to_set().contains(id));
            assert(roomy(before.stat).contains(id));
            if before.in_range {
                a_choice_stays_balanced(before.items, b);
            }
        }
        match self.stat.get(&id) {
            None => None,
            Some(stat) => {
                let new_free: u64 = match stat.free.checked_sub(chunk_size as u64) {
                    None => {
                        return None;
                    },
                    Some(free) => free,
                };
                self.stat.insert(id, BackendStat { free: new_free });
                proof {
                    assert(self@.stat.dom() =~= before.stat.dom());
                }
                if new_free < DEFAULT_CHUNK_SIZE as u64 {
                    self.recalibrate();
                } else {
                    proof {
                        assert(roomy(self@.stat) =~= roomy(before.stat));
                    }
                }
                Some(id)
            },
        }
    }

    /// Allocates where the free bytes are few enough for every choice to stay in range, and does
    /// nothing where they are not.
    pub fn try_allocate(&mut self, chunk_size: u32) -> (id: Option<Option<BackendId>>)
        requires
            old(self)@.wf(),
        ensures
            final(self)@.wf(),
            id is Some <==> old(self)@.in_range,
            id is None ==> final(self)@ == old(self)@,
            id matches Some(given) ==> if old(self)@.items.len() == 0 {
                given is None && final(self)@ == old(self)@
            } else {
                exists|b: int| #[trigger]
                    comes_next(old(self)@.items, b) && old(self)@.gives(
                        chunk_size,
                        b,
                        given,
                        final(self)@,
                    )
            },
    {
        if !self.in_range {
            return None;
        }
        proof {
            a_balanced_choice_is_in_range(self@.items);
        }
        Some(self.allocate(chunk_size))
    }
}

/// Choosing an item leaves it open which items there are.
proof fn lemma_next_keeps_ids(items: Seq<WeightedItem>, b: int)
    ensures
        after_next(items, b).map_values(|item: WeightedItem| item.0) == items.map_values(
            |item: WeightedItem| item.0,
        ),
{
    assert(after_next(items, b).map_values(|item: WeightedItem| item.0) =~= items.map_values(
        |item: WeightedItem| item.0,
    ));
}

/// A chunk of at most the default size finds a backend exactly where some backend has room for a
/// chunk of the default size, and the backend that it is given to has room for it.
pub proof fn a_chunk_is_placed_where_there_is_room(
    alloc: ChunkAllocView,
    chunk_size: u32,
    b: int,
    id: Option<BackendId>,
    after: ChunkAllocView,
)
    requires
        alloc.wf(),
        chunk_size <= DEFAULT_CHUNK_SIZE,
        if alloc.items.len() == 0 {
            id is None && after == alloc
        } else {
            comes_next(alloc.items, b) && alloc.gives(chunk_size, b, id, after)
        },
    ensures
        id is Some <==> exists|some: BackendId| #[trigger] roomy(alloc.stat).contains(some),
        id matches Some(chosen) ==> {
            &&& roomy(alloc.stat).contains(chosen)
            &&& after.stat[chosen].free == alloc.stat[chosen].free - chunk_size
        },
        forall|other: BackendId| id != Some(other) ==> #[trigger] after.stat[other]
            == alloc.stat[other],
{
    let ids = alloc.items.map_values(|item: WeightedItem| item.0);
    if alloc.items.len() == 0 {
        assert forall|some: BackendId| !#[trigger] roomy(alloc.stat).contains(some) by {
            if roomy(alloc.stat).contains(some) {
                assert(ids.to_set().contains(some));
                let k = choose|k: int| 0 <= k < ids.len() && ids[k] == some;
                assert(ids[k] == some);
            }
        }
    } else {
        assert(ids[b] == alloc.items[b].0);
        assert(ids.to_set().contains(alloc.items[b].0));
        assert(roomy(alloc.stat).contains(alloc.items[b].0));
    }
}

/// The current weights even each other out, none lags behind by the sum of the weights, and the
/// sums that are needed stay in range.
pub open spec fn balanced(items: Seq<WeightedItem>) -> bool {
    let all = sum(weights(items));
    items.len() > 1 ==> {
        &&& forall|i: int| 0 <= i < items.len() ==> #[trigger] weights(items)[i] > 0
        &&& forall|i: int| 0 <= i < items.len() ==> #[trigger] currents(items)[i] > -all
        &&& sum(currents(items)) == 0
        &&& items.len() * all <= isize::MAX
    }
}

/// A fresh choice with weights in range is balanced.
pub proof fn a_fresh_choice_is_balanced(stat: Map<BackendId, BackendStat>, items: Seq<WeightedItem>)
    requires
        calibrated(stat, items),
        weights_in_range(items),
    ensures
        balanced(items),
{
    if items.len() > 1 {
        assert forall|i: int| 0 <= i < items.len() implies #[trigger] currents(items)[i] == 0 by {}
        lemma_sum_at_least(weights(items), 1);
        lemma_sum_at_least(currents(items), 0);
        lemma_sum_at_most(currents(items), 0);
        assert(items.len() * 0 == 0);
    }
}

/// As long as a choice is balanced, nothing that is computed for the next item is out of range.
pub proof fn a_balanced_choice_is_in_range(items: Seq<WeightedItem>)
    requires
        balanced(items),
    ensures
        next_fits(items),
        items.len() > 1 ==> forall|c: int| #[trigger]
            comes_next(items, c) ==> raised(items)[c] > 0,
        items.len() > 1 ==> forall|i: int|
            0 <= i < items.len() ==> #[trigger] raised(items)[i] > -sum(weights(items)),
{
    if items.len() > 1 {
        let n = items.len() as int;
        let all = sum(weights(items));
        let up = raised(items);
        lemma_sum_at_least(weights(items), 1);
        assert(all <= n * all) by (nonlinear_arith)
            requires
                n >= 1,
                all >= 0,
        ;
        lemma_sum_of_both(items);
        // The greatest raised current weight is positive, since their sum is.
        assert forall|c: int| #[trigger] comes_next(items, c) implies up[c] > 0 by {
            if up[c] <= 0 {
                lemma_sum_at_most(up, 0);
                assert(n * 0 == 0);
            }
        }
        assert forall|i: int| 0 <= i < n implies -all < #[trigger] up[i] <= n * all by {
            lemma_others(currents(items), i, -all + 1);
            lemma_part_of_sum(weights(items), i);
            assert(currents(items)[i] > -all && weights(items)[i] > 0);
            assert((n - 1) * (all - 1) + all <= n * all) by (nonlinear_arith)
                requires
                    n >= 1,
                    all >= 1,
            ;
        }
        assert forall|k: int| 0 <= k <= n implies fits(
            sum(#[trigger] weights(items).take(k)),
        ) by {
            lemma_sum_of_first(weights(items), k);
        }
    }
}

/// A balanced choice is balanced after every item.
pub proof fn a_choice_stays_balanced(items: Seq<WeightedItem>, b: int)
    requires
        balanced(items),
        comes_next(items, b),
    ensures
        balanced(after_next(items, b)),
{
    a_balanced_choice_is_in_range(items);
    if items.len() > 1 {
        let all = sum(weights(items));
        let up = raised(items);
        let after = after_next(items, b);
        lemma_sum_of_both(items);
        assert(weights(after) =~= weights(items));
        assert(currents(after) =~= up.update(b, up[b] - all));
        lemma_sum_of_update(up, b, up[b] - all);
    }
}

/// A sum of integers that are each at least `low`.
proof fn lemma_sum_at_least(s: Seq<int>, low: int)
    requires
        forall|i: int| 0 <= i < s.len() ==> #[trigger] s[i] >= low,
    ensures
        sum(s) >= s.len() * low,
    decreases s.len(),
{
    if s.len() > 0 {
        let rest = s.drop_last();
        assert forall|i: int| 0 <= i < rest.len() implies #[trigger] rest[i] >= low by {
            assert(rest[i] == s[i]);
        }
        lemma_sum_at_least(rest, low);
        assert(s.len() * low == rest.len() * low + low) by (nonlinear_arith)
            requires
                s.len() == rest.len() + 1,
        ;
    } else {
        assert(0 * low == 0);
    }
}

/// A sum of integers that are each at most `high`.
proof fn lemma_sum_at_most(s: Seq<int>, high: int)
    requires
        forall|i: int| 0 <= i < s.len() ==> #[trigger] s[i] <= high,
    ensures
        sum(s) <= s.len() * high,
    decreases s.len(),
{
    if s.len() > 0 {
        let rest = s.drop_last();
        assert forall|i: int| 0 <= i < rest.len() implies #[trigger] rest[i] <= high by {
            assert(rest[i] == s[i]);
        }
        lemma_sum_at_most(rest, high);
        assert(s.len() * high == rest.len() * high + high) by (nonlinear_arith)
            requires
                s.len() == rest.len() + 1,
        ;
    } else {
        assert(0 * high == 0);
    }
}

/// Changing one integer changes the sum by as much.
proof fn lemma_sum_of_update(s: Seq<int>, i: int, v: int)
    requires
        0 <= i < s.len(),
    ensures
        sum(s.update(i, v)) == sum(s) - s[i] + v,
    decreases s.len(),
{
    let t = s.update(i, v);
    if i == s.len() - 1 {
        assert(t.drop_last() =~= s.drop_last());
    } else {
        assert(t.drop_last() =~= s.drop_last().update(i, v));
        lemma_sum_of_update(s.drop_last(), i, v);
    }
}

/// Where a sum is zero and no integer is below `low`, none is above what the others allow.
proof fn lemma_others(s: Seq<int>, i: int, low: int)
    requires
        0 <= i < s.len(),
        sum(s) == 0,
        forall|k: int| 0 <= k < s.len() ==> #[trigger] s[k] >= low,
    ensures
        s[i] <= (s.len() - 1) * (-low),
{
    let t = s.update(i, low);
    lemma_sum_of_update(s, i, low);
    assert forall|k: int| 0 <= k < t.len() implies #[trigger] t[k] >= low by {}
    lemma_sum_at_least(t, low);
    assert(s.len() * low - low == -((s.len() - 1) * (-low))) by (nonlinear_arith);
}

/// A positive integer is at most the sum of positive integers that it is one of.
proof fn lemma_part_of_sum(s: Seq<int>, i: int)
    requires
        0 <= i < s.len(),
        forall|k: int| 0 <= k < s.len() ==> #[trigger] s[k] > 0,
    ensures
        s[i] <= sum(s),
{
    let t = s.update(i, 0);
    lemma_sum_of_update(s, i, 0);
    assert forall|k: int| 0 <= k < t.len() implies #[trigger] t[k] >= 0 by {}
    lemma_sum_at_least(t, 0);
    assert(t.len() * 0 == 0);
}

/// A sum of the first of some positive integers lies between zero and the sum of all.
proof fn lemma_sum_of_first(s: Seq<int>, n: int)
    requires
        0 <= n <= s.len(),
        forall|k: int| 0 <= k < s.len() ==> #[trigger] s[k] > 0,
    ensures
        0 <= sum(s.take(n)) <= sum(s),
    decreases s.len(),
{
    if n == s.len() {
        assert(s.take(n) =~= s);
        lemma_sum_at_least(s, 0);
        assert(s.len() * 0 == 0);
    } else {
        let rest = s.drop_last();
        assert(rest.take(n) =~= s.take(n));
        assert forall|k: int| 0 <= k < rest.len() implies #[trigger] rest[k] > 0 by {
            assert(rest[k] == s[k]);
        }
        lemma_sum_of_first(rest, n);
        assert(s.last() == s[s.len() - 1]);
    }
}

/// The raised current weights sum up to the weights and the current weights.
proof fn lemma_sum_of_both(items: Seq<WeightedItem>)
    ensures
        sum(raised(items)) == sum(weights(items)) + sum(currents(items)),
    decreases items.len(),
{
    if items.len() > 0 {
        let rest = items.drop_last();
        assert(raised(items).drop_last() =~= raised(rest));
        assert(weights(items).drop_last() =~= weights(rest));
        assert(currents(items).drop_last() =~= currents(rest));
        lemma_sum_of_both(rest);
    }
}

/// A backend has room exactly where it is known and at least four mebibytes are free on it.
pub proof fn four_mebibytes_are_room(stat: Map<BackendId, BackendStat>, id: BackendId)
    ensures
        roomy(stat).contains(id) <==> stat.contains_key(id) && stat[id].free >= 4 * 1024 * 1024,
{
}

/// A chunk of any size goes to the backend that comes next exactly where it fits there, and nowhere
/// else. Its bytes are taken from what is free there, and what is free elsewhere stays. The choice
/// starts afresh exactly where less than four mebibytes are left, and goes on else.
pub proof fn a_chunk_takes_its_bytes(
    alloc: ChunkAllocView,
    chunk_size: u32,
    b: int,
    id: Option<BackendId>,
    after: ChunkAllocView,
)
    requires
        comes_next(alloc.items, b),
        alloc.gives(chunk_size, b, id, after),
    ensures
        ({
            let next = alloc.items[b].0;
            let free = alloc.stat[next].free;
            &&& id == (if chunk_size <= free {
                Some(next)
            } else {
                None
            })
            &&& after.stat == (if chunk_size <= free {
                alloc.stat.insert(next, BackendStat { free: (free - chunk_size) as u64 })
            } else {
                alloc.stat
            })
            &&& if chunk_size <= free && free - chunk_size < 4 * 1024 * 1024 {
                after.is_fresh()
            } else {
                &&& after.in_range == alloc.in_range
                &&& after.items.len() == alloc.items.len()
                &&& forall|i: int|
                    0 <= i < alloc.items.len() ==> (#[trigger] after.items[i]).0
                        == alloc.items[i].0 && after.items[i].1 == alloc.items[i].1
            }
        }),
{
}

/// A fresh choice is among exactly the backends that have room, each of them once. Their weights
/// are their free bytes, and none is ahead of another.
pub proof fn a_fresh_choice_weighs_what_is_free(alloc: ChunkAllocView)
    requires
        alloc.is_fresh(),
    ensures
        forall|i: int|
            #![trigger alloc.items[i]]
            0 <= i < alloc.items.len() ==> {
                let item = alloc.items[i];
                &&& alloc.stat.contains_key(item.0)
                &&& alloc.stat[item.0].free >= 4 * 1024 * 1024
                &&& item.1 == alloc.stat[item.0].free as isize
                &&& item.2 == 0
            },
        forall|id: BackendId| #[trigger]
            alloc.stat.contains_key(id) && alloc.stat[id].free >= 4 * 1024 * 1024 ==> exists|i: int|
                0 <= i < alloc.items.len() && (#[trigger] alloc.items[i]).0 == id,
        forall|i: int, j: int|
            0 <= i < j < alloc.items.len() ==> (#[trigger] alloc.items[i]).0
                != (#[trigger] alloc.items[j]).0,
{
    let stat = alloc.stat;
    let items = alloc.items;
    let order = choose|order: Seq<BackendId>|
        {
            &&& order.no_duplicates()
            &&& order.to_set() == roomy(stat)
            &&& items == #[trigger] fresh_items(order, stat)
        };
    assert forall|i: int|
        #![trigger items[i]]
        0 <= i < items.len() implies {
        let item = items[i];
        &&& stat.contains_key(item.0)
        &&& stat[item.0].free >= 4 * 1024 * 1024
        &&& item.1 == stat[item.0].free as isize
        &&& item.2 == 0
    } by {
        assert(order.to_set().contains(order[i]));
        assert(roomy(stat).contains(order[i]));
    }
    assert forall|id: BackendId| #[trigger]
        stat.contains_key(id) && stat[id].free >= 4 * 1024 * 1024 implies exists|i: int|
        0 <= i < items.len() && (#[trigger] items[i]).0 == id by {
        assert(roomy(stat).contains(id));
        assert(order.to_set().contains(id));
        let i = choose|i: int| 0 <= i < order.len() && order[i] == id;
        assert(items[i].0 == id);
    }
}

proof fn lemma_weights_are_summed(items: Seq<WeightedItem>)
    ensures
        sum(weights(items)) == items.fold_left(
            0int,
            |total: int, item: WeightedItem| total + item.1,
        ),
    decreases items.len(),
{
    if items.len() > 0 {
        lemma_weights_are_summed(items.drop_last());
        assert(weights(items).drop_last() =~= weights(items.drop_last()));
    }
}

/// The weights of a choice are in range exactly where there is nothing to choose from, or where all
/// are positive and their sum, counted once for every item, can be held.
pub proof fn few_free_bytes_are_in_range(items: Seq<WeightedItem>)
    ensures
        weights_in_range(items) <==> items.len() <= 1 || ((forall|i: int|
            0 <= i < items.len() ==> (#[trigger] items[i]).1 > 0) && items.len() * items.fold_left(
            0int,
            |total: int, item: WeightedItem| total + item.1,
        ) <= isize::MAX),
{
    lemma_weights_are_summed(items);
    assert forall|i: int| 0 <= i < items.len() implies weights(items)[i] == (
    #[trigger] items[i]).1 by {}
    if weights_in_range(items) && items.len() > 1 {
        assert forall|i: int| 0 <= i < items.len() implies (#[trigger] items[i]).1 > 0 by {
            assert(weights(items)[i] > 0);
        }
    }
}

} // verus!
