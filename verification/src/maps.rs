//! Walking ordered maps.

use std::collections::{BTreeMap, BTreeSet};
use vstd::laws_cmp::obeys_cmp;
use vstd::prelude::*;
use vstd::std_specs::btree::increasing_seq;
use vstd::std_specs::cmp::OrdSpec;
use vstd::std_specs::iter::IteratorSpec;

verus! {

/// The keys of a map, in ascending order.
pub fn ordered_keys<K: Copy + Ord, V>(map: &BTreeMap<K, V>) -> (keys: Vec<K>)
    requires
        obeys_cmp::<K>(),
    ensures
        keys@.to_set() == map@.dom(),
        keys@.no_duplicates(),
        increasing_seq(keys@),
{
    let mut keys: Vec<K> = Vec::new();
    let walk = map.iter();
    let ghost pairs: Seq<(&K, &V)> = walk.remaining();
    let ghost order: Seq<K> = pairs.map_values(|kv: (&K, &V)| *kv.0);
    proof {
        broadcast use vstd::std_specs::btree::group_btree_axioms;

        assert(order.to_set() =~= map@.dom()) by {
            assert forall|k: K| order.to_set().contains(k) == map@.dom().contains(k) by {
                if order.contains(k) {
                    let i = choose|i: int| 0 <= i < order.len() && order[i] == k;
                    assert(map@.contains_key(*pairs[i].0));
                }
                if map@.contains_key(k) {
                    assert(pairs.contains((&k, &map@[k])));
                    let i = choose|i: int| 0 <= i < pairs.len() && pairs[i] == (&k, &map@[k]);
                    assert(order[i] == k);
                }
            }
        }
        assert(order.no_duplicates()) by {
            assert forall|i: int, j: int| 0 <= i < j < order.len() implies order[i] != order[j] by {
                assert(pairs[i] != pairs[j]);
                assert(map@[*pairs[i].0] == *pairs[i].1);
                assert(map@[*pairs[j].0] == *pairs[j].1);
            }
        }
    }
    for pair in it: walk
        invariant
            order == it.seq().map_values(|kv: (&K, &V)| *kv.0),
            keys@ == order.take(it.index()),
    {
        proof {
            assert(order.take(it.index()).push(*pair.0) =~= order.take(it.index() + 1));
        }
        keys.push(*pair.0);
    }
    proof {
        assert(keys@ =~= order);
    }
    keys
}

/// An increasing sequence of `u32` ascends as integers do.
pub proof fn lemma_increasing_u32(s: Seq<u32>)
    requires
        increasing_seq(s),
    ensures
        forall|i: int, j: int| 0 <= i < j < s.len() ==> #[trigger] s[i] < #[trigger] s[j],
{
    broadcast use vstd::std_specs::btree::group_btree_axioms;

    assert forall|i: int, j: int| 0 <= i < j < s.len() implies #[trigger] s[i]
        < #[trigger] s[j] by {
        assert(s[i].cmp_spec(&s[j]) is Less);
    }
}

/// An increasing sequence of `u128` ascends as integers do.
pub proof fn lemma_increasing_u128(s: Seq<u128>)
    requires
        increasing_seq(s),
    ensures
        forall|i: int, j: int| 0 <= i < j < s.len() ==> #[trigger] s[i] < #[trigger] s[j],
{
    broadcast use vstd::std_specs::btree::group_btree_axioms;

    assert forall|i: int, j: int| 0 <= i < j < s.len() implies #[trigger] s[i]
        < #[trigger] s[j] by {
        assert(s[i].cmp_spec(&s[j]) is Less);
    }
}

/// The numbers ascend strictly.
pub open spec fn ascends(s: Seq<u64>) -> bool {
    forall|i: int, j: int| 0 <= i < j < s.len() ==> #[trigger] s[i] < #[trigger] s[j]
}

/// The members of a finite set, in ascending order.
pub open spec fn in_order(set: Set<u64>) -> Seq<u64> {
    choose|s: Seq<u64>| #[trigger] ascends(s) && s.to_set() == set
}

/// There is only one way to put the members of a set in ascending order.
proof fn lemma_one_order(a: Seq<u64>, b: Seq<u64>)
    requires
        ascends(a),
        ascends(b),
        a.to_set() == b.to_set(),
    ensures
        a == b,
    decreases a.len(),
{
    if a.len() == 0 {
        if b.len() > 0 {
            assert(b.to_set().contains(b[0]));
        }
        assert(a =~= b);
    } else if b.len() == 0 {
        assert(a.to_set().contains(a[0]));
    } else {
        let x = a.last();
        let y = b.last();
        assert(a.to_set().contains(a[a.len() - 1]));
        assert(b.to_set().contains(b[b.len() - 1]));
        let i = choose|i: int| 0 <= i < a.len() && a[i] == y;
        let j = choose|j: int| 0 <= j < b.len() && b[j] == x;
        assert(a[i] == y && b[j] == x);
        assert(x == y);
        let rest_a = a.drop_last();
        let rest_b = b.drop_last();
        assert forall|n: u64| rest_a.to_set().contains(n) == rest_b.to_set().contains(n) by {
            if rest_a.contains(n) {
                let k = choose|k: int| 0 <= k < rest_a.len() && rest_a[k] == n;
                assert(a[k] == n);
                assert(a.to_set().contains(n));
                assert(b.to_set().contains(n));
                let m = choose|m: int| 0 <= m < b.len() && b[m] == n;
                assert(a[k] < a[a.len() - 1]);
                assert(rest_b[m] == n);
            }
            if rest_b.contains(n) {
                let k = choose|k: int| 0 <= k < rest_b.len() && rest_b[k] == n;
                assert(b[k] == n);
                assert(b.to_set().contains(n));
                assert(a.to_set().contains(n));
                let m = choose|m: int| 0 <= m < a.len() && a[m] == n;
                assert(b[k] < b[b.len() - 1]);
                assert(rest_a[m] == n);
            }
        }
        assert(rest_a.to_set() =~= rest_b.to_set());
        lemma_one_order(rest_a, rest_b);
        assert(a =~= rest_a.push(x));
        assert(b =~= rest_b.push(y));
    }
}

/// An ascending sequence is its members in ascending order.
pub proof fn lemma_in_order(s: Seq<u64>)
    requires
        ascends(s),
    ensures
        in_order(s.to_set()) == s,
{
    let chosen = in_order(s.to_set());
    assert(ascends(chosen) && chosen.to_set() == s.to_set());
    lemma_one_order(chosen, s);
}

/// The greatest member of a finite set.
proof fn greatest(set: Set<u64>) -> (member: u64)
    requires
        set.finite(),
        set.len() > 0,
    ensures
        set.contains(member),
        forall|other: u64| #[trigger] set.contains(other) ==> other <= member,
    decreases set.len(),
{
    let some = set.choose();
    let rest = set.remove(some);
    if rest.len() == 0 {
        assert forall|other: u64| #[trigger] set.contains(other) implies other <= some by {
            if other != some {
                assert(rest.contains(other));
            }
        }
        some
    } else {
        let best = greatest(rest);
        assert forall|other: u64| #[trigger] set.contains(other) implies other <= some || other
            <= best by {
            if other != some {
                assert(rest.contains(other));
            }
        }
        if some < best {
            best
        } else {
            some
        }
    }
}

/// A finite set can be put in ascending order.
proof fn some_order(set: Set<u64>) -> (order: Seq<u64>)
    requires
        set.finite(),
    ensures
        ascends(order),
        order.to_set() == set,
    decreases set.len(),
{
    if set.len() == 0 {
        assert(Seq::<u64>::empty().to_set() =~= set);
        Seq::empty()
    } else {
        let last = greatest(set);
        let before = some_order(set.remove(last));
        let order = before.push(last);
        assert forall|n: u64| order.to_set().contains(n) == set.contains(n) by {
            assert(before.to_set().contains(n) == set.remove(last).contains(n));
            if before.contains(n) {
                let k = choose|k: int| 0 <= k < before.len() && before[k] == n;
                assert(order[k] == n);
            }
            assert(order[before.len() as int] == last);
            if order.contains(n) {
                let k = choose|k: int| 0 <= k < order.len() && order[k] == n;
                if k < before.len() {
                    assert(before[k] == n);
                }
            }
        }
        assert forall|i: int, j: int| 0 <= i < j < order.len() implies #[trigger] order[i]
            < #[trigger] order[j] by {
            if j == before.len() {
                assert(before.to_set().contains(before[i]));
                assert(set.remove(last).contains(before[i]));
            } else {
                assert(before[i] < before[j]);
            }
        }
        assert(order.to_set() =~= set);
        order
    }
}

/// The members of a finite set in ascending order are its members, in ascending order.
pub proof fn lemma_has_order(set: Set<u64>)
    requires
        set.finite(),
    ensures
        ascends(in_order(set)),
        in_order(set).to_set() == set,
{
    let order = some_order(set);
    assert(ascends(order) && order.to_set() == set);
}

/// A sequence without the numbers that are not in a set.
pub open spec fn only(s: Seq<u64>, set: Set<u64>) -> Seq<u64>
    decreases s.len(),
{
    if s.len() == 0 {
        Seq::empty()
    } else if set.contains(s.last()) {
        only(s.drop_last(), set).push(s.last())
    } else {
        only(s.drop_last(), set)
    }
}

/// Leaving out numbers keeps the others in order.
pub proof fn lemma_only(s: Seq<u64>, set: Set<u64>)
    requires
        ascends(s),
    ensures
        ascends(only(s, set)),
        only(s, set).to_set() == s.to_set().intersect(set),
    decreases s.len(),
{
    let kept = only(s, set);
    if s.len() > 0 {
        let rest = s.drop_last();
        let before = only(rest, set);
        lemma_only(rest, set);
        assert forall|n: u64| kept.to_set().contains(n) == s.to_set().intersect(set).contains(n) by {
            assert(before.to_set().contains(n) == rest.to_set().intersect(set).contains(n));
            if rest.contains(n) {
                let k = choose|k: int| 0 <= k < rest.len() && rest[k] == n;
                assert(s[k] == n);
            }
            if before.contains(n) {
                let k = choose|k: int| 0 <= k < before.len() && before[k] == n;
                assert(kept[k] == n);
            }
            if s.contains(n) {
                let k = choose|k: int| 0 <= k < s.len() && s[k] == n;
                if k < rest.len() {
                    assert(rest[k] == n);
                }
            }
            if kept.contains(n) {
                let k = choose|k: int| 0 <= k < kept.len() && kept[k] == n;
                if k < before.len() {
                    assert(before[k] == n);
                } else {
                    assert(s[s.len() - 1] == n);
                }
            }
            if n == s.last() && set.contains(n) {
                assert(kept[kept.len() - 1] == n);
                assert(s[s.len() - 1] == n);
            }
        }
        assert forall|i: int, j: int| 0 <= i < j < kept.len() implies #[trigger] kept[i]
            < #[trigger] kept[j] by {
            if j == before.len() {
                assert(before.to_set().contains(before[i]));
                assert(rest.to_set().contains(before[i]));
                let k = choose|k: int| 0 <= k < rest.len() && rest[k] == before[i];
                assert(s[k] == before[i]);
            } else {
                assert(before[i] < before[j]);
            }
        }
    }
    assert(kept.to_set() =~= s.to_set().intersect(set));
}

/// The members of a set, in ascending order.
pub fn ordered_members(set: &BTreeSet<u64>) -> (members: Vec<u64>)
    ensures
        members@ == in_order(set@),
        ascends(members@),
        members@.to_set() == set@,
{
    let mut members: Vec<u64> = Vec::new();
    let walk = set.iter();
    let ghost refs: Seq<&u64> = walk.remaining();
    let ghost order: Seq<u64> = refs.unref();
    proof {
        broadcast use vstd::std_specs::btree::group_btree_axioms;
        broadcast use vstd::laws_cmp::group_laws_cmp;

        assert(order.to_set() == set@);
        assert(obeys_cmp::<&u64>());
        assert(increasing_seq(refs));
        assert forall|i: int, j: int| 0 <= i < j < order.len() implies #[trigger] order[i]
            < #[trigger] order[j] by {
            assert(OrdSpec::cmp_spec(&refs[i], &refs[j]) is Less);
        }
    }
    for member in it: walk
        invariant
            order == it.seq().unref(),
            members@ == order.take(it.index()),
    {
        proof {
            assert(order.take(it.index()).push(*member) =~= order.take(it.index() + 1));
        }
        members.push(*member);
    }
    proof {
        assert(members@ =~= order);
        lemma_in_order(order);
    }
    members
}

} // verus!
