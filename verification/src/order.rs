//! Sorting by integer keys. A sort is stated as the order it puts the places
//! of a list into, and ties keep the order they came in.

use vstd::prelude::*;
use vstd::relations::{antisymmetric, reflexive, sorted_by, strongly_connected, total_ordering, transitive};
use vstd::seq_lib::lemma_sorted_unique;

verus! {

/// What a list is sorted by: four integers, the first the most significant.
#[derive(Debug, Clone, Copy, PartialEq, Eq, Structural)]
pub struct Key(pub i128, pub i128, pub i128, pub i128);

/// The order of keys.
pub open spec fn key_lt(a: Key, b: Key) -> bool {
    ||| a.0 < b.0
    ||| a.0 == b.0 && a.1 < b.1
    ||| a.0 == b.0 && a.1 == b.1 && a.2 < b.2
    ||| a.0 == b.0 && a.1 == b.1 && a.2 == b.2 && a.3 < b.3
}

fn is_before(a: &Key, b: &Key) -> (r: bool)
    ensures
        r == key_lt(*a, *b),
{
    if a.0 != b.0 {
        a.0 < b.0
    } else if a.1 != b.1 {
        a.1 < b.1
    } else if a.2 != b.2 {
        a.2 < b.2
    } else {
        a.3 < b.3
    }
}

/// Place `a` comes no later than place `b`: by key, and by place among equals.
pub open spec fn comes_first(keys: Seq<Key>, a: int, b: int) -> bool {
    key_lt(keys[a], keys[b]) || (keys[a] == keys[b] && a <= b)
}

/// The places of a list of that length, in their own order.
pub open spec fn places(n: nat) -> Seq<int> {
    Seq::new(n, |i: int| i)
}

/// Machine integers as integers.
pub open spec fn ints(s: Seq<usize>) -> Seq<int> {
    Seq::new(s.len(), |i: int| s[i] as int)
}

/// Every place once, each no later than those it comes first of.
pub open spec fn is_stable_order(keys: Seq<Key>, order: Seq<int>) -> bool {
    &&& order.to_multiset() == places(keys.len()).to_multiset()
    &&& sorted_by(order, |a: int, b: int| comes_first(keys, a, b))
}

/// The order a stable sort puts the places of a list into.
pub open spec fn order_of(keys: Seq<Key>) -> Seq<int> {
    choose|order: Seq<int>| #[trigger] is_stable_order(keys, order)
}

/// The items of a list at the given places.
pub open spec fn picked<A>(items: Seq<A>, order: Seq<int>) -> Seq<A> {
    Seq::new(order.len(), |i: int| items[order[i]])
}

proof fn lemma_total(keys: Seq<Key>)
    ensures
        total_ordering(|a: int, b: int| comes_first(keys, a, b)),
{
    let leq = |a: int, b: int| comes_first(keys, a, b);
    assert(reflexive(leq));
    assert(antisymmetric(leq));
    assert(transitive(leq));
    assert(strongly_connected(leq));
}

/// There is but one stable order.
pub proof fn lemma_order_unique(keys: Seq<Key>, order: Seq<int>)
    requires
        is_stable_order(keys, order),
    ensures
        order == order_of(keys),
{
    lemma_total(keys);
    lemma_sorted_unique(order, order_of(keys), |a: int, b: int| comes_first(keys, a, b));
}

/// Every list of keys has a stable order.
pub proof fn lemma_order_exists(keys: Seq<Key>)
    ensures
        is_stable_order(keys, order_of(keys)),
{
    let leq = |a: int, b: int| comes_first(keys, a, b);
    lemma_total(keys);
    let order = places(keys.len()).sort_by(leq);
    places(keys.len()).lemma_sort_by_ensures(leq);
    assert(is_stable_order(keys, order));
}

/// A stable order holds every place of the list exactly once.
pub proof fn lemma_order_places(keys: Seq<Key>, order: Seq<int>)
    requires
        is_stable_order(keys, order),
    ensures
        order.len() == keys.len(),
        order.no_duplicates(),
        forall|i: int| 0 <= i < order.len() ==> 0 <= #[trigger] order[i] < keys.len(),
        forall|p: int| 0 <= p < keys.len() ==> #[trigger] order.contains(p),
{
    let own = places(keys.len());
    order.to_multiset_ensures();
    own.to_multiset_ensures();
    own.lemma_multiset_has_no_duplicates();
    order.lemma_multiset_has_no_duplicates_conv();
    assert forall|i: int| 0 <= i < order.len() implies 0 <= #[trigger] order[i] < keys.len() by {
        assert(order.contains(order[i]));
        assert(order.to_multiset().count(order[i]) > 0);
        assert(own.contains(order[i]));
    }
    assert forall|p: int| 0 <= p < keys.len() implies #[trigger] order.contains(p) by {
        assert(own[p] == p);
        assert(own.contains(p));
        assert(own.to_multiset().count(p) > 0);
    }
}

/// The order a stable sort by these keys puts a list into.
pub fn order(keys: &Vec<Key>) -> (r: Vec<usize>)
    ensures
        ints(r@) == order_of(keys@),
        is_stable_order(keys@, ints(r@)),
{
    let mut out: Vec<usize> = Vec::new();
    let mut n: usize = 0;
    let ghost leq = |a: int, b: int| comes_first(keys@, a, b);
    proof {
        assert(ints(out@) =~= places(0));
    }
    while n < keys.len()
        invariant
            n <= keys@.len(),
            leq == (|a: int, b: int| comes_first(keys@, a, b)),
            out@.len() == n,
            forall|i: int| 0 <= i < n ==> (#[trigger] out@[i]) < n,
            ints(out@).to_multiset() == places(n as nat).to_multiset(),
            sorted_by(ints(out@), leq),
        decreases keys@.len() - n,
    {
        let mut at: usize = n;
        while at > 0 && is_before(&keys[n], &keys[out[at - 1]])
            invariant
                at <= n < keys@.len(),
                out@.len() == n,
                forall|i: int| 0 <= i < n ==> (#[trigger] out@[i]) < n,
                forall|i: int|
                    at <= i < n ==> key_lt(keys@[n as int], keys@[#[trigger] out@[i] as int]),
            decreases at,
        {
            at -= 1;
        }
        let ghost was = ints(out@);
        out.insert(at, n);
        proof {
            let now = ints(out@);
            assert(now =~= was.insert(at as int, n as int));
            vstd::seq_lib::to_multiset_insert(was, at as int, n as int);
            vstd::seq_lib::to_multiset_build(places(n as nat), n as int);
            assert(places((n + 1) as nat) =~= places(n as nat).push(n as int));
            assert forall|i: int, j: int| 0 <= i < j < now.len() implies #[trigger] leq(
                now[i],
                now[j],
            ) by {
                if i < at && j < at {
                    assert(leq(was[i], was[j]));
                } else if i > at {
                    assert(leq(was[i - 1], was[j - 1]));
                } else if i == at {
                    assert(was[j - 1] == out@[j]);
                    assert(key_lt(keys@[n as int], keys@[now[j]]));
                } else if j == at {
                    assert(was[i] == now[i] && was[at - 1] == now[at - 1]);
                    if i < at - 1 {
                        assert(leq(was[i], was[at - 1]));
                    }
                    assert(!key_lt(keys@[n as int], keys@[was[at - 1]]));
                } else {
                    assert(leq(was[i], was[j - 1]));
                }
            }
            assert(sorted_by(now, leq));
        }
        n += 1;
    }
    proof {
        lemma_order_unique(keys@, ints(out@));
    }
    out
}

proof fn lemma_picked_push<A>(items: Seq<A>, order: Seq<int>, p: int)
    ensures
        picked(items, order.push(p)) == picked(items, order).push(items[p]),
{
    assert(picked(items, order.push(p)) =~= picked(items, order).push(items[p]));
}

/// Picking the places one by one picks every item.
proof fn lemma_picked_places<A>(items: Seq<A>)
    ensures
        picked(items, places(items.len())) == items,
{
    assert(picked(items, places(items.len())) =~= items);
}

proof fn lemma_picked_multiset<A>(items: Seq<A>, a: Seq<int>, b: Seq<int>)
    requires
        a.to_multiset() == b.to_multiset(),
    ensures
        picked(items, a).to_multiset() == picked(items, b).to_multiset(),
    decreases a.len(),
{
    broadcast use vstd::multiset::group_multiset_axioms;

    a.to_multiset_ensures();
    b.to_multiset_ensures();
    if a.len() == 0 {
        assert(picked(items, a) =~= picked(items, b));
    } else {
        let x = a.last();
        assert(a.contains(x));
        assert(b.to_multiset().count(x) > 0);
        let j = choose|j: int| 0 <= j < b.len() && b[j] == x;
        let a1 = a.drop_last();
        let b1 = b.remove(j);
        assert(a =~= a1.push(x));
        a1.to_multiset_ensures();
        assert(a1.to_multiset() =~= a.to_multiset().remove(x));
        assert(b1.to_multiset() =~= b.to_multiset().remove(x));
        lemma_picked_multiset(items, a1, b1);
        lemma_picked_push(items, a1, x);
        picked(items, a1).to_multiset_ensures();
        picked(items, b1).to_multiset_ensures();
        assert(picked(items, b) =~= picked(items, b1).insert(j, items[x]));
        vstd::seq_lib::to_multiset_insert(picked(items, b1), j, items[x]);
    }
}

/// Sorting moves items about: none is lost and none comes twice.
pub proof fn law_sorting_keeps_items<A>(items: Seq<A>, keys: Seq<Key>, order: Seq<int>)
    requires
        items.len() == keys.len(),
        is_stable_order(keys, order),
    ensures
        picked(items, order).to_multiset() == items.to_multiset(),
        picked(items, order).len() == items.len(),
{
    lemma_picked_multiset(items, order, places(items.len()));
    lemma_picked_places(items);
    picked(items, order).to_multiset_ensures();
    items.to_multiset_ensures();
}

} // verus!
