//! What windows and their selection promise.

use crate::config::MAX_WINDOW;
use crate::order::{
    comes_first, key_lt, law_sorting_keeps_items, lemma_order_exists, lemma_order_places, order_of,
};
use crate::select::{
    dealt, deepest, first_axes, first_axis, first_of, kept, keys_of, passes, rank_key, round,
    selected, sorted, strata, stratum, CutoffView, Sorting,
};
use crate::text::{lemma_listed, listed, strictly_sorted};
use crate::window::{
    anchor_places, anchors_window, by_id, clusters_of, count_below, count_in, count_upto, room_of,
    share_of, span_of, stepped_back, stepped_on, widened, wish, Row, WindowView,
};
use vstd::multiset::Multiset;
use vstd::prelude::*;

verus! {

// --- clusters ------------------------------------------------------------

/// Lists put end to end.
pub open spec fn end_to_end(lists: Seq<Seq<usize>>) -> Seq<usize>
    decreases lists.len(),
{
    if lists.len() == 0 {
        seq![]
    } else {
        end_to_end(lists.drop_last()) + lists.last()
    }
}

/// An anchor is exactly a message that is sharp enough and not protected: a
/// protected message never makes a window exist.
pub proof fn law_anchors_are_sharp_and_unprotected(rows: Seq<Row>, place: usize)
    requires
        rows.len() <= usize::MAX,
    ensures
        anchor_places(rows).contains(place) <==> place < rows.len() && anchors_window(
            rows[place as int],
        ),
    decreases rows.len(),
{
    if rows.len() > 0 {
        let init = rows.drop_last();
        law_anchors_are_sharp_and_unprotected(init, place);
        let was = anchor_places(init);
        let now = anchor_places(rows);
        if now.contains(place) {
            let k = choose|k: int| 0 <= k < now.len() && now[k] == place;
            if k < was.len() {
                assert(was[k] == place);
                assert(was.contains(place));
            }
        }
        if was.contains(place) {
            let k = choose|k: int| 0 <= k < was.len() && was[k] == place;
            assert(now[k] == place);
        }
        if place == rows.len() - 1 && anchors_window(rows[place as int]) {
            assert(now[now.len() - 1] == place);
        }
    }
}

/// Every anchor belongs to exactly one window: the clusters put end to end are
/// the anchors.
pub proof fn law_clusters_partition_the_anchors(places: Seq<usize>, gap: int)
    ensures
        end_to_end(clusters_of(places, gap)) == places,
    decreases places.len(),
{
    if places.len() > 0 {
        let init = places.drop_last();
        let a = places.last();
        law_clusters_partition_the_anchors(init, gap);
        let was = clusters_of(init, gap);
        let now = clusters_of(places, gap);
        assert(places =~= init.push(a));
        if was.len() > 0 && a - was.last().last() <= gap {
            assert(now.drop_last() =~= was.drop_last());
            assert(end_to_end(now) =~= end_to_end(was).push(a));
        } else {
            assert(now.drop_last() =~= was);
            assert(end_to_end(now) =~= end_to_end(was).push(a));
        }
    }
}

/// Members of one cluster follow each other within the gap; from one cluster
/// to the next it is further than the gap.
pub proof fn law_clusters_keep_their_distance(places: Seq<usize>, gap: int)
    ensures
        forall|c: int|
            0 <= c < clusters_of(places, gap).len() ==> (#[trigger] clusters_of(
                places,
                gap,
            )[c]).len() > 0,
        forall|c: int, m: int|
            0 <= c < clusters_of(places, gap).len() && 0 < m < clusters_of(places, gap)[c].len()
                ==> (#[trigger] clusters_of(places, gap)[c][m]) - clusters_of(places, gap)[c][m - 1]
                <= gap,
        forall|c: int|
            0 < c < clusters_of(places, gap).len() ==> (#[trigger] clusters_of(places, gap)[c])[0]
                - clusters_of(places, gap)[c - 1].last() > gap,
    decreases places.len(),
{
    if places.len() > 0 {
        let init = places.drop_last();
        let a = places.last();
        law_clusters_keep_their_distance(init, gap);
        let was = clusters_of(init, gap);
        let now = clusters_of(places, gap);
        let top = was.len() - 1;
        assert forall|c: int| 0 <= c < now.len() implies (#[trigger] now[c]).len() > 0 by {
            if c < top {
                assert(now[c] == was[c]);
            } else if c == top {
                assert(was[c].len() > 0);
            }
        }
        assert forall|c: int, m: int|
            0 <= c < now.len() && 0 < m < now[c].len() implies (#[trigger] now[c][m])
            - now[c][m - 1] <= gap by {
            if c < top {
                assert(now[c] == was[c]);
                assert(was[c][m] - was[c][m - 1] <= gap);
            } else if c == top {
                assert(was[c].len() > 0);
                if m < was[c].len() {
                    assert(now[c][m] == was[c][m] && now[c][m - 1] == was[c][m - 1]);
                    assert(was[c][m] - was[c][m - 1] <= gap);
                }
            }
        }
        assert forall|c: int| 0 < c < now.len() implies (#[trigger] now[c])[0] - now[c - 1].last()
            > gap by {
            if c < top {
                assert(now[c] == was[c] && now[c - 1] == was[c - 1]);
            } else if c == top {
                assert(was[c].len() > 0);
                assert(now[c][0] == was[c][0]);
                assert(now[c - 1] == was[c - 1]);
            } else {
                assert(now[c] == seq![a]);
                assert(now[c - 1] == was[c - 1]);
            }
        }
    }
}

/// A window stays inside its dialog, holds its cluster whole, and reaches at
/// most `pad` messages beyond it on either side.
pub proof fn law_window_clamps_at_dialog_edges(members: Seq<usize>, pad: int, len: int)
    requires
        members.len() > 0,
        forall|i: int, j: int|
            0 <= i <= j < members.len() ==> (#[trigger] members[i]) <= (#[trigger] members[j]),
        members.last() < len,
        pad >= 0,
    ensures
        0 <= span_of(members, pad, len).0,
        span_of(members, pad, len).1 < len,
        members[0] - pad <= span_of(members, pad, len).0,
        span_of(members, pad, len).1 <= members.last() + pad,
        forall|i: int|
            0 <= i < members.len() ==> span_of(members, pad, len).0 <= #[trigger] members[i]
                <= span_of(members, pad, len).1,
{
    assert forall|i: int| 0 <= i < members.len() implies span_of(members, pad, len).0
        <= #[trigger] members[i] <= span_of(members, pad, len).1 by {
        assert(members[0] <= members[i]);
        assert(members[i] <= members[members.len() - 1]);
    }
}

// --- widening ------------------------------------------------------------

pub proof fn lemma_counts(rows: Seq<Row>, k: int)
    requires
        by_id(rows),
        0 <= k < rows.len(),
    ensures
        count_below(rows, rows[k].msg_id) == k,
        count_upto(rows, rows[k].msg_id) == k + 1,
    decreases rows.len(),
{
    let init = rows.drop_last();
    assert(by_id(init)) by {
        assert forall|i: int, j: int| 0 <= i < j < init.len() implies (#[trigger] init[i]).msg_id
            < (#[trigger] init[j]).msg_id by {
            assert(init[i] == rows[i] && init[j] == rows[j]);
        }
    }
    if k < rows.len() - 1 {
        lemma_counts(init, k);
        assert(rows[k].msg_id < rows[rows.len() - 1].msg_id);
    } else {
        lemma_all_below(init, rows[k].msg_id);
        assert forall|i: int| 0 <= i < init.len() implies (#[trigger] init[i]).msg_id
            < rows[k].msg_id by {
            assert(init[i] == rows[i]);
        }
    }
}

proof fn lemma_all_below(rows: Seq<Row>, id: i32)
    ensures
        (forall|i: int| 0 <= i < rows.len() ==> (#[trigger] rows[i]).msg_id < id) ==> count_below(
            rows,
            id,
        ) == rows.len() && count_upto(rows, id) == rows.len(),
    decreases rows.len(),
{
    if rows.len() > 0 && (forall|i: int| 0 <= i < rows.len() ==> (#[trigger] rows[i]).msg_id < id) {
        let init = rows.drop_last();
        assert forall|i: int| 0 <= i < init.len() implies (#[trigger] init[i]).msg_id < id by {
            assert(init[i] == rows[i]);
        }
        lemma_all_below(init, id);
        assert(rows[rows.len() - 1].msg_id < id);
    }
}

pub proof fn lemma_count_in(rows: Seq<Row>, lo: int, hi: int)
    requires
        by_id(rows),
        0 <= lo <= hi < rows.len(),
    ensures
        count_in(rows, rows[lo].msg_id, rows[hi].msg_id) == hi - lo + 1,
    decreases rows.len(),
{
    let (from, to) = (rows[lo].msg_id, rows[hi].msg_id);
    let init = rows.drop_last();
    assert(by_id(init)) by {
        assert forall|i: int, j: int| 0 <= i < j < init.len() implies (#[trigger] init[i]).msg_id
            < (#[trigger] init[j]).msg_id by {
            assert(init[i] == rows[i] && init[j] == rows[j]);
        }
    }
    if hi < rows.len() - 1 {
        assert(init[lo] == rows[lo] && init[hi] == rows[hi]);
        lemma_count_in(init, lo, hi);
        assert(to < rows[rows.len() - 1].msg_id);
    } else if lo < hi {
        assert(init[lo] == rows[lo] && init[hi - 1] == rows[hi - 1]);
        lemma_count_in(init, lo, hi - 1);
        lemma_count_in_upto(init, from, init[hi - 1].msg_id, to);
    } else {
        lemma_count_in_above(init, from, to);
    }
}

/// Beyond the last message a range holds no more.
proof fn lemma_count_in_upto(rows: Seq<Row>, from: i32, last: i32, to: i32)
    requires
        forall|i: int| 0 <= i < rows.len() ==> (#[trigger] rows[i]).msg_id <= last,
        last <= to,
    ensures
        count_in(rows, from, to) == count_in(rows, from, last),
    decreases rows.len(),
{
    if rows.len() > 0 {
        let init = rows.drop_last();
        assert forall|i: int| 0 <= i < init.len() implies (#[trigger] init[i]).msg_id <= last by {
            assert(init[i] == rows[i]);
        }
        lemma_count_in_upto(init, from, last, to);
        assert(rows[rows.len() - 1].msg_id <= last);
    }
}

/// Before the first message of a range there is nothing of it.
proof fn lemma_count_in_above(rows: Seq<Row>, from: i32, to: i32)
    requires
        forall|i: int| 0 <= i < rows.len() ==> (#[trigger] rows[i]).msg_id < from,
    ensures
        count_in(rows, from, to) == 0,
    decreases rows.len(),
{
    if rows.len() > 0 {
        let init = rows.drop_last();
        assert forall|i: int| 0 <= i < init.len() implies (#[trigger] init[i]).msg_id < from by {
            assert(init[i] == rows[i]);
        }
        lemma_count_in_above(init, from, to);
        assert(rows[rows.len() - 1].msg_id < from);
    }
}

/// The window covers the messages of its dialog from place `lo` to place
/// `hi`.
pub open spec fn covers(w: WindowView, rows: Seq<Row>, lo: int, hi: int) -> bool {
    &&& 0 <= lo <= hi < rows.len()
    &&& w.from_id == rows[lo].msg_id
    &&& w.to_id == rows[hi].msg_id
    &&& w.total == hi - lo + 1
}

proof fn lemma_shares(before: i64, after: i64, room: int)
    requires
        0 <= room,
    ensures
        0 <= share_of(before, after, room),
        0 <= share_of(after, before, room),
        share_of(before, after, room) + share_of(after, before, room) <= room,
{
    let (b, a) = (wish(before), wish(after));
    let asked = b + a;
    if asked > 0 {
        assert(0 <= b * room / asked) by (nonlinear_arith)
            requires
                0 <= b,
                0 <= room,
                0 < asked,
        ;
        assert(0 <= a * room / asked) by (nonlinear_arith)
            requires
                0 <= a,
                0 <= room,
                0 < asked,
        ;
        assert(b * room / asked + a * room / asked <= room) by (nonlinear_arith)
            requires
                asked == b + a,
                0 < asked,
                0 <= room,
        ;
    }
}

/// Widening never loses a message and never passes the ceiling: the wider
/// window covers the old one, and holds at most `MAX_WINDOW` messages unless
/// the old one already held more.
pub proof fn law_widening_covers_and_stays_under_the_ceiling(
    rows: Seq<Row>,
    w: WindowView,
    lo: int,
    hi: int,
    before: i64,
    after: i64,
) -> (wider: (int, int))
    requires
        by_id(rows),
        rows.len() <= usize::MAX,
        covers(w, rows, lo, hi),
    ensures
        covers(widened(rows, w, before, after), rows, wider.0, wider.1),
        wider.0 <= lo,
        hi <= wider.1,
        widened(rows, w, before, after).total <= MAX_WINDOW || widened(rows, w, before, after) == w,
{
    let room = room_of(w.total);
    if room == 0 {
        (lo, hi)
    } else {
        let b = share_of(before, after, room);
        let a = share_of(after, before, room);
        lemma_shares(before, after, room);
        lemma_counts(rows, lo);
        lemma_counts(rows, hi);
        let lo2 = if b <= lo {
            lo - b
        } else {
            0
        };
        let hi2 = if hi + a < rows.len() {
            hi + a
        } else {
            rows.len() - 1
        };
        assert(stepped_back(rows, w.from_id, b) == rows[lo2].msg_id);
        assert(stepped_on(rows, w.to_id, a) == rows[hi2].msg_id);
        lemma_count_in(rows, lo2, hi2);
        (lo2, hi2)
    }
}

/// A window that grew reaches further: its range is not the old one. So a
/// window that was widened once is never taken for one that was not.
pub proof fn law_a_grown_window_has_another_range(
    rows: Seq<Row>,
    w: WindowView,
    lo: int,
    hi: int,
    before: i64,
    after: i64,
)
    requires
        by_id(rows),
        rows.len() <= usize::MAX,
        covers(w, rows, lo, hi),
        widened(rows, w, before, after).total > w.total,
    ensures
        widened(rows, w, before, after).from_id < w.from_id || widened(
            rows,
            w,
            before,
            after,
        ).to_id > w.to_id,
{
    let (lo2, hi2) = law_widening_covers_and_stays_under_the_ceiling(
        rows,
        w,
        lo,
        hi,
        before,
        after,
    );
    if lo2 < lo {
        assert(rows[lo2].msg_id < rows[lo].msg_id);
    } else {
        assert(rows[hi].msg_id < rows[hi2].msg_id);
    }
}

// --- selection -----------------------------------------------------------

pub proof fn lemma_sorted_keeps(ws: Seq<WindowView>, by: Sorting)
    ensures
        sorted(ws, by).to_multiset() == ws.to_multiset(),
        sorted(ws, by).len() == ws.len(),
{
    lemma_order_exists(keys_of(ws, by));
    law_sorting_keeps_items(ws, keys_of(ws, by), order_of(keys_of(ws, by)));
}

proof fn lemma_no_items(ws: Seq<WindowView>)
    requires
        ws.len() == 0,
    ensures
        ws.to_multiset() == Multiset::<WindowView>::empty(),
{
    ws.to_multiset_ensures();
    assert forall|w: WindowView| #[trigger] ws.to_multiset().count(w) == 0 by {
        assert(!ws.contains(w));
    }
    assert(ws.to_multiset() =~= Multiset::<WindowView>::empty());
}

/// Everything in the groups.
spec fn in_groups(groups: Seq<Seq<WindowView>>) -> Multiset<WindowView>
    decreases groups.len(),
{
    if groups.len() == 0 {
        Multiset::empty()
    } else {
        in_groups(groups.drop_last()).add(groups.last().to_multiset())
    }
}

/// The first `r` of a group.
spec fn top(group: Seq<WindowView>, r: int) -> Seq<WindowView> {
    if r < group.len() {
        group.take(r)
    } else {
        group
    }
}

/// The first `r` of every group.
spec fn in_tops(groups: Seq<Seq<WindowView>>, r: int) -> Multiset<WindowView>
    decreases groups.len(),
{
    if groups.len() == 0 {
        Multiset::empty()
    } else {
        in_tops(groups.drop_last(), r).add(top(groups.last(), r).to_multiset())
    }
}

proof fn lemma_round_items(groups: Seq<Seq<WindowView>>, i: int)
    requires
        0 <= i,
    ensures
        in_tops(groups, i + 1) == in_tops(groups, i).add(round(groups, i).to_multiset()),
    decreases groups.len(),
{
    broadcast use vstd::multiset::group_multiset_axioms;

    if groups.len() == 0 {
        lemma_no_items(round(groups, i));
        assert(in_tops(groups, i + 1) =~= in_tops(groups, i).add(round(groups, i).to_multiset()));
    } else {
        let init = groups.drop_last();
        let g = groups.last();
        lemma_round_items(init, i);
        if i < g.len() {
            assert(top(g, i + 1) =~= top(g, i).push(g[i]));
            top(g, i).to_multiset_ensures();
            round(init, i).to_multiset_ensures();
        } else {
            assert(top(g, i + 1) =~= top(g, i));
        }
        assert(in_tops(groups, i + 1) =~= in_tops(groups, i).add(round(groups, i).to_multiset()));
    }
}

proof fn lemma_dealt_items(groups: Seq<Seq<WindowView>>, rounds: nat)
    ensures
        dealt(groups, rounds).to_multiset() == in_tops(groups, rounds as int),
    decreases rounds,
{
    broadcast use vstd::multiset::group_multiset_axioms;

    if rounds == 0 {
        lemma_no_tops(groups);
        lemma_no_items(dealt(groups, rounds));
    } else {
        let before = (rounds - 1) as nat;
        lemma_dealt_items(groups, before);
        lemma_round_items(groups, before as int);
        vstd::seq_lib::lemma_multiset_commutative(
            dealt(groups, before),
            round(groups, before as int),
        );
    }
}

proof fn lemma_no_tops(groups: Seq<Seq<WindowView>>)
    ensures
        in_tops(groups, 0) == Multiset::<WindowView>::empty(),
    decreases groups.len(),
{
    broadcast use vstd::multiset::group_multiset_axioms;

    if groups.len() > 0 {
        lemma_no_tops(groups.drop_last());
        assert(top(groups.last(), 0) =~= Seq::<WindowView>::empty());
        lemma_no_items(top(groups.last(), 0));
        assert(in_tops(groups, 0) =~= Multiset::<WindowView>::empty());
    }
}

proof fn lemma_all_dealt(groups: Seq<Seq<WindowView>>, rounds: int)
    requires
        deepest(groups) <= rounds,
    ensures
        in_tops(groups, rounds) == in_groups(groups),
    decreases groups.len(),
{
    if groups.len() > 0 {
        lemma_all_dealt(groups.drop_last(), rounds);
    }
}

proof fn lemma_filter_split(
    ws: Seq<WindowView>,
    p: spec_fn(WindowView) -> bool,
    q: spec_fn(WindowView) -> bool,
    either: spec_fn(WindowView) -> bool,
)
    requires
        forall|w: WindowView| #[trigger] either(w) == (p(w) || q(w)),
        forall|w: WindowView| !(#[trigger] p(w) && #[trigger] q(w)),
    ensures
        ws.filter(either).to_multiset() == ws.filter(p).to_multiset().add(
            ws.filter(q).to_multiset(),
        ),
    decreases ws.len(),
{
    broadcast use vstd::multiset::group_multiset_axioms;

    if ws.len() == 0 {
        assert(ws.filter(p) =~= Seq::<WindowView>::empty());
        assert(ws.filter(q) =~= Seq::<WindowView>::empty());
        assert(ws.filter(either) =~= Seq::<WindowView>::empty());
        lemma_no_items(Seq::<WindowView>::empty());
        assert(ws.filter(either).to_multiset() =~= ws.filter(p).to_multiset().add(
            ws.filter(q).to_multiset(),
        ));
    } else {
        let init = ws.drop_last();
        let w = ws.last();
        lemma_filter_split(init, p, q, either);
        assert(ws =~= init.push(w));
        init.lemma_filter_push(w, p);
        init.lemma_filter_push(w, q);
        init.lemma_filter_push(w, either);
        init.filter(p).to_multiset_ensures();
        init.filter(q).to_multiset_ensures();
        init.filter(either).to_multiset_ensures();
        assert(either(w) == (p(w) || q(w)));
        assert(!(p(w) && q(w)));
        assert(ws.filter(either).to_multiset() =~= ws.filter(p).to_multiset().add(
            ws.filter(q).to_multiset(),
        ));
    }
}

/// The groups of a list of axes.
spec fn groups_of(ws: Seq<WindowView>, axes: Seq<Seq<char>>) -> Seq<Seq<WindowView>> {
    Seq::new(axes.len(), |a: int| stratum(ws, axes[a]))
}

proof fn lemma_groups_items(ws: Seq<WindowView>, axes: Seq<Seq<char>>)
    requires
        axes.no_duplicates(),
    ensures
        in_groups(groups_of(ws, axes)) == ws.filter(
            |w: WindowView| axes.contains(first_axis(w)),
        ).to_multiset(),
    decreases axes.len(),
{
    broadcast use vstd::multiset::group_multiset_axioms;

    let either = |w: WindowView| axes.contains(first_axis(w));
    if axes.len() == 0 {
        lemma_filter_none(ws, either);
        lemma_no_items(Seq::<WindowView>::empty());
        assert(groups_of(ws, axes) =~= Seq::<Seq<WindowView>>::empty());
    } else {
        let init = axes.drop_last();
        let a = axes.last();
        let p = |w: WindowView| init.contains(first_axis(w));
        let q = |w: WindowView| first_axis(w) == a;
        assert(init.no_duplicates()) by {
            assert forall|i: int, j: int|
                0 <= i < init.len() && 0 <= j < init.len() && i != j implies init[i] != init[j] by {
                assert(axes[i] != axes[j]);
            }
        }
        lemma_groups_items(ws, init);
        assert forall|w: WindowView| #[trigger] either(w) == (p(w) || q(w)) by {
            let x = first_axis(w);
            if axes.contains(x) {
                let k = choose|k: int| 0 <= k < axes.len() && axes[k] == x;
                if k < init.len() {
                    assert(init[k] == x);
                }
            }
            if init.contains(x) {
                let k = choose|k: int| 0 <= k < init.len() && init[k] == x;
                assert(axes[k] == x);
            }
            assert(axes[axes.len() - 1] == a);
        }
        assert forall|w: WindowView| !(#[trigger] p(w) && #[trigger] q(w)) by {
            if p(w) && q(w) {
                let k = choose|k: int| 0 <= k < init.len() && init[k] == first_axis(w);
                assert(axes[k] == a && axes[axes.len() - 1] == a);
            }
        }
        lemma_filter_split(ws, p, q, either);
        lemma_sorted_keeps(ws.filter(q), Sorting::Spread);
        assert(groups_of(ws, axes).drop_last() =~= groups_of(ws, init));
        assert(groups_of(ws, axes).last() == stratum(ws, a));
    }
}

proof fn lemma_filter_none(ws: Seq<WindowView>, p: spec_fn(WindowView) -> bool)
    requires
        forall|w: WindowView| !#[trigger] p(w),
    ensures
        ws.filter(p) == Seq::<WindowView>::empty(),
    decreases ws.len(),
{
    if ws.len() == 0 {
        assert(ws.filter(p) =~= Seq::<WindowView>::empty());
    } else {
        lemma_filter_none(ws.drop_last(), p);
        assert(ws =~= ws.drop_last().push(ws.last()));
        ws.drop_last().lemma_filter_push(ws.last(), p);
    }
}

proof fn lemma_filter_all(ws: Seq<WindowView>, p: spec_fn(WindowView) -> bool)
    requires
        forall|i: int| 0 <= i < ws.len() ==> p(#[trigger] ws[i]),
    ensures
        ws.filter(p) == ws,
    decreases ws.len(),
{
    if ws.len() == 0 {
        assert(ws.filter(p) =~= ws);
    } else {
        let init = ws.drop_last();
        assert forall|i: int| 0 <= i < init.len() implies p(#[trigger] init[i]) by {
            assert(init[i] == ws[i]);
        }
        lemma_filter_all(init, p);
        assert(p(ws[ws.len() - 1]));
        assert(ws =~= init.push(ws.last()));
        init.lemma_filter_push(ws.last(), p);
    }
}

/// Every set of names that a list holds can be listed in ascending order.
proof fn lemma_listable(names: Seq<Seq<char>>)
    ensures
        strictly_sorted(listed(names.to_set())),
        listed(names.to_set()).to_set() == names.to_set(),
    decreases names.len(),
{
    let s = crate::text::lemma_can_list(names);
    lemma_listed(s);
}

/// The groups hold every window once.
proof fn lemma_strata_items(ws: Seq<WindowView>)
    ensures
        in_groups(strata(ws)) == ws.to_multiset(),
{
    let names = first_axes(ws);
    lemma_listable(names);
    let axes = listed(names.to_set());
    assert(axes.no_duplicates()) by {
        assert forall|i: int, j: int|
            0 <= i < axes.len() && 0 <= j < axes.len() && i != j implies axes[i] != axes[j] by {
            if i < j {
                crate::text::lemma_text_lt_total(axes[i], axes[j]);
            } else {
                crate::text::lemma_text_lt_total(axes[j], axes[i]);
            }
        }
    }
    lemma_groups_items(ws, axes);
    assert(groups_of(ws, axes) =~= strata(ws));
    let p = |w: WindowView| axes.contains(first_axis(w));
    assert forall|i: int| 0 <= i < ws.len() implies p(#[trigger] ws[i]) by {
        assert(names[i] == first_axis(ws[i]));
        assert(names.to_set().contains(names[i]));
        assert(axes.to_set().contains(names[i]));
    }
    lemma_filter_all(ws, p);
}

/// Dealing by turns deals every window once.
pub proof fn law_dealing_keeps_windows(ws: Seq<WindowView>)
    ensures
        dealt(strata(ws), deepest(strata(ws))).to_multiset() == ws.to_multiset(),
        dealt(strata(ws), deepest(strata(ws))).len() == ws.len(),
{
    let groups = strata(ws);
    lemma_dealt_items(groups, deepest(groups));
    lemma_all_dealt(groups, deepest(groups) as int);
    lemma_strata_items(ws);
    dealt(groups, deepest(groups)).to_multiset_ensures();
    ws.to_multiset_ensures();
}

/// A sample is as large as asked for, or as large as there are windows.
pub proof fn law_sample_size(
    ws: Seq<WindowView>,
    limit: Option<usize>,
    n: usize,
    cutoff: Option<CutoffView>,
)
    ensures
        selected(ws, limit, Some(n), cutoff).len() == (if n < kept(ws, cutoff).len() {
            n as nat
        } else {
            kept(ws, cutoff).len()
        }),
{
    let fit = kept(ws, cutoff);
    lemma_sorted_keeps(fit, Sorting::Rank);
    let ranked = sorted(fit, Sorting::Rank);
    law_dealing_keeps_windows(ranked);
    let groups = strata(ranked);
    lemma_sorted_keeps(first_of(dealt(groups, deepest(groups)), n), Sorting::Place);
}

/// The sample goes round: whatever a later round deals, all earlier rounds
/// are dealt in full. With `n` beyond the first `rounds` rounds, every axis
/// has given its first `rounds` windows, or all it had.
pub proof fn law_sample_takes_the_axes_in_turn(
    groups: Seq<Seq<WindowView>>,
    rounds: nat,
    n: usize,
)
    requires
        rounds <= deepest(groups),
        dealt(groups, rounds).len() <= n,
    ensures
        dealt(groups, rounds).is_prefix_of(first_of(dealt(groups, deepest(groups)), n)),
        dealt(groups, rounds).to_multiset() == in_first_rounds(groups, rounds as int),
{
    lemma_dealt_prefix(groups, rounds, deepest(groups));
    lemma_dealt_items(groups, rounds);
    lemma_tops_open(groups, rounds as int);
    let all = dealt(groups, deepest(groups));
    let part = dealt(groups, rounds);
    assert(part =~= first_of(all, n).take(part.len() as int));
}

/// The first `r` windows of every group, or all a group has.
pub open spec fn in_first_rounds(groups: Seq<Seq<WindowView>>, r: int) -> Multiset<WindowView>
    decreases groups.len(),
{
    if groups.len() == 0 {
        Multiset::empty()
    } else {
        in_first_rounds(groups.drop_last(), r).add(
            (if r < groups.last().len() {
                groups.last().take(r)
            } else {
                groups.last()
            }).to_multiset(),
        )
    }
}

proof fn lemma_tops_open(groups: Seq<Seq<WindowView>>, r: int)
    ensures
        in_tops(groups, r) == in_first_rounds(groups, r),
    decreases groups.len(),
{
    if groups.len() > 0 {
        lemma_tops_open(groups.drop_last(), r);
    }
}

proof fn lemma_dealt_prefix(groups: Seq<Seq<WindowView>>, a: nat, b: nat)
    requires
        a <= b,
    ensures
        dealt(groups, a).len() <= dealt(groups, b).len(),
        dealt(groups, a) == dealt(groups, b).take(dealt(groups, a).len() as int),
    decreases b,
{
    if a < b {
        let c = (b - 1) as nat;
        lemma_dealt_prefix(groups, a, c);
        assert(dealt(groups, b).take(dealt(groups, a).len() as int) =~= dealt(groups, c).take(
            dealt(groups, a).len() as int,
        ));
    } else {
        assert(dealt(groups, b).take(dealt(groups, b).len() as int) =~= dealt(groups, b));
    }
}

proof fn lemma_prefix_items(ws: Seq<WindowView>, n: int)
    requires
        0 <= n <= ws.len(),
    ensures
        ws.take(n).to_multiset().subset_of(ws.to_multiset()),
{
    broadcast use vstd::multiset::group_multiset_axioms;

    assert(ws =~= ws.take(n) + ws.skip(n));
    vstd::seq_lib::lemma_multiset_commutative(ws.take(n), ws.skip(n));
}

proof fn lemma_filter_items(ws: Seq<WindowView>, p: spec_fn(WindowView) -> bool)
    ensures
        ws.filter(p).to_multiset().subset_of(ws.to_multiset()),
{
    broadcast use vstd::multiset::group_multiset_axioms;

    let q = |w: WindowView| !p(w);
    let either = |w: WindowView| true;
    lemma_filter_split(ws, p, q, either);
    lemma_filter_all(ws, either);
}

/// A selection adds nothing and takes nothing twice, and all of it passes the
/// cutoff.
pub proof fn law_selection_is_a_part_of_what_passes(
    ws: Seq<WindowView>,
    limit: Option<usize>,
    sample: Option<usize>,
    cutoff: Option<CutoffView>,
)
    ensures
        selected(ws, limit, sample, cutoff).to_multiset().subset_of(
            kept(ws, cutoff).to_multiset(),
        ),
        kept(ws, cutoff).to_multiset().subset_of(ws.to_multiset()),
        forall|i: int|
            0 <= i < selected(ws, limit, sample, cutoff).len() ==> passes(
                #[trigger] selected(ws, limit, sample, cutoff)[i],
                cutoff,
            ),
{
    broadcast use vstd::multiset::group_multiset_axioms;

    let fit = kept(ws, cutoff);
    let ranked = sorted(fit, Sorting::Rank);
    let out = selected(ws, limit, sample, cutoff);
    lemma_sorted_keeps(fit, Sorting::Rank);
    lemma_filter_items(ws, |w: WindowView| passes(w, cutoff));
    match sample {
        Some(n) => {
            let groups = strata(ranked);
            let all = dealt(groups, deepest(groups));
            law_dealing_keeps_windows(ranked);
            lemma_sorted_keeps(first_of(all, n), Sorting::Place);
            if n < all.len() {
                lemma_prefix_items(all, n as int);
            }
        },
        None => {
            if let Some(n) = limit {
                if n < ranked.len() {
                    lemma_prefix_items(ranked, n as int);
                }
            }
        },
    }
    assert(out.to_multiset().subset_of(fit.to_multiset()));
    assert forall|i: int| 0 <= i < out.len() implies passes(#[trigger] out[i], cutoff) by {
        out.to_multiset_ensures();
        fit.to_multiset_ensures();
        assert(out.contains(out[i]));
        assert(out.to_multiset().count(out[i]) > 0);
        assert(fit.to_multiset().count(out[i]) > 0);
        assert(fit.contains(out[i]));
        let good = |w: WindowView| passes(w, cutoff);
        ws.lemma_filter_pred(good, choose|k: int| 0 <= k < fit.len() && fit[k] == out[i]);
    }
}

/// A limit takes the head of what would be taken without one.
pub proof fn law_limit_takes_the_head(ws: Seq<WindowView>, n: usize, cutoff: Option<CutoffView>)
    ensures
        selected(ws, Some(n), None, cutoff) == first_of(selected(ws, None, None, cutoff), n),
{
}

/// The cutoff comes first: what it drops takes no place in a limit or a
/// sample.
pub proof fn law_cutoff_comes_first(
    ws: Seq<WindowView>,
    limit: Option<usize>,
    sample: Option<usize>,
    cutoff: Option<CutoffView>,
)
    ensures
        selected(ws, limit, sample, cutoff) == selected(kept(ws, cutoff), limit, sample, None),
{
    lemma_filter_all(kept(ws, cutoff), |w: WindowView| passes(w, None));
}

/// No two windows start at the same message.
pub open spec fn apart(ws: Seq<WindowView>) -> bool {
    forall|i: int, j: int|
        0 <= i < j < ws.len() ==> (#[trigger] ws[i]).dialog_id != (#[trigger] ws[j]).dialog_id
            || ws[i].from_id != ws[j].from_id
}

proof fn lemma_part_is_apart(ws: Seq<WindowView>, part: Seq<WindowView>)
    requires
        apart(ws),
        part.to_multiset().subset_of(ws.to_multiset()),
    ensures
        apart(part),
{
    broadcast use vstd::multiset::group_multiset_axioms;

    ws.to_multiset_ensures();
    part.to_multiset_ensures();
    assert(ws.no_duplicates()) by {
        assert forall|i: int, j: int|
            0 <= i < ws.len() && 0 <= j < ws.len() && i != j implies ws[i] != ws[j] by {
            if i < j {
                assert(ws[i].dialog_id != ws[j].dialog_id || ws[i].from_id != ws[j].from_id);
            } else {
                assert(ws[j].dialog_id != ws[i].dialog_id || ws[j].from_id != ws[i].from_id);
            }
        }
    }
    ws.lemma_multiset_has_no_duplicates();
    assert forall|w: WindowView| part.to_multiset().contains(w) implies part.to_multiset().count(w)
        == 1 by {
        assert(part.to_multiset().count(w) <= ws.to_multiset().count(w));
        assert(ws.to_multiset().contains(w));
    }
    part.lemma_multiset_has_no_duplicates_conv();
    assert forall|i: int, j: int| 0 <= i < j < part.len() implies (
    #[trigger] part[i]).dialog_id != (#[trigger] part[j]).dialog_id || part[i].from_id
        != part[j].from_id by {
        assert(part.contains(part[i]) && part.contains(part[j]));
        assert(part.to_multiset().count(part[i]) > 0 && part.to_multiset().count(part[j]) > 0);
        assert(ws.contains(part[i]) && ws.contains(part[j]));
        let p = choose|p: int| 0 <= p < ws.len() && ws[p] == part[i];
        let q = choose|q: int| 0 <= q < ws.len() && ws[q] == part[j];
        assert(part[i] != part[j]);
        if p < q {
            assert(ws[p].dialog_id != ws[q].dialog_id || ws[p].from_id != ws[q].from_id);
        } else {
            assert(ws[q].dialog_id != ws[p].dialog_id || ws[q].from_id != ws[p].from_id);
        }
    }
}

proof fn lemma_filter_count(ws: Seq<WindowView>, p: spec_fn(WindowView) -> bool, w: WindowView)
    ensures
        ws.filter(p).to_multiset().count(w) == if p(w) {
            ws.to_multiset().count(w)
        } else {
            0
        },
    decreases ws.len(),
{
    broadcast use vstd::multiset::group_multiset_axioms;

    if ws.len() == 0 {
        assert(ws.filter(p) =~= Seq::<WindowView>::empty());
        lemma_no_items(ws);
        lemma_no_items(ws.filter(p));
    } else {
        let init = ws.drop_last();
        lemma_filter_count(init, p, w);
        assert(ws =~= init.push(ws.last()));
        init.lemma_filter_push(ws.last(), p);
        vstd::seq_lib::to_multiset_build(init, ws.last());
        vstd::seq_lib::to_multiset_build(init.filter(p), ws.last());
    }
}

/// Each window strictly before those behind it.
spec fn ascending(ws: Seq<WindowView>) -> bool {
    forall|i: int, j: int|
        0 <= i < j < ws.len() ==> key_lt(rank_key(#[trigger] ws[i]), rank_key(#[trigger] ws[j]))
}

proof fn lemma_ranked_ascend(ws: Seq<WindowView>)
    requires
        apart(ws),
    ensures
        ascending(sorted(ws, Sorting::Rank)),
{
    let keys = keys_of(ws, Sorting::Rank);
    let order = order_of(keys);
    let out = sorted(ws, Sorting::Rank);
    lemma_order_exists(keys);
    lemma_order_places(keys, order);
    let leq = |a: int, b: int| comes_first(keys, a, b);
    assert forall|i: int, j: int| 0 <= i < j < out.len() implies key_lt(
        rank_key(#[trigger] out[i]),
        rank_key(#[trigger] out[j]),
    ) by {
        let (a, b) = (order[i], order[j]);
        assert(leq(a, b));
        assert(a != b);
        assert(out[i] == ws[a] && out[j] == ws[b]);
        if a < b {
            assert(ws[a].dialog_id != ws[b].dialog_id || ws[a].from_id != ws[b].from_id);
        } else {
            assert(ws[b].dialog_id != ws[a].dialog_id || ws[b].from_id != ws[a].from_id);
        }
    }
}

/// Two ascending lists of the same windows are one list.
proof fn lemma_ascending_unique(a: Seq<WindowView>, b: Seq<WindowView>)
    requires
        ascending(a),
        ascending(b),
        a.to_multiset() == b.to_multiset(),
    ensures
        a == b,
    decreases a.len(),
{
    a.to_multiset_ensures();
    b.to_multiset_ensures();
    if a.len() > 0 {
        assert(a.contains(a[0]) && b.contains(b[0]));
        assert(a.to_multiset().count(a[0]) > 0 && b.to_multiset().count(b[0]) > 0);
        assert(b.contains(a[0]) && a.contains(b[0]));
        let i = choose|i: int| 0 <= i < a.len() && a[i] == b[0];
        let j = choose|j: int| 0 <= j < b.len() && b[j] == a[0];
        if i > 0 {
            assert(key_lt(rank_key(a[0]), rank_key(a[i])));
            if j > 0 {
                assert(key_lt(rank_key(b[0]), rank_key(b[j])));
            }
        }
        assert(a[0] == b[0]);
        let (x, y) = (a.drop_first(), b.drop_first());
        assert(x =~= a.remove(0) && y =~= b.remove(0));
        vstd::seq_lib::to_multiset_remove(a, 0);
        vstd::seq_lib::to_multiset_remove(b, 0);
        assert forall|i: int, j: int| 0 <= i < j < x.len() implies key_lt(
            rank_key(#[trigger] x[i]),
            rank_key(#[trigger] x[j]),
        ) by {
            assert(x[i] == a[i + 1] && x[j] == a[j + 1]);
        }
        assert forall|i: int, j: int| 0 <= i < j < y.len() implies key_lt(
            rank_key(#[trigger] y[i]),
            rank_key(#[trigger] y[j]),
        ) by {
            assert(y[i] == b[i + 1] && y[j] == b[j + 1]);
        }
        lemma_ascending_unique(x, y);
        assert(a =~= seq![a[0]] + x);
        assert(b =~= seq![b[0]] + y);
    } else {
        assert(a =~= b);
    }
}

/// Deterministic: two runs with the same flags see the same set in the same
/// order, in whatever order the windows came in.
pub proof fn law_selection_ignores_the_order_of_windows(
    ws: Seq<WindowView>,
    ws2: Seq<WindowView>,
    limit: Option<usize>,
    sample: Option<usize>,
    cutoff: Option<CutoffView>,
)
    requires
        ws2.to_multiset() == ws.to_multiset(),
        apart(ws),
    ensures
        selected(ws2, limit, sample, cutoff) == selected(ws, limit, sample, cutoff),
{
    broadcast use vstd::multiset::group_multiset_axioms;

    let p = |w: WindowView| passes(w, cutoff);
    let (k, k2) = (kept(ws, cutoff), kept(ws2, cutoff));
    assert forall|w: WindowView| #[trigger] k.to_multiset().count(w) == k2.to_multiset().count(
        w,
    ) by {
        lemma_filter_count(ws, p, w);
        lemma_filter_count(ws2, p, w);
    }
    assert(k.to_multiset() =~= k2.to_multiset());
    lemma_filter_items(ws, p);
    lemma_part_is_apart(ws, k);
    lemma_part_is_apart(ws, k2);
    lemma_ranked_ascend(k);
    lemma_ranked_ascend(k2);
    lemma_sorted_keeps(k, Sorting::Rank);
    lemma_sorted_keeps(k2, Sorting::Rank);
    lemma_ascending_unique(sorted(k2, Sorting::Rank), sorted(k, Sorting::Rank));
}

} // verus!
