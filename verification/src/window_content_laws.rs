//! What a window holds, told from the messages of its dialog.

use crate::config::{IGNORE_KINDS, MAX_WINDOW};
use crate::model::Tier;
use crate::text::{lemma_can_list, lemma_listed, listed, strictly_sorted, views};
use crate::window::{
    all_windows, anchor_places, axes_at, by_id, chars_between, chars_in, clusters_of, count_in,
    harshest_at, is_spoken, left_out, newest_at, room_of, rules_at, share_of, span_of, stepped_back,
    stepped_on, voices_between, voices_in, widened, windows_of, Loaded, Row, WindowView,
};
use crate::window_laws::{
    covers, law_anchors_are_sharp_and_unprotected, law_clusters_keep_their_distance, lemma_count_in,
    lemma_counts,
};
use vstd::prelude::*;

verus! {

// --- anchors -------------------------------------------------------------------

/// A message makes a window exist exactly where it is not protected and its
/// priority reaches the threshold; the anchors come in the order of the
/// dialog.
pub proof fn law_anchors_reach_the_threshold(rows: Seq<Row>, k: int)
    requires
        rows.len() <= usize::MAX,
        0 <= k < rows.len(),
    ensures
        anchor_places(rows).contains(k as usize) <==> !rows[k].protected && rows[k].priority
            >= 100_000,
        forall|i: int, j: int|
            0 <= i < j < anchor_places(rows).len() ==> (#[trigger] anchor_places(rows)[i]) < (
            #[trigger] anchor_places(rows)[j]),
{
    law_anchors_are_sharp_and_unprotected(rows, k as usize);
    lemma_ascending(rows);
}

proof fn lemma_ascending(rows: Seq<Row>)
    requires
        rows.len() <= usize::MAX,
    ensures
        forall|i: int| 0 <= i < anchor_places(rows).len() ==> (#[trigger] anchor_places(rows)[i])
            < rows.len(),
        forall|i: int, j: int|
            0 <= i < j < anchor_places(rows).len() ==> (#[trigger] anchor_places(rows)[i]) < (
            #[trigger] anchor_places(rows)[j]),
    decreases rows.len(),
{
    if rows.len() > 0 {
        let init = anchor_places(rows.drop_last());
        let now = anchor_places(rows);
        lemma_ascending(rows.drop_last());
        assert forall|i: int| 0 <= i < now.len() implies (#[trigger] now[i]) < rows.len() by {
            if i < init.len() {
                assert(now[i] == init[i]);
            }
        }
        assert forall|i: int, j: int| 0 <= i < j < now.len() implies (#[trigger] now[i]) < (
        #[trigger] now[j]) by {
            assert(now[i] == init[i]);
            if j < init.len() {
                assert(now[j] == init[j]);
            }
        }
    }
}

/// Voice messages and round videos are spoken, nothing else is.
pub proof fn law_spoken_media(media: &str)
    ensures
        is_spoken(Some(media)) <==> media@ == "voice_message"@ || media@ == "video_message"@,
        !is_spoken(None),
{
}

// --- one window ------------------------------------------------------------------

/// A window reaches exactly `pad` messages beyond its cluster, unless the
/// dialog ends there.
pub proof fn law_windows_reach_to_the_pad(members: Seq<usize>, pad: int, len: int)
    requires
        members.len() > 0,
        members.last() < len,
    ensures
        ({
            let (lo, hi) = span_of(members, pad, len);
            &&& lo == members[0] - pad || (lo == 0 && members[0] < pad)
            &&& hi == members.last() + pad || (hi == len - 1 && members.last() + pad >= len)
        }),
{
}

/// The tier of a window is no softer than that of any of its anchors, and is
/// the tier of one of them unless it is the softest.
pub proof fn law_the_harshest_tier_counts(rows: Seq<Row>, members: Seq<usize>)
    ensures
        forall|m: int|
            0 <= m < members.len() && rows[members[m] as int].tier is Some ==> harshest_at(
                rows,
                members,
            ).rank() <= (rows[#[trigger] members[m] as int].tier->0).rank(),
        harshest_at(rows, members) == Tier::T2 || exists|m: int|
            0 <= m < members.len() && rows[#[trigger] members[m] as int].tier == Some(
                harshest_at(rows, members),
            ),
    decreases members.len(),
{
    if members.len() > 0 {
        let init = members.drop_last();
        law_the_harshest_tier_counts(rows, init);
        let t = harshest_at(rows, members);
        assert forall|m: int|
            0 <= m < members.len() && rows[members[m] as int].tier is Some implies t.rank() <= (
        rows[#[trigger] members[m] as int].tier->0).rank() by {
            if m < init.len() {
                assert(init[m] == members[m]);
            }
        }
        if t != Tier::T2 {
            if t == harshest_at(rows, init) {
                let m = choose|m: int|
                    0 <= m < init.len() && rows[#[trigger] init[m] as int].tier == Some(t);
                assert(members[m] == init[m]);
            } else {
                assert(rows[members[members.len() - 1] as int].tier == Some(t));
            }
        }
    }
}

/// From harsh to soft: fresh, then less so, then old.
pub proof fn law_tiers_from_harsh_to_soft(a: Tier, b: Tier)
    ensures
        a == Tier::T0 && b != Tier::T0 ==> a.rank() < b.rank(),
        a == Tier::T1 && b == Tier::T2 ==> a.rank() < b.rank(),
        a.rank() == b.rank() ==> a == b,
{
}

/// The date of a window is that of its newest anchor: none is newer, and one
/// has it, unless all lie before the epoch.
pub proof fn law_the_newest_anchor_dates_the_window(rows: Seq<Row>, members: Seq<usize>)
    ensures
        forall|m: int|
            0 <= m < members.len() ==> rows[#[trigger] members[m] as int].date <= newest_at(
                rows,
                members,
            ),
        newest_at(rows, members) >= 0,
        newest_at(rows, members) == 0 || exists|m: int|
            0 <= m < members.len() && rows[#[trigger] members[m] as int].date == newest_at(
                rows,
                members,
            ),
    decreases members.len(),
{
    if members.len() > 0 {
        let init = members.drop_last();
        law_the_newest_anchor_dates_the_window(rows, init);
        let d = newest_at(rows, members);
        assert forall|m: int| 0 <= m < members.len() implies rows[#[trigger] members[m] as int].date
            <= d by {
            if m < init.len() {
                assert(init[m] == members[m]);
            }
        }
        if d != 0 {
            if d == newest_at(rows, init) {
                let m = choose|m: int|
                    0 <= m < init.len() && rows[#[trigger] init[m] as int].date == d;
                assert(members[m] == init[m]);
            } else {
                assert(rows[members[members.len() - 1] as int].date == d);
            }
        }
    }
}

proof fn lemma_axes(rows: Seq<Row>, members: Seq<usize>) -> (names: Seq<Seq<char>>)
    ensures
        names.to_set() == axes_at(rows, members),
        forall|x: Seq<char>|
            names.contains(x) <==> exists|m: int|
                0 <= m < members.len() && #[trigger] views(
                    rows[members[m] as int].axes@,
                ).contains(x),
    decreases members.len(),
{
    if members.len() == 0 {
        let names = Seq::<Seq<char>>::empty();
        assert(names.to_set() =~= axes_at(rows, members));
        names
    } else {
        let init = members.drop_last();
        let was = lemma_axes(rows, init);
        let own = views(rows[members.last() as int].axes@);
        let names = was + own;
        assert(names.to_set() =~= axes_at(rows, members)) by {
            assert forall|x: Seq<char>|
                names.to_set().contains(x) == axes_at(rows, members).contains(x) by {
                lemma_in_either(was, own, x);
                assert(was.to_set().contains(x) == was.contains(x));
            }
        }
        assert forall|x: Seq<char>|
            names.contains(x) <==> exists|m: int|
                0 <= m < members.len() && #[trigger] views(
                    rows[members[m] as int].axes@,
                ).contains(x) by {
            lemma_in_either(was, own, x);
            if was.contains(x) {
                let m = choose|m: int|
                    0 <= m < init.len() && #[trigger] views(
                        rows[init[m] as int].axes@,
                    ).contains(x);
                assert(members[m] == init[m]);
                assert(views(rows[members[m] as int].axes@).contains(x));
            }
            if own.contains(x) {
                assert(views(rows[members[members.len() - 1] as int].axes@).contains(x));
            }
            if exists|m: int|
                0 <= m < members.len() && #[trigger] views(
                    rows[members[m] as int].axes@,
                ).contains(x) {
                let m = choose|m: int|
                    0 <= m < members.len() && #[trigger] views(
                        rows[members[m] as int].axes@,
                    ).contains(x);
                if m < init.len() {
                    assert(init[m] == members[m]);
                    assert(views(rows[init[m] as int].axes@).contains(x));
                }
            }
        }
        names
    }
}

proof fn lemma_in_either(a: Seq<Seq<char>>, b: Seq<Seq<char>>, x: Seq<char>)
    ensures
        (a + b).contains(x) <==> a.contains(x) || b.contains(x),
{
    if a.contains(x) {
        let i = choose|i: int| 0 <= i < a.len() && a[i] == x;
        assert((a + b)[i] == x);
    }
    if b.contains(x) {
        let i = choose|i: int| 0 <= i < b.len() && b[i] == x;
        assert((a + b)[a.len() + i] == x);
    }
    if (a + b).contains(x) {
        let i = choose|i: int| 0 <= i < (a + b).len() && (a + b)[i] == x;
        if i < a.len() {
            assert(a[i] == x);
        } else {
            assert(b[i - a.len()] == x);
        }
    }
}

proof fn lemma_rules(rows: Seq<Row>, members: Seq<usize>) -> (names: Seq<Seq<char>>)
    ensures
        names.to_set() == rules_at(rows, members),
        forall|x: Seq<char>|
            names.contains(x) <==> exists|m: int|
                0 <= m < members.len() && #[trigger] views(
                    rows[members[m] as int].rules@,
                ).contains(x),
    decreases members.len(),
{
    if members.len() == 0 {
        let names = Seq::<Seq<char>>::empty();
        assert(names.to_set() =~= rules_at(rows, members));
        names
    } else {
        let init = members.drop_last();
        let was = lemma_rules(rows, init);
        let own = views(rows[members.last() as int].rules@);
        let names = was + own;
        assert(names.to_set() =~= rules_at(rows, members)) by {
            assert forall|x: Seq<char>|
                names.to_set().contains(x) == rules_at(rows, members).contains(x) by {
                lemma_in_either(was, own, x);
                assert(was.to_set().contains(x) == was.contains(x));
            }
        }
        assert forall|x: Seq<char>|
            names.contains(x) <==> exists|m: int|
                0 <= m < members.len() && #[trigger] views(
                    rows[members[m] as int].rules@,
                ).contains(x) by {
            lemma_in_either(was, own, x);
            if was.contains(x) {
                let m = choose|m: int|
                    0 <= m < init.len() && #[trigger] views(
                        rows[init[m] as int].rules@,
                    ).contains(x);
                assert(members[m] == init[m]);
                assert(views(rows[members[m] as int].rules@).contains(x));
            }
            if own.contains(x) {
                assert(views(rows[members[members.len() - 1] as int].rules@).contains(x));
            }
            if exists|m: int|
                0 <= m < members.len() && #[trigger] views(
                    rows[members[m] as int].rules@,
                ).contains(x) {
                let m = choose|m: int|
                    0 <= m < members.len() && #[trigger] views(
                        rows[members[m] as int].rules@,
                    ).contains(x);
                if m < init.len() {
                    assert(init[m] == members[m]);
                    assert(views(rows[init[m] as int].rules@).contains(x));
                }
            }
        }
        names
    }
}

proof fn lemma_written_out(names: Seq<Seq<char>>)
    ensures
        strictly_sorted(listed(names.to_set())),
        forall|x: Seq<char>| listed(names.to_set()).contains(x) <==> names.contains(x),
{
    let s = lemma_can_list(names);
    lemma_listed(s);
    assert forall|x: Seq<char>| s.contains(x) <==> names.contains(x) by {
        assert(s.to_set().contains(x) == names.to_set().contains(x));
    }
}

/// Voice messages come in order, each that lies in the range and no other.
pub proof fn law_voices_lie_between(rows: Seq<Row>, lo: int, mid: int, hi: int)
    requires
        lo <= mid < hi,
    ensures
        voices_between(rows, lo, hi) == voices_between(rows, lo, mid) + (if rows[mid].voice {
            seq![rows[mid].msg_id]
        } else {
            seq![]
        }) + voices_between(rows, mid + 1, hi),
        voices_between(rows, lo, lo).len() == 0,
        chars_between(rows, lo, hi) == chars_between(rows, lo, mid) + rows[mid].chars
            + chars_between(rows, mid + 1, hi),
        chars_between(rows, lo, lo) == 0,
    decreases hi - mid,
{
    let own = if rows[mid].voice {
        seq![rows[mid].msg_id]
    } else {
        seq![]
    };
    if mid == hi - 1 {
        assert(voices_between(rows, mid + 1, hi) =~= Seq::<i32>::empty());
        assert(voices_between(rows, lo, hi) =~= voices_between(rows, lo, mid) + own + Seq::<
            i32,
        >::empty());
    } else {
        law_voices_lie_between(rows, lo, mid, hi - 1);
        assert(voices_between(rows, lo, hi) =~= voices_between(rows, lo, mid) + own
            + voices_between(rows, mid + 1, hi));
    }
}

/// What the window of a cluster says of it: where it begins and ends, its
/// anchors by id, how many messages lie inside, the names its anchors fired
/// on, in order and each once, their harshest tier and newest date.
pub proof fn law_windows_tell_their_cluster(
    dialog_id: i64,
    rows: Seq<Row>,
    pad: int,
    gap: int,
    c: int,
)
    requires
        rows.len() <= usize::MAX,
        pad >= 0,
        0 <= c < clusters_of(anchor_places(rows), gap).len(),
    ensures
        windows_of(dialog_id, rows, pad, gap).len() == clusters_of(anchor_places(rows), gap).len(),
        ({
            let w = windows_of(dialog_id, rows, pad, gap)[c];
            let members = clusters_of(anchor_places(rows), gap)[c];
            let lo = if members[0] < pad {
                0
            } else {
                members[0] - pad
            };
            let hi = if members.last() + pad < rows.len() {
                members.last() + pad
            } else {
                rows.len() - 1
            };
            &&& w.dialog_id == dialog_id
            &&& w.anchors.len() == members.len()
            &&& forall|m: int|
                0 <= m < members.len() ==> (#[trigger] w.anchors[m])
                    == rows[members[m] as int].msg_id
            &&& w.from_id == rows[lo].msg_id
            &&& w.to_id == rows[hi].msg_id
            &&& lo <= hi ==> w.total == hi - lo + 1
            &&& w.voices == voices_between(rows, lo, hi + 1)
            &&& chars_between(rows, lo, hi + 1) <= usize::MAX ==> w.chars == chars_between(
                rows,
                lo,
                hi + 1,
            )
            &&& w.tier == harshest_at(rows, members)
            &&& w.newest == newest_at(rows, members)
            &&& strictly_sorted(w.axes)
            &&& strictly_sorted(w.rules)
            &&& forall|x: Seq<char>|
                #[trigger] w.axes.contains(x) <==> exists|m: int|
                    0 <= m < members.len() && #[trigger] views(
                        rows[members[m] as int].axes@,
                    ).contains(x)
            &&& forall|x: Seq<char>|
                #[trigger] w.rules.contains(x) <==> exists|m: int|
                    0 <= m < members.len() && #[trigger] views(
                        rows[members[m] as int].rules@,
                    ).contains(x)
        }),
{
    let members = clusters_of(anchor_places(rows), gap)[c];
    let axes = lemma_axes(rows, members);
    let rules = lemma_rules(rows, members);
    lemma_written_out(axes);
    lemma_written_out(rules);
    let w = windows_of(dialog_id, rows, pad, gap)[c];
    assert(w.axes == listed(axes.to_set()));
    assert(w.rules == listed(rules.to_set()));
    assert forall|x: Seq<char>|
        #[trigger] w.axes.contains(x) <==> exists|m: int|
            0 <= m < members.len() && #[trigger] views(
                rows[members[m] as int].axes@,
            ).contains(x) by {
        assert(w.axes.contains(x) == axes.contains(x));
    }
    assert forall|x: Seq<char>|
        #[trigger] w.rules.contains(x) <==> exists|m: int|
            0 <= m < members.len() && #[trigger] views(
                rows[members[m] as int].rules@,
            ).contains(x) by {
        assert(w.rules.contains(x) == rules.contains(x));
    }
    let (lo, hi) = span_of(members, pad, rows.len() as int);
    lemma_in_places(rows, gap, c);
    assert(members[0] < rows.len() && members[members.len() - 1] < rows.len());
    assert(0 <= lo && hi < rows.len());
    if lo <= hi {
        assert(hi - lo + 1 <= rows.len());
        assert(w.total == hi - lo + 1);
    }
    assert(w.voices == voices_between(rows, lo, hi + 1));
    assert forall|m: int| 0 <= m < members.len() implies (#[trigger] w.anchors[m])
        == rows[members[m] as int].msg_id by {}
}

proof fn lemma_in_places(rows: Seq<Row>, gap: int, c: int)
    requires
        rows.len() <= usize::MAX,
        0 <= c < clusters_of(anchor_places(rows), gap).len(),
    ensures
        clusters_of(anchor_places(rows), gap)[c].len() > 0,
        forall|m: int|
            0 <= m < clusters_of(anchor_places(rows), gap)[c].len() ==> (#[trigger] clusters_of(
                anchor_places(rows),
                gap,
            )[c][m]) < rows.len(),
{
    lemma_ascending(rows);
    law_clusters_keep_their_distance(anchor_places(rows), gap);
    lemma_members(anchor_places(rows), gap, c, rows.len() as int);
}

proof fn lemma_members(places: Seq<usize>, gap: int, c: int, top: int)
    requires
        forall|i: int| 0 <= i < places.len() ==> (#[trigger] places[i]) < top,
        0 <= c < clusters_of(places, gap).len(),
    ensures
        forall|m: int|
            0 <= m < clusters_of(places, gap)[c].len() ==> (#[trigger] clusters_of(
                places,
                gap,
            )[c][m]) < top,
    decreases places.len(),
{
    if places.len() > 0 {
        let init = places.drop_last();
        let was = clusters_of(init, gap);
        let now = clusters_of(places, gap);
        assert forall|i: int| 0 <= i < init.len() implies (#[trigger] init[i]) < top by {
            assert(init[i] == places[i]);
        }
        assert(places[places.len() - 1] < top);
        if c < was.len() {
            lemma_members(init, gap, c, top);
            assert forall|m: int| 0 <= m < now[c].len() implies (#[trigger] now[c][m]) < top by {
                if m < was[c].len() {
                    assert(was[c][m] < top);
                    assert(now[c][m] == was[c][m]);
                }
            }
        }
    }
}

// --- the corpus ------------------------------------------------------------------

/// Large groups and group chats are left out, and nothing else is.
pub proof fn law_dialogs_are_left_out_by_name(id: i64, kind: Seq<char>)
    ensures
        left_out(id, kind) <==> kind == "megagroup"@ || kind == "chat"@,
{
    assert(IGNORE_KINDS@[0]@ == "megagroup"@);
    assert(IGNORE_KINDS@[1]@ == "chat"@);
}

/// A window may grow to a hundred and twenty messages.
pub proof fn law_room_ends_at_the_ceiling(total: usize)
    ensures
        total <= 120 ==> room_of(total) + total == 120,
        total > 120 ==> room_of(total) == 0,
{
}

/// Dialogs come one after another, each with its own windows or, left out,
/// with none.
pub proof fn law_dialogs_come_one_by_one(dialogs: Seq<Loaded>, d: Loaded)
    ensures
        left_out(d.id, d.kind@) ==> all_windows(dialogs.push(d)) == all_windows(dialogs),
        !left_out(d.id, d.kind@) ==> all_windows(dialogs.push(d)) == all_windows(dialogs)
            + windows_of(d.id, d.rows@, 30, 30),
        all_windows(Seq::<Loaded>::empty()).len() == 0,
{
    assert(dialogs.push(d).drop_last() =~= dialogs);
    assert(all_windows(dialogs) + seq![] =~= all_windows(dialogs));
}

// --- widening ----------------------------------------------------------------------

/// A request is shared out in proportion, and each side gets its share whole
/// unless the dialog ends there; what the anchors say stays.
pub proof fn law_widening_shares_the_room(
    rows: Seq<Row>,
    w: WindowView,
    lo: int,
    hi: int,
    before: i64,
    after: i64,
    b: int,
    a: int,
)
    requires
        by_id(rows),
        rows.len() <= usize::MAX,
        covers(w, rows, lo, hi),
        w.total < MAX_WINDOW,
        before >= 0,
        after >= 0,
        before + after > 0,
        b * (before + after) <= before * (MAX_WINDOW - w.total) < (b + 1) * (before + after),
        a * (before + after) <= after * (MAX_WINDOW - w.total) < (a + 1) * (before + after),
    ensures
        ({
            let x = widened(rows, w, before, after);
            let lo2 = if b <= lo {
                lo - b
            } else {
                0
            };
            let hi2 = if hi + a < rows.len() {
                hi + a
            } else {
                rows.len() - 1
            };
            &&& x.from_id == rows[lo2].msg_id
            &&& x.to_id == rows[hi2].msg_id
            &&& x.total == hi2 - lo2 + 1
            &&& x.voices == voices_in(rows, x.from_id, x.to_id)
            &&& chars_in(rows, x.from_id, x.to_id) <= usize::MAX ==> x.chars == chars_in(
                rows,
                x.from_id,
                x.to_id,
            )
        }),
{
    let room = MAX_WINDOW - w.total;
    let asked = before + after;
    assert(b == before * room / asked) by (nonlinear_arith)
        requires
            0 < asked,
            b * asked <= before * room < (b + 1) * asked,
    ;
    assert(a == after * room / asked) by (nonlinear_arith)
        requires
            0 < asked,
            a * asked <= after * room < (a + 1) * asked,
    ;
    assert(0 <= b) by (nonlinear_arith)
        requires
            0 < asked,
            0 <= before,
            0 < room,
            before * room < (b + 1) * asked,
    ;
    assert(0 <= a) by (nonlinear_arith)
        requires
            0 < asked,
            0 <= after,
            0 < room,
            after * room < (a + 1) * asked,
    ;
    assert(share_of(before, after, room) == b);
    assert(share_of(after, before, room) == a);
    lemma_counts(rows, lo);
    lemma_counts(rows, hi);
    let lo2 = if b <= lo {
        lo - b
    } else {
        0
    };
    let hi2 = if hi + a < rows.len() {
        hi + a
    } else {
        rows.len() - 1
    };
    assert(stepped_back(rows, w.from_id, b) == rows[lo2].msg_id);
    assert(stepped_on(rows, w.to_id, a) == rows[hi2].msg_id);
    lemma_count_in(rows, lo2, hi2);
}

/// A window that is full, or for which nothing was asked, keeps its range; a
/// negative request asks for nothing; and what the anchors say always stays.
pub proof fn law_widening_keeps_the_rest(
    rows: Seq<Row>,
    w: WindowView,
    before: i64,
    after: i64,
)
    ensures
        ({
            let x = widened(rows, w, before, after);
            &&& x.dialog_id == w.dialog_id
            &&& x.anchors == w.anchors
            &&& x.axes == w.axes
            &&& x.rules == w.rules
            &&& x.tier == w.tier
            &&& x.newest == w.newest
            &&& w.total >= MAX_WINDOW ==> x == w
            &&& before <= 0 && after <= 0 ==> x.from_id == w.from_id && x.to_id == w.to_id
            &&& before <= 0 ==> x == widened(rows, w, 0, after)
            &&& after <= 0 ==> x == widened(rows, w, before, 0)
        }),
{
}

/// Messages of a range are counted one by one.
pub proof fn law_ranges_are_counted(rows: Seq<Row>, r: Row, from: i32, to: i32)
    ensures
        count_in(rows.push(r), from, to) == count_in(rows, from, to) + (if from <= r.msg_id
            && r.msg_id <= to {
            1int
        } else {
            0
        }),
        chars_in(rows.push(r), from, to) == chars_in(rows, from, to) + (if from <= r.msg_id
            && r.msg_id <= to {
            r.chars as int
        } else {
            0
        }),
        voices_in(rows.push(r), from, to) == voices_in(rows, from, to) + (if from <= r.msg_id
            && r.msg_id <= to && r.voice {
            seq![r.msg_id]
        } else {
            seq![]
        }),
        count_in(Seq::<Row>::empty(), from, to) == 0,
        chars_in(Seq::<Row>::empty(), from, to) == 0,
        voices_in(Seq::<Row>::empty(), from, to).len() == 0,
{
    assert(rows.push(r).drop_last() =~= rows);
    assert(voices_in(rows.push(r), from, to) =~= voices_in(rows, from, to) + (if from <= r.msg_id
        && r.msg_id <= to && r.voice {
        seq![r.msg_id]
    } else {
        seq![]
    }));
}

} // verus!
