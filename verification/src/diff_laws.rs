//! What two models' verdicts are compared by, told from their ranges.

use crate::diff::{
    by_reason, common_windows, doom_range, doom_ranges, doomed_by, glimpse_line, glimpse_lines,
    group_text, ids_with, lies_in, lemma_pairs_listed, pair_lt, pairs_ascend, reasons_in, report_of,
    share_of, size_keys, top_groups, windows_of, Difference, Doomed, Glimpse, GroupView, SHOWN_PER_GROUP,
};
use crate::order::{comes_first, lemma_order_exists, lemma_order_places, order_of, picked};
use crate::plan::{clamped, in_span, messages_of, upright, Mark, Marked, Run};
use crate::plan_laws::{law_clamping_keeps_what_was_named, names};
use crate::text::{dec, head, left, lemma_can_list, lemma_listed, listed, replaced, text_lt};
use crate::triage::Range;
use vstd::prelude::*;

verus! {

/// The dialog holds a message of that number.
pub open spec fn holds_message(messages: Seq<Mark>, id: i32) -> bool {
    exists|i: int| 0 <= i < messages.len() && (#[trigger] messages[i]).msg_id == id
}

/// The run's verdict names the message, in the window the model saw.
pub open spec fn dooms(run: Run, p: (i64, i32)) -> bool {
    &&& run.dialog_id == p.0
    &&& run.verdict is Some
    &&& run.seen_from <= p.1 <= run.seen_to
    &&& exists|g: int|
        0 <= g < (run.verdict->0).delete_ranges@.len() && names(
            #[trigger] (run.verdict->0).delete_ranges@[g],
            run.seen_from,
            run.seen_to,
            p.1,
        )
}

proof fn lemma_holds_push(messages: Seq<Mark>, id: i32)
    requires
        messages.len() > 0,
    ensures
        holds_message(messages, id) <==> holds_message(messages.drop_last(), id)
            || messages.last().msg_id == id,
{
    let init = messages.drop_last();
    if holds_message(messages, id) {
        let i = choose|i: int| 0 <= i < messages.len() && (#[trigger] messages[i]).msg_id == id;
        if i < init.len() {
            assert(init[i].msg_id == id);
        }
    }
    if holds_message(init, id) {
        let i = choose|i: int| 0 <= i < init.len() && (#[trigger] init[i]).msg_id == id;
        assert(messages[i].msg_id == id);
    }
    assert(messages[messages.len() - 1] == messages.last());
}

proof fn lemma_range_dooms(
    marks: Map<(i64, i32), Seq<char>>,
    dialog_id: i64,
    messages: Seq<Mark>,
    span: (i32, i32),
    reason: Seq<char>,
    p: (i64, i32),
)
    ensures
        ({
            let now = doom_range(marks, dialog_id, messages, span, reason);
            if p.0 == dialog_id && in_span(span, p.1) && holds_message(messages, p.1) {
                now.contains_key(p) && now[p] == reason
            } else {
                (now.contains_key(p) <==> marks.contains_key(p)) && (marks.contains_key(p)
                    ==> now[p] == marks[p])
            }
        }),
    decreases messages.len(),
{
    if messages.len() > 0 {
        lemma_range_dooms(marks, dialog_id, messages.drop_last(), span, reason, p);
        lemma_holds_push(messages, p.1);
    }
}

/// The reason of the last range that names the message is given.
pub open spec fn says_last(ranges: Seq<Range>, run: Run, id: i32, reason: Seq<char>) -> bool {
    exists|g: int|
        0 <= g < ranges.len() && names(
            #[trigger] ranges[g],
            run.seen_from,
            run.seen_to,
            id,
        ) && ranges[g].reason@ == reason && forall|h: int|
            g < h < ranges.len() ==> !names(#[trigger] ranges[h], run.seen_from, run.seen_to, id)
}

proof fn lemma_ranges_doom(
    marks: Map<(i64, i32), Seq<char>>,
    run: Run,
    messages: Seq<Mark>,
    ranges: Seq<Range>,
    p: (i64, i32),
)
    requires
        run.seen_from <= run.seen_to,
    ensures
        ({
            let now = doom_ranges(marks, run, messages, ranges);
            if p.0 == run.dialog_id && run.seen_from <= p.1 <= run.seen_to && holds_message(
                messages,
                p.1,
            ) && exists|g: int|
                0 <= g < ranges.len() && names(
                    #[trigger] ranges[g],
                    run.seen_from,
                    run.seen_to,
                    p.1,
                ) {
                now.contains_key(p) && says_last(ranges, run, p.1, now[p])
            } else {
                (now.contains_key(p) <==> marks.contains_key(p)) && (marks.contains_key(p)
                    ==> now[p] == marks[p])
            }
        }),
    decreases ranges.len(),
{
    if ranges.len() > 0 {
        let init = ranges.drop_last();
        let last = ranges.last();
        let top = ranges.len() - 1;
        let before = doom_ranges(marks, run, messages, init);
        lemma_ranges_doom(marks, run, messages, init, p);
        lemma_range_dooms(
            before,
            run.dialog_id,
            messages,
            clamped(last, run.seen_from, run.seen_to),
            last.reason@,
            p,
        );
        law_clamping_keeps_what_was_named(last, run.seen_from, run.seen_to, p.1);
        assert(ranges[top] == last);
        let now = doom_ranges(marks, run, messages, ranges);
        if names(last, run.seen_from, run.seen_to, p.1) {
            if p.0 == run.dialog_id && run.seen_from <= p.1 <= run.seen_to && holds_message(
                messages,
                p.1,
            ) {
                assert(now[p] == ranges[top].reason@);
                assert(says_last(ranges, run, p.1, now[p]));
            }
        } else {
            if exists|g: int|
                0 <= g < ranges.len() && names(
                    #[trigger] ranges[g],
                    run.seen_from,
                    run.seen_to,
                    p.1,
                ) {
                let g = choose|g: int|
                    0 <= g < ranges.len() && names(
                        #[trigger] ranges[g],
                        run.seen_from,
                        run.seen_to,
                        p.1,
                    );
                assert(g < init.len());
                assert(init[g] == ranges[g]);
            }
            if exists|g: int|
                0 <= g < init.len() && names(#[trigger] init[g], run.seen_from, run.seen_to, p.1) {
                let g = choose|g: int|
                    0 <= g < init.len() && names(
                        #[trigger] init[g],
                        run.seen_from,
                        run.seen_to,
                        p.1,
                    );
                assert(ranges[g] == init[g]);
                if says_last(init, run, p.1, before[p]) {
                    let k = choose|k: int|
                        0 <= k < init.len() && names(
                            #[trigger] init[k],
                            run.seen_from,
                            run.seen_to,
                            p.1,
                        ) && init[k].reason@ == before[p] && forall|h: int|
                            k < h < init.len() ==> !names(
                                #[trigger] init[h],
                                run.seen_from,
                                run.seen_to,
                                p.1,
                            );
                    assert(ranges[k] == init[k]);
                    assert forall|h: int| k < h < ranges.len() implies !names(
                        #[trigger] ranges[h],
                        run.seen_from,
                        run.seen_to,
                        p.1,
                    ) by {
                        if h < init.len() {
                            assert(init[h] == ranges[h]);
                        }
                    }
                    assert(says_last(ranges, run, p.1, before[p]));
                }
            }
        }
    }
}

/// A message is doomed exactly where the corpus holds it and a range of some
/// run names it.
pub proof fn law_the_doomed_are_named(runs: Seq<Run>, corpus: Seq<Marked>, p: (i64, i32))
    requires
        upright(runs),
    ensures
        doomed_by(runs, corpus).contains_key(p) <==> holds_message(
            messages_of(corpus, p.0),
            p.1,
        ) && exists|n: int| 0 <= n < runs.len() && dooms(#[trigger] runs[n], p),
    decreases runs.len(),
{
    if runs.len() > 0 {
        let init = runs.drop_last();
        let run = runs.last();
        let top = runs.len() - 1;
        assert(runs[top] == run);
        assert forall|i: int| 0 <= i < init.len() implies (#[trigger] init[i]).seen_from
            <= init[i].seen_to by {
            assert(init[i] == runs[i]);
        }
        law_the_doomed_are_named(init, corpus, p);
        if let Some(v) = run.verdict {
            lemma_ranges_doom(
                doomed_by(init, corpus),
                run,
                messages_of(corpus, run.dialog_id),
                v.delete_ranges@,
                p,
            );
        }
        if exists|n: int| 0 <= n < runs.len() && dooms(#[trigger] runs[n], p) {
            let n = choose|n: int| 0 <= n < runs.len() && dooms(#[trigger] runs[n], p);
            if n < init.len() {
                assert(dooms(init[n], p));
            }
        }
        if exists|n: int| 0 <= n < init.len() && dooms(#[trigger] init[n], p) {
            let n = choose|n: int| 0 <= n < init.len() && dooms(#[trigger] init[n], p);
            assert(dooms(runs[n], p));
        }
    }
}

/// The last run that names a message gives the reason, by the last of its
/// ranges that does; a run that does not name it changes nothing.
pub proof fn law_the_last_reason_counts(
    runs: Seq<Run>,
    run: Run,
    corpus: Seq<Marked>,
    p: (i64, i32),
)
    requires
        run.seen_from <= run.seen_to,
    ensures
        ({
            let (was, now) = (doomed_by(runs, corpus), doomed_by(runs.push(run), corpus));
            &&& dooms(run, p) && holds_message(messages_of(corpus, p.0), p.1) ==> now.contains_key(
                p,
            ) && says_last((run.verdict->0).delete_ranges@, run, p.1, now[p])
            &&& !dooms(run, p) ==> (now.contains_key(p) <==> was.contains_key(p)) && (
            was.contains_key(p) ==> now[p] == was[p])
        }),
{
    assert(runs.push(run).drop_last() =~= runs);
    if let Some(v) = run.verdict {
        lemma_ranges_doom(
            doomed_by(runs, corpus),
            run,
            messages_of(corpus, run.dialog_id),
            v.delete_ranges@,
            p,
        );
    }
}

/// A window is common if a run of either model started from it.
pub proof fn law_common_windows(a: Seq<Run>, b: Seq<Run>, w: (i64, i32, i32))
    ensures
        common_windows(a, b).contains(w) <==> (exists|i: int|
            0 <= i < a.len() && (#[trigger] a[i]).dialog_id == w.0 && a[i].from_id == w.1
                && a[i].to_id == w.2) && (exists|i: int|
            0 <= i < b.len() && (#[trigger] b[i]).dialog_id == w.0 && b[i].from_id == w.1
                && b[i].to_id == w.2),
{
    lemma_windows(a, w);
    lemma_windows(b, w);
}

proof fn lemma_windows(runs: Seq<Run>, w: (i64, i32, i32))
    ensures
        windows_of(runs).contains(w) <==> exists|i: int|
            0 <= i < runs.len() && (#[trigger] runs[i]).dialog_id == w.0 && runs[i].from_id == w.1
                && runs[i].to_id == w.2,
    decreases runs.len(),
{
    if runs.len() > 0 {
        let init = runs.drop_last();
        lemma_windows(init, w);
        if exists|i: int|
            0 <= i < runs.len() && (#[trigger] runs[i]).dialog_id == w.0 && runs[i].from_id == w.1
                && runs[i].to_id == w.2 {
            let i = choose|i: int|
                0 <= i < runs.len() && (#[trigger] runs[i]).dialog_id == w.0 && runs[i].from_id
                    == w.1 && runs[i].to_id == w.2;
            if i < init.len() {
                assert(init[i] == runs[i]);
                assert(init[i].dialog_id == w.0);
            }
        }
        if windows_of(init).contains(w) {
            let i = choose|i: int|
                0 <= i < init.len() && (#[trigger] init[i]).dialog_id == w.0 && init[i].from_id
                    == w.1 && init[i].to_id == w.2;
            assert(runs[i] == init[i]);
        }
        assert(runs[runs.len() - 1] == runs.last());
    }
}

/// What either model doomed in a common window is agreed or in one of the two
/// tails, and in no two of them; what lies in none is in none.
pub proof fn law_each_doomed_message_has_its_place(
    a: Map<(i64, i32), Seq<char>>,
    b: Map<(i64, i32), Seq<char>>,
    common: Set<(i64, i32, i32)>,
    p: (i64, i32),
)
    ensures
        ({
            let inside = exists|w: (i64, i32, i32)|
                #[trigger] common.contains(w) && w.0 == p.0 && w.1 <= p.1 && p.1 <= w.2;
            let (both, only_a, only_b) = (
                share_of(a, b, common, true),
                share_of(a, b, common, false),
                share_of(b, a, common, false),
            );
            &&& !inside ==> !both.contains(p) && !only_a.contains(p) && !only_b.contains(p)
            &&& inside && a.contains_key(p) && b.contains_key(p) ==> both.contains(p)
                && !only_a.contains(p) && !only_b.contains(p)
            &&& inside && a.contains_key(p) && !b.contains_key(p) ==> !both.contains(p)
                && only_a.contains(p) && !only_b.contains(p)
            &&& inside && !a.contains_key(p) && b.contains_key(p) ==> !both.contains(p)
                && !only_a.contains(p) && only_b.contains(p)
            &&& !a.contains_key(p) && !b.contains_key(p) ==> !both.contains(p) && !only_a.contains(
                p,
            ) && !only_b.contains(p)
        }),
{
    assert(lies_in(common, p) <==> exists|w: (i64, i32, i32)|
        #[trigger] common.contains(w) && w.0 == p.0 && w.1 <= p.1 && p.1 <= w.2);
}

proof fn lemma_insert_pair(t: Seq<(i64, i32)>, x: (i64, i32)) -> (s: Seq<(i64, i32)>)
    requires
        pairs_ascend(t),
    ensures
        pairs_ascend(s),
        forall|z: (i64, i32)| #[trigger] s.contains(z) <==> t.contains(z) || z == x,
    decreases t.len(),
{
    if t.len() == 0 {
        let s = seq![x];
        assert(s[0] == x);
        s
    } else if t.last() == x {
        assert(t[t.len() - 1] == x);
        t
    } else if pair_lt(t.last(), x) {
        let s = t.push(x);
        assert forall|i: int, j: int| 0 <= i < j < s.len() implies pair_lt(
            #[trigger] s[i],
            #[trigger] s[j],
        ) by {
            if i < t.len() - 1 {
                assert(pair_lt(t[i], t[t.len() - 1]));
            }
        }
        lemma_pushed(t, x);
        s
    } else {
        let init = t.drop_last();
        let y = t.last();
        assert forall|i: int, j: int| 0 <= i < j < init.len() implies pair_lt(
            #[trigger] init[i],
            #[trigger] init[j],
        ) by {
            assert(pair_lt(t[i], t[j]));
        }
        let s0 = lemma_insert_pair(init, x);
        let s = s0.push(y);
        assert forall|i: int, j: int| 0 <= i < j < s.len() implies pair_lt(
            #[trigger] s[i],
            #[trigger] s[j],
        ) by {
            if j < s0.len() {
                assert(pair_lt(s0[i], s0[j]));
            } else {
                assert(s0.contains(s0[i]));
                if s0[i] != x {
                    let k = choose|k: int| 0 <= k < init.len() && init[k] == s0[i];
                    assert(pair_lt(t[k], t[t.len() - 1]));
                }
            }
        }
        lemma_pushed(s0, y);
        lemma_pushed(init, y);
        assert(t =~= init.push(y));
        assert forall|z: (i64, i32)| #[trigger] s.contains(z) <==> t.contains(z) || z == x by {
            assert(s0.contains(z) <==> init.contains(z) || z == x);
        }
        s
    }
}

proof fn lemma_pushed<A>(t: Seq<A>, x: A)
    ensures
        forall|z: A| #[trigger] t.push(x).contains(z) <==> t.contains(z) || z == x,
{
    let s = t.push(x);
    assert forall|z: A| #[trigger] s.contains(z) <==> t.contains(z) || z == x by {
        if s.contains(z) {
            let k = choose|k: int| 0 <= k < s.len() && s[k] == z;
            if k < t.len() {
                assert(t[k] == z);
            }
        }
        if t.contains(z) {
            let k = choose|k: int| 0 <= k < t.len() && t[k] == z;
            assert(s[k] == z);
        }
        assert(s[t.len() as int] == x);
    }
}

/// The tail holds the message with that reason.
pub open spec fn tailed(tail: Seq<Doomed>, p: (i64, i32), reason: Seq<char>) -> bool {
    exists|i: int|
        0 <= i < tail.len() && (#[trigger] tail[i]).dialog_id == p.0 && tail[i].msg_id == p.1
            && tail[i].reason@ == reason
}

proof fn lemma_tailed(tail: Seq<Doomed>, p: (i64, i32), reason: Seq<char>)
    requires
        tail.len() > 0,
    ensures
        tailed(tail, p, reason) <==> tailed(tail.drop_last(), p, reason) || (tail.last().dialog_id
            == p.0 && tail.last().msg_id == p.1 && tail.last().reason@ == reason),
{
    let init = tail.drop_last();
    if tailed(tail, p, reason) {
        let i = choose|i: int|
            0 <= i < tail.len() && (#[trigger] tail[i]).dialog_id == p.0 && tail[i].msg_id == p.1
                && tail[i].reason@ == reason;
        if i < init.len() {
            assert(init[i] == tail[i]);
            assert(init[i].dialog_id == p.0);
        }
    }
    if tailed(init, p, reason) {
        let i = choose|i: int|
            0 <= i < init.len() && (#[trigger] init[i]).dialog_id == p.0 && init[i].msg_id == p.1
                && init[i].reason@ == reason;
        assert(tail[i] == init[i]);
    }
    assert(tail[tail.len() - 1] == tail.last());
}

proof fn lemma_ids_with(tail: Seq<Doomed>, reason: Seq<char>) -> (s: Seq<(i64, i32)>)
    ensures
        pairs_ascend(s),
        s.to_set() == ids_with(tail, reason),
        forall|p: (i64, i32)| #[trigger] s.contains(p) <==> tailed(tail, p, reason),
        s.len() <= tail.len(),
    decreases tail.len(),
{
    if tail.len() == 0 {
        let s = Seq::<(i64, i32)>::empty();
        assert(s.to_set() =~= ids_with(tail, reason));
        s
    } else {
        let init = tail.drop_last();
        let last = tail.last();
        let x = (last.dialog_id, last.msg_id);
        let t = lemma_ids_with(init, reason);
        let s = if last.reason@ == reason {
            lemma_insert_pair(t, x)
        } else {
            t
        };
        assert forall|p: (i64, i32)| #[trigger] s.contains(p) <==> tailed(tail, p, reason) by {
            lemma_tailed(tail, p, reason);
            assert(t.contains(p) <==> tailed(init, p, reason));
        }
        assert forall|p: (i64, i32)| #[trigger] s.to_set().contains(p) <==> ids_with(
            tail,
            reason,
        ).contains(p) by {
            assert(t.to_set().contains(p) <==> ids_with(init, reason).contains(p));
            assert(s.to_set().contains(p) <==> s.contains(p));
            assert(t.to_set().contains(p) <==> t.contains(p));
        }
        assert(s.to_set() =~= ids_with(tail, reason));
        lemma_no_twice(s);
        lemma_no_twice(t);
        if last.reason@ == reason {
            assert(s.to_set() =~= t.to_set().insert(x));
            s.unique_seq_to_set();
            t.unique_seq_to_set();
        }
        s
    }
}

proof fn lemma_no_twice(s: Seq<(i64, i32)>)
    requires
        pairs_ascend(s),
    ensures
        s.no_duplicates(),
{
    assert forall|i: int, j: int| 0 <= i < s.len() && 0 <= j < s.len() && i != j implies s[i]
        != s[j] by {
        if i < j {
            assert(pair_lt(s[i], s[j]));
        } else {
            assert(pair_lt(s[j], s[i]));
        }
    }
}

proof fn lemma_reasons(tail: Seq<Doomed>) -> (s: Seq<Seq<char>>)
    ensures
        s.to_set() == reasons_in(tail),
        forall|r: Seq<char>| #[trigger] s.contains(r) <==> exists|i: int|
            0 <= i < tail.len() && (#[trigger] tail[i]).reason@ == r,
    decreases tail.len(),
{
    if tail.len() == 0 {
        let s = Seq::<Seq<char>>::empty();
        assert(s.to_set() =~= reasons_in(tail));
        s
    } else {
        let init = tail.drop_last();
        let t = lemma_reasons(init);
        let s = t.push(tail.last().reason@);
        lemma_pushed(t, tail.last().reason@);
        assert forall|r: Seq<char>| #[trigger] s.contains(r) <==> exists|i: int|
            0 <= i < tail.len() && (#[trigger] tail[i]).reason@ == r by {
            if exists|i: int| 0 <= i < tail.len() && (#[trigger] tail[i]).reason@ == r {
                let i = choose|i: int| 0 <= i < tail.len() && (#[trigger] tail[i]).reason@ == r;
                if i < init.len() {
                    assert(init[i] == tail[i]);
                    assert(init[i].reason@ == r);
                    assert(t.contains(r));
                }
            }
            if t.contains(r) {
                let i = choose|i: int| 0 <= i < init.len() && (#[trigger] init[i]).reason@ == r;
                assert(tail[i] == init[i]);
            }
            assert(tail[tail.len() - 1] == tail.last());
        }
        assert forall|r: Seq<char>| #[trigger] s.to_set().contains(r) <==> reasons_in(
            tail,
        ).contains(r) by {
            assert(t.to_set().contains(r) <==> reasons_in(init).contains(r));
            assert(s.to_set().contains(r) <==> s.contains(r));
            assert(t.to_set().contains(r) <==> t.contains(r));
        }
        assert(s.to_set() =~= reasons_in(tail));
        s
    }
}

/// A group holds the messages of the tail with its reason, each once, by
/// dialog and number.
pub proof fn law_groups_hold_their_messages(tail: Seq<Doomed>, k: int, p: (i64, i32))
    requires
        0 <= k < by_reason(tail).len(),
    ensures
        by_reason(tail)[k].ids.contains(p) <==> tailed(tail, p, by_reason(tail)[k].reason),
        by_reason(tail)[k].ids.no_duplicates(),
        forall|i: int, j: int|
            #![trigger by_reason(tail)[k].ids[i], by_reason(tail)[k].ids[j]]
            0 <= i < j < by_reason(tail)[k].ids.len() ==> {
                let (a, b) = (by_reason(tail)[k].ids[i], by_reason(tail)[k].ids[j]);
                a.0 < b.0 || (a.0 == b.0 && a.1 < b.1)
            },
        by_reason(tail)[k].ids.len() <= tail.len(),
{
    let g = by_reason(tail)[k];
    let s = lemma_ids_with(tail, g.reason);
    lemma_pairs_listed(s);
    lemma_no_twice(s);
    assert(g.ids == s);
    assert forall|i: int, j: int|
        #![trigger g.ids[i], g.ids[j]]
        0 <= i < j < g.ids.len() implies g.ids[i].0 < g.ids[j].0 || (g.ids[i].0 == g.ids[j].0
        && g.ids[i].1 < g.ids[j].1) by {
        assert(pair_lt(s[i], s[j]));
    }
}

/// There is a group for every reason in the tail, and for no other; the groups
/// are in the order of their reasons.
pub proof fn law_every_reason_has_a_group(tail: Seq<Doomed>, reason: Seq<char>)
    ensures
        (exists|k: int| 0 <= k < by_reason(tail).len() && (#[trigger] by_reason(tail)[k]).reason
            == reason) <==> exists|i: int| 0 <= i < tail.len() && (#[trigger] tail[i]).reason@
            == reason,
        forall|i: int, j: int|
            0 <= i < j < by_reason(tail).len() ==> text_lt(
                (#[trigger] by_reason(tail)[i]).reason,
                (#[trigger] by_reason(tail)[j]).reason,
            ),
{
    let names = lemma_reasons(tail);
    let sorted = lemma_can_list(names);
    lemma_listed(sorted);
    let gs = by_reason(tail);
    assert(listed(reasons_in(tail)) == sorted);
    assert forall|i: int, j: int| 0 <= i < j < gs.len() implies text_lt(
        (#[trigger] gs[i]).reason,
        (#[trigger] gs[j]).reason,
    ) by {
        assert(text_lt(sorted[i], sorted[j]));
    }
    assert(sorted.to_set().contains(reason) <==> names.to_set().contains(reason));
    if exists|i: int| 0 <= i < tail.len() && (#[trigger] tail[i]).reason@ == reason {
        assert(names.contains(reason));
        assert(sorted.contains(reason));
        let k = choose|k: int| 0 <= k < sorted.len() && sorted[k] == reason;
        assert(gs[k].reason == reason);
    }
    if exists|k: int| 0 <= k < gs.len() && (#[trigger] gs[k]).reason == reason {
        let k = choose|k: int| 0 <= k < gs.len() && (#[trigger] gs[k]).reason == reason;
        assert(sorted[k] == reason);
        assert(sorted.to_set().contains(reason));
        assert(names.contains(reason));
    }
}

/// Of the groups the largest come first, equal ones by their reason; no more
/// than asked for are shown, and all of them if that many are asked for.
pub proof fn law_largest_groups_first(tail: Seq<Doomed>, show: usize, i: int, j: int)
    requires
        tail.len() <= usize::MAX,
    ensures
        ({
            let (top, all) = (top_groups(tail, show), by_reason(tail));
            &&& top.len() == if show < all.len() {
                show as nat
            } else {
                all.len()
            }
            &&& 0 <= i < top.len() ==> all.contains(top[i])
            &&& 0 <= i < j < top.len() ==> top[i].ids.len() >= top[j].ids.len()
            &&& 0 <= i < j < top.len() && top[i].ids.len() == top[j].ids.len() ==> text_lt(
                top[i].reason,
                top[j].reason,
            )
        }),
{
    let all = by_reason(tail);
    let keys = size_keys(all);
    let order = order_of(keys);
    lemma_order_exists(keys);
    lemma_order_places(keys, order);
    let sorted = picked(all, order);
    let top = top_groups(tail, show);
    if 0 <= i < top.len() {
        assert(top[i] == all[order[i]]);
        assert(all.contains(top[i]));
        if i < j < top.len() {
            let (a, b) = (order[i], order[j]);
            assert(top[j] == all[b]);
            let leq = |a: int, b: int| comes_first(keys, a, b);
            assert(leq(order[i], order[j]));
            law_groups_hold_their_messages(tail, a, (0, 0));
            law_groups_hold_their_messages(tail, b, (0, 0));
            law_every_reason_has_a_group(tail, all[a].reason);
            assert(order[i] != order[j]);
        }
    }
}

/// A group is told by its size and reason and the messages that were found of
/// it, one line each: day, dialog, and the head of the message with blanks for
/// line breaks. The first three are looked up.
pub proof fn law_groups_are_told(
    g: GroupView,
    found: Seq<Glimpse>,
    s: Glimpse,
    days: Seq<Seq<char>>,
    day: Seq<char>,
)
    requires
        days.len() == found.len(),
    ensures
        group_text(g, found, days) == "\n["@ + dec(g.ids.len()) + " msgs] "@ + g.reason + "\n"@
            + glimpse_lines(found, days),
        glimpse_lines(seq![], days).len() == 0,
        glimpse_lines(found.push(s), days.push(day)) == glimpse_lines(found, days) + ("    "@ + day
            + " «"@ + s.title@ + "» "@ + head(replaced(s.text@, "\n"@, " "@), 100) + "\n"@),
        SHOWN_PER_GROUP == 3,
{
    assert(found.push(s).drop_last() =~= found);
    lemma_days(found, days, days.push(day));
    assert(glimpse_line(s, day) == "    "@ + day + " «"@ + s.title@ + "» "@ + head(
        replaced(s.text@, "\n"@, " "@),
        100,
    ) + "\n"@);
}

proof fn lemma_days(found: Seq<Glimpse>, a: Seq<Seq<char>>, b: Seq<Seq<char>>)
    requires
        a.len() >= found.len(),
        b.len() >= found.len(),
        forall|i: int| 0 <= i < found.len() ==> #[trigger] a[i] == b[i],
    ensures
        glimpse_lines(found, a) == glimpse_lines(found, b),
    decreases found.len(),
{
    if found.len() > 0 {
        lemma_days(found.drop_last(), a, b);
        assert(a[found.len() - 1] == b[found.len() - 1]);
    }
}

/// The difference in words: the windows in common, what both assigned and what
/// only one did, each under its name.
pub proof fn law_difference_in_words(
    d: Difference,
    base: Seq<char>,
    against: Seq<char>,
    share: Seq<char>,
    show: usize,
    dump: Seq<char>,
)
    ensures
        ({
            let numbers = "windows in common: "@ + dec(d.common as nat)
                + "\n\nagreed (both assigned)  : "@ + dec(d.both as nat) + "\nonly "@ + left(
                base,
                24,
            ) + " : "@ + dec(d.only_base as nat) + "\nonly "@ + left(against, 24) + " : "@ + dec(
                d.tail@.len(),
            ) + "\n"@;
            let undisputed = "\nundisputed share: "@ + share
                + "% — deletable without a second look\n"@;
            let tail = "\n=== assigned only by "@ + against + " ("@ + dec(d.tail@.len())
                + " messages) ===\neither its false positives or a seam "@ + base + " misses\n"@
                + dump;
            let any = d.both > 0 || d.only_base > 0 || d.tail@.len() > 0;
            let r = report_of(d, base, against, share, show, dump);
            &&& any && show > 0 ==> r == numbers + undisputed + tail
            &&& any && show == 0 ==> r == numbers + undisputed
            &&& !any && show == 0 ==> r == numbers
            &&& !any && show > 0 ==> r == numbers + tail
        }),
{
    let numbers = "windows in common: "@ + dec(d.common as nat) + "\n\nagreed (both assigned)  : "@
        + dec(d.both as nat) + "\nonly "@ + left(base, 24) + " : "@ + dec(d.only_base as nat)
        + "\nonly "@ + left(against, 24) + " : "@ + dec(d.tail@.len()) + "\n"@;
    let undisputed = "\nundisputed share: "@ + share + "% — deletable without a second look\n"@;
    assert(numbers + Seq::<char>::empty() =~= numbers);
    assert(numbers + undisputed + Seq::<char>::empty() =~= numbers + undisputed);
}

} // verus!
