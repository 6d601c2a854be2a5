//! What the quality numbers count, told from the verdicts and the windows.

use crate::eval::{
    covered_count, cut_of, cuts_of, each_once, held_count, hits_edge, in_cuts, is_highest,
    is_lowest, key_of, keys_in, score_of, totals, window_of, RunView,
};
use crate::plan::{clamped, in_span};
use crate::plan_laws::{law_clamping_keeps_what_was_named, names};
use crate::triage::Range;
use crate::window::WindowView;
use vstd::prelude::*;

verus! {

/// A run goes by its model and then its prompt, with an at sign between.
pub proof fn law_runs_are_named_by_model_and_prompt(model: Seq<char>, prompt_id: Seq<char>)
    ensures
        key_of(model, prompt_id).len() == model.len() + 3 + prompt_id.len(),
        key_of(model, prompt_id).take(model.len() as int) == model,
        key_of(model, prompt_id).skip((model.len() + 3) as int) == prompt_id,
        key_of(model, prompt_id)[model.len() as int] == ' ',
        key_of(model, prompt_id)[(model.len() + 1) as int] == '@',
        key_of(model, prompt_id)[(model.len() + 2) as int] == ' ',
{
    reveal_strlit(" @ ");
    let key = key_of(model, prompt_id);
    assert(key.take(model.len() as int) =~= model);
    assert(key.skip((model.len() + 3) as int) =~= prompt_id);
}

/// A list with each message once holds the same messages, none twice.
pub proof fn law_each_message_counts_once(ids: Seq<i32>)
    ensures
        each_once(ids).no_duplicates(),
        forall|id: i32| #[trigger] each_once(ids).contains(id) <==> ids.contains(id),
        ids.no_duplicates() ==> each_once(ids) == ids,
    decreases ids.len(),
{
    if ids.len() > 0 {
        let init = ids.drop_last();
        law_each_message_counts_once(init);
        assert(ids =~= init.push(ids.last()));
        assert forall|id: i32| #[trigger] each_once(ids).contains(id) <==> ids.contains(id) by {
            assert(ids.contains(id) <==> init.contains(id) || id == ids.last()) by {
                if ids.contains(id) {
                    let k = choose|k: int| 0 <= k < ids.len() && ids[k] == id;
                    if k < init.len() {
                        assert(init[k] == id);
                    }
                }
                if init.contains(id) {
                    let k = choose|k: int| 0 <= k < init.len() && init[k] == id;
                    assert(ids[k] == id);
                }
                assert(ids[ids.len() - 1] == ids.last());
            }
            let before = each_once(init);
            if !before.contains(ids.last()) {
                let now = before.push(ids.last());
                assert(each_once(ids) == now);
                if now.contains(id) {
                    let k = choose|k: int| 0 <= k < now.len() && now[k] == id;
                    if k < before.len() {
                        assert(before[k] == id);
                    }
                }
                if before.contains(id) {
                    let k = choose|k: int| 0 <= k < before.len() && before[k] == id;
                    assert(now[k] == id);
                }
                assert(now[before.len() as int] == ids.last());
            }
        }
        if ids.no_duplicates() {
            assert forall|i: int, j: int|
                0 <= i < init.len() && 0 <= j < init.len() && i != j implies init[i] != init[j] by {
                assert(ids[i] != ids[j]);
            }
            if init.contains(ids.last()) {
                let k = choose|k: int| 0 <= k < init.len() && init[k] == ids.last();
                assert(ids[k] != ids[ids.len() - 1]);
            }
        }
    } else {
        assert(each_once(ids) =~= ids);
    }
}

/// A message that came before adds nothing; a new one comes after the others.
pub proof fn law_a_message_counts_where_it_first_comes(ids: Seq<i32>, id: i32)
    ensures
        ids.contains(id) ==> each_once(ids.push(id)) == each_once(ids),
        !ids.contains(id) ==> each_once(ids.push(id)) == each_once(ids).push(id),
{
    law_each_message_counts_once(ids);
    assert(ids.push(id).drop_last() =~= ids);
    assert(each_once(ids).contains(id) <==> ids.contains(id));
}

/// A message lies between the ends of one of the ranges.
pub open spec fn between_ends(deleted: Seq<(i32, i32)>) -> spec_fn(i32) -> bool {
    |id: i32|
        exists|i: int|
            0 <= i < deleted.len() && (#[trigger] deleted[i]).0 <= id && id <= deleted[i].1
}

/// The cut are the messages of the run between the ends of one of its ranges,
/// both ends with it, in the order of the run.
pub proof fn law_the_cut_lie_between_the_ends(msgs: Seq<i32>, deleted: Seq<(i32, i32)>)
    ensures
        cut_of(msgs, deleted) == msgs.filter(between_ends(deleted)),
    decreases msgs.len(),
{
    reveal(Seq::filter);
    if msgs.len() > 0 {
        law_the_cut_lie_between_the_ends(msgs.drop_last(), deleted);
        assert(in_cuts(deleted, msgs.last()) == between_ends(deleted)(msgs.last()));
    } else {
        assert(cut_of(msgs, deleted) =~= msgs.filter(between_ends(deleted)));
    }
}

proof fn lemma_cut_holds(msgs: Seq<i32>, deleted: Seq<(i32, i32)>, id: i32)
    ensures
        cut_of(msgs, deleted).contains(id) <==> msgs.contains(id) && in_cuts(deleted, id),
    decreases msgs.len(),
{
    if msgs.len() > 0 {
        let init = msgs.drop_last();
        lemma_cut_holds(init, deleted, id);
        let before = cut_of(init, deleted);
        assert(msgs.contains(id) <==> init.contains(id) || id == msgs.last()) by {
            if msgs.contains(id) {
                let k = choose|k: int| 0 <= k < msgs.len() && msgs[k] == id;
                if k < init.len() {
                    assert(init[k] == id);
                }
            }
            if init.contains(id) {
                let k = choose|k: int| 0 <= k < init.len() && init[k] == id;
                assert(msgs[k] == id);
            }
            assert(msgs[msgs.len() - 1] == msgs.last());
        }
        if in_cuts(deleted, msgs.last()) {
            let now = before.push(msgs.last());
            if now.contains(id) {
                let k = choose|k: int| 0 <= k < now.len() && now[k] == id;
                if k < before.len() {
                    assert(before[k] == id);
                }
            }
            if before.contains(id) {
                let k = choose|k: int| 0 <= k < before.len() && before[k] == id;
                assert(now[k] == id);
            }
            assert(now[before.len() as int] == msgs.last());
        }
    }
}

/// A verdict cuts a message of its window exactly where one of its ranges
/// names it.
pub proof fn law_verdicts_cut_what_they_name(
    msgs: Seq<i32>,
    ranges: Seq<Range>,
    from_id: i32,
    to_id: i32,
    id: i32,
)
    requires
        from_id <= to_id,
    ensures
        cut_of(msgs, cuts_of(ranges, from_id, to_id)).contains(id) <==> msgs.contains(id) && from_id
            <= id <= to_id && exists|g: int|
            0 <= g < ranges.len() && names(#[trigger] ranges[g], from_id, to_id, id),
{
    let cuts = cuts_of(ranges, from_id, to_id);
    lemma_cut_holds(msgs, cuts, id);
    if in_cuts(cuts, id) {
        let g = choose|g: int|
            0 <= g < cuts.len() && (#[trigger] cuts[g]).0 <= id && id <= cuts[g].1;
        assert(in_span(clamped(ranges[g], from_id, to_id), id));
        law_clamping_keeps_what_was_named(ranges[g], from_id, to_id, id);
        assert(names(ranges[g], from_id, to_id, id));
    }
    if from_id <= id <= to_id && exists|g: int|
        0 <= g < ranges.len() && names(#[trigger] ranges[g], from_id, to_id, id) {
        let g = choose|g: int|
            0 <= g < ranges.len() && names(#[trigger] ranges[g], from_id, to_id, id);
        law_clamping_keeps_what_was_named(ranges[g], from_id, to_id, id);
        assert(cuts[g].0 <= id && id <= cuts[g].1);
    }
}

/// The whitelist is broken by each cut message that it holds; an anchor is
/// covered if it is cut.
pub proof fn law_violations_and_covered_anchors(
    ids: Seq<i32>,
    dialog_id: i64,
    protected: Set<(i64, i32)>,
    anchors: Seq<i32>,
)
    ensures
        held_count(ids, dialog_id, protected) == ids.filter(
            |id: i32| protected.contains((dialog_id, id)),
        ).len(),
        covered_count(anchors, ids) == anchors.filter(|id: i32| ids.contains(id)).len(),
{
    lemma_held(ids, dialog_id, protected);
    lemma_covered(anchors, ids);
}

proof fn lemma_held(ids: Seq<i32>, dialog_id: i64, protected: Set<(i64, i32)>)
    ensures
        held_count(ids, dialog_id, protected) == ids.filter(
            |id: i32| protected.contains((dialog_id, id)),
        ).len(),
    decreases ids.len(),
{
    reveal(Seq::filter);
    if ids.len() > 0 {
        lemma_held(ids.drop_last(), dialog_id, protected);
    }
}

proof fn lemma_covered(anchors: Seq<i32>, ids: Seq<i32>)
    ensures
        covered_count(anchors, ids) == anchors.filter(|id: i32| ids.contains(id)).len(),
    decreases anchors.len(),
{
    reveal(Seq::filter);
    if anchors.len() > 0 {
        lemma_covered(anchors.drop_last(), ids);
    }
}

/// The window is the one the run judged: same dialog, same ends.
pub open spec fn judged(w: WindowView, r: RunView) -> bool {
    w.dialog_id == r.dialog_id && w.from_id == r.from_id && w.to_id == r.to_id
}

/// A run is held against the window with its dialog and its two ends, the last
/// where several have them; against none where no window has.
pub proof fn law_runs_find_their_window(ws: Seq<WindowView>, r: RunView, k: int)
    ensures
        0 <= k < ws.len() && judged(ws[k], r) && (forall|j: int|
            k < j < ws.len() ==> !judged(#[trigger] ws[j], r)) ==> window_of(ws, r) == Some(ws[k]),
        (forall|j: int| 0 <= j < ws.len() ==> !judged(#[trigger] ws[j], r)) ==> window_of(ws, r)
            is None,
    decreases ws.len(),
{
    if ws.len() > 0 {
        let init = ws.drop_last();
        law_runs_find_their_window(init, r, k);
        if 0 <= k < ws.len() && judged(ws[k], r) && (forall|j: int|
            k < j < ws.len() ==> !judged(#[trigger] ws[j], r)) {
            if k < ws.len() - 1 {
                assert(!judged(ws[ws.len() - 1], r));
                assert(init[k] == ws[k]);
                assert forall|j: int| k < j < init.len() implies !judged(#[trigger] init[j], r) by {
                    assert(init[j] == ws[j]);
                }
            }
        }
        if forall|j: int| 0 <= j < ws.len() ==> !judged(#[trigger] ws[j], r) {
            assert(!judged(ws[ws.len() - 1], r));
            assert forall|j: int| 0 <= j < init.len() implies !judged(#[trigger] init[j], r) by {
                assert(init[j] == ws[j]);
            }
        }
    }
}

/// The numbers of one run on a window that is known: the cut and the whitelist
/// by message, the window and its anchors as they stand, and a window cut
/// whole where more than nine tenths of it are.
pub proof fn law_scores_tell_the_verdict(
    r: RunView,
    ws: Seq<WindowView>,
    protected: Set<(i64, i32)>,
    k: int,
)
    requires
        0 <= k < ws.len(),
        judged(ws[k], r),
        forall|j: int| k < j < ws.len() ==> !judged(#[trigger] ws[j], r),
    ensures
        ({
            let s = score_of(r, ws, protected);
            let cut = r.msgs.filter(between_ends(r.deleted));
            &&& s.windows == 1
            &&& s.in_windows == ws[k].total
            &&& s.cut == cut.len()
            &&& s.violations == cut.filter(|id: i32| protected.contains((r.dialog_id, id))).len()
            &&& s.claims == r.protected_claims
            &&& s.anchors == ws[k].anchors.len()
            &&& s.covered == ws[k].anchors.filter(|id: i32| cut.contains(id)).len()
            &&& s.full == 1 || s.full == 0
            &&& ws[k].total > 0 ==> (s.full == 1 <==> 10 * cut.len() > 9 * ws[k].total)
            &&& ws[k].total == 0 ==> (s.full == 1 <==> cut.len() > 0)
        }),
{
    law_runs_find_their_window(ws, r, k);
    law_the_cut_lie_between_the_ends(r.msgs, r.deleted);
    let cut = cut_of(r.msgs, r.deleted);
    law_violations_and_covered_anchors(cut, r.dialog_id, protected, ws[k].anchors);
}

/// On a window that is no longer there, nothing is counted but the verdict.
pub proof fn law_lost_windows_count_no_anchors(
    r: RunView,
    ws: Seq<WindowView>,
    protected: Set<(i64, i32)>,
)
    requires
        forall|j: int| 0 <= j < ws.len() ==> !judged(#[trigger] ws[j], r),
    ensures
        ({
            let s = score_of(r, ws, protected);
            let cut = r.msgs.filter(between_ends(r.deleted));
            &&& s.windows == 1
            &&& s.in_windows == 0 && s.anchors == 0 && s.covered == 0 && s.full == 0
            &&& s.cut == cut.len()
            &&& s.violations == cut.filter(|id: i32| protected.contains((r.dialog_id, id))).len()
            &&& s.claims == r.protected_claims
        }),
{
    law_runs_find_their_window(ws, r, 0);
    law_the_cut_lie_between_the_ends(r.msgs, r.deleted);
    lemma_held(cut_of(r.msgs, r.deleted), r.dialog_id, protected);
}

/// A verdict without ranges is empty and cuts nothing. A verdict cuts at the
/// edge if it cuts the first or the last message of its window.
pub proof fn law_empty_and_edge(
    r: RunView,
    ws: Seq<WindowView>,
    protected: Set<(i64, i32)>,
    id: i32,
)
    ensures
        score_of(r, ws, protected).empty == (if r.deleted.len() == 0 {
            1nat
        } else {
            0nat
        }),
        r.deleted.len() == 0 ==> score_of(r, ws, protected).cut == 0,
        score_of(r, ws, protected).edge <= 1,
        r.msgs.contains(id) && between_ends(r.deleted)(id) && ((forall|i: int|
            0 <= i < r.msgs.len() ==> id <= #[trigger] r.msgs[i]) || (forall|i: int|
            0 <= i < r.msgs.len() ==> #[trigger] r.msgs[i] <= id)) ==> score_of(
            r,
            ws,
            protected,
        ).edge == 1,
        (forall|x: i32| #[trigger]
            r.msgs.contains(x) && between_ends(r.deleted)(x) ==> (exists|i: int|
                0 <= i < r.msgs.len() && #[trigger] r.msgs[i] < x) && (exists|i: int|
                0 <= i < r.msgs.len() && #[trigger] r.msgs[i] > x)) ==> score_of(
            r,
            ws,
            protected,
        ).edge == 0,
{
    let cut = cut_of(r.msgs, r.deleted);
    lemma_cut_holds(r.msgs, r.deleted, id);
    assert(in_cuts(r.deleted, id) == between_ends(r.deleted)(id));
    if r.msgs.contains(id) && between_ends(r.deleted)(id) && ((forall|i: int|
        0 <= i < r.msgs.len() ==> id <= #[trigger] r.msgs[i]) || (forall|i: int|
        0 <= i < r.msgs.len() ==> #[trigger] r.msgs[i] <= id)) {
        assert(cut.contains(id));
        assert(is_lowest(r.msgs, id) || is_highest(r.msgs, id));
        assert(hits_edge(r.msgs, cut));
    }
    if hits_edge(r.msgs, cut) {
        let x = choose|x: i32| #[trigger]
            cut.contains(x) && (is_lowest(r.msgs, x) || is_highest(r.msgs, x));
        lemma_cut_holds(r.msgs, r.deleted, x);
        assert(r.msgs.contains(x) && between_ends(r.deleted)(x));
    }
    if r.deleted.len() == 0 && cut.len() > 0 {
        lemma_cut_holds(r.msgs, r.deleted, cut[0]);
        assert(cut.contains(cut[0]));
    }
}

/// The numbers of a run of that name are added one by one; a run of another
/// name changes nothing.
pub proof fn law_totals_add_up(
    runs: Seq<RunView>,
    r: RunView,
    key: Seq<char>,
    ws: Seq<WindowView>,
    protected: Set<(i64, i32)>,
)
    ensures
        ({
            let (was, one, now) = (
                totals(runs, key, ws, protected),
                score_of(r, ws, protected),
                totals(runs.push(r), key, ws, protected),
            );
            &&& r.key != key ==> now == was
            &&& r.key == key ==> {
                &&& now.windows == was.windows + 1
                &&& now.in_windows == was.in_windows + one.in_windows
                &&& now.cut == was.cut + one.cut
                &&& now.violations == was.violations + one.violations
                &&& now.full == was.full + one.full
                &&& now.empty == was.empty + one.empty
                &&& now.claims == was.claims + one.claims
                &&& now.anchors == was.anchors + one.anchors
                &&& now.covered == was.covered + one.covered
                &&& now.edge == was.edge + one.edge
            }
        }),
        ({
            let none = totals(seq![], key, ws, protected);
            &&& none.windows == 0 && none.in_windows == 0 && none.cut == 0
            &&& none.violations == 0 && none.full == 0 && none.empty == 0
            &&& none.claims == 0 && none.anchors == 0 && none.covered == 0 && none.edge == 0
        }),
{
    assert(runs.push(r).drop_last() =~= runs);
}

/// The names are those of the runs.
pub proof fn law_names_are_those_of_the_runs(runs: Seq<RunView>, key: Seq<char>)
    ensures
        keys_in(runs).contains(key) <==> exists|i: int|
            0 <= i < runs.len() && (#[trigger] runs[i]).key == key,
    decreases runs.len(),
{
    if runs.len() > 0 {
        let init = runs.drop_last();
        law_names_are_those_of_the_runs(init, key);
        if exists|i: int| 0 <= i < runs.len() && (#[trigger] runs[i]).key == key {
            let i = choose|i: int| 0 <= i < runs.len() && (#[trigger] runs[i]).key == key;
            if i < init.len() {
                assert(init[i].key == key);
            }
        }
        if keys_in(init).contains(key) {
            let i = choose|i: int| 0 <= i < init.len() && (#[trigger] init[i]).key == key;
            assert(runs[i].key == key);
        }
        assert(runs[runs.len() - 1] == runs.last());
    }
}

} // verus!
