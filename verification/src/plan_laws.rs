//! What the plan takes from the verdicts, told from their ranges.

use crate::plan::{
    clamped, every_row, gated, in_scope, in_span, law_what_is_cut_is_planned, lemma_range_keeps,
    messages_of, plan_of, planned, row_for, scope_count, upright, with_range, with_ranges, Mark,
    Marked, PlanRowView, Run,
};
use crate::triage::Range;
use vstd::prelude::*;

verus! {

/// The lower end of a range, whichever way round it is given.
pub open spec fn low(r: Range) -> i64 {
    if r.from < r.to {
        r.from
    } else {
        r.to
    }
}

/// The upper end of a range, whichever way round it is given.
pub open spec fn high(r: Range) -> i64 {
    if r.from < r.to {
        r.to
    } else {
        r.from
    }
}

/// The range names the message; or it misses the window altogether, and the
/// message is the end of the window next to it.
pub open spec fn names(r: Range, from_id: i32, to_id: i32, id: i32) -> bool {
    ||| low(r) <= id <= high(r)
    ||| low(r) > to_id && id == to_id
    ||| high(r) < from_id && id == from_id
}

/// Inside the window, a clamped range holds exactly the messages between its
/// two ends; one that misses the window holds the end of the window next to
/// it.
pub proof fn law_clamping_keeps_what_was_named(r: Range, from_id: i32, to_id: i32, id: i32)
    requires
        from_id <= to_id,
    ensures
        from_id <= id <= to_id && low(r) <= id <= high(r) ==> in_span(
            clamped(r, from_id, to_id),
            id,
        ),
        in_span(clamped(r, from_id, to_id), id) ==> from_id <= id <= to_id,
        low(r) <= to_id && from_id <= high(r) && in_span(clamped(r, from_id, to_id), id) ==> low(r)
            <= id <= high(r),
        low(r) > to_id ==> (in_span(clamped(r, from_id, to_id), id) <==> id == to_id),
        high(r) < from_id ==> (in_span(clamped(r, from_id, to_id), id) <==> id == from_id),
        in_span(clamped(r, from_id, to_id), id) <==> from_id <= id <= to_id && names(
            r,
            from_id,
            to_id,
            id,
        ),
{
}

/// The row comes from that range of that run: the range names its message, in
/// the window the model saw, and the row says what the range says.
pub open spec fn comes_from(row: PlanRowView, run: Run, g: int) -> bool {
    &&& run.dialog_id == row.dialog_id
    &&& run.verdict is Some
    &&& 0 <= g < (run.verdict->0).delete_ranges@.len()
    &&& run.seen_from <= row.msg_id <= run.seen_to
    &&& names((run.verdict->0).delete_ranges@[g], run.seen_from, run.seen_to, row.msg_id)
    &&& row.reason == (run.verdict->0).delete_ranges@[g].reason@
    &&& row.axis == (run.verdict->0).delete_ranges@[g].axis@
    &&& row.confidence == (run.verdict->0).delete_ranges@[g].confidence
    &&& !row.approved
}

/// The row comes from some range of some run.
pub open spec fn is_accounted(row: PlanRowView, runs: Seq<Run>) -> bool {
    exists|n: int, g: int| 0 <= n < runs.len() && #[trigger] comes_from(row, runs[n], g)
}

proof fn lemma_ranges_accounted(
    plan: Seq<PlanRowView>,
    run: Run,
    messages: Seq<Mark>,
    count: int,
    p: spec_fn(PlanRowView) -> bool,
)
    requires
        run.verdict is Some,
        0 <= count <= (run.verdict->0).delete_ranges@.len(),
        run.seen_from <= run.seen_to,
        every_row(plan, p),
        forall|row: PlanRowView, g: int| #[trigger] comes_from(row, run, g) ==> p(row),
    ensures
        every_row(with_ranges(plan, run, messages, (run.verdict->0).delete_ranges@.take(count)), p),
    decreases count,
{
    let all = (run.verdict->0).delete_ranges@;
    if count > 0 {
        lemma_ranges_accounted(plan, run, messages, count - 1, p);
        let now = all.take(count);
        assert(now.drop_last() =~= all.take(count - 1));
        let last = now.last();
        assert(last == all[count - 1]);
        let span = clamped(last, run.seen_from, run.seen_to);
        assert forall|k: int|
            0 <= k < messages.len() && span.0 <= (#[trigger] messages[k]).msg_id <= span.1
                && !messages[k].protected implies p(
            row_for(run.dialog_id, messages[k].msg_id, last),
        ) by {
            law_clamping_keeps_what_was_named(
                last,
                run.seen_from,
                run.seen_to,
                messages[k].msg_id,
            );
            assert(comes_from(row_for(run.dialog_id, messages[k].msg_id, last), run, count - 1));
        }
        lemma_range_keeps(
            with_ranges(plan, run, messages, now.drop_last()),
            run.dialog_id,
            messages,
            span,
            last,
            p,
        );
    } else {
        assert(all.take(0) =~= Seq::<Range>::empty());
    }
}

/// Nothing is planned that no verdict named: every row's message lies between
/// the two ends of some range of some verdict, or at the end of the window that
/// range points past, and the row says what that range says.
pub proof fn law_every_row_was_named(runs: Seq<Run>, corpus: Seq<Marked>)
    requires
        upright(runs),
    ensures
        forall|i: int|
            0 <= i < plan_of(runs, corpus).len() ==> is_accounted(
                #[trigger] plan_of(runs, corpus)[i],
                runs,
            ),
    decreases runs.len(),
{
    if runs.len() > 0 {
        let rest = runs.drop_last();
        let run = runs.last();
        assert(runs[runs.len() - 1] == run);
        assert(upright(rest)) by {
            assert forall|i: int| 0 <= i < rest.len() implies (#[trigger] rest[i]).seen_from
                <= rest[i].seen_to by {
                assert(rest[i] == runs[i]);
            }
        }
        law_every_row_was_named(rest, corpus);
        let init = plan_of(rest, corpus);
        let p = |row: PlanRowView| is_accounted(row, runs);
        assert forall|i: int| 0 <= i < init.len() implies p(#[trigger] init[i]) by {
            assert(is_accounted(init[i], rest));
            let (n, g) = choose|n: int, g: int|
                0 <= n < rest.len() && #[trigger] comes_from(init[i], rest[n], g);
            assert(comes_from(init[i], runs[n], g));
        }
        if let Some(v) = run.verdict {
            assert forall|row: PlanRowView, g: int| #[trigger]
                comes_from(row, run, g) implies p(row) by {
                assert(comes_from(row, runs[runs.len() - 1], g));
            }
            let all = v.delete_ranges@;
            lemma_ranges_accounted(
                init,
                run,
                messages_of(corpus, run.dialog_id),
                all.len() as int,
                p,
            );
            assert(all.take(all.len() as int) =~= all);
        }
        let plan = plan_of(runs, corpus);
        assert(every_row(plan, p));
        assert forall|i: int| 0 <= i < plan.len() implies is_accounted(
            #[trigger] plan[i],
            runs,
        ) by {
            assert(p(plan[i]));
        }
    }
}

/// Nothing that was named is left out: an unprotected message between the two
/// ends of a range, in the window the model saw, is in the plan.
pub proof fn law_every_named_message_is_planned(
    runs: Seq<Run>,
    corpus: Seq<Marked>,
    n: int,
    g: int,
    k: int,
)
    requires
        upright(runs),
        0 <= n < runs.len(),
        runs[n].verdict is Some,
        0 <= g < (runs[n].verdict->0).delete_ranges@.len(),
        0 <= k < messages_of(corpus, runs[n].dialog_id).len(),
        !messages_of(corpus, runs[n].dialog_id)[k].protected,
        runs[n].seen_from <= messages_of(corpus, runs[n].dialog_id)[k].msg_id <= runs[n].seen_to,
        low((runs[n].verdict->0).delete_ranges@[g]) <= messages_of(
            corpus,
            runs[n].dialog_id,
        )[k].msg_id <= high((runs[n].verdict->0).delete_ranges@[g]),
    ensures
        planned(
            plan_of(runs, corpus),
            runs[n].dialog_id,
            messages_of(corpus, runs[n].dialog_id)[k].msg_id,
        ),
{
    law_clamping_keeps_what_was_named(
        (runs[n].verdict->0).delete_ranges@[g],
        runs[n].seen_from,
        runs[n].seen_to,
        messages_of(corpus, runs[n].dialog_id)[k].msg_id,
    );
    law_what_is_cut_is_planned(runs, corpus, n, g, k);
}

/// The messages of a dialog are found under its id, the first list of it, and
/// none under an id that is not there.
pub proof fn law_messages_are_found_by_dialog(corpus: Seq<Marked>, k: int, dialog_id: i64)
    ensures
        0 <= k < corpus.len() && corpus[k].dialog_id == dialog_id && (forall|j: int|
            0 <= j < k ==> (#[trigger] corpus[j]).dialog_id != dialog_id) ==> messages_of(
            corpus,
            dialog_id,
        ) == corpus[k].messages@,
        (forall|j: int| 0 <= j < corpus.len() ==> (#[trigger] corpus[j]).dialog_id != dialog_id)
            ==> messages_of(corpus, dialog_id).len() == 0,
    decreases corpus.len(),
{
    if corpus.len() > 0 && corpus[0].dialog_id != dialog_id {
        let rest = corpus.drop_first();
        law_messages_are_found_by_dialog(rest, k - 1, dialog_id);
        assert forall|j: int| 0 <= j < rest.len() implies (#[trigger] rest[j]) == corpus[j + 1] by {}
        if 0 < k < corpus.len() {
            assert(rest[k - 1] == corpus[k]);
        }
    }
}

proof fn lemma_range_grows(
    plan: Seq<PlanRowView>,
    dialog_id: i64,
    messages: Seq<Mark>,
    span: (i32, i32),
    r: Range,
)
    ensures
        with_range(plan, dialog_id, messages, span, r).len() >= plan.len(),
        with_range(plan, dialog_id, messages, span, r).take(plan.len() as int) == plan,
    decreases messages.len(),
{
    let now = with_range(plan, dialog_id, messages, span, r);
    if messages.len() > 0 {
        lemma_range_grows(plan, dialog_id, messages.drop_last(), span, r);
        let init = with_range(plan, dialog_id, messages.drop_last(), span, r);
        assert(now.take(plan.len() as int) =~= init.take(plan.len() as int));
    } else {
        assert(now.take(plan.len() as int) =~= plan);
    }
}

/// Ranges only add rows behind those that are there.
pub proof fn law_plans_only_grow(
    plan: Seq<PlanRowView>,
    run: Run,
    messages: Seq<Mark>,
    ranges: Seq<Range>,
)
    ensures
        with_ranges(plan, run, messages, ranges).len() >= plan.len(),
        with_ranges(plan, run, messages, ranges).take(plan.len() as int) == plan,
    decreases ranges.len(),
{
    let now = with_ranges(plan, run, messages, ranges);
    if ranges.len() > 0 {
        law_plans_only_grow(plan, run, messages, ranges.drop_last());
        let init = with_ranges(plan, run, messages, ranges.drop_last());
        lemma_range_grows(
            init,
            run.dialog_id,
            messages,
            clamped(ranges.last(), run.seen_from, run.seen_to),
            ranges.last(),
        );
        assert(now.take(plan.len() as int) =~= now.take(init.len() as int).take(
            plan.len() as int,
        ));
    } else {
        assert(now.take(plan.len() as int) =~= plan);
    }
}

/// The first range to name a message has the say over it: a further range of
/// the verdict leaves the rows of those before it as they are.
pub proof fn law_further_ranges_only_add(
    plan: Seq<PlanRowView>,
    run: Run,
    messages: Seq<Mark>,
    ranges: Seq<Range>,
    r: Range,
)
    ensures
        with_ranges(plan, run, messages, ranges.push(r)).len() >= with_ranges(
            plan,
            run,
            messages,
            ranges,
        ).len(),
        with_ranges(plan, run, messages, ranges.push(r)).take(
            with_ranges(plan, run, messages, ranges).len() as int,
        ) == with_ranges(plan, run, messages, ranges),
        with_ranges(plan, run, messages, seq![]) == plan,
{
    let was = with_ranges(plan, run, messages, ranges);
    assert(ranges.push(r).drop_last() =~= ranges);
    lemma_range_grows(
        was,
        run.dialog_id,
        messages,
        clamped(r, run.seen_from, run.seen_to),
        r,
    );
}

/// Another run leaves the rows of those before it as they are.
pub proof fn law_runs_only_add(runs: Seq<Run>, run: Run, corpus: Seq<Marked>)
    ensures
        plan_of(runs.push(run), corpus).len() >= plan_of(runs, corpus).len(),
        plan_of(runs.push(run), corpus).take(plan_of(runs, corpus).len() as int) == plan_of(
            runs,
            corpus,
        ),
        run.verdict is None ==> plan_of(runs.push(run), corpus) == plan_of(runs, corpus),
        plan_of(Seq::<Run>::empty(), corpus).len() == 0,
{
    let init = plan_of(runs, corpus);
    assert(runs.push(run).drop_last() =~= runs);
    match run.verdict {
        Some(v) => {
            law_plans_only_grow(
                init,
                run,
                messages_of(corpus, run.dialog_id),
                v.delete_ranges@,
            );
        },
        None => {
            assert(init.take(init.len() as int) =~= init);
        },
    }
}

/// An approval reaches the rows of the dialog and the axis it names, all of
/// them and no other, and changes nothing else about them.
pub proof fn law_approval_reaches_what_it_names(
    plan: Seq<PlanRowView>,
    dialog: Option<i64>,
    axis: Option<&str>,
    on: bool,
    i: int,
)
    requires
        0 <= i < plan.len(),
    ensures
        gated(plan, dialog, axis, on).len() == plan.len(),
        ({
            let (was, now) = (plan[i], gated(plan, dialog, axis, on)[i]);
            let meant = (dialog is None || dialog == Some(was.dialog_id)) && (axis is None || (
            axis->0)@ == was.axis);
            &&& now.approved == (if meant {
                on
            } else {
                was.approved
            })
            &&& now.dialog_id == was.dialog_id
            &&& now.msg_id == was.msg_id
            &&& now.reason == was.reason
            &&& now.axis == was.axis
            &&& now.confidence == was.confidence
            &&& scope_count(plan.take(i + 1), dialog, axis) == scope_count(
                plan.take(i),
                dialog,
                axis,
            ) + (if meant {
                1int
            } else {
                0
            })
        }),
        scope_count(Seq::<PlanRowView>::empty(), dialog, axis) == 0,
        dialog is None && axis is None ==> scope_count(plan, dialog, axis) == plan.len(),
    decreases plan.len(),
{
    assert(plan.take(i + 1).drop_last() =~= plan.take(i));
    if dialog is None && axis is None {
        lemma_whole_scope(plan, dialog, axis);
    }
}

proof fn lemma_whole_scope(plan: Seq<PlanRowView>, dialog: Option<i64>, axis: Option<&str>)
    requires
        dialog is None,
        axis is None,
    ensures
        scope_count(plan, dialog, axis) == plan.len(),
    decreases plan.len(),
{
    if plan.len() > 0 {
        lemma_whole_scope(plan.drop_last(), dialog, axis);
        assert(in_scope(plan.last(), dialog, axis));
    }
}

} // verus!
