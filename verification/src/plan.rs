//! The deletion plan: assembled from the verdicts of one run, and rebuilt as
//! often as needed. The last safety catch lives here: protected messages
//! never enter the plan whatever the model answered, and a range is clamped
//! to the window the model actually saw, the widened one if it was widened.

use crate::idset::IdSet;
use crate::text::same;
use crate::triage::{Range, Verdict};
use vstd::prelude::*;

verus! {

/// A message of the corpus, as far as the plan is concerned.
#[derive(Debug, Clone, Copy, PartialEq, Eq, Structural)]
pub struct Mark {
    pub msg_id: i32,
    pub protected: bool,
}

/// The messages of a dialog.
#[derive(Debug)]
pub struct Marked {
    pub dialog_id: i64,
    pub messages: Vec<Mark>,
}

/// A stored answer to a window; without a verdict if it could not be read.
#[derive(Debug)]
pub struct Run {
    pub dialog_id: i64,
    /// The window that was started from: the key of the run.
    pub from_id: i32,
    pub to_id: i32,
    /// The window the verdict is on: wider, if the model asked for more.
    pub seen_from: i32,
    pub seen_to: i32,
    pub verdict: Option<Verdict>,
}

/// One row is one message to delete.
#[derive(Debug)]
pub struct PlanRow {
    pub dialog_id: i64,
    pub msg_id: i32,
    pub reason: String,
    pub axis: String,
    /// The bits of an IEEE 754 double.
    pub confidence: u64,
    pub approved: bool,
}

/// A row as plain values.
pub struct PlanRowView {
    pub dialog_id: i64,
    pub msg_id: i32,
    pub reason: Seq<char>,
    pub axis: Seq<char>,
    pub confidence: u64,
    pub approved: bool,
}

impl View for PlanRow {
    type V = PlanRowView;

    open spec fn view(&self) -> PlanRowView {
        PlanRowView {
            dialog_id: self.dialog_id,
            msg_id: self.msg_id,
            reason: self.reason@,
            axis: self.axis@,
            confidence: self.confidence,
            approved: self.approved,
        }
    }
}

pub open spec fn plan_views(v: Seq<PlanRow>) -> Seq<PlanRowView> {
    Seq::new(v.len(), |i: int| v[i]@)
}

/// Why there is no plan.
#[derive(Debug)]
pub enum PlanError {
    /// Nothing was triaged.
    NoRuns,
}

// --- ranges --------------------------------------------------------------

/// A number held between two others.
pub open spec fn held(x: i64, lo: i32, hi: i32) -> i32 {
    if x < lo {
        lo
    } else if x > hi {
        hi
    } else {
        x as i32
    }
}

/// A range the right way round, clamped to a window.
pub open spec fn clamped(r: Range, from_id: i32, to_id: i32) -> (i32, i32) {
    if r.from <= r.to {
        (held(r.from, from_id, to_id), held(r.to, from_id, to_id))
    } else {
        (held(r.to, from_id, to_id), held(r.from, from_id, to_id))
    }
}

fn hold(x: i64, lo: i32, hi: i32) -> (r: i32)
    requires
        lo <= hi,
    ensures
        r == held(x, lo, hi),
{
    if x < lo as i64 {
        lo
    } else if x > hi as i64 {
        hi
    } else {
        x as i32
    }
}

/// A range the right way round, clamped to a window.
pub fn clamp(r: &Range, from_id: i32, to_id: i32) -> (c: (i32, i32))
    requires
        from_id <= to_id,
    ensures
        c == clamped(*r, from_id, to_id),
{
    if r.from <= r.to {
        (hold(r.from, from_id, to_id), hold(r.to, from_id, to_id))
    } else {
        (hold(r.to, from_id, to_id), hold(r.from, from_id, to_id))
    }
}

// --- the plan ------------------------------------------------------------

/// An id inside a span.
pub open spec fn in_span(span: (i32, i32), id: i32) -> bool {
    span.0 <= id <= span.1
}

/// A message is in the plan already.
pub open spec fn planned(plan: Seq<PlanRowView>, dialog_id: i64, msg_id: i32) -> bool {
    exists|i: int|
        0 <= i < plan.len() && (#[trigger] plan[i]).dialog_id == dialog_id && plan[i].msg_id
            == msg_id
}

/// The row a range gives a message.
pub open spec fn row_for(dialog_id: i64, msg_id: i32, r: Range) -> PlanRowView {
    PlanRowView {
        dialog_id,
        msg_id,
        reason: r.reason@,
        axis: r.axis@,
        confidence: r.confidence,
        approved: false,
    }
}

/// The plan with the messages of a range added: not the protected ones, and
/// not those that are in it already.
pub open spec fn with_range(
    plan: Seq<PlanRowView>,
    dialog_id: i64,
    messages: Seq<Mark>,
    span: (i32, i32),
    r: Range,
) -> Seq<PlanRowView>
    decreases messages.len(),
{
    if messages.len() == 0 {
        plan
    } else {
        let init = with_range(plan, dialog_id, messages.drop_last(), span, r);
        let m = messages.last();
        if span.0 <= m.msg_id <= span.1 && !m.protected && !planned(init, dialog_id, m.msg_id) {
            init.push(row_for(dialog_id, m.msg_id, r))
        } else {
            init
        }
    }
}

/// The plan with the ranges of a verdict added, one after another.
pub open spec fn with_ranges(
    plan: Seq<PlanRowView>,
    run: Run,
    messages: Seq<Mark>,
    ranges: Seq<Range>,
) -> Seq<PlanRowView>
    decreases ranges.len(),
{
    if ranges.len() == 0 {
        plan
    } else {
        with_range(
            with_ranges(plan, run, messages, ranges.drop_last()),
            run.dialog_id,
            messages,
            clamped(ranges.last(), run.seen_from, run.seen_to),
            ranges.last(),
        )
    }
}

/// The messages of a dialog; none if it is not in the corpus.
pub open spec fn messages_of(corpus: Seq<Marked>, dialog_id: i64) -> Seq<Mark>
    decreases corpus.len(),
{
    if corpus.len() == 0 {
        seq![]
    } else if corpus[0].dialog_id == dialog_id {
        corpus[0].messages@
    } else {
        messages_of(corpus.drop_first(), dialog_id)
    }
}

/// The plan that a list of runs gives.
pub open spec fn plan_of(runs: Seq<Run>, corpus: Seq<Marked>) -> Seq<PlanRowView>
    decreases runs.len(),
{
    if runs.len() == 0 {
        seq![]
    } else {
        let init = plan_of(runs.drop_last(), corpus);
        let run = runs.last();
        match run.verdict {
            Some(v) => with_ranges(
                init,
                run,
                messages_of(corpus, run.dialog_id),
                v.delete_ranges@,
            ),
            None => init,
        }
    }
}

/// The windows the model saw are the right way round.
pub open spec fn upright(runs: Seq<Run>) -> bool {
    forall|i: int| 0 <= i < runs.len() ==> (#[trigger] runs[i]).seen_from <= runs[i].seen_to
}

/// A set of messages, and what is in the plan.
spec fn lists(seen: Set<(i64, i32)>, plan: Seq<PlanRowView>) -> bool {
    forall|d: i64, m: i32|
        #![trigger planned(plan, d, m)]
        planned(plan, d, m) == seen.contains((d, m))
}

/// The messages of a dialog, if it is in the corpus.
pub fn find_messages<'a>(corpus: &'a Vec<Marked>, dialog_id: i64) -> (r: Option<&'a Vec<Mark>>)
    ensures
        match r {
            Some(v) => v@ == messages_of(corpus@, dialog_id),
            None => messages_of(corpus@, dialog_id).len() == 0,
        },
{
    let mut i: usize = 0;
    assert(corpus@.skip(0) =~= corpus@);
    while i < corpus.len()
        invariant
            i <= corpus@.len(),
            messages_of(corpus@, dialog_id) == messages_of(corpus@.skip(i as int), dialog_id),
        decreases corpus@.len() - i,
    {
        assert(corpus@.skip(i as int)[0] == corpus@[i as int]);
        assert(corpus@.skip(i as int).drop_first() =~= corpus@.skip(i + 1));
        if corpus[i].dialog_id == dialog_id {
            return Some(&corpus[i].messages);
        }
        i += 1;
    }
    None
}

fn add_range(
    plan: &mut Vec<PlanRow>,
    seen: &mut IdSet,
    dialog_id: i64,
    messages: &Vec<Mark>,
    span: (i32, i32),
    r: &Range,
)
    requires
        lists(old(seen)@, plan_views(old(plan)@)),
    ensures
        lists(final(seen)@, plan_views(final(plan)@)),
        plan_views(final(plan)@) == with_range(
            plan_views(old(plan)@),
            dialog_id,
            messages@,
            span,
            *r,
        ),
{
    let ghost start = plan_views(plan@);
    let mut i: usize = 0;
    assert(messages@.take(0) =~= Seq::<Mark>::empty());
    while i < messages.len()
        invariant
            i <= messages@.len(),
            lists(seen@, plan_views(plan@)),
            plan_views(plan@) == with_range(start, dialog_id, messages@.take(i as int), span, *r),
        decreases messages@.len() - i,
    {
        let m: Mark = messages[i];
        let ghost was = plan_views(plan@);
        let ghost seen_was = seen@;
        assert(messages@.take(i + 1).drop_last() =~= messages@.take(i as int));
        assert(messages@.take(i + 1).last() == m);
        assert(planned(was, dialog_id, m.msg_id) == seen@.contains((dialog_id, m.msg_id)));
        if span.0 <= m.msg_id && m.msg_id <= span.1 && !m.protected && !seen.contains(
            dialog_id,
            m.msg_id,
        ) {
            seen.insert(dialog_id, m.msg_id);
            let row: PlanRow = PlanRow {
                dialog_id,
                msg_id: m.msg_id,
                reason: r.reason.clone(),
                axis: r.axis.clone(),
                confidence: r.confidence,
                approved: false,
            };
            plan.push(row);
            proof {
                let now = plan_views(plan@);
                assert(now =~= was.push(row@));
                assert forall|d: i64, k: i32|
                    #![trigger planned(now, d, k)]
                    planned(now, d, k) == seen@.contains((d, k)) by {
                    assert(planned(was, d, k) == seen_was.contains((d, k)));
                    if planned(was, d, k) {
                        let j = choose|j: int|
                            0 <= j < was.len() && (#[trigger] was[j]).dialog_id == d
                                && was[j].msg_id == k;
                        assert(now[j] == was[j]);
                    }
                    if planned(now, d, k) {
                        let j = choose|j: int|
                            0 <= j < now.len() && (#[trigger] now[j]).dialog_id == d
                                && now[j].msg_id == k;
                        if j < was.len() {
                            assert(was[j] == now[j]);
                        }
                    }
                    assert(now[was.len() as int] == row@);
                }
            }
        }
        i += 1;
    }
    assert(messages@.take(i as int) =~= messages@);
}

/// Rebuild the plan from the verdicts of one run — a separate step so that a
/// bake-off cannot mix verdicts.
pub fn rebuild_plan(runs: &Vec<Run>, corpus: &Vec<Marked>) -> (r: Result<Vec<PlanRow>, PlanError>)
    requires
        upright(runs@),
    ensures
        match r {
            Ok(plan) => runs@.len() > 0 && plan_views(plan@) == plan_of(runs@, corpus@),
            Err(PlanError::NoRuns) => runs@.len() == 0,
        },
{
    if runs.len() == 0 {
        return Err(PlanError::NoRuns);
    }
    let mut plan: Vec<PlanRow> = Vec::new();
    let mut seen: IdSet = IdSet::new();
    let mut i: usize = 0;
    assert(runs@.take(0) =~= Seq::<Run>::empty());
    assert(plan_views(plan@) =~= Seq::<PlanRowView>::empty());
    while i < runs.len()
        invariant
            i <= runs@.len(),
            upright(runs@),
            lists(seen@, plan_views(plan@)),
            plan_views(plan@) == plan_of(runs@.take(i as int), corpus@),
        decreases runs@.len() - i,
    {
        let run: &Run = &runs[i];
        assert(runs@.take(i + 1).drop_last() =~= runs@.take(i as int));
        assert(runs@.take(i + 1).last() == *run);
        if let Some(v) = &run.verdict {
            let ghost base = plan_views(plan@);
            let none: Vec<Mark> = Vec::new();
            let messages: &Vec<Mark> = match find_messages(corpus, run.dialog_id) {
                Some(m) => m,
                None => &none,
            };
            assert(messages@ =~= messages_of(corpus@, run.dialog_id));
            let ghost all = v.delete_ranges@;
            let mut k: usize = 0;
            assert(all.take(0) =~= Seq::<Range>::empty());
            while k < v.delete_ranges.len()
                invariant
                    k <= all.len(),
                    all == v.delete_ranges@,
                    run.seen_from <= run.seen_to,
                    lists(seen@, plan_views(plan@)),
                    plan_views(plan@) == with_ranges(base, *run, messages@, all.take(k as int)),
                decreases all.len() - k,
            {
                let range: &Range = &v.delete_ranges[k];
                assert(all.take(k + 1).drop_last() =~= all.take(k as int));
                assert(all.take(k + 1).last() == *range);
                let span: (i32, i32) = clamp(range, run.seen_from, run.seen_to);
                add_range(&mut plan, &mut seen, run.dialog_id, messages, span, range);
                k += 1;
            }
            assert(all.take(k as int) =~= all);
        }
        i += 1;
    }
    assert(runs@.take(i as int) =~= runs@);
    Ok(plan)
}

// --- the manual gate -----------------------------------------------------

/// A row in the scope of an approval: of the dialog, if one is named, and on
/// the axis, if one is named.
pub open spec fn in_scope(row: PlanRowView, dialog: Option<i64>, axis: Option<&str>) -> bool {
    &&& dialog is Some ==> row.dialog_id == dialog->0
    &&& axis is Some ==> row.axis == (axis->0)@
}

/// How many rows are in the scope.
pub open spec fn scope_count(
    plan: Seq<PlanRowView>,
    dialog: Option<i64>,
    axis: Option<&str>,
) -> nat
    decreases plan.len(),
{
    if plan.len() == 0 {
        0
    } else {
        scope_count(plan.drop_last(), dialog, axis) + if in_scope(plan.last(), dialog, axis) {
            1nat
        } else {
            0nat
        }
    }
}

/// The plan with every row in the scope approved or revoked.
pub open spec fn gated(
    plan: Seq<PlanRowView>,
    dialog: Option<i64>,
    axis: Option<&str>,
    on: bool,
) -> Seq<PlanRowView> {
    Seq::new(
        plan.len(),
        |i: int|
            if in_scope(plan[i], dialog, axis) {
                PlanRowView { approved: on, ..plan[i] }
            } else {
                plan[i]
            },
    )
}

/// Whether an approval names what it is for: a dialog, an axis, or outright
/// the whole plan.
pub fn scope_is_named(dialog: Option<i64>, axis: Option<&str>, all: bool) -> (r: bool)
    ensures
        r == (dialog is Some || axis is Some || all),
{
    dialog.is_some() || axis.is_some() || all
}

/// The manual gate: only what is approved gets deleted. A separate step, so
/// that rebuilding the plan cannot carry an old approval over. Tells how many
/// rows were in the scope.
pub fn approve(
    plan: &mut Vec<PlanRow>,
    dialog: Option<i64>,
    axis: Option<&str>,
    on: bool,
) -> (r: usize)
    ensures
        plan_views(final(plan)@) == gated(plan_views(old(plan)@), dialog, axis, on),
        r == scope_count(plan_views(old(plan)@), dialog, axis),
{
    let ghost was = plan_views(plan@);
    let ghost goal = gated(was, dialog, axis, on);
    let mut n: usize = 0;
    let mut i: usize = 0;
    assert(was.take(0) =~= Seq::<PlanRowView>::empty());
    while i < plan.len()
        invariant
            n <= i <= plan@.len(),
            plan@.len() == was.len(),
            goal == gated(was, dialog, axis, on),
            forall|k: int| 0 <= k < i ==> (#[trigger] plan@[k])@ == goal[k],
            forall|k: int| i <= k < was.len() ==> (#[trigger] plan@[k])@ == was[k],
            n == scope_count(was.take(i as int), dialog, axis),
        decreases plan@.len() - i,
    {
        assert(was.take(i + 1).drop_last() =~= was.take(i as int));
        assert(plan@[i as int]@ == was[i as int]);
        let by_dialog: bool = match dialog {
            Some(d) => plan[i].dialog_id == d,
            None => true,
        };
        let by_axis: bool = match axis {
            Some(a) => same(plan[i].axis.as_str(), a),
            None => true,
        };
        if by_dialog && by_axis {
            plan[i].approved = on;
            n += 1;
        }
        i += 1;
    }
    assert(was.take(i as int) =~= was);
    assert(plan_views(plan@) =~= goal);
    n
}

// --- what the plan promises ----------------------------------------------

/// Every row has a property.
pub open spec fn every_row(plan: Seq<PlanRowView>, p: spec_fn(PlanRowView) -> bool) -> bool {
    forall|i: int| 0 <= i < plan.len() ==> p(#[trigger] plan[i])
}

/// A property that every message a range may add has is kept.
pub proof fn lemma_range_keeps(
    plan: Seq<PlanRowView>,
    dialog_id: i64,
    messages: Seq<Mark>,
    span: (i32, i32),
    r: Range,
    p: spec_fn(PlanRowView) -> bool,
)
    requires
        every_row(plan, p),
        forall|k: int|
            0 <= k < messages.len() && span.0 <= (#[trigger] messages[k]).msg_id <= span.1
                && !messages[k].protected ==> p(row_for(dialog_id, messages[k].msg_id, r)),
    ensures
        every_row(with_range(plan, dialog_id, messages, span, r), p),
    decreases messages.len(),
{
    if messages.len() > 0 {
        let rest = messages.drop_last();
        assert forall|k: int|
            0 <= k < rest.len() && span.0 <= (#[trigger] rest[k]).msg_id <= span.1
                && !rest[k].protected implies p(row_for(dialog_id, rest[k].msg_id, r)) by {
            assert(rest[k] == messages[k]);
        }
        lemma_range_keeps(plan, dialog_id, rest, span, r, p);
        assert(messages[messages.len() - 1] == messages.last());
    }
}

proof fn lemma_ranges_keep(
    plan: Seq<PlanRowView>,
    run: Run,
    messages: Seq<Mark>,
    ranges: Seq<Range>,
    p: spec_fn(PlanRowView) -> bool,
)
    requires
        every_row(plan, p),
        run.seen_from <= run.seen_to,
        forall|k: int, g: int|
            #![trigger messages[k], ranges[g]]
            0 <= k < messages.len() && 0 <= g < ranges.len() && run.seen_from <= messages[k].msg_id
                <= run.seen_to && !messages[k].protected ==> p(
                row_for(run.dialog_id, messages[k].msg_id, ranges[g]),
            ),
    ensures
        every_row(with_ranges(plan, run, messages, ranges), p),
    decreases ranges.len(),
{
    if ranges.len() > 0 {
        let rest = ranges.drop_last();
        assert forall|k: int, g: int|
            #![trigger messages[k], rest[g]]
            0 <= k < messages.len() && 0 <= g < rest.len() && run.seen_from <= messages[k].msg_id
                <= run.seen_to && !messages[k].protected implies p(
            row_for(run.dialog_id, messages[k].msg_id, rest[g]),
        ) by {
            assert(rest[g] == ranges[g]);
        }
        lemma_ranges_keep(plan, run, messages, rest, p);
        let last = ranges.last();
        let span = clamped(last, run.seen_from, run.seen_to);
        assert forall|k: int|
            0 <= k < messages.len() && span.0 <= (#[trigger] messages[k]).msg_id <= span.1
                && !messages[k].protected implies p(
            row_for(run.dialog_id, messages[k].msg_id, last),
        ) by {
            assert(ranges[ranges.len() - 1] == last);
        }
        lemma_range_keeps(
            with_ranges(plan, run, messages, rest),
            run.dialog_id,
            messages,
            span,
            last,
            p,
        );
    }
}

/// A row comes from an unprotected message in the window the model saw in some
/// run, and awaits approval.
pub open spec fn row_is_due(row: PlanRowView, runs: Seq<Run>, corpus: Seq<Marked>) -> bool {
    &&& !row.approved
    &&& exists|k: int|
        0 <= k < messages_of(corpus, row.dialog_id).len() && (#[trigger] messages_of(
            corpus,
            row.dialog_id,
        )[k]).msg_id == row.msg_id && !messages_of(corpus, row.dialog_id)[k].protected
    &&& exists|r: int|
        0 <= r < runs.len() && (#[trigger] runs[r]).dialog_id == row.dialog_id && runs[r].seen_from
            <= row.msg_id <= runs[r].seen_to
}

/// Whatever the model answered: every message in the plan is one that is not
/// protected, lies in a window the model saw, and starts out unapproved.
pub proof fn law_plan_holds_only_what_is_due(runs: Seq<Run>, corpus: Seq<Marked>)
    requires
        upright(runs),
    ensures
        forall|i: int|
            0 <= i < plan_of(runs, corpus).len() ==> row_is_due(
                #[trigger] plan_of(runs, corpus)[i],
                runs,
                corpus,
            ),
{
    lemma_plan_due(runs, corpus);
    assert(every_row(plan_of(runs, corpus), |row: PlanRowView| row_is_due(row, runs, corpus)));
}

proof fn lemma_plan_due(runs: Seq<Run>, corpus: Seq<Marked>)
    requires
        upright(runs),
    ensures
        every_row(plan_of(runs, corpus), |row: PlanRowView| row_is_due(row, runs, corpus)),
    decreases runs.len(),
{
    let p = |row: PlanRowView| row_is_due(row, runs, corpus);
    if runs.len() > 0 {
        let rest = runs.drop_last();
        let run = runs.last();
        assert(runs[runs.len() - 1] == run);
        assert(upright(rest)) by {
            assert forall|i: int| 0 <= i < rest.len() implies (#[trigger] rest[i]).seen_from
                <= rest[i].seen_to by {
                assert(rest[i] == runs[i]);
            }
        }
        lemma_plan_due(rest, corpus);
        let init = plan_of(rest, corpus);
        let q = |row: PlanRowView| row_is_due(row, rest, corpus);
        assert(every_row(init, p)) by {
            assert forall|i: int| 0 <= i < init.len() implies p(#[trigger] init[i]) by {
                assert(q(init[i]));
                let r = choose|r: int|
                    0 <= r < rest.len() && (#[trigger] rest[r]).dialog_id == init[i].dialog_id
                        && rest[r].seen_from <= init[i].msg_id <= rest[r].seen_to;
                assert(runs[r] == rest[r]);
            }
        }
        if let Some(v) = run.verdict {
            let messages = messages_of(corpus, run.dialog_id);
            let ranges = v.delete_ranges@;
            assert forall|k: int, g: int|
                #![trigger messages[k], ranges[g]]
                0 <= k < messages.len() && 0 <= g < ranges.len() && run.seen_from
                    <= messages[k].msg_id <= run.seen_to && !messages[k].protected implies p(
                row_for(run.dialog_id, messages[k].msg_id, ranges[g]),
            ) by {
                let row = row_for(run.dialog_id, messages[k].msg_id, ranges[g]);
                assert(messages_of(corpus, row.dialog_id)[k].msg_id == row.msg_id);
                assert(runs[runs.len() - 1].dialog_id == row.dialog_id);
            }
            lemma_ranges_keep(init, run, messages, ranges, p);
        }
    }
}

/// A protected message never enters the plan, where ids name messages.
pub proof fn law_protected_never_planned(
    runs: Seq<Run>,
    corpus: Seq<Marked>,
    dialog_id: i64,
    k: int,
)
    requires
        upright(runs),
        0 <= k < messages_of(corpus, dialog_id).len(),
        messages_of(corpus, dialog_id)[k].protected,
        forall|a: int, b: int|
            0 <= a < b < messages_of(corpus, dialog_id).len() ==> (#[trigger] messages_of(
                corpus,
                dialog_id,
            )[a]).msg_id != (#[trigger] messages_of(corpus, dialog_id)[b]).msg_id,
    ensures
        !planned(plan_of(runs, corpus), dialog_id, messages_of(corpus, dialog_id)[k].msg_id),
{
    let plan = plan_of(runs, corpus);
    let messages = messages_of(corpus, dialog_id);
    law_plan_holds_only_what_is_due(runs, corpus);
    if planned(plan, dialog_id, messages[k].msg_id) {
        let i = choose|i: int|
            0 <= i < plan.len() && (#[trigger] plan[i]).dialog_id == dialog_id && plan[i].msg_id
                == messages[k].msg_id;
        assert(row_is_due(plan[i], runs, corpus));
        let j = choose|j: int|
            0 <= j < messages.len() && (#[trigger] messages[j]).msg_id == plan[i].msg_id
                && !messages[j].protected;
        if j < k {
            assert(messages[j].msg_id != messages[k].msg_id);
        } else {
            assert(messages[k].msg_id != messages[j].msg_id);
        }
    }
}

/// No message is in the list twice.
pub open spec fn planned_once(plan: Seq<PlanRowView>) -> bool {
    forall|i: int, j: int|
        0 <= i < j < plan.len() ==> (#[trigger] plan[i]).dialog_id != (#[trigger] plan[j]).dialog_id
            || plan[i].msg_id != plan[j].msg_id
}

proof fn lemma_range_once(
    plan: Seq<PlanRowView>,
    dialog_id: i64,
    messages: Seq<Mark>,
    span: (i32, i32),
    r: Range,
)
    requires
        planned_once(plan),
    ensures
        planned_once(with_range(plan, dialog_id, messages, span, r)),
    decreases messages.len(),
{
    if messages.len() > 0 {
        lemma_range_once(plan, dialog_id, messages.drop_last(), span, r);
    }
}

proof fn lemma_ranges_once(
    plan: Seq<PlanRowView>,
    run: Run,
    messages: Seq<Mark>,
    ranges: Seq<Range>,
)
    requires
        planned_once(plan),
    ensures
        planned_once(with_ranges(plan, run, messages, ranges)),
    decreases ranges.len(),
{
    if ranges.len() > 0 {
        lemma_ranges_once(plan, run, messages, ranges.drop_last());
        lemma_range_once(
            with_ranges(plan, run, messages, ranges.drop_last()),
            run.dialog_id,
            messages,
            clamped(ranges.last(), run.seen_from, run.seen_to),
            ranges.last(),
        );
    }
}

/// One row is one message: overlapping ranges and windows add nothing twice.
pub proof fn law_messages_are_planned_once(runs: Seq<Run>, corpus: Seq<Marked>)
    ensures
        planned_once(plan_of(runs, corpus)),
    decreases runs.len(),
{
    if runs.len() > 0 {
        law_messages_are_planned_once(runs.drop_last(), corpus);
        if let Some(v) = runs.last().verdict {
            lemma_ranges_once(
                plan_of(runs.drop_last(), corpus),
                runs.last(),
                messages_of(corpus, runs.last().dialog_id),
                v.delete_ranges@,
            );
        }
    }
}

proof fn lemma_range_stays(
    plan: Seq<PlanRowView>,
    dialog_id: i64,
    messages: Seq<Mark>,
    span: (i32, i32),
    r: Range,
    d: i64,
    m: i32,
)
    requires
        planned(plan, d, m),
    ensures
        planned(with_range(plan, dialog_id, messages, span, r), d, m),
    decreases messages.len(),
{
    if messages.len() > 0 {
        let init = with_range(plan, dialog_id, messages.drop_last(), span, r);
        let now = with_range(plan, dialog_id, messages, span, r);
        lemma_range_stays(plan, dialog_id, messages.drop_last(), span, r, d, m);
        let i = choose|i: int|
            0 <= i < init.len() && (#[trigger] init[i]).dialog_id == d && init[i].msg_id == m;
        assert(now[i] == init[i]);
    }
}

proof fn lemma_range_plans(
    plan: Seq<PlanRowView>,
    dialog_id: i64,
    messages: Seq<Mark>,
    span: (i32, i32),
    r: Range,
    k: int,
)
    requires
        0 <= k < messages.len(),
        span.0 <= messages[k].msg_id <= span.1,
        !messages[k].protected,
    ensures
        planned(with_range(plan, dialog_id, messages, span, r), dialog_id, messages[k].msg_id),
    decreases messages.len(),
{
    let rest = messages.drop_last();
    let init = with_range(plan, dialog_id, rest, span, r);
    let now = with_range(plan, dialog_id, messages, span, r);
    let m = messages[k].msg_id;
    if k < rest.len() {
        assert(rest[k] == messages[k]);
        lemma_range_plans(plan, dialog_id, rest, span, r, k);
    }
    if planned(init, dialog_id, m) {
        let i = choose|i: int|
            0 <= i < init.len() && (#[trigger] init[i]).dialog_id == dialog_id && init[i].msg_id
                == m;
        assert(now[i] == init[i]);
    } else {
        assert(now[now.len() - 1].msg_id == m);
    }
}

proof fn lemma_ranges_stay(
    plan: Seq<PlanRowView>,
    run: Run,
    messages: Seq<Mark>,
    ranges: Seq<Range>,
    d: i64,
    m: i32,
)
    requires
        planned(plan, d, m),
    ensures
        planned(with_ranges(plan, run, messages, ranges), d, m),
    decreases ranges.len(),
{
    if ranges.len() > 0 {
        lemma_ranges_stay(plan, run, messages, ranges.drop_last(), d, m);
        lemma_range_stays(
            with_ranges(plan, run, messages, ranges.drop_last()),
            run.dialog_id,
            messages,
            clamped(ranges.last(), run.seen_from, run.seen_to),
            ranges.last(),
            d,
            m,
        );
    }
}

proof fn lemma_ranges_plan(
    plan: Seq<PlanRowView>,
    run: Run,
    messages: Seq<Mark>,
    ranges: Seq<Range>,
    g: int,
    k: int,
)
    requires
        0 <= g < ranges.len(),
        0 <= k < messages.len(),
        in_span(clamped(ranges[g], run.seen_from, run.seen_to), messages[k].msg_id),
        !messages[k].protected,
    ensures
        planned(with_ranges(plan, run, messages, ranges), run.dialog_id, messages[k].msg_id),
    decreases ranges.len(),
{
    let rest = ranges.drop_last();
    let init = with_ranges(plan, run, messages, rest);
    let span = clamped(ranges.last(), run.seen_from, run.seen_to);
    if g < rest.len() {
        assert(rest[g] == ranges[g]);
        lemma_ranges_plan(plan, run, messages, rest, g, k);
        lemma_range_stays(
            init,
            run.dialog_id,
            messages,
            span,
            ranges.last(),
            run.dialog_id,
            messages[k].msg_id,
        );
    } else {
        lemma_range_plans(init, run.dialog_id, messages, span, ranges.last(), k);
    }
}

/// Nothing the model cut is lost: a message inside a range of a verdict is in
/// the plan unless it is protected.
pub proof fn law_what_is_cut_is_planned(
    runs: Seq<Run>,
    corpus: Seq<Marked>,
    n: int,
    g: int,
    k: int,
)
    requires
        0 <= n < runs.len(),
        runs[n].verdict matches Some(v) && 0 <= g < v.delete_ranges@.len() && in_span(
            clamped(v.delete_ranges@[g], runs[n].seen_from, runs[n].seen_to),
            messages_of(corpus, runs[n].dialog_id)[k].msg_id,
        ),
        0 <= k < messages_of(corpus, runs[n].dialog_id).len(),
        !messages_of(corpus, runs[n].dialog_id)[k].protected,
    ensures
        planned(
            plan_of(runs, corpus),
            runs[n].dialog_id,
            messages_of(corpus, runs[n].dialog_id)[k].msg_id,
        ),
    decreases runs.len(),
{
    let rest = runs.drop_last();
    let run = runs.last();
    let init = plan_of(rest, corpus);
    let messages = messages_of(corpus, runs[n].dialog_id);
    if n < rest.len() {
        assert(rest[n] == runs[n]);
        law_what_is_cut_is_planned(rest, corpus, n, g, k);
        if let Some(v) = run.verdict {
            lemma_ranges_stay(
                init,
                run,
                messages_of(corpus, run.dialog_id),
                v.delete_ranges@,
                runs[n].dialog_id,
                messages[k].msg_id,
            );
        }
    } else {
        lemma_ranges_plan(init, run, messages, (run.verdict->0).delete_ranges@, g, k);
    }
}

/// A later approval or revocation of the same scope has the last word.
pub proof fn law_the_last_gate_decides(
    plan: Seq<PlanRowView>,
    dialog: Option<i64>,
    axis: Option<&str>,
    first: bool,
    last: bool,
)
    ensures
        gated(gated(plan, dialog, axis, first), dialog, axis, last) == gated(
            plan,
            dialog,
            axis,
            last,
        ),
{
    assert(gated(gated(plan, dialog, axis, first), dialog, axis, last) =~= gated(
        plan,
        dialog,
        axis,
        last,
    ));
}

} // verus!
