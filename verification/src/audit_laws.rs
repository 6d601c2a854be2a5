//! What the audit of the dictionary counts and shows, told from the hits and
//! the runs.

use crate::audit::{
    cut_count, cuts, covers, in_order, is_shown, ranked, ranks_before, reported, rules_of,
    sample_line, sample_lines, shown_count, tally_line, tally_lines, term_text, term_texts,
    was_cut, was_shown, HitRow, Sample, TallyView, TermRow,
};
use crate::plan::{clamped, in_span, Run};
use crate::plan_laws::{law_clamping_keeps_what_was_named, names};
use crate::text::{dec, dec_int, head, left, occurs, replaced, right, text_lt};
use vstd::prelude::*;

verus! {

/// The run showed the model the stretch of the dialog that holds the hit.
pub open spec fn showed(run: Run, h: HitRow) -> bool {
    run.dialog_id == h.dialog_id && run.from_id <= h.msg_id && h.msg_id <= run.to_id
}

/// One of the ranges of the run's verdict names the message of the hit.
pub open spec fn named_by(run: Run, h: HitRow) -> bool {
    &&& run.verdict is Some
    &&& exists|g: int|
        0 <= g < (run.verdict->0).delete_ranges@.len() && names(
            #[trigger] (run.verdict->0).delete_ranges@[g],
            run.from_id,
            run.to_id,
            h.msg_id,
        )
}

/// A hit was shown if some run showed its stretch, and cut if a verdict on
/// that stretch names its message.
pub proof fn law_shown_and_cut(runs: Seq<Run>, h: HitRow)
    requires
        in_order(runs),
    ensures
        was_shown(runs, h) <==> exists|i: int| 0 <= i < runs.len() && showed(#[trigger] runs[i], h),
        was_cut(runs, h) <==> exists|i: int|
            0 <= i < runs.len() && showed(#[trigger] runs[i], h) && named_by(runs[i], h),
{
    assert forall|i: int| 0 <= i < runs.len() implies covers(#[trigger] runs[i], h) == showed(
        runs[i],
        h,
    ) by {}
    assert forall|i: int| 0 <= i < runs.len() implies cuts(#[trigger] runs[i], h) == (showed(
        runs[i],
        h,
    ) && named_by(runs[i], h)) by {
        let run = runs[i];
        assert(run.from_id <= run.to_id);
        if run.verdict is Some {
            let ranges = (run.verdict->0).delete_ranges@;
            assert forall|g: int| 0 <= g < ranges.len() implies in_span(
                clamped(#[trigger] ranges[g], run.from_id, run.to_id),
                h.msg_id,
            ) == (run.from_id <= h.msg_id <= run.to_id && names(
                ranges[g],
                run.from_id,
                run.to_id,
                h.msg_id,
            )) by {
                law_clamping_keeps_what_was_named(ranges[g], run.from_id, run.to_id, h.msg_id);
            }
            if cuts(run, h) {
                let g = choose|g: int|
                    0 <= g < (run.verdict->0).delete_ranges@.len() && in_span(
                        clamped(
                            #[trigger] (run.verdict->0).delete_ranges@[g],
                            run.from_id,
                            run.to_id,
                        ),
                        h.msg_id,
                    );
                assert(names(ranges[g], run.from_id, run.to_id, h.msg_id));
            }
        }
    }
    if was_cut(runs, h) {
        let i = choose|i: int| 0 <= i < runs.len() && cuts(#[trigger] runs[i], h);
        assert(showed(runs[i], h) && named_by(runs[i], h));
    }
    if exists|i: int| 0 <= i < runs.len() && showed(#[trigger] runs[i], h) && named_by(runs[i], h) {
        let i = choose|i: int|
            0 <= i < runs.len() && showed(#[trigger] runs[i], h) && named_by(runs[i], h);
        assert(cuts(runs[i], h));
    }
}

/// The hit is of that rule and term, and some run showed it.
pub open spec fn shown_of(runs: Seq<Run>, rule: Seq<char>, term: Seq<char>) -> spec_fn(
    HitRow,
) -> bool {
    |h: HitRow|
        h.rule_id@ == rule && h.term@ == term && exists|i: int|
            0 <= i < runs.len() && showed(#[trigger] runs[i], h)
}

/// The hit is of that rule and term, and a verdict that showed it cut it.
pub open spec fn cut_by(runs: Seq<Run>, rule: Seq<char>, term: Seq<char>) -> spec_fn(
    HitRow,
) -> bool {
    |h: HitRow|
        h.rule_id@ == rule && h.term@ == term && exists|i: int|
            0 <= i < runs.len() && showed(#[trigger] runs[i], h) && named_by(runs[i], h)
}

/// Each hit of a rule and term counts once as shown and once as cut, whatever
/// the number of runs.
pub proof fn law_hits_are_counted(
    hits: Seq<HitRow>,
    runs: Seq<Run>,
    rule: Seq<char>,
    term: Seq<char>,
)
    requires
        in_order(runs),
    ensures
        shown_count(hits, runs, rule, term) == hits.filter(shown_of(runs, rule, term)).len(),
        cut_count(hits, runs, rule, term) == hits.filter(cut_by(runs, rule, term)).len(),
    decreases hits.len(),
{
    reveal(Seq::filter);
    if hits.len() > 0 {
        law_hits_are_counted(hits.drop_last(), runs, rule, term);
        law_shown_and_cut(runs, hits.last());
        assert(was_cut(runs, hits.last()) ==> was_shown(runs, hits.last()));
    }
}

/// A rule and term is reported if at least three of its hits were shown.
pub proof fn law_three_hits_are_reported(
    t: TallyView,
    hits: Seq<HitRow>,
    runs: Seq<Run>,
)
    requires
        in_order(runs),
    ensures
        reported(t, hits, runs) <==> t.shown >= 3 && t.shown == hits.filter(
            shown_of(runs, t.rule, t.term),
        ).len() && t.cut == hits.filter(cut_by(runs, t.rule, t.term)).len(),
{
    law_hits_are_counted(hits, runs, t.rule, t.term);
}

/// In the report the smaller share that was cut comes first; of equal shares
/// the one shown more often; then by rule and term.
pub proof fn law_least_cut_come_first(v: Seq<TallyView>, i: int, j: int)
    requires
        ranked(v),
        0 <= i < j < v.len(),
        v[i].shown > 0,
        v[j].shown > 0,
    ensures
        v[i].cut * v[j].shown <= v[j].cut * v[i].shown,
        v[i].cut == 0 && v[j].cut == 0 ==> v[i].shown >= v[j].shown,
        v[j].cut == 0 ==> v[i].cut == 0,
        v[i].shown == v[j].shown ==> v[i].cut <= v[j].cut,
        v[i].cut * v[j].shown == v[j].cut * v[i].shown ==> v[i].shown >= v[j].shown,
        v[i].shown == v[j].shown && v[i].cut == v[j].cut ==> text_lt(v[i].rule, v[j].rule) || (
        v[i].rule == v[j].rule && text_lt(v[i].term, v[j].term)),
{
    let (a, b) = (v[i], v[j]);
    assert(ranks_before(a, b));
    if b.cut == 0 {
        assert(b.cut * a.shown == 0) by (nonlinear_arith)
            requires
                b.cut == 0,
        ;
        if a.cut > 0 {
            assert(a.cut * b.shown > 0) by (nonlinear_arith)
                requires
                    a.cut > 0,
                    b.shown > 0,
            ;
        }
    }
    if a.cut == 0 {
        assert(a.cut * b.shown == 0) by (nonlinear_arith)
            requires
                a.cut == 0,
        ;
    }
    if a.shown == b.shown {
        assert(a.cut <= b.cut) by (nonlinear_arith)
            requires
                a.cut * b.shown <= b.cut * a.shown,
                a.shown == b.shown,
                a.shown > 0,
        ;
    }
}

/// A term is shown with at least so many hits; under a filter, only if the
/// filter occurs in the term, its rule or its axis.
pub proof fn law_terms_are_filtered(r: TermRow, min: usize, filter: &str)
    ensures
        is_shown(r, min, None) <==> r.hits >= min,
        is_shown(r, min, Some(filter)) ==> r.hits >= min,
        r.hits >= min ==> (is_shown(r, min, Some(filter)) <==> occurs(r.term@, filter@) || occurs(
            r.rule_id@,
            filter@,
        ) || occurs(r.axis@, filter@)),
{
}

/// A sample stands on one line: its surface, and the head of its message with
/// blanks for line breaks.
pub proof fn law_samples_stand_on_one_line(s: Sample, surface: String)
    ensures
        s.surface == Some(surface) ==> sample_line(s) == "    «"@ + surface@ + "» | "@ + head(
            replaced(s.text@, "\n"@, " "@),
            110,
        ) + "\n"@,
        s.surface is None ==> sample_line(s) == "    «"@ + "» | "@ + head(
            replaced(s.text@, "\n"@, " "@),
            110,
        ) + "\n"@,
{
    if s.surface is None {
        assert("    «"@ + Seq::<char>::empty() =~= "    «"@);
    }
}

/// A term is shown with its hits, its dialogs, the most in one dialog and
/// their share, in columns, and then its samples, one after another.
pub proof fn law_terms_are_told(r: TermRow, v: Seq<Sample>, s: Sample)
    ensures
        term_text(r) == left(r.term@, 20) + " "@ + left(dec_int(r.hits as int), 5) + " "@ + left(
            dec_int(r.dialogs as int),
            9,
        ) + " "@ + left(dec_int(r.top as int), 14) + " "@ + r.share@ + "%\n"@ + sample_lines(
            r.samples@,
        ),
        sample_lines(seq![]).len() == 0,
        sample_lines(v.push(s)) == sample_lines(v) + sample_line(s),
{
    assert(v.push(s).drop_last() =~= v);
}

/// Terms come one after another, those not to be shown left out.
pub proof fn law_terms_come_one_by_one(
    v: Seq<TermRow>,
    r: TermRow,
    min: usize,
    filter: Option<&str>,
)
    ensures
        term_texts(seq![], min, filter).len() == 0,
        is_shown(r, min, filter) ==> term_texts(v.push(r), min, filter) == term_texts(
            v,
            min,
            filter,
        ) + term_text(r),
        !is_shown(r, min, filter) ==> term_texts(v.push(r), min, filter) == term_texts(
            v,
            min,
            filter,
        ),
{
    assert(v.push(r).drop_last() =~= v);
    assert(term_texts(v, min, filter) + Seq::<char>::empty() =~= term_texts(v, min, filter));
}

/// A row of the report: the share cut, the hits shown, the hits cut, rule and
/// term.
pub proof fn law_feedback_lines(t: TallyView, share: Seq<char>)
    ensures
        tally_line(t, share) == right(share, 4) + "%  "@ + left(dec(t.shown), 8) + " "@ + left(
            dec(t.cut),
            9,
        ) + " "@ + t.rule + " / "@ + t.term + "\n"@,
{
}

/// Without runs there is no feedback; with runs, a row for each rule and term
/// under the heading.
pub proof fn law_feedback_is_told_row_by_row(
    ts: Seq<TallyView>,
    t: TallyView,
    shares: Seq<Seq<char>>,
    share: Seq<char>,
)
    requires
        shares.len() == ts.len(),
    ensures
        rules_of(false, ts, shares)
            == "no triage runs — the signal comes from calls already made\n"@,
        rules_of(true, ts, shares)
            == "share of hits that went under the knife (bottom: candidates to drop):\nshare  in windows  cut       rule / term\n"@
            + tally_lines(ts, shares),
        tally_lines(seq![], shares).len() == 0,
        tally_lines(ts.push(t), shares.push(share)) == tally_lines(ts, shares) + tally_line(
            t,
            share,
        ),
{
    assert(ts.push(t).drop_last() =~= ts);
    lemma_shares(ts, shares, shares.push(share));
}

proof fn lemma_shares(ts: Seq<TallyView>, a: Seq<Seq<char>>, b: Seq<Seq<char>>)
    requires
        a.len() >= ts.len(),
        b.len() >= ts.len(),
        forall|i: int| 0 <= i < ts.len() ==> #[trigger] a[i] == b[i],
    ensures
        tally_lines(ts, a) == tally_lines(ts, b),
    decreases ts.len(),
{
    if ts.len() > 0 {
        lemma_shares(ts.drop_last(), a, b);
        assert(a[ts.len() - 1] == b[ts.len() - 1]);
    }
}

} // verus!
