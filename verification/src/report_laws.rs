//! What the reports say, told from the numbers they are made of.

use crate::config::{MAX_DELETE_RATIO, MAX_DIALOG_RATIO};
use crate::eval_report::{
    all_within, budget_of, scored_text, scored_texts, spend_of, within, worst_line,
    worst_lines, Scored, Spend, Worst,
};
use crate::model::Tier;
use crate::order::{comes_first, lemma_order_exists, lemma_order_places, order_of};
use crate::scan_report::{
    axis_tier_line, axis_tier_lines, dialog_line, dialog_lines, summary_text, term_line,
    term_lines, AxisTier, DialogHits, Summary, TermHits,
};
use crate::text::{dec, dec_int, left, right};
use crate::window::WindowView;
use crate::window_report::{
    axes_in, axis_line, axis_lines, chars_in_all, messages_in, of_axis, of_tier, per_call,
    size_keys, size_line, sizes_of, tier_line, tokens_for, voices_in_all,
};
use vstd::prelude::*;

verus! {

// --- windows -------------------------------------------------------------

/// Each window adds its messages, its voices and its text; and for the tokens,
/// half its text and the size of the policy.
pub proof fn law_windows_add_up(ws: Seq<WindowView>, w: WindowView)
    ensures
        messages_in(seq![]) == 0 && voices_in_all(seq![]) == 0 && chars_in_all(seq![]) == 0,
        messages_in(ws.push(w)) == messages_in(ws) + w.total,
        voices_in_all(ws.push(w)) == voices_in_all(ws) + w.voices.len(),
        chars_in_all(ws.push(w)) == chars_in_all(ws) + w.chars,
        tokens_for(seq![]) == 0,
        w.chars % 2 == 0 ==> tokens_for(ws.push(w)) == tokens_for(ws) + w.chars / 2 + 1950,
        per_call(seq![]) == 0,
        ws.len() > 0 ==> per_call(ws) * ws.len() <= tokens_for(ws) < (per_call(ws) + 1) * ws.len(),
{
    assert(ws.push(w).drop_last() =~= ws);
    assert(ws.push(w).last() == w);
    assert((ws.len() + 1) * 1950 == ws.len() * 1950 + 1950) by (nonlinear_arith);
    if ws.len() > 0 {
        vstd::arithmetic::div_mod::lemma_fundamental_div_mod(
            tokens_for(ws) as int,
            ws.len() as int,
        );
        let (q, n, t) = (per_call(ws) as int, ws.len() as int, tokens_for(ws) as int);
        assert(0 <= t % n < n) by (nonlinear_arith)
            requires
                n > 0,
        ;
        assert(q * n <= t && t < (q + 1) * n) by (nonlinear_arith)
            requires
                t == n * q + t % n,
                0 <= t % n < n,
        ;
    }
}

/// The sizes are those of the windows, the smallest first.
pub proof fn law_sizes_ascend(ws: Seq<WindowView>, i: int, j: int)
    ensures
        sizes_of(ws).len() == ws.len(),
        0 <= i <= j < ws.len() ==> sizes_of(ws)[i] <= sizes_of(ws)[j],
        0 <= i < ws.len() ==> exists|k: int|
            0 <= k < ws.len() && (#[trigger] ws[k]).total == sizes_of(ws)[i],
        0 <= i < ws.len() ==> exists|k: int|
            0 <= k < ws.len() && #[trigger] sizes_of(ws)[k] == ws[i].total,
{
    let keys = size_keys(ws);
    let order = order_of(keys);
    lemma_order_exists(keys);
    lemma_order_places(keys, order);
    let sizes = sizes_of(ws);
    if 0 <= i < j < ws.len() {
        let leq = |a: int, b: int| comes_first(keys, a, b);
        assert(leq(order[i], order[j]));
        assert(sizes[i] == ws[order[i]].total && sizes[j] == ws[order[j]].total);
    }
    if 0 <= i < ws.len() {
        assert(ws[order[i]].total == sizes[i]);
        assert(order.contains(i));
        let k = choose|k: int| 0 <= k < order.len() && order[k] == i;
        assert(sizes[k] == ws[i].total);
    }
}

/// The line of the sizes gives the middle one, those nine tenths and
/// ninety-nine hundredths of the way up, and the largest.
pub proof fn law_sizes_are_told(sizes: Seq<usize>, mid: int, p90: int, p99: int)
    requires
        sizes.len() > 0,
        2 * mid <= sizes.len() - 1 < 2 * (mid + 1),
        10 * p90 <= 9 * (sizes.len() - 1) < 10 * (p90 + 1),
        100 * p99 <= 99 * (sizes.len() - 1) < 100 * (p99 + 1),
    ensures
        size_line(sizes) == "window size        : med "@ + dec(sizes[mid] as nat) + "  p90 "@ + dec(
            sizes[p90] as nat,
        ) + "  p99 "@ + dec(sizes[p99] as nat) + "  max "@ + dec(sizes[sizes.len() - 1] as nat)
            + "\n"@,
        size_line(seq![]).len() == 0,
{
}

/// A tier counts its windows, and an axis the windows that have it.
pub proof fn law_tiers_and_axes_are_counted(
    ws: Seq<WindowView>,
    w: WindowView,
    t: Tier,
    axis: Seq<char>,
)
    ensures
        of_tier(seq![], t) == 0 && of_axis(seq![], axis) == 0,
        w.tier == t ==> of_tier(ws.push(w), t) == of_tier(ws, t) + 1,
        w.tier != t ==> of_tier(ws.push(w), t) == of_tier(ws, t),
        w.axes.contains(axis) ==> of_axis(ws.push(w), axis) == of_axis(ws, axis) + 1,
        !w.axes.contains(axis) ==> of_axis(ws.push(w), axis) == of_axis(ws, axis),
{
    assert(ws.push(w).drop_last() =~= ws);
}

/// The windows of the three tiers are all the windows.
pub proof fn law_every_window_has_a_tier(ws: Seq<WindowView>)
    ensures
        of_tier(ws, Tier::T0) + of_tier(ws, Tier::T1) + of_tier(ws, Tier::T2) == ws.len(),
    decreases ws.len(),
{
    if ws.len() > 0 {
        law_every_window_has_a_tier(ws.drop_last());
    }
}

/// The axes are those of the windows.
pub proof fn law_axes_are_those_of_the_windows(ws: Seq<WindowView>, axis: Seq<char>)
    ensures
        axes_in(ws).contains(axis) <==> exists|i: int|
            0 <= i < ws.len() && (#[trigger] ws[i]).axes.contains(axis),
        axes_in(ws).contains(axis) <==> of_axis(ws, axis) > 0,
    decreases ws.len(),
{
    if ws.len() > 0 {
        let init = ws.drop_last();
        law_axes_are_those_of_the_windows(init, axis);
        if exists|i: int| 0 <= i < ws.len() && (#[trigger] ws[i]).axes.contains(axis) {
            let i = choose|i: int| 0 <= i < ws.len() && (#[trigger] ws[i]).axes.contains(axis);
            if i < init.len() {
                assert(init[i] == ws[i]);
                assert(init[i].axes.contains(axis));
            }
        }
        if axes_in(init).contains(axis) {
            let i = choose|i: int| 0 <= i < init.len() && (#[trigger] init[i]).axes.contains(axis);
            assert(ws[i] == init[i]);
        }
        assert(ws[ws.len() - 1] == ws.last());
        assert(ws.last().axes.to_set().contains(axis) <==> ws.last().axes.contains(axis));
    }
}

/// A tier without windows has no line; the others give their name and number,
/// as each axis does.
pub proof fn law_tier_and_axis_lines(
    ws: Seq<WindowView>,
    t: Tier,
    axes: Seq<Seq<char>>,
    axis: Seq<char>,
)
    ensures
        of_tier(ws, t) == 0 ==> tier_line(ws, t).len() == 0,
        of_tier(ws, t) > 0 ==> tier_line(ws, t) == "  "@ + t.name() + "  "@ + dec(of_tier(ws, t))
            + "\n"@,
        axis_lines(ws, seq![]).len() == 0,
        axis_lines(ws, axes.push(axis)) == axis_lines(ws, axes) + ("  "@ + left(axis, 14) + " "@
            + dec(of_axis(ws, axis)) + "\n"@),
{
    assert(axes.push(axis).drop_last() =~= axes);
    assert(axis_line(ws, axis) == "  "@ + left(axis, 14) + " "@ + dec(of_axis(ws, axis)) + "\n"@);
}

/// The report on the windows: calls, messages, sizes, voices, text and tokens,
/// then the tiers from harsh to soft and the axes.
pub proof fn law_windows_are_reported(ws: Seq<WindowView>, text: Seq<char>, tokens: Seq<char>)
    ensures
        crate::window_report::report_of(ws, text, tokens) == "windows (LLM calls): "@ + dec(
            ws.len(),
        ) + "\nmessages in windows: "@ + dec(messages_in(ws)) + "\n"@ + size_line(sizes_of(ws))
            + "voice to transcribe: "@ + dec(voices_in_all(ws)) + "\ntext in windows    : "@ + text
            + "M characters\ninput tokens (est) : "@ + tokens + "M (~"@ + dec(per_call(ws))
            + " per call)\n\nby tier:\n"@ + tier_line(ws, Tier::T0) + tier_line(ws, Tier::T1)
            + tier_line(ws, Tier::T2) + "\nby axis:\n"@ + axis_lines(
            ws,
            crate::text::listed(axes_in(ws)),
        ),
{
    assert(Seq::<char>::empty() + "windows (LLM calls): "@ =~= "windows (LLM calls): "@);
}

// --- the scan ------------------------------------------------------------

/// The lines of the scan's summary: an axis and tier with its hits and
/// messages; a term with its hits and rule; a dialog with its hits, its size
/// and the share.
pub proof fn law_scan_lines(
    va: Seq<AxisTier>,
    a: AxisTier,
    vt: Seq<TermHits>,
    t: TermHits,
    vd: Seq<DialogHits>,
    d: DialogHits,
)
    ensures
        axis_tier_lines(seq![]).len() == 0,
        axis_tier_lines(va.push(a)) == axis_tier_lines(va) + ("  "@ + left(a.axis@, 14) + " "@
            + a.tier@ + "  hits "@ + right(dec_int(a.hits as int), 7) + "  messages "@ + right(
            dec_int(a.messages as int),
            7,
        ) + "\n"@),
        term_lines(seq![]).len() == 0,
        term_lines(vt.push(t)) == term_lines(vt) + ("  "@ + right(dec_int(t.hits as int), 7)
            + "  "@ + left(t.rule@, 20) + " "@ + t.term@ + "\n"@),
        dialog_lines(seq![]).len() == 0,
        dialog_lines(vd.push(d)) == dialog_lines(vd) + ("  "@ + right(dec_int(d.hits as int), 6)
            + " / "@ + left(dec_int(d.total as int), 7) + " "@ + right(d.share@, 5) + "%  "@
            + d.title@ + "\n"@),
{
    assert(va.push(a).drop_last() =~= va);
    assert(vt.push(t).drop_last() =~= vt);
    assert(vd.push(d).drop_last() =~= vd);
    assert(axis_tier_line(a) == axis_tier_line(va.push(a).last()));
    assert(term_line(t) == term_line(vt.push(t).last()));
    assert(dialog_line(d) == dialog_line(vd.push(d).last()));
}

/// The summary of a scan: how much there is, how much of it is marked, with
/// the share where there is anything, then the lists, and what the whitelist
/// holds.
pub proof fn law_scan_is_summarised(s: Summary)
    ensures
        ({
            let lists = "\n\nby axis and tier:\n"@ + axis_tier_lines(s.by_axis@)
                + "\ntop rules:\n"@ + term_lines(s.top_terms@) + "\ntop dialogs by density:\n"@
                + dialog_lines(s.top_dialogs@) + "\nheld by the whitelist: "@ + dec_int(
                s.held as int,
            ) + "\n"@;
            let counts = "messages in corpus : "@ + dec_int(s.total as int)
                + "\nmarked             : "@ + dec_int(s.marked as int);
            &&& s.total > 0 ==> summary_text(s) == counts + " ("@ + s.share@ + "%)"@ + lists
            &&& s.total <= 0 ==> summary_text(s) == counts + lists
        }),
{
    let lists = "\n\nby axis and tier:\n"@ + axis_tier_lines(s.by_axis@) + "\ntop rules:\n"@
        + term_lines(s.top_terms@) + "\ntop dialogs by density:\n"@ + dialog_lines(s.top_dialogs@)
        + "\nheld by the whitelist: "@ + dec_int(s.held as int) + "\n"@;
    let counts = "messages in corpus : "@ + dec_int(s.total as int) + "\nmarked             : "@
        + dec_int(s.marked as int);
    if s.total > 0 {
        assert(summary_text(s) =~= counts + " ("@ + s.share@ + "%)"@ + lists);
    } else {
        assert(summary_text(s) =~= counts + lists);
    }
}

// --- quality and the budget ----------------------------------------------

/// What a run cost is found by its name, the last entry under it.
pub proof fn law_spends_are_found_by_name(spends: Seq<Spend>, key: Seq<char>, k: int)
    ensures
        0 <= k < spends.len() && spends[k].key@ == key && (forall|j: int|
            k < j < spends.len() ==> (#[trigger] spends[j]).key@ != key) ==> spend_of(spends, key)
            == Some(spends[k]),
        (forall|j: int| 0 <= j < spends.len() ==> (#[trigger] spends[j]).key@ != key) ==> spend_of(
            spends,
            key,
        ) is None,
    decreases spends.len(),
{
    if spends.len() > 0 {
        let init = spends.drop_last();
        law_spends_are_found_by_name(init, key, k);
        assert forall|j: int| 0 <= j < init.len() implies (#[trigger] init[j]) == spends[j] by {}
        if 0 <= k < init.len() && spends[k].key@ == key && (forall|j: int|
            k < j < spends.len() ==> (#[trigger] spends[j]).key@ != key) {
            assert(spends[spends.len() - 1].key@ != key);
            assert(init[k] == spends[k]);
        }
        if forall|j: int| 0 <= j < spends.len() ==> (#[trigger] spends[j]).key@ != key {
            assert(spends[spends.len() - 1].key@ != key);
        }
    }
}

/// A part is within a limit if it is no more than that many hundredths of the
/// whole, an empty whole counting as one: five of the corpus, forty of a
/// dialog.
pub proof fn law_limits_are_in_percent(part: int, whole: int, limit: u64)
    ensures
        whole >= 1 ==> (within(part, whole, limit) <==> part * 100 <= limit * whole),
        whole < 1 ==> (within(part, whole, limit) <==> part * 100 <= limit),
        MAX_DELETE_RATIO == 5,
        MAX_DIALOG_RATIO == 40,
{
    if whole < 1 {
        assert(limit * 1 == limit as int) by (nonlinear_arith);
    }
}

/// The dialogs keep within a limit if each of them does.
pub proof fn law_one_dialog_can_exceed(v: Seq<Worst>, limit: u64, i: int)
    requires
        0 <= i < v.len(),
        v[i].total >= 1,
        v[i].planned * 100 > limit * v[i].total,
    ensures
        !all_within(v, limit),
{
    assert(!within(v[i].planned as int, v[i].total as int, limit));
}

/// The line of a dialog: the share deleted, what is planned, what there is,
/// and its title.
pub proof fn law_worst_lines(v: Seq<Worst>, w: Worst)
    ensures
        worst_lines(seq![]).len() == 0,
        worst_lines(v.push(w)) == worst_lines(v) + ("  "@ + right(w.share@, 6) + "%  "@ + right(
            dec_int(w.planned as int),
            6,
        ) + " / "@ + left(dec_int(w.total as int), 7) + " "@ + w.title@ + "\n"@),
{
    assert(v.push(w).drop_last() =~= v);
    assert(worst_line(w) == worst_line(v.push(w).last()));
}

/// The budget is kept or exceeded, for the corpus and for the worst dialog,
/// and the report says which; an empty plan has no budget.
pub proof fn law_the_budget_is_told(
    planned: i64,
    corpus: i64,
    share: Seq<char>,
    worst: Seq<Worst>,
    worst_share: Seq<char>,
)
    ensures
        planned == 0 ==> budget_of(planned, corpus, share, worst, worst_share)
            == "\nthe plan is empty — build it with `plan --model ...`\n"@,
        planned != 0 && corpus >= 1 ==> ({
            let kept = if planned * 100 <= 5 * corpus {
                "ok      "@
            } else {
                "EXCEEDED"@
            };
            let dialogs = if all_within(worst, 40) {
                "ok      "@
            } else {
                "EXCEEDED"@
            };
            budget_of(planned, corpus, share, worst, worst_share) == "\n--- plan: "@ + dec_int(
                planned as int,
            ) + " of "@ + dec_int(corpus as int) + " ("@ + share
                + "%) ---\nworst dialogs by share deleted:\n"@ + worst_lines(worst) + ("  "@ + kept
                + "  "@ + "share of corpus"@ + ": "@ + share + "% against a limit of "@ + dec(5)
                + ".00%\n"@) + ("  "@ + dialogs + "  "@ + "worst dialog"@ + ": "@ + worst_share
                + "% against a limit of "@ + dec(40) + ".00%\n"@)
        }),
{
    law_limits_are_in_percent(planned as int, corpus as int, 5);
}

/// The numbers of a run in words, each under its name.
pub proof fn law_scores_in_words(s: Scored, v: Seq<Scored>)
    ensures
        scored_text(s) == s.key@ + "\n  windows "@ + left(dec(s.agg@.windows), 5) + " cut "@ + right(
            dec(s.agg@.cut),
            6,
        ) + " of "@ + right(dec(s.agg@.in_windows), 6) + " in windows ("@ + s.shares.cut@
            + "%)\n  whitelist violations "@ + left(dec(s.agg@.violations), 4)
            + " <- must be 0, or the policy fails to carry it\n  anchor coverage "@
            + s.shares.covered@ + "%   empty verdicts "@ + s.shares.empty@
            + "% <- high: the dictionary is noisy\n  windows cut whole "@ + left(
            dec(s.agg@.full),
            4,
        ) + " <- many: the model is not discriminating\n  range hit the edge "@ + s.shares.edge@
            + "%   asked to widen "@ + s.shares.expanded@
            + "% <- the window is small\n  deliberate keeps "@ + left(dec(s.agg@.claims), 4)
            + " <- zero is suspicious: the presumption did not land\n  $"@ + s.cost@ + "  tokens "@
            + dec_int(s.prompt_tokens as int) + "/"@ + dec_int(s.completion_tokens as int)
            + "\n\n"@,
        scored_texts(seq![]).len() == 0,
        scored_texts(v.push(s)) == scored_texts(v) + scored_text(s),
{
    assert(v.push(s).drop_last() =~= v);
}

/// Without runs there is nothing to score; else come the runs, how far they
/// agree, and the budget.
pub proof fn law_quality_is_reported(scored: Seq<Scored>, agreement: Seq<char>, budget: Seq<char>)
    ensures
        scored.len() == 0 ==> crate::eval_report::report_of(scored, agreement, budget)
            == "triage has not run yet — nothing to score\n"@,
        scored.len() > 0 ==> crate::eval_report::report_of(scored, agreement, budget)
            == "runs (model @ policy version):\n\n"@ + scored_texts(scored) + agreement + budget,
{
}

} // verus!
