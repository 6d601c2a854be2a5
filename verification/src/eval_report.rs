//! The scores in words: the runs, their agreement, and the budget of the plan.

use crate::config::{MAX_DELETE_RATIO, MAX_DIALOG_RATIO};
use crate::eval::Agg;
use crate::text::{
    dec, dec_int, int_string, left, push_dec, push_dec_left, push_dec_right, push_int, push_left,
    push_right, right, same,
};
use vstd::prelude::*;

verus! {

// --- runs ----------------------------------------------------------------

/// What one run spent. `cost` is the cost in dollars, as it is to be shown.
#[derive(Debug)]
pub struct Spend {
    pub key: String,
    pub cost: String,
    pub prompt_tokens: i64,
    pub completion_tokens: i64,
    /// How many windows the model asked to widen.
    pub expanded: i64,
}

/// The last entry of that name.
pub open spec fn spend_of(spends: Seq<Spend>, key: Seq<char>) -> Option<Spend>
    decreases spends.len(),
{
    if spends.len() == 0 {
        None
    } else if spends.last().key@ == key {
        Some(spends.last())
    } else {
        spend_of(spends.drop_last(), key)
    }
}

/// What the run of that name spent, if anything is known of it.
pub fn spend_for<'a>(spends: &'a Vec<Spend>, key: &str) -> (r: Option<&'a Spend>)
    ensures
        match r {
            Some(s) => spend_of(spends@, key@) == Some(*s),
            None => spend_of(spends@, key@) is None,
        },
{
    let mut i: usize = spends.len();
    assert(spends@.take(i as int) =~= spends@);
    while i > 0
        invariant
            i <= spends@.len(),
            spend_of(spends@, key@) == spend_of(spends@.take(i as int), key@),
        decreases i,
    {
        assert(spends@.take(i as int).last() == spends@[i - 1]);
        assert(spends@.take(i as int).drop_last() =~= spends@.take(i - 1));
        if same(spends[i - 1].key.as_str(), key) {
            return Some(&spends[i - 1]);
        }
        i -= 1;
    }
    None
}

/// The shares of a run in percent, as they are to be shown.
#[derive(Debug)]
pub struct Shares {
    /// Cut messages, of those in the windows.
    pub cut: String,
    /// Cut anchors, of all anchors.
    pub covered: String,
    /// Empty verdicts, of all windows.
    pub empty: String,
    /// Ranges at the edge, of all windows.
    pub edge: String,
    /// Widened windows, of all windows.
    pub expanded: String,
}

/// A run with its totals.
#[derive(Debug)]
pub struct Scored {
    pub key: String,
    pub agg: Agg,
    pub shares: Shares,
    pub cost: String,
    pub prompt_tokens: i64,
    pub completion_tokens: i64,
}

pub open spec fn scored_text(s: Scored) -> Seq<char> {
    let a = s.agg@;
    s.key@ + "\n  windows "@ + left(dec(a.windows), 5) + " cut "@ + right(dec(a.cut), 6) + " of "@
        + right(dec(a.in_windows), 6) + " in windows ("@ + s.shares.cut@
        + "%)\n  whitelist violations "@ + left(dec(a.violations), 4)
        + " <- must be 0, or the policy fails to carry it\n  anchor coverage "@ + s.shares.covered@
        + "%   empty verdicts "@ + s.shares.empty@
        + "% <- high: the dictionary is noisy\n  windows cut whole "@ + left(dec(a.full), 4)
        + " <- many: the model is not discriminating\n  range hit the edge "@ + s.shares.edge@
        + "%   asked to widen "@ + s.shares.expanded@
        + "% <- the window is small\n  deliberate keeps "@ + left(dec(a.claims), 4)
        + " <- zero is suspicious: the presumption did not land\n  $"@ + s.cost@ + "  tokens "@
        + dec_int(s.prompt_tokens as int) + "/"@ + dec_int(s.completion_tokens as int) + "\n\n"@
}

pub open spec fn scored_texts(v: Seq<Scored>) -> Seq<char>
    decreases v.len(),
{
    if v.len() == 0 {
        seq![]
    } else {
        scored_texts(v.drop_last()) + scored_text(v.last())
    }
}

fn scored_words(s: &Scored) -> (r: String)
    ensures
        r@ == scored_text(*s),
{
    let a: &Agg = &s.agg;
    let mut out: String = s.key.clone();
    out.append("\n  windows ");
    push_dec_left(&mut out, a.windows, 5);
    out.append(" cut ");
    push_dec_right(&mut out, a.cut, 6);
    out.append(" of ");
    push_dec_right(&mut out, a.in_windows, 6);
    out.append(" in windows (");
    out.append(s.shares.cut.as_str());
    out.append("%)\n  whitelist violations ");
    push_dec_left(&mut out, a.violations, 4);
    out.append(" <- must be 0, or the policy fails to carry it\n  anchor coverage ");
    out.append(s.shares.covered.as_str());
    out.append("%   empty verdicts ");
    out.append(s.shares.empty.as_str());
    out.append("% <- high: the dictionary is noisy\n  windows cut whole ");
    push_dec_left(&mut out, a.full, 4);
    out.append(" <- many: the model is not discriminating\n  range hit the edge ");
    out.append(s.shares.edge.as_str());
    out.append("%   asked to widen ");
    out.append(s.shares.expanded.as_str());
    out.append("% <- the window is small\n  deliberate keeps ");
    push_dec_left(&mut out, a.claims, 4);
    out.append(" <- zero is suspicious: the presumption did not land\n  $");
    out.append(s.cost.as_str());
    out.append("  tokens ");
    push_int(&mut out, s.prompt_tokens);
    out.append("/");
    push_int(&mut out, s.completion_tokens);
    out.append("\n\n");
    out
}

/// The report in words.
pub open spec fn report_of(
    scored: Seq<Scored>,
    agreement: Seq<char>,
    budget: Seq<char>,
) -> Seq<char> {
    if scored.len() == 0 {
        "triage has not run yet — nothing to score\n"@
    } else {
        "runs (model @ policy version):\n\n"@ + scored_texts(scored) + agreement + budget
    }
}

/// The report on all runs: their totals, their agreement, and the budget of
/// the plan.
pub fn report(scored: &Vec<Scored>, agreement: &str, budget: &str) -> (r: String)
    ensures
        r@ == report_of(scored@, agreement@, budget@),
{
    if scored.len() == 0 {
        return "triage has not run yet — nothing to score\n".to_owned();
    }
    let mut out: String = "runs (model @ policy version):\n\n".to_owned();
    let ghost start = out@;
    let mut i: usize = 0;
    assert(scored@.take(0) =~= Seq::<Scored>::empty());
    assert(out@ =~= start + scored_texts(scored@.take(0)));
    while i < scored.len()
        invariant
            i <= scored@.len(),
            out@ == start + scored_texts(scored@.take(i as int)),
        decreases scored@.len() - i,
    {
        let one: String = scored_words(&scored[i]);
        assert(scored@.take(i + 1).drop_last() =~= scored@.take(i as int));
        out.append(one.as_str());
        i += 1;
        assert(out@ =~= start + scored_texts(scored@.take(i as int)));
    }
    assert(scored@.take(i as int) =~= scored@);
    out.append(agreement);
    out.append(budget);
    out
}

// --- the budget ----------------------------------------------------------

/// A dialog of the plan. `share` is the share of its messages in percent, as
/// it is to be shown.
#[derive(Debug)]
pub struct Worst {
    pub title: String,
    pub planned: i64,
    pub total: i64,
    pub share: String,
}

/// Inside a limit in hundredths.
pub open spec fn within(part: int, whole: int, limit: u64) -> bool {
    part * 100 <= limit * (if whole > 1 {
        whole
    } else {
        1
    })
}

fn is_within(part: i64, whole: i64, limit: u64) -> (r: bool)
    requires
        limit <= 100,
    ensures
        r == within(part as int, whole as int, limit),
{
    let base: i128 = if whole > 1 {
        whole as i128
    } else {
        1
    };
    let top: i128 = limit as i128;
    assert(top * base <= 100 * 0x7fff_ffff_ffff_ffff) by (nonlinear_arith)
        requires
            0 <= top <= 100,
            0 < base <= 0x7fff_ffff_ffff_ffff,
    ;
    assert(0 <= top * base) by (nonlinear_arith)
        requires
            0 <= top,
            0 < base,
    ;
    (part as i128) * 100 <= top * base
}

/// Every dialog inside a limit.
pub open spec fn all_within(v: Seq<Worst>, limit: u64) -> bool {
    forall|i: int|
        0 <= i < v.len() ==> within(
            (#[trigger] v[i]).planned as int,
            v[i].total as int,
            limit,
        )
}

pub open spec fn worst_line(w: Worst) -> Seq<char> {
    "  "@ + right(w.share@, 6) + "%  "@ + right(dec_int(w.planned as int), 6) + " / "@ + left(
        dec_int(w.total as int),
        7,
    ) + " "@ + w.title@ + "\n"@
}

pub open spec fn worst_lines(v: Seq<Worst>) -> Seq<char>
    decreases v.len(),
{
    if v.len() == 0 {
        seq![]
    } else {
        worst_lines(v.drop_last()) + worst_line(v.last())
    }
}

/// One limit, and whether it holds.
pub open spec fn check_line(
    ok: bool,
    name: Seq<char>,
    got: Seq<char>,
    limit: u64,
) -> Seq<char> {
    "  "@ + (if ok {
        "ok      "@
    } else {
        "EXCEEDED"@
    }) + "  "@ + name + ": "@ + got + "% against a limit of "@ + dec(limit as nat) + ".00%\n"@
}

/// The plan against its budget. `share` and `worst_share` are the share of the
/// corpus and that of the worst dialog in percent, as they are to be shown.
pub open spec fn budget_of(
    planned: i64,
    corpus: i64,
    share: Seq<char>,
    worst: Seq<Worst>,
    worst_share: Seq<char>,
) -> Seq<char> {
    if planned == 0 {
        "\nthe plan is empty — build it with `plan --model ...`\n"@
    } else {
        "\n--- plan: "@ + dec_int(planned as int) + " of "@ + dec_int(corpus as int) + " ("@ + share
            + "%) ---\nworst dialogs by share deleted:\n"@ + worst_lines(worst) + check_line(
            within(planned as int, corpus as int, MAX_DELETE_RATIO),
            "share of corpus"@,
            share,
            MAX_DELETE_RATIO,
        ) + check_line(
            all_within(worst, MAX_DIALOG_RATIO),
            "worst dialog"@,
            worst_share,
            MAX_DIALOG_RATIO,
        )
    }
}

fn check(ok: bool, name: &str, got: &str, limit: u64) -> (r: String)
    ensures
        r@ == check_line(ok, name@, got@, limit),
{
    let mut out: String = "  ".to_owned();
    out.append(
        if ok {
            "ok      "
        } else {
            "EXCEEDED"
        },
    );
    out.append("  ");
    out.append(name);
    out.append(": ");
    out.append(got);
    out.append("% against a limit of ");
    push_dec(&mut out, limit as u128);
    out.append(".00%\n");
    out
}

fn push_worst(out: &mut String, w: &Worst)
    ensures
        final(out)@ == old(out)@ + worst_line(*w),
{
    let part: String = int_string(w.planned);
    let whole: String = int_string(w.total);
    out.append("  ");
    push_right(out, w.share.as_str(), 6);
    out.append("%  ");
    push_right(out, part.as_str(), 6);
    out.append(" / ");
    push_left(out, whole.as_str(), 7);
    out.append(" ");
    out.append(w.title.as_str());
    out.append("\n");
    assert(out@ =~= old(out)@ + worst_line(*w));
}

/// The budget is measured on the plan, i.e. on the one run that was chosen.
pub fn plan_budget(
    planned: i64,
    corpus: i64,
    share: &str,
    worst: &Vec<Worst>,
    worst_share: &str,
) -> (r: String)
    ensures
        r@ == budget_of(planned, corpus, share@, worst@, worst_share@),
{
    if planned == 0 {
        return "\nthe plan is empty — build it with `plan --model ...`\n".to_owned();
    }
    let mut out: String = "\n--- plan: ".to_owned();
    push_int(&mut out, planned);
    out.append(" of ");
    push_int(&mut out, corpus);
    out.append(" (");
    out.append(share);
    out.append("%) ---\nworst dialogs by share deleted:\n");
    let ghost head = out@;
    let mut fit: bool = true;
    let mut i: usize = 0;
    assert(worst@.take(0) =~= Seq::<Worst>::empty());
    assert(out@ =~= head + worst_lines(worst@.take(0)));
    while i < worst.len()
        invariant
            i <= worst@.len(),
            out@ == head + worst_lines(worst@.take(i as int)),
            fit == forall|k: int|
                0 <= k < i ==> within(
                    (#[trigger] worst@[k]).planned as int,
                    worst@[k].total as int,
                    MAX_DIALOG_RATIO,
                ),
        decreases worst@.len() - i,
    {
        let w: &Worst = &worst[i];
        push_worst(&mut out, w);
        assert(*w == worst@[i as int]);
        if !is_within(w.planned, w.total, MAX_DIALOG_RATIO) {
            fit = false;
        }
        proof {
            assert(worst@.take(i + 1).drop_last() =~= worst@.take(i as int));
            assert(out@ =~= head + (worst_lines(worst@.take(i as int)) + worst_line(*w)));
        }
        i += 1;
    }
    assert(worst@.take(i as int) =~= worst@);
    let whole_fits: bool = is_within(planned, corpus, MAX_DELETE_RATIO);
    let one: String = check(whole_fits, "share of corpus", share, MAX_DELETE_RATIO);
    let two: String = check(fit, "worst dialog", worst_share, MAX_DIALOG_RATIO);
    out.append(one.as_str());
    out.append(two.as_str());
    out
}

} // verus!
