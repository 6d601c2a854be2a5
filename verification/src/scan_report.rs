//! Summary of a scan, for calibrating the dictionary.

use crate::text::{dec_int, int_string, left, push_int, push_left, push_right, right};
use vstd::prelude::*;

verus! {

/// Hits of one axis and tier.
#[derive(Debug, Clone)]
pub struct AxisTier {
    pub axis: String,
    pub tier: String,
    pub hits: i64,
    pub messages: i64,
}

/// Hits of one rule and term.
#[derive(Debug, Clone)]
pub struct TermHits {
    pub rule: String,
    pub term: String,
    pub hits: i64,
}

/// Hits of one dialog. `share` is the share of its messages in percent, as it
/// is to be shown.
#[derive(Debug, Clone)]
pub struct DialogHits {
    pub title: String,
    pub hits: i64,
    pub total: i64,
    pub share: String,
}

/// Everything the summary shows. `share` is the share of marked messages in
/// percent, as it is to be shown.
#[derive(Debug, Clone)]
pub struct Summary {
    pub total: i64,
    pub marked: i64,
    pub share: String,
    pub by_axis: Vec<AxisTier>,
    pub top_terms: Vec<TermHits>,
    pub top_dialogs: Vec<DialogHits>,
    pub held: i64,
}

pub open spec fn axis_tier_line(a: AxisTier) -> Seq<char> {
    "  "@ + left(a.axis@, 14) + " "@ + a.tier@ + "  hits "@ + right(dec_int(a.hits as int), 7)
        + "  messages "@ + right(dec_int(a.messages as int), 7) + "\n"@
}

pub open spec fn axis_tier_lines(v: Seq<AxisTier>) -> Seq<char>
    decreases v.len(),
{
    if v.len() == 0 {
        seq![]
    } else {
        axis_tier_lines(v.drop_last()) + axis_tier_line(v.last())
    }
}

pub open spec fn term_line(t: TermHits) -> Seq<char> {
    "  "@ + right(dec_int(t.hits as int), 7) + "  "@ + left(t.rule@, 20) + " "@ + t.term@ + "\n"@
}

pub open spec fn term_lines(v: Seq<TermHits>) -> Seq<char>
    decreases v.len(),
{
    if v.len() == 0 {
        seq![]
    } else {
        term_lines(v.drop_last()) + term_line(v.last())
    }
}

pub open spec fn dialog_line(d: DialogHits) -> Seq<char> {
    "  "@ + right(dec_int(d.hits as int), 6) + " / "@ + left(dec_int(d.total as int), 7) + " "@
        + right(d.share@, 5) + "%  "@ + d.title@ + "\n"@
}

pub open spec fn dialog_lines(v: Seq<DialogHits>) -> Seq<char>
    decreases v.len(),
{
    if v.len() == 0 {
        seq![]
    } else {
        dialog_lines(v.drop_last()) + dialog_line(v.last())
    }
}

/// The share of marked messages, where there are messages at all.
pub open spec fn share_part(s: Summary) -> Seq<char> {
    if s.total > 0 {
        " ("@ + s.share@ + "%)"@
    } else {
        seq![]
    }
}

/// The summary in words.
pub open spec fn summary_text(s: Summary) -> Seq<char> {
    Seq::<char>::empty() + "messages in corpus : "@ + dec_int(s.total as int)
        + "\nmarked             : "@ + dec_int(s.marked as int) + share_part(s)
        + "\n\nby axis and tier:\n"@ + axis_tier_lines(s.by_axis@) + "\ntop rules:\n"@ + term_lines(
        s.top_terms@,
    ) + "\ntop dialogs by density:\n"@ + dialog_lines(s.top_dialogs@)
        + "\nheld by the whitelist: "@ + dec_int(s.held as int) + "\n"@
}

fn push_axis_tiers(out: &mut String, v: &Vec<AxisTier>)
    ensures
        final(out)@ == old(out)@ + axis_tier_lines(v@),
{
    let mut i: usize = 0;
    assert(v@.take(0) =~= Seq::<AxisTier>::empty());
    assert(out@ =~= old(out)@ + axis_tier_lines(v@.take(0)));
    while i < v.len()
        invariant
            i <= v@.len(),
            out@ == old(out)@ + axis_tier_lines(v@.take(i as int)),
        decreases v@.len() - i,
    {
        let a: &AxisTier = &v[i];
        let hits: String = int_string(a.hits);
        let messages: String = int_string(a.messages);
        out.append("  ");
        push_left(out, a.axis.as_str(), 14);
        out.append(" ");
        out.append(a.tier.as_str());
        out.append("  hits ");
        push_right(out, hits.as_str(), 7);
        out.append("  messages ");
        push_right(out, messages.as_str(), 7);
        out.append("\n");
        proof {
            assert(v@.take(i + 1).drop_last() =~= v@.take(i as int));
            assert(out@ =~= old(out)@ + (axis_tier_lines(v@.take(i as int)) + axis_tier_line(*a)));
        }
        i += 1;
    }
    assert(v@.take(i as int) =~= v@);
}

fn push_terms(out: &mut String, v: &Vec<TermHits>)
    ensures
        final(out)@ == old(out)@ + term_lines(v@),
{
    let mut i: usize = 0;
    assert(v@.take(0) =~= Seq::<TermHits>::empty());
    assert(out@ =~= old(out)@ + term_lines(v@.take(0)));
    while i < v.len()
        invariant
            i <= v@.len(),
            out@ == old(out)@ + term_lines(v@.take(i as int)),
        decreases v@.len() - i,
    {
        let t: &TermHits = &v[i];
        let hits: String = int_string(t.hits);
        out.append("  ");
        push_right(out, hits.as_str(), 7);
        out.append("  ");
        push_left(out, t.rule.as_str(), 20);
        out.append(" ");
        out.append(t.term.as_str());
        out.append("\n");
        proof {
            assert(v@.take(i + 1).drop_last() =~= v@.take(i as int));
            assert(out@ =~= old(out)@ + (term_lines(v@.take(i as int)) + term_line(*t)));
        }
        i += 1;
    }
    assert(v@.take(i as int) =~= v@);
}

fn push_dialogs(out: &mut String, v: &Vec<DialogHits>)
    ensures
        final(out)@ == old(out)@ + dialog_lines(v@),
{
    let mut i: usize = 0;
    assert(v@.take(0) =~= Seq::<DialogHits>::empty());
    assert(out@ =~= old(out)@ + dialog_lines(v@.take(0)));
    while i < v.len()
        invariant
            i <= v@.len(),
            out@ == old(out)@ + dialog_lines(v@.take(i as int)),
        decreases v@.len() - i,
    {
        let d: &DialogHits = &v[i];
        let hits: String = int_string(d.hits);
        let total: String = int_string(d.total);
        out.append("  ");
        push_right(out, hits.as_str(), 6);
        out.append(" / ");
        push_left(out, total.as_str(), 7);
        out.append(" ");
        push_right(out, d.share.as_str(), 5);
        out.append("%  ");
        out.append(d.title.as_str());
        out.append("\n");
        proof {
            assert(v@.take(i + 1).drop_last() =~= v@.take(i as int));
            assert(out@ =~= old(out)@ + (dialog_lines(v@.take(i as int)) + dialog_line(*d)));
        }
        i += 1;
    }
    assert(v@.take(i as int) =~= v@);
}

/// The summary in words.
pub fn report(s: &Summary) -> (r: String)
    ensures
        r@ == summary_text(*s),
{
    let mut out: String = String::new();
    out.append("messages in corpus : ");
    push_int(&mut out, s.total);
    out.append("\nmarked             : ");
    push_int(&mut out, s.marked);
    let ghost before = out@;
    if s.total > 0 {
        out.append(" (");
        out.append(s.share.as_str());
        out.append("%)");
    }
    assert(out@ =~= before + share_part(*s));
    out.append("\n\nby axis and tier:\n");
    push_axis_tiers(&mut out, &s.by_axis);
    out.append("\ntop rules:\n");
    push_terms(&mut out, &s.top_terms);
    out.append("\ntop dialogs by density:\n");
    push_dialogs(&mut out, &s.top_dialogs);
    out.append("\nheld by the whitelist: ");
    push_int(&mut out, s.held);
    out.append("\n");
    out
}

} // verus!
