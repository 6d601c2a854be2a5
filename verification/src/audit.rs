//! Auditing the dictionary without spending a call: where it is noisy
//! (`terms`) and where it buys windows and brings back nothing (`rules`).

use crate::plan::{clamp, clamped, in_span, Run};
use crate::text::{
    dec, dec_int, head, head_of, holds, int_string, left, occurs, push_dec_left, push_left,
    push_right, replace_all, replaced, right, same, text_lt, before, lemma_text_lt_total,
    lemma_text_lt_trans,
};
use vstd::prelude::*;

verus! {

// --- terms ---------------------------------------------------------------

/// A sample of a term: the matched surface and the message it stands in.
#[derive(Debug)]
pub struct Sample {
    pub surface: Option<String>,
    pub text: String,
}

/// How often a term fired. `share` is the share of its worst dialog in
/// percent, as it is to be shown.
#[derive(Debug)]
pub struct TermRow {
    pub axis: String,
    pub rule_id: String,
    pub term: String,
    pub hits: i64,
    pub dialogs: i64,
    /// Hits in the worst dialog.
    pub top: i64,
    pub share: String,
    pub samples: Vec<Sample>,
}

/// Frequent enough, and about what was asked for.
pub open spec fn is_shown(r: TermRow, min: usize, filter: Option<&str>) -> bool {
    &&& r.hits >= min
    &&& filter is Some ==> {
        ||| occurs(r.term@, (filter->0)@)
        ||| occurs(r.rule_id@, (filter->0)@)
        ||| occurs(r.axis@, (filter->0)@)
    }
}

/// Whether a term is shown.
pub fn shows(r: &TermRow, min: usize, filter: Option<&str>) -> (b: bool)
    ensures
        b == is_shown(*r, min, filter),
{
    if (r.hits as i128) < min as i128 {
        return false;
    }
    match filter {
        Some(f) => holds(r.term.as_str(), f) || holds(r.rule_id.as_str(), f) || holds(
            r.axis.as_str(),
            f,
        ),
        None => true,
    }
}

/// A sample: the surface alone cannot tell a real hit from one glued across a
/// space, so the head of the message goes with it.
pub open spec fn sample_line(s: Sample) -> Seq<char> {
    "    «"@ + (match s.surface {
        Some(x) => x@,
        None => seq![],
    }) + "» | "@ + head(replaced(s.text@, "\n"@, " "@), 110) + "\n"@
}

pub open spec fn sample_lines(v: Seq<Sample>) -> Seq<char>
    decreases v.len(),
{
    if v.len() == 0 {
        seq![]
    } else {
        sample_lines(v.drop_last()) + sample_line(v.last())
    }
}

/// A term. No automatic verdicts: concentration in one dialog describes a
/// word-boundary artefact and a real topic discussed with one person equally
/// well. The samples judge; the numbers only point.
pub open spec fn term_text(r: TermRow) -> Seq<char> {
    left(r.term@, 20) + " "@ + left(dec_int(r.hits as int), 5) + " "@ + left(
        dec_int(r.dialogs as int),
        9,
    ) + " "@ + left(dec_int(r.top as int), 14) + " "@ + r.share@ + "%\n"@ + sample_lines(r.samples@)
}

pub open spec fn term_texts(v: Seq<TermRow>, min: usize, filter: Option<&str>) -> Seq<char>
    decreases v.len(),
{
    if v.len() == 0 {
        seq![]
    } else {
        term_texts(v.drop_last(), min, filter) + (if is_shown(v.last(), min, filter) {
            term_text(v.last())
        } else {
            seq![]
        })
    }
}

fn push_sample(out: &mut String, s: &Sample)
    ensures
        final(out)@ == old(out)@ + sample_line(*s),
{
    proof {
        reveal_strlit("\n");
    }
    let flat: String = replace_all(s.text.as_str(), "\n", " ");
    let start: String = head_of(flat.as_str(), 110);
    out.append("    «");
    if let Some(x) = &s.surface {
        out.append(x.as_str());
    }
    out.append("» | ");
    out.append(start.as_str());
    out.append("\n");
    assert(out@ =~= old(out)@ + sample_line(*s));
}

fn push_term(out: &mut String, r: &TermRow)
    ensures
        final(out)@ == old(out)@ + term_text(*r),
{
    let hits: String = int_string(r.hits);
    let dialogs: String = int_string(r.dialogs);
    let top: String = int_string(r.top);
    push_left(out, r.term.as_str(), 20);
    out.append(" ");
    push_left(out, hits.as_str(), 5);
    out.append(" ");
    push_left(out, dialogs.as_str(), 9);
    out.append(" ");
    push_left(out, top.as_str(), 14);
    out.append(" ");
    out.append(r.share.as_str());
    out.append("%\n");
    let ghost head = out@;
    let mut i: usize = 0;
    assert(r.samples@.take(0) =~= Seq::<Sample>::empty());
    assert(out@ =~= head + sample_lines(r.samples@.take(0)));
    while i < r.samples.len()
        invariant
            i <= r.samples@.len(),
            out@ == head + sample_lines(r.samples@.take(i as int)),
        decreases r.samples@.len() - i,
    {
        assert(r.samples@.take(i + 1).drop_last() =~= r.samples@.take(i as int));
        push_sample(out, &r.samples[i]);
        i += 1;
        assert(out@ =~= head + sample_lines(r.samples@.take(i as int)));
    }
    assert(r.samples@.take(i as int) =~= r.samples@);
    assert(out@ =~= old(out)@ + term_text(*r));
}

/// Frequency slice over terms, with samples.
pub fn terms(rows: &Vec<TermRow>, min: usize, filter: Option<&str>) -> (r: String)
    ensures
        r@ == "term                  n    dialogs   worst dialog   share there\n"@ + term_texts(
            rows@,
            min,
            filter,
        ),
{
    let mut out: String =
        "term                  n    dialogs   worst dialog   share there\n".to_owned();
    let ghost head = out@;
    let mut i: usize = 0;
    assert(rows@.take(0) =~= Seq::<TermRow>::empty());
    assert(out@ =~= head + term_texts(rows@.take(0), min, filter));
    while i < rows.len()
        invariant
            i <= rows@.len(),
            out@ == head + term_texts(rows@.take(i as int), min, filter),
        decreases rows@.len() - i,
    {
        assert(rows@.take(i + 1).drop_last() =~= rows@.take(i as int));
        if shows(&rows[i], min, filter) {
            push_term(&mut out, &rows[i]);
        }
        i += 1;
        assert(out@ =~= head + term_texts(rows@.take(i as int), min, filter));
    }
    assert(rows@.take(i as int) =~= rows@);
    out
}

// --- rules ---------------------------------------------------------------

/// A hit of the dictionary.
#[derive(Debug)]
pub struct HitRow {
    pub dialog_id: i64,
    pub msg_id: i32,
    pub rule_id: String,
    pub term: String,
}

/// The windows the runs are stored under are the right way round.
pub open spec fn in_order(runs: Seq<Run>) -> bool {
    forall|i: int| 0 <= i < runs.len() ==> (#[trigger] runs[i]).from_id <= runs[i].to_id
}

/// The hit lies in the window of the run.
pub open spec fn covers(run: Run, h: HitRow) -> bool {
    run.dialog_id == h.dialog_id && run.from_id <= h.msg_id <= run.to_id
}

/// The run cut the message of the hit.
pub open spec fn cuts(run: Run, h: HitRow) -> bool {
    &&& run.dialog_id == h.dialog_id
    &&& run.verdict is Some
    &&& exists|g: int|
        0 <= g < (run.verdict->0).delete_ranges@.len() && in_span(
            clamped(
                #[trigger] (run.verdict->0).delete_ranges@[g],
                run.from_id,
                run.to_id,
            ),
            h.msg_id,
        )
}

/// The hit lies in a window that was judged.
pub open spec fn was_shown(runs: Seq<Run>, h: HitRow) -> bool {
    exists|i: int| 0 <= i < runs.len() && covers(#[trigger] runs[i], h)
}

/// The hit went under the knife.
pub open spec fn was_cut(runs: Seq<Run>, h: HitRow) -> bool {
    exists|i: int| 0 <= i < runs.len() && cuts(#[trigger] runs[i], h)
}

fn run_cuts(run: &Run, h: &HitRow) -> (r: bool)
    requires
        run.from_id <= run.to_id,
    ensures
        r == cuts(*run, *h),
{
    if run.dialog_id != h.dialog_id {
        return false;
    }
    if let Some(v) = &run.verdict {
        let mut g: usize = 0;
        while g < v.delete_ranges.len()
            invariant
                g <= v.delete_ranges@.len(),
                run.from_id <= run.to_id,
                run.dialog_id == h.dialog_id,
                run.verdict == Some(*v),
                forall|k: int|
                    0 <= k < g ==> !in_span(
                        clamped(#[trigger] v.delete_ranges@[k], run.from_id, run.to_id),
                        h.msg_id,
                    ),
            decreases v.delete_ranges@.len() - g,
        {
            let span: (i32, i32) = clamp(&v.delete_ranges[g], run.from_id, run.to_id);
            if span.0 <= h.msg_id && h.msg_id <= span.1 {
                assert(in_span(
                    clamped(
                        (run.verdict->0).delete_ranges@[g as int],
                        run.from_id,
                        run.to_id,
                    ),
                    h.msg_id,
                ));
                return true;
            }
            g += 1;
        }
    }
    false
}

/// Whether a hit was shown to the model, and whether it was cut.
fn fate(runs: &Vec<Run>, h: &HitRow) -> (r: (bool, bool))
    requires
        in_order(runs@),
    ensures
        r.0 == was_shown(runs@, *h),
        r.1 == was_cut(runs@, *h),
{
    let mut shown: bool = false;
    let mut cut: bool = false;
    let mut i: usize = 0;
    while i < runs.len()
        invariant
            i <= runs@.len(),
            in_order(runs@),
            shown == exists|k: int| 0 <= k < i && covers(#[trigger] runs@[k], *h),
            cut == exists|k: int| 0 <= k < i && cuts(#[trigger] runs@[k], *h),
        decreases runs@.len() - i,
    {
        let run: &Run = &runs[i];
        assert(*run == runs@[i as int]);
        if run.dialog_id == h.dialog_id && run.from_id <= h.msg_id && h.msg_id <= run.to_id {
            shown = true;
            assert(covers(runs@[i as int], *h));
        }
        if run_cuts(run, h) {
            cut = true;
            assert(cuts(runs@[i as int], *h));
        }
        i += 1;
    }
    (shown, cut)
}

/// The hit is one of the rule and term.
pub open spec fn is_of(h: HitRow, rule: Seq<char>, term: Seq<char>) -> bool {
    h.rule_id@ == rule && h.term@ == term
}

/// How many hits of a rule and term the model was shown.
pub open spec fn shown_count(
    hits: Seq<HitRow>,
    runs: Seq<Run>,
    rule: Seq<char>,
    term: Seq<char>,
) -> nat
    decreases hits.len(),
{
    if hits.len() == 0 {
        0
    } else {
        shown_count(hits.drop_last(), runs, rule, term) + if is_of(hits.last(), rule, term)
            && was_shown(runs, hits.last()) {
            1nat
        } else {
            0nat
        }
    }
}

/// How many of those it cut.
pub open spec fn cut_count(
    hits: Seq<HitRow>,
    runs: Seq<Run>,
    rule: Seq<char>,
    term: Seq<char>,
) -> nat
    decreases hits.len(),
{
    if hits.len() == 0 {
        0
    } else {
        cut_count(hits.drop_last(), runs, rule, term) + if is_of(hits.last(), rule, term)
            && was_shown(runs, hits.last()) && was_cut(runs, hits.last()) {
            1nat
        } else {
            0nat
        }
    }
}

/// A rule and term with its counts.
#[derive(Debug)]
pub struct Tally {
    pub rule: String,
    pub term: String,
    pub shown: usize,
    pub cut: usize,
}

/// A tally as plain values.
#[verifier::ext_equal]
pub struct TallyView {
    pub rule: Seq<char>,
    pub term: Seq<char>,
    pub shown: nat,
    pub cut: nat,
}

impl View for Tally {
    type V = TallyView;

    open spec fn view(&self) -> TallyView {
        TallyView {
            rule: self.rule@,
            term: self.term@,
            shown: self.shown as nat,
            cut: self.cut as nat,
        }
    }
}

pub open spec fn tally_views(v: Seq<Tally>) -> Seq<TallyView> {
    Seq::new(v.len(), |i: int| v[i]@)
}

/// The tally of a rule and term.
pub open spec fn tally_of(
    hits: Seq<HitRow>,
    runs: Seq<Run>,
    rule: Seq<char>,
    term: Seq<char>,
) -> TallyView {
    TallyView {
        rule,
        term,
        shown: shown_count(hits, runs, rule, term),
        cut: cut_count(hits, runs, rule, term),
    }
}

/// The order of the report: the smallest share first, then the most shown,
/// then by rule and term.
pub open spec fn ranks_before(a: TallyView, b: TallyView) -> bool {
    let (x, y) = (a.cut * b.shown, b.cut * a.shown);
    ||| x < y
    ||| x == y && a.shown > b.shown
    ||| x == y && a.shown == b.shown && text_lt(a.rule, b.rule)
    ||| x == y && a.shown == b.shown && a.rule == b.rule && text_lt(a.term, b.term)
}

/// In the order of the report.
pub open spec fn ranked(v: Seq<TallyView>) -> bool {
    forall|i: int, j: int| 0 <= i < j < v.len() ==> ranks_before(#[trigger] v[i], #[trigger] v[j])
}

proof fn lemma_share_le(ac: nat, an: nat, bc: nat, bn: nat, cc: nat, cn: nat)
    requires
        an > 0,
        bn > 0,
        cn > 0,
        ac * bn <= bc * an,
        bc * cn <= cc * bn,
    ensures
        ac * cn <= cc * an,
        ac * bn < bc * an || bc * cn < cc * bn ==> ac * cn < cc * an,
{
    assert((ac * cn) * bn <= (cc * an) * bn) by (nonlinear_arith)
        requires
            ac * bn <= bc * an,
            bc * cn <= cc * bn,
            an >= 0,
            cn >= 0,
    ;
    assert(ac * cn <= cc * an) by (nonlinear_arith)
        requires
            (ac * cn) * bn <= (cc * an) * bn,
            bn > 0,
    ;
    if ac * bn < bc * an {
        assert((ac * cn) * bn < (cc * an) * bn) by (nonlinear_arith)
            requires
                ac * bn < bc * an,
                bc * cn <= cc * bn,
                an > 0,
                cn > 0,
        ;
    }
    if bc * cn < cc * bn {
        assert((ac * cn) * bn < (cc * an) * bn) by (nonlinear_arith)
            requires
                ac * bn <= bc * an,
                bc * cn < cc * bn,
                an > 0,
                cn > 0,
        ;
    }
    if (ac * cn) * bn < (cc * an) * bn {
        assert(ac * cn < cc * an) by (nonlinear_arith)
            requires
                (ac * cn) * bn < (cc * an) * bn,
                bn > 0,
        ;
    }
}

proof fn lemma_rank_trans(a: TallyView, b: TallyView, c: TallyView)
    requires
        a.shown > 0,
        b.shown > 0,
        c.shown > 0,
        ranks_before(a, b),
        ranks_before(b, c),
    ensures
        ranks_before(a, c),
{
    lemma_share_le(a.cut, a.shown, b.cut, b.shown, c.cut, c.shown);
    if a.cut * b.shown == b.cut * a.shown && b.cut * c.shown == c.cut * b.shown {
        lemma_share_le(c.cut, c.shown, b.cut, b.shown, a.cut, a.shown);
        if text_lt(a.rule, b.rule) && text_lt(b.rule, c.rule) {
            lemma_text_lt_trans(a.rule, b.rule, c.rule);
        }
        if text_lt(a.term, b.term) && text_lt(b.term, c.term) {
            lemma_text_lt_trans(a.term, b.term, c.term);
        }
    }
}

proof fn lemma_rank_total(a: TallyView, b: TallyView)
    requires
        a.rule != b.rule || a.term != b.term,
        !ranks_before(a, b),
    ensures
        ranks_before(b, a),
{
    lemma_text_lt_total(a.rule, b.rule);
    lemma_text_lt_total(a.term, b.term);
}

fn is_ranked_before(a: &Tally, b: &Tally) -> (r: bool)
    ensures
        r == ranks_before(a@, b@),
{
    proof {
        assert(a.cut * b.shown <= 0xffff_ffff_ffff_ffff * 0xffff_ffff_ffff_ffff)
            by (nonlinear_arith)
            requires
                0 <= a.cut <= 0xffff_ffff_ffff_ffff,
                0 <= b.shown <= 0xffff_ffff_ffff_ffff,
        ;
        assert(b.cut * a.shown <= 0xffff_ffff_ffff_ffff * 0xffff_ffff_ffff_ffff)
            by (nonlinear_arith)
            requires
                0 <= b.cut <= 0xffff_ffff_ffff_ffff,
                0 <= a.shown <= 0xffff_ffff_ffff_ffff,
        ;
    }
    let x: u128 = (a.cut as u128) * (b.shown as u128);
    let y: u128 = (b.cut as u128) * (a.shown as u128);
    if x != y {
        x < y
    } else if a.shown != b.shown {
        a.shown > b.shown
    } else if same(a.rule.as_str(), b.rule.as_str()) {
        proof {
            lemma_text_lt_total(a.rule@, b.rule@);
        }
        before(a.term.as_str(), b.term.as_str())
    } else {
        before(a.rule.as_str(), b.rule.as_str())
    }
}

/// Every rule and term the model was shown, counted.
spec fn counted(ts: Seq<TallyView>, hits: Seq<HitRow>, runs: Seq<Run>) -> bool {
    &&& forall|i: int|
        0 <= i < ts.len() ==> (#[trigger] ts[i]) == tally_of(hits, runs, ts[i].rule, ts[i].term)
            && ts[i].shown > 0
    &&& forall|i: int, j: int|
        0 <= i < j < ts.len() ==> (#[trigger] ts[i]).rule != (#[trigger] ts[j]).rule || ts[i].term
            != ts[j].term
    &&& forall|rule: Seq<char>, term: Seq<char>|
        #![trigger shown_count(hits, runs, rule, term)]
        shown_count(hits, runs, rule, term) > 0 ==> named(ts, rule, term)
}

spec fn named(ts: Seq<TallyView>, rule: Seq<char>, term: Seq<char>) -> bool {
    exists|i: int| 0 <= i < ts.len() && (#[trigger] ts[i]).rule == rule && ts[i].term == term
}

fn find_tally(ts: &Vec<Tally>, rule: &str, term: &str) -> (r: usize)
    ensures
        r <= ts@.len(),
        r < ts@.len() ==> ts@[r as int].rule@ == rule@ && ts@[r as int].term@ == term@,
        r == ts@.len() ==> !named(tally_views(ts@), rule@, term@),
{
    let ghost all = tally_views(ts@);
    let mut i: usize = 0;
    while i < ts.len()
        invariant
            i <= ts@.len(),
            all == tally_views(ts@),
            forall|k: int|
                0 <= k < i ==> !((#[trigger] all[k]).rule == rule@ && all[k].term == term@),
        decreases ts@.len() - i,
    {
        assert(all[i as int] == ts@[i as int]@);
        if same(ts[i].rule.as_str(), rule) && same(ts[i].term.as_str(), term) {
            return i;
        }
        i += 1;
    }
    i
}

proof fn lemma_cut_bound(hits: Seq<HitRow>, runs: Seq<Run>, rule: Seq<char>, term: Seq<char>)
    ensures
        cut_count(hits, runs, rule, term) <= shown_count(hits, runs, rule, term) <= hits.len(),
    decreases hits.len(),
{
    if hits.len() > 0 {
        lemma_cut_bound(hits.drop_last(), runs, rule, term);
    }
}

fn count_all(hits: &Vec<HitRow>, runs: &Vec<Run>) -> (r: Vec<Tally>)
    requires
        in_order(runs@),
    ensures
        counted(tally_views(r@), hits@, runs@),
{
    let mut ts: Vec<Tally> = Vec::new();
    let mut i: usize = 0;
    assert(hits@.take(0) =~= Seq::<HitRow>::empty());
    while i < hits.len()
        invariant
            i <= hits@.len(),
            in_order(runs@),
            counted(tally_views(ts@), hits@.take(i as int), runs@),
        decreases hits@.len() - i,
    {
        let h: &HitRow = &hits[i];
        let ghost before_hits = hits@.take(i as int);
        let ghost after_hits = hits@.take(i + 1);
        let ghost was = tally_views(ts@);
        assert(after_hits.drop_last() =~= before_hits);
        assert(after_hits.last() == *h);
        let (shown, cut): (bool, bool) = fate(runs, h);
        if shown {
            let at: usize = find_tally(&ts, h.rule_id.as_str(), h.term.as_str());
            if at < ts.len() {
                proof {
                    lemma_cut_bound(before_hits, runs@, h.rule_id@, h.term@);
                    assert(was[at as int] == ts@[at as int]@);
                    assert(was[at as int] == tally_of(
                        before_hits,
                        runs@,
                        was[at as int].rule,
                        was[at as int].term,
                    ));
                }
                let one: Tally = Tally {
                    rule: ts[at].rule.clone(),
                    term: ts[at].term.clone(),
                    shown: ts[at].shown + 1,
                    cut: ts[at].cut + if cut {
                        1
                    } else {
                        0
                    },
                };
                ts.set(at, one);
                assert(tally_views(ts@) =~= was.update(at as int, one@));
            } else {
                proof {
                    assert(shown_count(before_hits, runs@, h.rule_id@, h.term@) == 0);
                    lemma_cut_bound(before_hits, runs@, h.rule_id@, h.term@);
                }
                let one: Tally = Tally {
                    rule: h.rule_id.clone(),
                    term: h.term.clone(),
                    shown: 1,
                    cut: if cut {
                        1
                    } else {
                        0
                    },
                };
                ts.push(one);
                assert(tally_views(ts@) =~= was.push(one@));
            }
        }
        proof {
            let now = tally_views(ts@);
            assert forall|k: int| 0 <= k < now.len() implies (#[trigger] now[k]) == tally_of(
                after_hits,
                runs@,
                now[k].rule,
                now[k].term,
            ) && now[k].shown > 0 by {
                if k < was.len() {
                    assert(was[k] == tally_of(before_hits, runs@, was[k].rule, was[k].term));
                    assert(was[k].shown > 0);
                }
            }
            assert forall|a: int, b: int| 0 <= a < b < now.len() implies (#[trigger] now[a]).rule
                != (#[trigger] now[b]).rule || now[a].term != now[b].term by {
                if b < was.len() {
                    assert(was[a].rule != was[b].rule || was[a].term != was[b].term);
                } else {
                    assert(was[a].rule == now[a].rule && was[a].term == now[a].term);
                    assert(!named(was, h.rule_id@, h.term@));
                }
            }
            assert forall|rule: Seq<char>, term: Seq<char>|
                #![trigger shown_count(after_hits, runs@, rule, term)]
                shown_count(after_hits, runs@, rule, term) > 0 implies named(now, rule, term) by {
                if shown_count(before_hits, runs@, rule, term) > 0 {
                    assert(named(was, rule, term));
                    let k = choose|k: int|
                        0 <= k < was.len() && (#[trigger] was[k]).rule == rule && was[k].term
                            == term;
                    assert(now[k].rule == rule && now[k].term == term);
                } else {
                    assert(is_of(*h, rule, term));
                    if named(was, rule, term) {
                        let k = choose|k: int|
                            0 <= k < was.len() && (#[trigger] was[k]).rule == rule && was[k].term
                                == term;
                        assert(now[k].rule == rule && now[k].term == term);
                    } else {
                        assert(now[was.len() as int].rule == rule);
                    }
                }
            }
        }
        i += 1;
    }
    assert(hits@.take(i as int) =~= hits@);
    ts
}

fn insert_ranked(v: &mut Vec<Tally>, t: Tally)
    requires
        ranked(tally_views(old(v)@)),
        t.shown > 0,
        forall|i: int|
            0 <= i < old(v)@.len() ==> (#[trigger] old(v)@[i]).shown > 0 && (old(v)@[i].rule@
                != t.rule@ || old(v)@[i].term@ != t.term@),
    ensures
        ranked(tally_views(final(v)@)),
        exists|at: int|
            0 <= at <= old(v)@.len() && tally_views(final(v)@) == tally_views(
                old(v)@,
            ).insert(at, t@),
{
    let ghost was = tally_views(v@);
    let mut i: usize = 0;
    while i < v.len() && is_ranked_before(&v[i], &t)
        invariant
            i <= v@.len(),
            v@ == old(v)@,
            was == tally_views(v@),
            forall|k: int| 0 <= k < i ==> ranks_before(#[trigger] was[k], t@),
        decreases v@.len() - i,
    {
        assert(was[i as int] == v@[i as int]@);
        i += 1;
    }
    proof {
        if i < was.len() {
            assert(was[i as int] == v@[i as int]@);
            assert(old(v)@[i as int].shown > 0);
            lemma_rank_total(was[i as int], t@);
            assert forall|k: int| i <= k < was.len() implies ranks_before(t@, #[trigger] was[k]) by {
                if k > i {
                    assert(was[k] == v@[k]@);
                    assert(old(v)@[k].shown > 0);
                    lemma_rank_trans(t@, was[i as int], was[k]);
                }
            }
        }
    }
    let ghost one = t@;
    v.insert(i, t);
    proof {
        let now = tally_views(v@);
        assert(now =~= was.insert(i as int, one));
    }
}

/// Shown often enough to say something.
pub const MIN_SHOWN: usize = 3;

/// A row of the report: a rule and term shown often enough, with its counts.
pub open spec fn reported(t: TallyView, hits: Seq<HitRow>, runs: Seq<Run>) -> bool {
    t.shown >= MIN_SHOWN && t == tally_of(hits, runs, t.rule, t.term)
}

/// Feedback from triage: how many of a rule's hits the model was shown, and
/// how many it actually cut. A low share at a high volume means the rule pays
/// for windows and brings back no verdict.
pub fn rules(hits: &Vec<HitRow>, runs: &Vec<Run>) -> (r: Vec<Tally>)
    requires
        in_order(runs@),
    ensures
        ranked(tally_views(r@)),
        forall|t: TallyView|
            tally_views(r@).contains(t) <==> #[trigger] reported(t, hits@, runs@),
{
    let ts: Vec<Tally> = count_all(hits, runs);
    let ghost all = tally_views(ts@);
    let mut out: Vec<Tally> = Vec::new();
    let mut i: usize = 0;
    while i < ts.len()
        invariant
            i <= ts@.len(),
            all == tally_views(ts@),
            counted(all, hits@, runs@),
            ranked(tally_views(out@)),
            forall|t: TallyView|
                #[trigger] tally_views(out@).contains(t) <==> t.shown >= MIN_SHOWN && exists|
                    k: int,
                |
                    0 <= k < i && #[trigger] all[k] == t,
        decreases ts@.len() - i,
    {
        let t: &Tally = &ts[i];
        assert(all[i as int] == t@);
        let ghost was = tally_views(out@);
        if t.shown >= MIN_SHOWN {
            let one: Tally = Tally {
                rule: t.rule.clone(),
                term: t.term.clone(),
                shown: t.shown,
                cut: t.cut,
            };
            proof {
                assert forall|k: int| 0 <= k < out@.len() implies (#[trigger] out@[k]).shown > 0 && (
                out@[k].rule@ != one.rule@ || out@[k].term@ != one.term@) by {
                    assert(was[k] == out@[k]@);
                    assert(was.contains(was[k]));
                    let m = choose|m: int| 0 <= m < i && #[trigger] all[m] == was[k];
                    assert(all[m].rule != all[i as int].rule || all[m].term != all[i as int].term);
                }
            }
            insert_ranked(&mut out, one);
            proof {
                let now = tally_views(out@);
                let at = choose|at: int| 0 <= at <= was.len() && now == was.insert(at, one@);
                assert forall|t: TallyView| #[trigger] now.contains(t) <==> t.shown >= MIN_SHOWN
                    && exists|k: int| 0 <= k < i + 1 && #[trigger] all[k] == t by {
                    if now.contains(t) {
                        let k = choose|k: int| 0 <= k < now.len() && now[k] == t;
                        if k < at {
                            assert(was[k] == t);
                            assert(was.contains(t));
                        } else if k > at {
                            assert(was[k - 1] == t);
                            assert(was.contains(t));
                        } else {
                            assert(all[i as int] == t);
                        }
                    }
                    if was.contains(t) {
                        let k = choose|k: int| 0 <= k < was.len() && was[k] == t;
                        if k < at {
                            assert(now[k] == t);
                        } else {
                            assert(now[k + 1] == t);
                        }
                    }
                    assert(now[at] == one@);
                }
            }
        } else {
            proof {
                assert forall|t: TallyView| #[trigger] was.contains(t) <==> t.shown >= MIN_SHOWN
                    && exists|k: int| 0 <= k < i + 1 && #[trigger] all[k] == t by {
                    if t.shown >= MIN_SHOWN && exists|k: int| 0 <= k < i + 1 && #[trigger] all[k]
                        == t {
                        let k = choose|k: int| 0 <= k < i + 1 && #[trigger] all[k] == t;
                        assert(k < i);
                    }
                }
            }
        }
        i += 1;
    }
    proof {
        let now = tally_views(out@);
        assert forall|t: TallyView| now.contains(t) <==> #[trigger] reported(t, hits@, runs@) by {
            if reported(t, hits@, runs@) {
                assert(shown_count(hits@, runs@, t.rule, t.term) > 0);
                assert(named(all, t.rule, t.term));
                let k = choose|k: int|
                    0 <= k < all.len() && (#[trigger] all[k]).rule == t.rule && all[k].term
                        == t.term;
                assert(all[k] == t);
            }
        }
    }
    out
}

// --- in words ------------------------------------------------------------

/// The line of a rule and term. `share` is the share that was cut in percent,
/// as it is to be shown.
pub open spec fn tally_line(t: TallyView, share: Seq<char>) -> Seq<char> {
    right(share, 4) + "%  "@ + left(dec(t.shown), 8) + " "@ + left(dec(t.cut), 9) + " "@ + t.rule
        + " / "@ + t.term + "\n"@
}

pub open spec fn tally_lines(ts: Seq<TallyView>, shares: Seq<Seq<char>>) -> Seq<char>
    decreases ts.len(),
{
    if ts.len() == 0 {
        seq![]
    } else {
        tally_lines(ts.drop_last(), shares) + tally_line(ts.last(), shares[ts.len() - 1])
    }
}

/// The feedback in words.
pub open spec fn rules_of(
    any_runs: bool,
    ts: Seq<TallyView>,
    shares: Seq<Seq<char>>,
) -> Seq<char> {
    if any_runs {
        "share of hits that went under the knife (bottom: candidates to drop):\nshare  in windows  cut       rule / term\n"@
            + tally_lines(ts, shares)
    } else {
        "no triage runs — the signal comes from calls already made\n"@
    }
}

fn push_tally(out: &mut String, t: &Tally, share: &str)
    ensures
        final(out)@ == old(out)@ + tally_line(t@, share@),
{
    push_right(out, share, 4);
    out.append("%  ");
    push_dec_left(out, t.shown as u128, 8);
    out.append(" ");
    push_dec_left(out, t.cut as u128, 9);
    out.append(" ");
    out.append(t.rule.as_str());
    out.append(" / ");
    out.append(t.term.as_str());
    out.append("\n");
    assert(out@ =~= old(out)@ + tally_line(t@, share@));
}

/// The feedback in words. `shares` are the shares that were cut in percent, as
/// they are to be shown.
pub fn rules_text(any_runs: bool, ts: &Vec<Tally>, shares: &Vec<String>) -> (r: String)
    requires
        shares@.len() == ts@.len(),
    ensures
        r@ == rules_of(any_runs, tally_views(ts@), crate::text::views(shares@)),
{
    if !any_runs {
        return "no triage runs — the signal comes from calls already made\n".to_owned();
    }
    let ghost all = tally_views(ts@);
    let ghost texts = crate::text::views(shares@);
    let mut out: String =
        "share of hits that went under the knife (bottom: candidates to drop):\nshare  in windows  cut       rule / term\n".to_owned();
    let ghost head = out@;
    let mut i: usize = 0;
    assert(all.take(0) =~= Seq::<TallyView>::empty());
    assert(out@ =~= head + tally_lines(all.take(0), texts));
    while i < ts.len()
        invariant
            i <= ts@.len(),
            shares@.len() == ts@.len(),
            all == tally_views(ts@),
            texts == crate::text::views(shares@),
            out@ == head + tally_lines(all.take(i as int), texts),
        decreases ts@.len() - i,
    {
        assert(all.take(i + 1).drop_last() =~= all.take(i as int));
        assert(all.take(i + 1).last() == ts@[i as int]@);
        assert(texts[i as int] == shares@[i as int]@);
        push_tally(&mut out, &ts[i], shares[i].as_str());
        i += 1;
        assert(out@ =~= head + tally_lines(all.take(i as int), texts));
    }
    assert(all.take(i as int) =~= all);
    out
}

/// A rule's cut hits are among its shown ones.
pub proof fn law_cut_is_a_part_of_shown(
    hits: Seq<HitRow>,
    runs: Seq<Run>,
    rule: Seq<char>,
    term: Seq<char>,
)
    ensures
        cut_count(hits, runs, rule, term) <= shown_count(hits, runs, rule, term),
{
    lemma_cut_bound(hits, runs, rule, term);
}

} // verus!
