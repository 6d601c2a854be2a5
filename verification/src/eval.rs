//! Quality of the triage: maximum recall while the deletion stays inside the
//! budget. Not F1 — a miss costs without limit, an excess cut is not free
//! either. Every number is a property of the verdict, none needs labelling.

use crate::idset::IdSet;
use crate::plan::{clamp, clamped};
use crate::text::{insert_name, lemma_listed, listed, same, strictly_sorted, views};
use crate::triage::{Range, Verdict};
use crate::window::{window_views, Window, WindowView};
use std::collections::HashSet;
use vstd::prelude::*;

verus! {

broadcast use vstd::std_specs::hash::group_hash_axioms;

/// One verdict, by one model, on one window.
#[derive(Debug)]
pub struct Run {
    pub key: String,
    pub dialog_id: i64,
    pub from_id: i32,
    pub to_id: i32,
    pub deleted: Vec<(i32, i32)>,
    /// The real message ids of the window, each once. Counting `from..to`
    /// would inflate «cut» into thousands: ids come with gaps.
    pub msgs: Vec<i32>,
    pub protected_claims: usize,
}

/// A run as plain values.
#[verifier::ext_equal]
pub struct RunView {
    pub key: Seq<char>,
    pub dialog_id: i64,
    pub from_id: i32,
    pub to_id: i32,
    pub deleted: Seq<(i32, i32)>,
    pub msgs: Seq<i32>,
    pub protected_claims: usize,
}

impl View for Run {
    type V = RunView;

    open spec fn view(&self) -> RunView {
        RunView {
            key: self.key@,
            dialog_id: self.dialog_id,
            from_id: self.from_id,
            to_id: self.to_id,
            deleted: self.deleted@,
            msgs: self.msgs@,
            protected_claims: self.protected_claims,
        }
    }
}

pub open spec fn run_views(v: Seq<Run>) -> Seq<RunView> {
    Seq::new(v.len(), |i: int| v[i]@)
}

// --- reading a stored answer ---------------------------------------------

/// The name of a run: the model and the version of the policy.
pub open spec fn key_of(model: Seq<char>, prompt_id: Seq<char>) -> Seq<char> {
    model + " @ "@ + prompt_id
}

/// Each number once, in the order they first come in.
pub open spec fn each_once(ids: Seq<i32>) -> Seq<i32>
    decreases ids.len(),
{
    if ids.len() == 0 {
        seq![]
    } else {
        let init = each_once(ids.drop_last());
        if init.contains(ids.last()) {
            init
        } else {
            init.push(ids.last())
        }
    }
}

/// Ranges the right way round, clamped to the window.
pub open spec fn cuts_of(ranges: Seq<Range>, from_id: i32, to_id: i32) -> Seq<(i32, i32)> {
    Seq::new(ranges.len(), |i: int| clamped(ranges[i], from_id, to_id))
}

fn keep_once(ids: &Vec<i32>) -> (r: Vec<i32>)
    ensures
        r@ == each_once(ids@),
{
    let mut out: Vec<i32> = Vec::new();
    let mut seen: HashSet<i32> = HashSet::new();
    let mut i: usize = 0;
    assert(ids@.take(0) =~= Seq::<i32>::empty());
    while i < ids.len()
        invariant
            i <= ids@.len(),
            out@ == each_once(ids@.take(i as int)),
            forall|id: i32| #[trigger] seen@.contains(id) == out@.contains(id),
        decreases ids@.len() - i,
    {
        let id: i32 = ids[i];
        assert(ids@.take(i + 1).drop_last() =~= ids@.take(i as int));
        if !seen.contains(&id) {
            let ghost was = out@;
            seen.insert(id);
            out.push(id);
            assert forall|x: i32| #[trigger] seen@.contains(x) == out@.contains(x) by {
                if was.contains(x) {
                    let k = choose|k: int| 0 <= k < was.len() && was[k] == x;
                    assert(out@[k] == x);
                }
                if out@.contains(x) && x != id {
                    let k = choose|k: int| 0 <= k < out@.len() && out@[k] == x;
                    assert(was[k] == x);
                }
                assert(out@[was.len() as int] == id);
            }
        }
        i += 1;
    }
    assert(ids@.take(i as int) =~= ids@);
    out
}

/// A stored answer, read. `ids` are the messages of its window.
pub fn run_of(
    model: &str,
    prompt_id: &str,
    dialog_id: i64,
    from_id: i32,
    to_id: i32,
    ids: &Vec<i32>,
    v: &Verdict,
) -> (r: Run)
    requires
        from_id <= to_id,
    ensures
        r@ == (RunView {
            key: key_of(model@, prompt_id@),
            dialog_id,
            from_id,
            to_id,
            deleted: cuts_of(v.delete_ranges@, from_id, to_id),
            msgs: each_once(ids@),
            protected_claims: v.protected@.len() as usize,
        }),
{
    let mut key: String = model.to_owned();
    key.append(" @ ");
    key.append(prompt_id);
    let mut deleted: Vec<(i32, i32)> = Vec::new();
    let ghost goal = cuts_of(v.delete_ranges@, from_id, to_id);
    let mut i: usize = 0;
    while i < v.delete_ranges.len()
        invariant
            i <= v.delete_ranges@.len(),
            from_id <= to_id,
            goal == cuts_of(v.delete_ranges@, from_id, to_id),
            deleted@ == goal.take(i as int),
        decreases v.delete_ranges@.len() - i,
    {
        deleted.push(clamp(&v.delete_ranges[i], from_id, to_id));
        i += 1;
        assert(deleted@ =~= goal.take(i as int));
    }
    assert(goal.take(i as int) =~= goal);
    Run {
        key,
        dialog_id,
        from_id,
        to_id,
        deleted,
        msgs: keep_once(ids),
        protected_claims: v.protected.len(),
    }
}

// --- what a verdict cuts -------------------------------------------------

/// The id lies in one of the ranges.
pub open spec fn in_cuts(deleted: Seq<(i32, i32)>, id: i32) -> bool {
    exists|i: int|
        0 <= i < deleted.len() && (#[trigger] deleted[i]).0 <= id && id <= deleted[i].1
}

/// The messages a verdict cuts, out of the first ones of its window.
pub open spec fn cut_of(msgs: Seq<i32>, deleted: Seq<(i32, i32)>) -> Seq<i32>
    decreases msgs.len(),
{
    if msgs.len() == 0 {
        seq![]
    } else {
        let init = cut_of(msgs.drop_last(), deleted);
        if in_cuts(deleted, msgs.last()) {
            init.push(msgs.last())
        } else {
            init
        }
    }
}

fn is_cut(deleted: &Vec<(i32, i32)>, id: i32) -> (r: bool)
    ensures
        r == in_cuts(deleted@, id),
{
    let mut i: usize = 0;
    while i < deleted.len()
        invariant
            i <= deleted@.len(),
            forall|k: int|
                0 <= k < i ==> !((#[trigger] deleted@[k]).0 <= id && id <= deleted@[k].1),
        decreases deleted@.len() - i,
    {
        if deleted[i].0 <= id && id <= deleted[i].1 {
            return true;
        }
        i += 1;
    }
    false
}

/// The messages a verdict cuts.
pub fn expand(r: &Run) -> (ids: Vec<i32>)
    ensures
        ids@ == cut_of(r.msgs@, r.deleted@),
{
    let mut out: Vec<i32> = Vec::new();
    let mut i: usize = 0;
    assert(r.msgs@.take(0) =~= Seq::<i32>::empty());
    while i < r.msgs.len()
        invariant
            i <= r.msgs@.len(),
            out@ == cut_of(r.msgs@.take(i as int), r.deleted@),
        decreases r.msgs@.len() - i,
    {
        assert(r.msgs@.take(i + 1).drop_last() =~= r.msgs@.take(i as int));
        if is_cut(&r.deleted, r.msgs[i]) {
            out.push(r.msgs[i]);
        }
        i += 1;
    }
    assert(r.msgs@.take(i as int) =~= r.msgs@);
    out
}

// --- scoring -------------------------------------------------------------

/// Totals per run (model + policy version).
#[derive(Debug, Clone, Copy, PartialEq, Eq, Structural)]
pub struct Agg {
    pub windows: u128,
    pub in_windows: u128,
    pub cut: u128,
    pub violations: u128,
    pub full: u128,
    pub empty: u128,
    pub claims: u128,
    pub anchors: u128,
    pub covered: u128,
    /// A range hit the edge of the window — the conversation is probably cut.
    pub edge: u128,
}

/// Totals as numbers without a limit.
pub struct Score {
    pub windows: nat,
    pub in_windows: nat,
    pub cut: nat,
    pub violations: nat,
    pub full: nat,
    pub empty: nat,
    pub claims: nat,
    pub anchors: nat,
    pub covered: nat,
    pub edge: nat,
}

impl View for Agg {
    type V = Score;

    open spec fn view(&self) -> Score {
        Score {
            windows: self.windows as nat,
            in_windows: self.in_windows as nat,
            cut: self.cut as nat,
            violations: self.violations as nat,
            full: self.full as nat,
            empty: self.empty as nat,
            claims: self.claims as nat,
            anchors: self.anchors as nat,
            covered: self.covered as nat,
            edge: self.edge as nat,
        }
    }
}

impl Score {
    pub open spec fn none() -> Score {
        Score {
            windows: 0,
            in_windows: 0,
            cut: 0,
            violations: 0,
            full: 0,
            empty: 0,
            claims: 0,
            anchors: 0,
            covered: 0,
            edge: 0,
        }
    }

    pub open spec fn plus(self, o: Score) -> Score {
        Score {
            windows: self.windows + o.windows,
            in_windows: self.in_windows + o.in_windows,
            cut: self.cut + o.cut,
            violations: self.violations + o.violations,
            full: self.full + o.full,
            empty: self.empty + o.empty,
            claims: self.claims + o.claims,
            anchors: self.anchors + o.anchors,
            covered: self.covered + o.covered,
            edge: self.edge + o.edge,
        }
    }
}

/// The window a run is about, as it is built today; the last, if several have
/// its range.
pub open spec fn window_of(ws: Seq<WindowView>, r: RunView) -> Option<WindowView>
    decreases ws.len(),
{
    if ws.len() == 0 {
        None
    } else if ws.last().dialog_id == r.dialog_id && ws.last().from_id == r.from_id
        && ws.last().to_id == r.to_id {
        Some(ws.last())
    } else {
        window_of(ws.drop_last(), r)
    }
}

/// How many of the ids are held by the whitelist.
pub open spec fn held_count(ids: Seq<i32>, dialog_id: i64, protected: Set<(i64, i32)>) -> nat
    decreases ids.len(),
{
    if ids.len() == 0 {
        0
    } else {
        held_count(ids.drop_last(), dialog_id, protected) + if protected.contains(
            (dialog_id, ids.last()),
        ) {
            1nat
        } else {
            0nat
        }
    }
}

/// How many of the anchors are among the ids.
pub open spec fn covered_count(anchors: Seq<i32>, ids: Seq<i32>) -> nat
    decreases anchors.len(),
{
    if anchors.len() == 0 {
        0
    } else {
        covered_count(anchors.drop_last(), ids) + if ids.contains(anchors.last()) {
            1nat
        } else {
            0nat
        }
    }
}

/// The id is no larger than any of the list.
pub open spec fn is_lowest(ids: Seq<i32>, id: i32) -> bool {
    ids.contains(id) && forall|i: int| 0 <= i < ids.len() ==> id <= #[trigger] ids[i]
}

/// The id is no smaller than any of the list.
pub open spec fn is_highest(ids: Seq<i32>, id: i32) -> bool {
    ids.contains(id) && forall|i: int| 0 <= i < ids.len() ==> #[trigger] ids[i] <= id
}

/// The first or the last message of the window is cut.
pub open spec fn hits_edge(msgs: Seq<i32>, ids: Seq<i32>) -> bool {
    exists|id: i32|
        #[trigger] ids.contains(id) && (is_lowest(msgs, id) || is_highest(msgs, id))
}

/// One or nothing.
pub open spec fn one_if(b: bool) -> nat {
    if b {
        1
    } else {
        0
    }
}

/// What one run adds to its totals.
pub open spec fn score_of(
    r: RunView,
    ws: Seq<WindowView>,
    protected: Set<(i64, i32)>,
) -> Score {
    let ids = cut_of(r.msgs, r.deleted);
    let w = window_of(ws, r);
    Score {
        windows: 1,
        in_windows: match w {
            Some(w) => w.total as nat,
            None => 0,
        },
        cut: ids.len(),
        violations: held_count(ids, r.dialog_id, protected),
        // More than nine tenths of the window.
        full: one_if(
            w is Some && ids.len() * 10 > 9 * (if (w->0).total > 1 {
                (w->0).total as int
            } else {
                1
            }),
        ),
        empty: one_if(r.deleted.len() == 0),
        claims: r.protected_claims as nat,
        anchors: match w {
            Some(w) => w.anchors.len(),
            None => 0,
        },
        covered: match w {
            Some(w) => covered_count(w.anchors, ids),
            None => 0,
        },
        edge: one_if(hits_edge(r.msgs, ids)),
    }
}

/// The totals of all runs of one name.
pub open spec fn totals(
    runs: Seq<RunView>,
    key: Seq<char>,
    ws: Seq<WindowView>,
    protected: Set<(i64, i32)>,
) -> Score
    decreases runs.len(),
{
    if runs.len() == 0 {
        Score::none()
    } else {
        let init = totals(runs.drop_last(), key, ws, protected);
        if runs.last().key == key {
            init.plus(score_of(runs.last(), ws, protected))
        } else {
            init
        }
    }
}

fn find_window<'a>(windows: &'a Vec<Window>, r: &Run) -> (w: Option<&'a Window>)
    ensures
        match w {
            Some(w) => window_of(window_views(windows@), r@) == Some(w@),
            None => window_of(window_views(windows@), r@) is None,
        },
{
    let ghost all = window_views(windows@);
    let mut i: usize = windows.len();
    assert(all.take(i as int) =~= all);
    while i > 0
        invariant
            i <= windows@.len(),
            all == window_views(windows@),
            window_of(all, r@) == window_of(all.take(i as int), r@),
        decreases i,
    {
        let w: &Window = &windows[i - 1];
        assert(all.take(i as int).last() == w@);
        assert(all.take(i as int).drop_last() =~= all.take(i - 1));
        if w.dialog_id == r.dialog_id && w.from_id == r.from_id && w.to_id == r.to_id {
            return Some(w);
        }
        i -= 1;
    }
    None
}

fn has_id(ids: &Vec<i32>, id: i32) -> (r: bool)
    ensures
        r == ids@.contains(id),
{
    let mut i: usize = 0;
    while i < ids.len()
        invariant
            i <= ids@.len(),
            forall|k: int| 0 <= k < i ==> #[trigger] ids@[k] != id,
        decreases ids@.len() - i,
    {
        if ids[i] == id {
            return true;
        }
        i += 1;
    }
    false
}

fn touches_edge(msgs: &Vec<i32>, ids: &Vec<i32>) -> (r: bool)
    requires
        forall|i: int| 0 <= i < ids@.len() ==> msgs@.contains(#[trigger] ids@[i]),
    ensures
        r == hits_edge(msgs@, ids@),
{
    if msgs.len() == 0 {
        return false;
    }
    let mut lo: i32 = msgs[0];
    let mut hi: i32 = msgs[0];
    let mut i: usize = 1;
    assert(msgs@[0] == lo);
    while i < msgs.len()
        invariant
            1 <= i <= msgs@.len(),
            msgs@.contains(lo),
            msgs@.contains(hi),
            forall|k: int| 0 <= k < i ==> lo <= #[trigger] msgs@[k] <= hi,
        decreases msgs@.len() - i,
    {
        let id: i32 = msgs[i];
        assert(msgs@[i as int] == id);
        if id < lo {
            lo = id;
        }
        if id > hi {
            hi = id;
        }
        i += 1;
    }
    let low: bool = has_id(ids, lo);
    let high: bool = has_id(ids, hi);
    proof {
        assert(is_lowest(msgs@, lo));
        assert(is_highest(msgs@, hi));
        if hits_edge(msgs@, ids@) {
            let id = choose|id: i32|
                #[trigger] ids@.contains(id) && (is_lowest(msgs@, id) || is_highest(msgs@, id));
            let a = choose|a: int| 0 <= a < msgs@.len() && msgs@[a] == lo;
            let b = choose|b: int| 0 <= b < msgs@.len() && msgs@[b] == hi;
            let c = choose|c: int| 0 <= c < msgs@.len() && msgs@[c] == id;
            assert(msgs@[a] == lo && msgs@[b] == hi && msgs@[c] == id);
        }
    }
    low || high
}

proof fn lemma_cut_inside(msgs: Seq<i32>, deleted: Seq<(i32, i32)>)
    ensures
        cut_of(msgs, deleted).len() <= msgs.len(),
        forall|i: int|
            0 <= i < cut_of(msgs, deleted).len() ==> msgs.contains(
                #[trigger] cut_of(msgs, deleted)[i],
            ),
    decreases msgs.len(),
{
    if msgs.len() > 0 {
        let rest = msgs.drop_last();
        lemma_cut_inside(rest, deleted);
        let was = cut_of(rest, deleted);
        let now = cut_of(msgs, deleted);
        assert forall|i: int| 0 <= i < now.len() implies msgs.contains(#[trigger] now[i]) by {
            if i < was.len() {
                assert(now[i] == was[i]);
                let k = choose|k: int| 0 <= k < rest.len() && rest[k] == was[i];
                assert(msgs[k] == now[i]);
            } else {
                assert(msgs[msgs.len() - 1] == now[i]);
            }
        }
    }
}

fn score(r: &Run, windows: &Vec<Window>, protected: &IdSet) -> (a: Agg)
    ensures
        a@ == score_of(r@, window_views(windows@), protected@),
        a.windows <= 1,
        a.in_windows <= usize::MAX,
        a.cut <= usize::MAX,
        a.violations <= usize::MAX,
        a.full <= 1,
        a.empty <= 1,
        a.claims <= usize::MAX,
        a.anchors <= usize::MAX,
        a.covered <= usize::MAX,
        a.edge <= 1,
{
    let ids: Vec<i32> = expand(r);
    let cut: usize = ids.len();
    proof {
        lemma_cut_inside(r.msgs@, r.deleted@);
    }
    let mut violations: usize = 0;
    let mut i: usize = 0;
    assert(ids@.take(0) =~= Seq::<i32>::empty());
    while i < ids.len()
        invariant
            violations <= i <= ids@.len(),
            violations == held_count(ids@.take(i as int), r.dialog_id, protected@),
        decreases ids@.len() - i,
    {
        assert(ids@.take(i + 1).drop_last() =~= ids@.take(i as int));
        if protected.contains(r.dialog_id, ids[i]) {
            violations += 1;
        }
        i += 1;
    }
    assert(ids@.take(i as int) =~= ids@);

    let mut in_windows: usize = 0;
    let mut full: u128 = 0;
    let mut anchors: usize = 0;
    let mut covered: usize = 0;
    if let Some(w) = find_window(windows, r) {
        in_windows = w.total;
        let size: u128 = if w.total > 1 {
            w.total as u128
        } else {
            1
        };
        if (cut as u128) * 10 > 9 * size {
            full = 1;
        }
        anchors = w.anchors.len();
        let mut k: usize = 0;
        assert(w.anchors@.take(0) =~= Seq::<i32>::empty());
        while k < w.anchors.len()
            invariant
                covered <= k <= w.anchors@.len(),
                covered == covered_count(w.anchors@.take(k as int), ids@),
            decreases w.anchors@.len() - k,
        {
            assert(w.anchors@.take(k + 1).drop_last() =~= w.anchors@.take(k as int));
            if has_id(&ids, w.anchors[k]) {
                covered += 1;
            }
            k += 1;
        }
        assert(w.anchors@.take(k as int) =~= w.anchors@);
    }
    let edge: bool = touches_edge(&r.msgs, &ids);
    Agg {
        windows: 1,
        in_windows: in_windows as u128,
        cut: cut as u128,
        violations: violations as u128,
        full,
        empty: if r.deleted.len() == 0 {
            1
        } else {
            0
        },
        claims: r.protected_claims as u128,
        anchors: anchors as u128,
        covered: covered as u128,
        edge: if edge {
            1
        } else {
            0
        },
    }
}

/// Totals that `n` runs can come to.
spec fn bounded(a: Agg, n: int) -> bool {
    let top = n * 0xffff_ffff_ffff_ffff;
    &&& a.windows <= top
    &&& a.in_windows <= top
    &&& a.cut <= top
    &&& a.violations <= top
    &&& a.full <= top
    &&& a.empty <= top
    &&& a.claims <= top
    &&& a.anchors <= top
    &&& a.covered <= top
    &&& a.edge <= top
}

/// The totals of all runs of one name.
pub fn total(runs: &Vec<Run>, key: &str, windows: &Vec<Window>, protected: &IdSet) -> (a: Agg)
    ensures
        a@ == totals(run_views(runs@), key@, window_views(windows@), protected@),
{
    let ghost all = run_views(runs@);
    let ghost ws = window_views(windows@);
    let mut a: Agg = Agg {
        windows: 0,
        in_windows: 0,
        cut: 0,
        violations: 0,
        full: 0,
        empty: 0,
        claims: 0,
        anchors: 0,
        covered: 0,
        edge: 0,
    };
    let mut i: usize = 0;
    assert(all.take(0) =~= Seq::<RunView>::empty());
    while i < runs.len()
        invariant
            i <= runs@.len(),
            all == run_views(runs@),
            ws == window_views(windows@),
            bounded(a, i as int),
            a@ == totals(all.take(i as int), key@, ws, protected@),
        decreases runs@.len() - i,
    {
        assert(all.take(i + 1).drop_last() =~= all.take(i as int));
        assert(all.take(i + 1).last() == runs@[i as int]@);
        proof {
            assert(i * 0xffff_ffff_ffff_ffff + 0xffff_ffff_ffff_ffff <= u128::MAX)
                by (nonlinear_arith)
                requires
                    i <= 0xffff_ffff_ffff_ffff,
            ;
            assert((i + 1) * 0xffff_ffff_ffff_ffff == i * 0xffff_ffff_ffff_ffff
                + 0xffff_ffff_ffff_ffff) by (nonlinear_arith);
        }
        if same(runs[i].key.as_str(), key) {
            let one: Agg = score(&runs[i], windows, protected);
            a = Agg {
                windows: a.windows + one.windows,
                in_windows: a.in_windows + one.in_windows,
                cut: a.cut + one.cut,
                violations: a.violations + one.violations,
                full: a.full + one.full,
                empty: a.empty + one.empty,
                claims: a.claims + one.claims,
                anchors: a.anchors + one.anchors,
                covered: a.covered + one.covered,
                edge: a.edge + one.edge,
            };
        }
        i += 1;
    }
    assert(all.take(i as int) =~= all);
    a
}

/// The names of the runs.
pub open spec fn keys_in(runs: Seq<RunView>) -> Set<Seq<char>>
    decreases runs.len(),
{
    if runs.len() == 0 {
        Set::empty()
    } else {
        keys_in(runs.drop_last()).insert(runs.last().key)
    }
}

/// The names of the runs, in ascending order.
pub fn run_keys(runs: &Vec<Run>) -> (r: Vec<String>)
    ensures
        views(r@) == listed(keys_in(run_views(runs@))),
        strictly_sorted(views(r@)),
{
    let ghost all = run_views(runs@);
    let mut keys: Vec<String> = Vec::new();
    let mut i: usize = 0;
    assert(all.take(0) =~= Seq::<RunView>::empty());
    assert(views(keys@).to_set() =~= Set::<Seq<char>>::empty());
    while i < runs.len()
        invariant
            i <= runs@.len(),
            all == run_views(runs@),
            strictly_sorted(views(keys@)),
            views(keys@).to_set() == keys_in(all.take(i as int)),
        decreases runs@.len() - i,
    {
        assert(all.take(i + 1).drop_last() =~= all.take(i as int));
        assert(all.take(i + 1).last() == runs@[i as int]@);
        insert_name(&mut keys, runs[i].key.as_str());
        i += 1;
    }
    proof {
        assert(all.take(i as int) =~= all);
        lemma_listed(views(keys@));
    }
    keys
}

proof fn lemma_held_count(ids: Seq<i32>, dialog_id: i64, protected: Set<(i64, i32)>)
    ensures
        held_count(ids, dialog_id, protected) <= ids.len(),
    decreases ids.len(),
{
    if ids.len() > 0 {
        lemma_held_count(ids.drop_last(), dialog_id, protected);
    }
}

proof fn lemma_covered_count(anchors: Seq<i32>, ids: Seq<i32>)
    ensures
        covered_count(anchors, ids) <= anchors.len(),
    decreases anchors.len(),
{
    if anchors.len() > 0 {
        lemma_covered_count(anchors.drop_last(), ids);
    }
}

/// What is reported as a share is one: no more anchors are covered than there
/// are, no more messages violate the whitelist than are cut, and no more
/// windows are cut whole, left empty or cut at the edge than were judged.
pub proof fn law_shares_are_parts(
    runs: Seq<RunView>,
    key: Seq<char>,
    ws: Seq<WindowView>,
    protected: Set<(i64, i32)>,
)
    ensures
        ({
            let s = totals(runs, key, ws, protected);
            &&& s.covered <= s.anchors
            &&& s.violations <= s.cut
            &&& s.full <= s.windows
            &&& s.empty <= s.windows
            &&& s.edge <= s.windows
        }),
    decreases runs.len(),
{
    if runs.len() > 0 {
        let r = runs.last();
        law_shares_are_parts(runs.drop_last(), key, ws, protected);
        let ids = cut_of(r.msgs, r.deleted);
        lemma_held_count(ids, r.dialog_id, protected);
        if let Some(w) = window_of(ws, r) {
            lemma_covered_count(w.anchors, ids);
        }
    }
}

proof fn lemma_nothing_held(ids: Seq<i32>, dialog_id: i64, protected: Set<(i64, i32)>)
    requires
        forall|i: int| 0 <= i < ids.len() ==> !protected.contains((dialog_id, #[trigger] ids[i])),
    ensures
        held_count(ids, dialog_id, protected) == 0,
    decreases ids.len(),
{
    if ids.len() > 0 {
        let init = ids.drop_last();
        assert forall|i: int| 0 <= i < init.len() implies !protected.contains(
            (dialog_id, #[trigger] init[i]),
        ) by {
            assert(init[i] == ids[i]);
        }
        lemma_nothing_held(init, dialog_id, protected);
        assert(!protected.contains((dialog_id, ids[ids.len() - 1])));
    }
}

/// With nothing on the whitelist there is nothing to violate.
pub proof fn law_no_whitelist_no_violations(
    runs: Seq<RunView>,
    key: Seq<char>,
    ws: Seq<WindowView>,
)
    ensures
        totals(runs, key, ws, Set::<(i64, i32)>::empty()).violations == 0,
    decreases runs.len(),
{
    if runs.len() > 0 {
        let r = runs.last();
        law_no_whitelist_no_violations(runs.drop_last(), key, ws);
        lemma_nothing_held(cut_of(r.msgs, r.deleted), r.dialog_id, Set::empty());
    }
}

} // verus!
