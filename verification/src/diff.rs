//! The difference between two models' runs, from the stored verdicts. Where
//! both agreed there is nothing to look at twice; worth a human are the tails.

use crate::agree::{ascending, insert_window};
use crate::clock::{stamp, stamp_of, text_or_empty, DAY_FORMAT};
use crate::idset::IdIndex;
use crate::order::{ints, lemma_order_places, order, order_of, picked, Key};
use crate::plan::{clamp, clamped, find_messages, messages_of, upright, Mark, Marked, Run};
use crate::text::{
    dec, head, head_of, insert_name, left, lemma_listed, listed, push_dec, push_left, replace_all,
    replaced, same, strictly_sorted, views,
};
use crate::triage::Range;
use vstd::prelude::*;

verus! {

// --- what one run dooms --------------------------------------------------

/// A message doomed by a run, and the reason the model gave.
#[derive(Debug)]
pub struct Doomed {
    pub dialog_id: i64,
    pub msg_id: i32,
    pub reason: String,
}

/// Messages doomed by one range.
pub open spec fn doom_range(
    marks: Map<(i64, i32), Seq<char>>,
    dialog_id: i64,
    messages: Seq<Mark>,
    span: (i32, i32),
    reason: Seq<char>,
) -> Map<(i64, i32), Seq<char>>
    decreases messages.len(),
{
    if messages.len() == 0 {
        marks
    } else {
        let init = doom_range(marks, dialog_id, messages.drop_last(), span, reason);
        let m = messages.last();
        if span.0 <= m.msg_id <= span.1 {
            init.insert((dialog_id, m.msg_id), reason)
        } else {
            init
        }
    }
}

/// Messages doomed by the ranges of a verdict; the last reason counts.
pub open spec fn doom_ranges(
    marks: Map<(i64, i32), Seq<char>>,
    run: Run,
    messages: Seq<Mark>,
    ranges: Seq<Range>,
) -> Map<(i64, i32), Seq<char>>
    decreases ranges.len(),
{
    if ranges.len() == 0 {
        marks
    } else {
        doom_range(
            doom_ranges(marks, run, messages, ranges.drop_last()),
            run.dialog_id,
            messages,
            clamped(ranges.last(), run.seen_from, run.seen_to),
            ranges.last().reason@,
        )
    }
}

/// Messages doomed by a run, with the reason the model gave.
pub open spec fn doomed_by(runs: Seq<Run>, corpus: Seq<Marked>) -> Map<(i64, i32), Seq<char>>
    decreases runs.len(),
{
    if runs.len() == 0 {
        Map::empty()
    } else {
        let init = doomed_by(runs.drop_last(), corpus);
        let run = runs.last();
        match run.verdict {
            Some(v) => doom_ranges(
                init,
                run,
                messages_of(corpus, run.dialog_id),
                v.delete_ranges@,
            ),
            None => init,
        }
    }
}

/// Doomed messages, each once.
struct Marks {
    index: IdIndex,
    rows: Vec<Doomed>,
}

impl Marks {
    spec fn wf(self) -> bool {
        &&& forall|p: (i64, i32)|
            #![trigger self.index@.contains_key(p)]
            self.index@.contains_key(p) ==> {
                &&& self.index@[p] < self.rows@.len()
                &&& self.rows@[self.index@[p] as int].dialog_id == p.0
                &&& self.rows@[self.index@[p] as int].msg_id == p.1
            }
        &&& forall|i: int|
            #![trigger self.rows@[i]]
            0 <= i < self.rows@.len() ==> self.index@.contains_key(
                (self.rows@[i].dialog_id, self.rows@[i].msg_id),
            ) && self.index@[(self.rows@[i].dialog_id, self.rows@[i].msg_id)] == i
    }

    spec fn model(self) -> Map<(i64, i32), Seq<char>> {
        Map::new(
            |p: (i64, i32)| self.index@.contains_key(p),
            |p: (i64, i32)| self.rows@[self.index@[p] as int].reason@,
        )
    }

    fn new() -> (r: Marks)
        ensures
            r.wf(),
            r.model() == Map::<(i64, i32), Seq<char>>::empty(),
    {
        let r: Marks = Marks { index: IdIndex::new(), rows: Vec::new() };
        assert(r.model() =~= Map::<(i64, i32), Seq<char>>::empty());
        r
    }

    fn insert(&mut self, dialog_id: i64, msg_id: i32, reason: &str)
        requires
            old(self).wf(),
        ensures
            final(self).wf(),
            final(self).model() == old(self).model().insert((dialog_id, msg_id), reason@),
    {
        let ghost was = *self;
        let ghost key = (dialog_id, msg_id);
        let row: Doomed = Doomed { dialog_id, msg_id, reason: reason.to_owned() };
        match self.index.get(dialog_id, msg_id) {
            Some(at) => {
                assert(was.index@.contains_key(key));
                self.rows.set(at, row);
                proof {
                    assert forall|p: (i64, i32)|
                        #![trigger self.index@.contains_key(p)]
                        self.index@.contains_key(p) implies {
                        &&& self.index@[p] < self.rows@.len()
                        &&& self.rows@[self.index@[p] as int].dialog_id == p.0
                        &&& self.rows@[self.index@[p] as int].msg_id == p.1
                    } by {
                        assert(was.index@.contains_key(p));
                    }
                    assert forall|i: int|
                        #![trigger self.rows@[i]]
                        0 <= i < self.rows@.len() implies self.index@.contains_key(
                        (self.rows@[i].dialog_id, self.rows@[i].msg_id),
                    ) && self.index@[(self.rows@[i].dialog_id, self.rows@[i].msg_id)] == i by {
                        assert(was.rows@[i].dialog_id == self.rows@[i].dialog_id);
                        assert(was.rows@[i].msg_id == self.rows@[i].msg_id);
                    }
                }
            },
            None => {
                let at: usize = self.rows.len();
                self.index.insert(dialog_id, msg_id, at);
                self.rows.push(row);
                proof {
                    assert forall|p: (i64, i32)|
                        #![trigger self.index@.contains_key(p)]
                        self.index@.contains_key(p) implies {
                        &&& self.index@[p] < self.rows@.len()
                        &&& self.rows@[self.index@[p] as int].dialog_id == p.0
                        &&& self.rows@[self.index@[p] as int].msg_id == p.1
                    } by {
                        if p != key {
                            assert(was.index@.contains_key(p));
                        }
                    }
                    assert forall|i: int|
                        #![trigger self.rows@[i]]
                        0 <= i < self.rows@.len() implies self.index@.contains_key(
                        (self.rows@[i].dialog_id, self.rows@[i].msg_id),
                    ) && self.index@[(self.rows@[i].dialog_id, self.rows@[i].msg_id)] == i by {
                        if i < was.rows@.len() {
                            assert(self.rows@[i] == was.rows@[i]);
                            assert(was.index@.contains_key(
                                (was.rows@[i].dialog_id, was.rows@[i].msg_id),
                            ));
                        }
                    }
                }
            },
        }
        proof {
            let goal = was.model().insert(key, reason@);
            assert forall|p: (i64, i32)|
                #![trigger self.model().contains_key(p)]
                self.model().contains_key(p) == goal.contains_key(p) && (goal.contains_key(p)
                    ==> self.model()[p] == goal[p]) by {
                if p != key && was.index@.contains_key(p) {
                    assert(was.index@[p] < was.rows@.len());
                    if was.index@.contains_key(key) {
                        assert(was.rows@[was.index@[key] as int].dialog_id == key.0);
                    }
                }
            }
            assert(self.model() =~= goal);
        }
    }
}

fn doom(runs: &Vec<Run>, corpus: &Vec<Marked>) -> (r: Marks)
    requires
        upright(runs@),
    ensures
        r.wf(),
        r.model() == doomed_by(runs@, corpus@),
{
    let mut marks: Marks = Marks::new();
    let mut i: usize = 0;
    assert(runs@.take(0) =~= Seq::<Run>::empty());
    while i < runs.len()
        invariant
            i <= runs@.len(),
            upright(runs@),
            marks.wf(),
            marks.model() == doomed_by(runs@.take(i as int), corpus@),
        decreases runs@.len() - i,
    {
        let run: &Run = &runs[i];
        assert(runs@.take(i + 1).drop_last() =~= runs@.take(i as int));
        assert(runs@.take(i + 1).last() == *run);
        if let Some(v) = &run.verdict {
            let ghost base = marks.model();
            let none: Vec<Mark> = Vec::new();
            let messages: &Vec<Mark> = match find_messages(corpus, run.dialog_id) {
                Some(m) => m,
                None => &none,
            };
            assert(messages@ =~= messages_of(corpus@, run.dialog_id));
            let ghost all = v.delete_ranges@;
            let mut g: usize = 0;
            assert(all.take(0) =~= Seq::<Range>::empty());
            while g < v.delete_ranges.len()
                invariant
                    g <= all.len(),
                    all == v.delete_ranges@,
                    run.seen_from <= run.seen_to,
                    marks.wf(),
                    marks.model() == doom_ranges(base, *run, messages@, all.take(g as int)),
                decreases all.len() - g,
            {
                let range: &Range = &v.delete_ranges[g];
                assert(all.take(g + 1).drop_last() =~= all.take(g as int));
                assert(all.take(g + 1).last() == *range);
                let span: (i32, i32) = clamp(range, run.seen_from, run.seen_to);
                let ghost start = marks.model();
                let mut k: usize = 0;
                assert(messages@.take(0) =~= Seq::<Mark>::empty());
                while k < messages.len()
                    invariant
                        k <= messages@.len(),
                        marks.wf(),
                        marks.model() == doom_range(
                            start,
                            run.dialog_id,
                            messages@.take(k as int),
                            span,
                            range.reason@,
                        ),
                    decreases messages@.len() - k,
                {
                    assert(messages@.take(k + 1).drop_last() =~= messages@.take(k as int));
                    let id: i32 = messages[k].msg_id;
                    if span.0 <= id && id <= span.1 {
                        marks.insert(run.dialog_id, id, range.reason.as_str());
                    }
                    k += 1;
                }
                assert(messages@.take(k as int) =~= messages@);
                g += 1;
            }
            assert(all.take(g as int) =~= all);
        }
        i += 1;
    }
    assert(runs@.take(i as int) =~= runs@);
    marks
}

// --- the comparison ------------------------------------------------------

/// The windows a model saw.
pub open spec fn windows_of(runs: Seq<Run>) -> Set<(i64, i32, i32)>
    decreases runs.len(),
{
    if runs.len() == 0 {
        Set::empty()
    } else {
        let r = runs.last();
        windows_of(runs.drop_last()).insert((r.dialog_id, r.from_id, r.to_id))
    }
}

/// The message lies in one of the windows.
pub open spec fn lies_in(windows: Set<(i64, i32, i32)>, p: (i64, i32)) -> bool {
    exists|w: (i64, i32, i32)|
        #[trigger] windows.contains(w) && w.0 == p.0 && w.1 <= p.1 <= w.2
}

/// The windows both models saw: a fair comparison is only possible on these.
pub open spec fn common_windows(a: Seq<Run>, b: Seq<Run>) -> Set<(i64, i32, i32)> {
    windows_of(a).intersect(windows_of(b))
}

/// Messages of the common windows that the first doomed, and that the second
/// did or did not doom too.
pub open spec fn share_of(
    first: Map<(i64, i32), Seq<char>>,
    second: Map<(i64, i32), Seq<char>>,
    common: Set<(i64, i32, i32)>,
    in_second: bool,
) -> Set<(i64, i32)> {
    Set::new(
        |p: (i64, i32)|
            first.contains_key(p) && lies_in(common, p) && second.contains_key(p) == in_second,
    )
}

/// Why there is no comparison.
#[derive(Debug)]
pub enum DiffError {
    /// One of the models doomed nothing: it was not run.
    NoRuns,
}

/// How two models differ.
#[derive(Debug)]
pub struct Difference {
    /// Windows both saw.
    pub common: usize,
    /// Messages both doomed.
    pub both: usize,
    /// Messages only the first doomed.
    pub only_base: usize,
    /// Messages only the second doomed, with its reasons.
    pub tail: Vec<Doomed>,
}

/// The ids of doomed messages.
pub open spec fn ids_of(v: Seq<Doomed>) -> Seq<(i64, i32)> {
    Seq::new(v.len(), |i: int| (v[i].dialog_id, v[i].msg_id))
}

fn saw(runs: &Vec<Run>, w: (i64, i32, i32)) -> (r: bool)
    ensures
        r == windows_of(runs@).contains(w),
{
    let mut i: usize = 0;
    assert(runs@.take(0) =~= Seq::<Run>::empty());
    let mut found: bool = false;
    while i < runs.len()
        invariant
            i <= runs@.len(),
            found == windows_of(runs@.take(i as int)).contains(w),
        decreases runs@.len() - i,
    {
        assert(runs@.take(i + 1).drop_last() =~= runs@.take(i as int));
        if runs[i].dialog_id == w.0 && runs[i].from_id == w.1 && runs[i].to_id == w.2 {
            found = true;
        }
        i += 1;
    }
    assert(runs@.take(i as int) =~= runs@);
    found
}

fn common(a: &Vec<Run>, b: &Vec<Run>) -> (r: Vec<(i64, i32, i32)>)
    ensures
        ascending(r@),
        r@.to_set() == common_windows(a@, b@),
{
    let mut out: Vec<(i64, i32, i32)> = Vec::new();
    let mut i: usize = 0;
    assert(a@.take(0) =~= Seq::<Run>::empty());
    assert(out@.to_set() =~= common_windows(a@.take(0), b@));
    while i < a.len()
        invariant
            i <= a@.len(),
            ascending(out@),
            out@.to_set() == common_windows(a@.take(i as int), b@),
        decreases a@.len() - i,
    {
        assert(a@.take(i + 1).drop_last() =~= a@.take(i as int));
        let w: (i64, i32, i32) = (a[i].dialog_id, a[i].from_id, a[i].to_id);
        if saw(b, w) {
            insert_window(&mut out, w);
        }
        i += 1;
        assert(out@.to_set() =~= common_windows(a@.take(i as int), b@));
    }
    assert(a@.take(i as int) =~= a@);
    out
}

fn is_in(windows: &Vec<(i64, i32, i32)>, dialog_id: i64, msg_id: i32) -> (r: bool)
    ensures
        r == lies_in(windows@.to_set(), (dialog_id, msg_id)),
{
    let mut i: usize = 0;
    while i < windows.len()
        invariant
            i <= windows@.len(),
            forall|k: int|
                0 <= k < i ==> !((#[trigger] windows@[k]).0 == dialog_id && windows@[k].1 <= msg_id
                    <= windows@[k].2),
        decreases windows@.len() - i,
    {
        let w: (i64, i32, i32) = windows[i];
        if w.0 == dialog_id && w.1 <= msg_id && msg_id <= w.2 {
            assert(windows@.to_set().contains(windows@[i as int]));
            return true;
        }
        i += 1;
    }
    proof {
        if lies_in(windows@.to_set(), (dialog_id, msg_id)) {
            let w = choose|w: (i64, i32, i32)|
                #[trigger] windows@.to_set().contains(w) && w.0 == dialog_id && w.1 <= msg_id
                    <= w.2;
            let k = choose|k: int| 0 <= k < windows@.len() && windows@[k] == w;
            assert(windows@[k] == w);
        }
    }
    false
}

/// The rows that lie in the windows and that the other run did or did not
/// doom too.
fn pick(
    marks: &Marks,
    other: &Marks,
    windows: &Vec<(i64, i32, i32)>,
    in_other: bool,
) -> (r: Vec<Doomed>)
    requires
        marks.wf(),
        other.wf(),
    ensures
        ids_of(r@).no_duplicates(),
        ids_of(r@).to_set() == share_of(
            marks.model(),
            other.model(),
            windows@.to_set(),
            in_other,
        ),
        forall|i: int|
            0 <= i < r@.len() ==> (#[trigger] r@[i]).reason@ == marks.model()[(
                r@[i].dialog_id,
                r@[i].msg_id,
            )],
{
    let ghost goal = share_of(marks.model(), other.model(), windows@.to_set(), in_other);
    let ghost all = ids_of(marks.rows@);
    let mut out: Vec<Doomed> = Vec::new();
    let mut i: usize = 0;
    while i < marks.rows.len()
        invariant
            i <= marks.rows@.len(),
            marks.wf(),
            other.wf(),
            goal == share_of(marks.model(), other.model(), windows@.to_set(), in_other),
            all == ids_of(marks.rows@),
            ids_of(out@).no_duplicates(),
            forall|k: int|
                0 <= k < out@.len() ==> goal.contains(#[trigger] ids_of(out@)[k]) && exists|m: int|
                    0 <= m < i && #[trigger] all[m] == ids_of(out@)[k],
            forall|m: int|
                0 <= m < i && goal.contains(#[trigger] all[m]) ==> ids_of(out@).contains(all[m]),
            forall|k: int|
                0 <= k < out@.len() ==> (#[trigger] out@[k]).reason@ == marks.model()[(
                    out@[k].dialog_id,
                    out@[k].msg_id,
                )],
        decreases marks.rows@.len() - i,
    {
        let row: &Doomed = &marks.rows[i];
        let ghost key = (row.dialog_id, row.msg_id);
        let ghost was = ids_of(out@);
        proof {
            assert(marks.rows@[i as int] == *row);
            assert(all[i as int] == key);
            assert(marks.index@.contains_key(key) && marks.index@[key] == i);
            assert(marks.model().contains_key(key));
        }
        let known: bool = other.index.get(row.dialog_id, row.msg_id).is_some();
        assert(known == other.model().contains_key(key));
        if is_in(windows, row.dialog_id, row.msg_id) && known == in_other {
            let one: Doomed = Doomed {
                dialog_id: row.dialog_id,
                msg_id: row.msg_id,
                reason: row.reason.clone(),
            };
            out.push(one);
            proof {
                let now = ids_of(out@);
                assert(now =~= was.push(key));
                assert(goal.contains(key));
                assert forall|a: int, b: int|
                    0 <= a < now.len() && 0 <= b < now.len() && a != b implies now[a] != now[b] by {
                    if a < was.len() && b < was.len() {
                        assert(was[a] != was[b]);
                    } else {
                        let c = if a < was.len() {
                            a
                        } else {
                            b
                        };
                        assert(goal.contains(was[c]));
                        let m = choose|m: int| 0 <= m < i && #[trigger] all[m] == was[c];
                        assert(marks.rows@[m].dialog_id == all[m].0);
                        assert(marks.index@[all[m]] == m);
                    }
                }
                assert forall|k: int| 0 <= k < out@.len() implies goal.contains(
                    #[trigger] ids_of(out@)[k],
                ) && exists|m: int| 0 <= m < i + 1 && #[trigger] all[m] == ids_of(out@)[k] by {
                    if k < was.len() {
                        assert(goal.contains(was[k]));
                        let m = choose|m: int| 0 <= m < i && #[trigger] all[m] == was[k];
                        assert(all[m] == now[k]);
                    } else {
                        assert(all[i as int] == now[k]);
                    }
                }
                assert forall|m: int|
                    0 <= m < i + 1 && goal.contains(#[trigger] all[m]) implies ids_of(
                    out@,
                ).contains(all[m]) by {
                    if m < i {
                        let k = choose|k: int| 0 <= k < was.len() && was[k] == all[m];
                        assert(now[k] == all[m]);
                    } else {
                        assert(now[was.len() as int] == all[m]);
                    }
                }
            }
        } else {
            assert(!goal.contains(key));
        }
        i += 1;
    }
    proof {
        let now = ids_of(out@);
        assert forall|p: (i64, i32)| now.to_set().contains(p) <==> #[trigger] goal.contains(p) by {
            if goal.contains(p) {
                assert(marks.index@.contains_key(p));
                let m = marks.index@[p] as int;
                assert(marks.rows@[m].dialog_id == p.0);
                assert(all[m] == p);
                assert(now.contains(all[m]));
            }
            if now.contains(p) {
                let k = choose|k: int| 0 <= k < now.len() && now[k] == p;
                assert(goal.contains(now[k]));
            }
        }
        assert(now.to_set() =~= goal);
    }
    out
}

/// How the runs of two models differ.
pub fn compare(
    base: &Vec<Run>,
    against: &Vec<Run>,
    corpus: &Vec<Marked>,
) -> (r: Result<Difference, DiffError>)
    requires
        upright(base@),
        upright(against@),
    ensures
        ({
            let a = doomed_by(base@, corpus@);
            let b = doomed_by(against@, corpus@);
            let shared = common_windows(base@, against@);
            match r {
                Ok(d) => {
                    &&& a.dom() != Set::<(i64, i32)>::empty()
                    &&& b.dom() != Set::<(i64, i32)>::empty()
                    &&& d.common == shared.len()
                    &&& d.both == share_of(a, b, shared, true).len()
                    &&& d.only_base == share_of(a, b, shared, false).len()
                    &&& ids_of(d.tail@).no_duplicates()
                    &&& ids_of(d.tail@).to_set() == share_of(b, a, shared, false)
                    &&& forall|i: int|
                        0 <= i < d.tail@.len() ==> (#[trigger] d.tail@[i]).reason@ == b[(
                            d.tail@[i].dialog_id,
                            d.tail@[i].msg_id,
                        )]
                },
                Err(DiffError::NoRuns) => a.dom() == Set::<(i64, i32)>::empty() || b.dom()
                    == Set::<(i64, i32)>::empty(),
            }
        }),
{
    let a: Marks = doom(base, corpus);
    let b: Marks = doom(against, corpus);
    proof {
        lemma_rows_tell(a);
        lemma_rows_tell(b);
    }
    if a.rows.len() == 0 || b.rows.len() == 0 {
        return Err(DiffError::NoRuns);
    }
    let windows: Vec<(i64, i32, i32)> = common(base, against);
    let both: Vec<Doomed> = pick(&a, &b, &windows, true);
    let only_base: Vec<Doomed> = pick(&a, &b, &windows, false);
    let tail: Vec<Doomed> = pick(&b, &a, &windows, false);
    proof {
        assert(windows@.no_duplicates()) by {
            assert forall|i: int, j: int|
                0 <= i < windows@.len() && 0 <= j < windows@.len() && i != j implies windows@[i]
                != windows@[j] by {
                if i < j {
                    assert(crate::agree::window_lt(windows@[i], windows@[j]));
                } else {
                    assert(crate::agree::window_lt(windows@[j], windows@[i]));
                }
            }
        }
        windows@.unique_seq_to_set();
        ids_of(both@).unique_seq_to_set();
        ids_of(only_base@).unique_seq_to_set();
    }
    Ok(
        Difference {
            common: windows.len(),
            both: both.len(),
            only_base: only_base.len(),
            tail,
        },
    )
}

proof fn lemma_rows_tell(m: Marks)
    requires
        m.wf(),
    ensures
        m.rows@.len() == 0 <==> m.model().dom() == Set::<(i64, i32)>::empty(),
{
    if m.rows@.len() == 0 {
        assert forall|p: (i64, i32)| !#[trigger] m.model().dom().contains(p) by {
            if m.index@.contains_key(p) {
                assert(m.index@[p] < m.rows@.len());
            }
        }
        assert(m.model().dom() =~= Set::<(i64, i32)>::empty());
    } else {
        let r = m.rows@[0];
        assert(m.index@.contains_key((r.dialog_id, r.msg_id)));
        assert(m.model().dom().contains((r.dialog_id, r.msg_id)));
    }
}

// --- the tail, by reason -------------------------------------------------

/// The order of messages: by dialog, then by id.
pub open spec fn pair_lt(a: (i64, i32), b: (i64, i32)) -> bool {
    a.0 < b.0 || (a.0 == b.0 && a.1 < b.1)
}

/// In ascending order, each once.
pub open spec fn pairs_ascend(v: Seq<(i64, i32)>) -> bool {
    forall|i: int, j: int| 0 <= i < j < v.len() ==> pair_lt(#[trigger] v[i], #[trigger] v[j])
}

/// The messages of a set in ascending order.
pub open spec fn pairs_listed(ids: Set<(i64, i32)>) -> Seq<(i64, i32)> {
    choose|s: Seq<(i64, i32)>| pairs_ascend(s) && #[trigger] s.to_set() == ids
}

/// There is but one way to put a set of messages in ascending order.
pub proof fn lemma_pairs_listed(s: Seq<(i64, i32)>)
    requires
        pairs_ascend(s),
    ensures
        pairs_listed(s.to_set()) == s,
{
    lemma_pairs_unique(pairs_listed(s.to_set()), s);
}

proof fn lemma_pairs_unique(a: Seq<(i64, i32)>, b: Seq<(i64, i32)>)
    requires
        pairs_ascend(a),
        pairs_ascend(b),
        a.to_set() == b.to_set(),
    ensures
        a == b,
    decreases a.len(),
{
    if a.len() == 0 || b.len() == 0 {
        if b.len() > 0 {
            assert(b.to_set().contains(b[0]));
            assert(a.contains(b[0]));
        }
        if a.len() > 0 {
            assert(a.to_set().contains(a[0]));
            assert(b.contains(a[0]));
        }
        assert(a =~= b);
    } else {
        let x = a.last();
        let y = b.last();
        assert(a.to_set().contains(x));
        assert(b.to_set().contains(y));
        let i = choose|i: int| 0 <= i < b.len() && b[i] == x;
        let j = choose|j: int| 0 <= j < a.len() && a[j] == y;
        assert(x == y) by {
            if i < b.len() - 1 {
                assert(pair_lt(b[i], b[b.len() - 1]));
            }
            if j < a.len() - 1 {
                assert(pair_lt(a[j], a[a.len() - 1]));
            }
        }
        let a1 = a.drop_last();
        let b1 = b.drop_last();
        assert forall|z: (i64, i32)| a1.to_set().contains(z) <==> #[trigger] b1.to_set().contains(
            z,
        ) by {
            if a1.to_set().contains(z) {
                let k = choose|k: int| 0 <= k < a1.len() && a1[k] == z;
                assert(a[k] == z && pair_lt(a[k], a[a.len() - 1]));
                assert(a.to_set().contains(z));
                let m = choose|m: int| 0 <= m < b.len() && b[m] == z;
                assert(b1[m] == z);
            }
            if b1.to_set().contains(z) {
                let k = choose|k: int| 0 <= k < b1.len() && b1[k] == z;
                assert(b[k] == z && pair_lt(b[k], b[b.len() - 1]));
                assert(b.to_set().contains(z));
                let m = choose|m: int| 0 <= m < a.len() && a[m] == z;
                assert(a1[m] == z);
            }
        }
        assert(a1.to_set() =~= b1.to_set());
        lemma_pairs_unique(a1, b1);
        assert(a =~= a1.push(x));
        assert(b =~= b1.push(y));
    }
}

fn insert_pair(v: &mut Vec<(i64, i32)>, p: (i64, i32))
    requires
        pairs_ascend(old(v)@),
    ensures
        pairs_ascend(final(v)@),
        final(v)@.to_set() == old(v)@.to_set().insert(p),
{
    let ghost was = v@;
    let mut i: usize = v.len();
    while i > 0 && (p.0 < v[i - 1].0 || (p.0 == v[i - 1].0 && p.1 < v[i - 1].1))
        invariant
            i <= v@.len(),
            v@ == was,
            pairs_ascend(was),
            forall|k: int| i <= k < was.len() ==> pair_lt(p, #[trigger] was[k]),
        decreases i,
    {
        i -= 1;
    }
    if i > 0 && v[i - 1].0 == p.0 && v[i - 1].1 == p.1 {
        assert(was[i - 1] == p);
        assert(was.to_set().contains(p));
        assert(was.to_set().insert(p) =~= was.to_set());
        return ;
    }
    proof {
        assert forall|k: int| 0 <= k < i implies pair_lt(#[trigger] was[k], p) by {
            if k < i - 1 {
                assert(pair_lt(was[k], was[i - 1]));
            }
        }
    }
    v.insert(i, p);
    proof {
        let now = v@;
        assert(now =~= was.insert(i as int, p));
        assert forall|x: (i64, i32)| now.to_set().contains(x) <==> #[trigger] was.to_set().insert(
            p,
        ).contains(x) by {
            if now.to_set().contains(x) {
                let k = choose|k: int| 0 <= k < now.len() && now[k] == x;
                if k < i {
                    assert(was[k] == x);
                } else if k > i {
                    assert(was[k - 1] == x);
                }
            }
            if was.to_set().contains(x) {
                let k = choose|k: int| 0 <= k < was.len() && was[k] == x;
                if k < i {
                    assert(now[k] == x);
                } else {
                    assert(now[k + 1] == x);
                }
            }
            assert(now[i as int] == p);
        }
        assert(now.to_set() =~= was.to_set().insert(p));
    }
}

/// Messages doomed for one reason.
#[derive(Debug)]
pub struct Group {
    pub reason: String,
    /// In ascending order.
    pub ids: Vec<(i64, i32)>,
}

/// A group as plain values.
#[verifier::ext_equal]
pub struct GroupView {
    pub reason: Seq<char>,
    pub ids: Seq<(i64, i32)>,
}

impl View for Group {
    type V = GroupView;

    open spec fn view(&self) -> GroupView {
        GroupView { reason: self.reason@, ids: self.ids@ }
    }
}

pub open spec fn group_views(v: Seq<Group>) -> Seq<GroupView> {
    Seq::new(v.len(), |i: int| v[i]@)
}

/// The reasons given.
pub open spec fn reasons_in(tail: Seq<Doomed>) -> Set<Seq<char>>
    decreases tail.len(),
{
    if tail.len() == 0 {
        Set::empty()
    } else {
        reasons_in(tail.drop_last()).insert(tail.last().reason@)
    }
}

/// The messages doomed for a reason.
pub open spec fn ids_with(tail: Seq<Doomed>, reason: Seq<char>) -> Set<(i64, i32)>
    decreases tail.len(),
{
    if tail.len() == 0 {
        Set::empty()
    } else if tail.last().reason@ == reason {
        ids_with(tail.drop_last(), reason).insert((tail.last().dialog_id, tail.last().msg_id))
    } else {
        ids_with(tail.drop_last(), reason)
    }
}

/// The tail by reason: a tail of a hundred messages is usually five calls.
pub open spec fn by_reason(tail: Seq<Doomed>) -> Seq<GroupView> {
    let names = listed(reasons_in(tail));
    Seq::new(
        names.len(),
        |i: int| GroupView { reason: names[i], ids: pairs_listed(ids_with(tail, names[i])) },
    )
}

/// The largest group first.
pub open spec fn size_keys(gs: Seq<GroupView>) -> Seq<Key> {
    Seq::new(gs.len(), |i: int| Key((-(gs[i].ids.len() as int)) as i128, 0, 0, 0))
}

/// The first `show` groups of the tail, the largest first.
pub open spec fn top_groups(tail: Seq<Doomed>, show: usize) -> Seq<GroupView> {
    let gs = by_reason(tail);
    let sorted = picked(gs, order_of(size_keys(gs)));
    if show < sorted.len() {
        sorted.take(show as int)
    } else {
        sorted
    }
}

fn reasons(tail: &Vec<Doomed>) -> (r: Vec<String>)
    ensures
        views(r@) == listed(reasons_in(tail@)),
{
    let mut names: Vec<String> = Vec::new();
    let mut i: usize = 0;
    assert(tail@.take(0) =~= Seq::<Doomed>::empty());
    assert(views(names@).to_set() =~= Set::<Seq<char>>::empty());
    while i < tail.len()
        invariant
            i <= tail@.len(),
            strictly_sorted(views(names@)),
            views(names@).to_set() == reasons_in(tail@.take(i as int)),
        decreases tail@.len() - i,
    {
        assert(tail@.take(i + 1).drop_last() =~= tail@.take(i as int));
        insert_name(&mut names, tail[i].reason.as_str());
        i += 1;
    }
    proof {
        assert(tail@.take(i as int) =~= tail@);
        lemma_listed(views(names@));
    }
    names
}

fn members(tail: &Vec<Doomed>, reason: &str) -> (r: Vec<(i64, i32)>)
    ensures
        r@ == pairs_listed(ids_with(tail@, reason@)),
{
    let mut ids: Vec<(i64, i32)> = Vec::new();
    let mut i: usize = 0;
    assert(tail@.take(0) =~= Seq::<Doomed>::empty());
    assert(ids@.to_set() =~= Set::<(i64, i32)>::empty());
    while i < tail.len()
        invariant
            i <= tail@.len(),
            pairs_ascend(ids@),
            ids@.to_set() == ids_with(tail@.take(i as int), reason@),
        decreases tail@.len() - i,
    {
        assert(tail@.take(i + 1).drop_last() =~= tail@.take(i as int));
        if same(tail[i].reason.as_str(), reason) {
            insert_pair(&mut ids, (tail[i].dialog_id, tail[i].msg_id));
        }
        i += 1;
    }
    proof {
        assert(tail@.take(i as int) =~= tail@);
        lemma_pairs_listed(ids@);
    }
    ids
}

fn copy_pairs(v: &Vec<(i64, i32)>) -> (r: Vec<(i64, i32)>)
    ensures
        r@ == v@,
{
    let mut out: Vec<(i64, i32)> = Vec::new();
    let mut i: usize = 0;
    while i < v.len()
        invariant
            i <= v@.len(),
            out@ == v@.take(i as int),
        decreases v@.len() - i,
    {
        out.push(v[i]);
        i += 1;
        assert(out@ =~= v@.take(i as int));
    }
    assert(v@.take(i as int) =~= v@);
    out
}

/// The tail by reason, the largest group first, the first `show` of them.
pub fn groups(tail: &Vec<Doomed>, show: usize) -> (r: Vec<Group>)
    ensures
        group_views(r@) == top_groups(tail@, show),
{
    let names: Vec<String> = reasons(tail);
    let ghost all = by_reason(tail@);
    let mut gs: Vec<Group> = Vec::new();
    let mut keys: Vec<Key> = Vec::new();
    let mut i: usize = 0;
    while i < names.len()
        invariant
            i <= names@.len(),
            views(names@) == listed(reasons_in(tail@)),
            all == by_reason(tail@),
            all.len() == names@.len(),
            group_views(gs@) == all.take(i as int),
            keys@ == size_keys(all).take(i as int),
        decreases names@.len() - i,
    {
        assert(views(names@)[i as int] == names@[i as int]@);
        let ids: Vec<(i64, i32)> = members(tail, names[i].as_str());
        let size: usize = ids.len();
        let g: Group = Group { reason: names[i].clone(), ids };
        let ghost was = group_views(gs@);
        assert(g@ == all[i as int]);
        keys.push(Key(-(size as i128), 0, 0, 0));
        gs.push(g);
        assert(group_views(gs@) =~= was.push(g@));
        i += 1;
        assert(group_views(gs@) =~= all.take(i as int));
        assert(keys@ =~= size_keys(all).take(i as int));
    }
    assert(group_views(gs@) =~= all);
    assert(keys@ =~= size_keys(all));
    let places: Vec<usize> = order(&keys);
    proof {
        lemma_order_places(keys@, ints(places@));
    }
    let ghost sorted = picked(all, order_of(size_keys(all)));
    let n: usize = if show < places.len() {
        show
    } else {
        places.len()
    };
    let mut out: Vec<Group> = Vec::new();
    let mut j: usize = 0;
    while j < n
        invariant
            j <= n <= places@.len(),
            places@.len() == gs@.len(),
            group_views(gs@) == all,
            ints(places@) == order_of(size_keys(all)),
            sorted == picked(all, order_of(size_keys(all))),
            sorted.len() == places@.len(),
            forall|k: int|
                0 <= k < ints(places@).len() ==> 0 <= #[trigger] ints(places@)[k] < gs@.len(),
            group_views(out@) == sorted.take(j as int),
        decreases n - j,
    {
        assert(ints(places@)[j as int] == places@[j as int]);
        let g: &Group = &gs[places[j]];
        assert(g@ == all[places@[j as int] as int]);
        let ghost was = group_views(out@);
        let one: Group = Group { reason: g.reason.clone(), ids: copy_pairs(&g.ids) };
        out.push(one);
        assert(group_views(out@) =~= was.push(one@));
        j += 1;
        assert(group_views(out@) =~= sorted.take(j as int));
    }
    assert(group_views(out@) =~= top_groups(tail@, show));
    out
}

// --- in words ------------------------------------------------------------

/// A message of the tail to be shown.
#[derive(Debug)]
pub struct Glimpse {
    pub title: String,
    pub date: i64,
    pub text: String,
}

/// How many messages of a group are shown.
pub const SHOWN_PER_GROUP: usize = 3;

/// The messages of a group to look up.
pub fn to_look_up(g: &Group) -> (r: Vec<(i64, i32)>)
    ensures
        r@ == g.ids@.take(
            if g.ids@.len() < SHOWN_PER_GROUP {
                g.ids@.len() as int
            } else {
                SHOWN_PER_GROUP as int
            },
        ),
{
    let mut out: Vec<(i64, i32)> = copy_pairs(&g.ids);
    if out.len() > SHOWN_PER_GROUP {
        out.truncate(SHOWN_PER_GROUP);
    }
    assert(out@ =~= g.ids@.take(
        if g.ids@.len() < SHOWN_PER_GROUP {
            g.ids@.len() as int
        } else {
            SHOWN_PER_GROUP as int
        },
    ));
    out
}

/// A message of a group. `day` is its day as it is to be shown.
pub open spec fn glimpse_line(s: Glimpse, day: Seq<char>) -> Seq<char> {
    "    "@ + day + " «"@ + s.title@ + "» "@ + head(replaced(s.text@, "\n"@, " "@), 100) + "\n"@
}

pub open spec fn glimpse_lines(v: Seq<Glimpse>, days: Seq<Seq<char>>) -> Seq<char>
    decreases v.len(),
{
    if v.len() == 0 {
        seq![]
    } else {
        glimpse_lines(v.drop_last(), days) + glimpse_line(v.last(), days[v.len() - 1])
    }
}

/// The days of messages, as they are shown; nothing where the calendar does
/// not reach.
pub open spec fn days_of(v: Seq<Glimpse>) -> Seq<Seq<char>> {
    Seq::new(v.len(), |i: int| text_or_empty(stamp_of(v[i].date, DAY_FORMAT@)))
}

/// A group in words, with what was found of its first messages.
pub open spec fn group_text(g: GroupView, found: Seq<Glimpse>, days: Seq<Seq<char>>) -> Seq<char> {
    "\n["@ + dec(g.ids.len()) + " msgs] "@ + g.reason + "\n"@ + glimpse_lines(found, days)
}

fn push_glimpse(out: &mut String, s: &Glimpse, day: &str)
    ensures
        final(out)@ == old(out)@ + glimpse_line(*s, day@),
{
    proof {
        reveal_strlit("\n");
    }
    let flat: String = replace_all(s.text.as_str(), "\n", " ");
    let start: String = head_of(flat.as_str(), 100);
    out.append("    ");
    out.append(day);
    out.append(" «");
    out.append(s.title.as_str());
    out.append("» ");
    out.append(start.as_str());
    out.append("\n");
    assert(out@ =~= old(out)@ + glimpse_line(*s, day@));
}

fn days_for(v: &Vec<Glimpse>) -> (r: Vec<String>)
    ensures
        views(r@) == days_of(v@),
{
    let mut out: Vec<String> = Vec::new();
    let mut i: usize = 0;
    while i < v.len()
        invariant
            i <= v@.len(),
            out@.len() == i,
            forall|k: int| 0 <= k < i ==> (#[trigger] out@[k])@ == days_of(v@)[k],
        decreases v@.len() - i,
    {
        let day: String = match stamp(v[i].date, DAY_FORMAT) {
            Some(day) => day,
            None => String::new(),
        };
        assert(day@ =~= days_of(v@)[i as int]);
        out.push(day);
        i += 1;
    }
    assert(views(out@) =~= days_of(v@));
    out
}

/// A group in words, with what was found of its first messages and their days.
pub fn group_dated(g: &Group, found: &Vec<Glimpse>, days: &Vec<String>) -> (r: String)
    requires
        days@.len() == found@.len(),
    ensures
        r@ == group_text(g@, found@, views(days@)),
{
    let ghost shown = views(days@);
    let mut out: String = "\n[".to_owned();
    push_dec(&mut out, g.ids.len() as u128);
    out.append(" msgs] ");
    out.append(g.reason.as_str());
    out.append("\n");
    let ghost head = out@;
    let mut i: usize = 0;
    assert(found@.take(0) =~= Seq::<Glimpse>::empty());
    assert(out@ =~= head + glimpse_lines(found@.take(0), shown));
    while i < found.len()
        invariant
            i <= found@.len(),
            days@.len() == found@.len(),
            shown == views(days@),
            out@ == head + glimpse_lines(found@.take(i as int), shown),
        decreases found@.len() - i,
    {
        assert(found@.take(i + 1).drop_last() =~= found@.take(i as int));
        push_glimpse(&mut out, &found[i], days[i].as_str());
        i += 1;
        assert(out@ =~= head + glimpse_lines(found@.take(i as int), shown));
    }
    assert(found@.take(i as int) =~= found@);
    out
}

/// A group in words, with what was found of its first messages.
pub fn group_words(g: &Group, found: &Vec<Glimpse>) -> (r: String)
    ensures
        r@ == group_text(g@, found@, days_of(found@)),
{
    let days: Vec<String> = days_for(found);
    assert(views(days@).len() == days@.len());
    group_dated(g, found, &days)
}

/// The difference in words. `share` is the undisputed share in percent, as it
/// is to be shown; `dump` is the tail in words.
pub open spec fn report_of(
    d: Difference,
    base: Seq<char>,
    against: Seq<char>,
    share: Seq<char>,
    show: usize,
    dump: Seq<char>,
) -> Seq<char> {
    "windows in common: "@ + dec(d.common as nat) + "\n\nagreed (both assigned)  : "@ + dec(
        d.both as nat,
    ) + "\nonly "@ + left(base, 24) + " : "@ + dec(d.only_base as nat) + "\nonly "@ + left(
        against,
        24,
    ) + " : "@ + dec(d.tail@.len()) + "\n"@ + (if d.both + d.only_base + d.tail@.len() > 0 {
        "\nundisputed share: "@ + share + "% — deletable without a second look\n"@
    } else {
        seq![]
    }) + (if show > 0 {
        "\n=== assigned only by "@ + against + " ("@ + dec(d.tail@.len())
            + " messages) ===\neither its false positives or a seam "@ + base + " misses\n"@ + dump
    } else {
        seq![]
    })
}

/// The difference in words.
pub fn report(
    d: &Difference,
    base: &str,
    against: &str,
    share: &str,
    show: usize,
    dump: &str,
) -> (r: String)
    ensures
        r@ == report_of(*d, base@, against@, share@, show, dump@),
{
    let tail: usize = d.tail.len();
    let mut out: String = "windows in common: ".to_owned();
    push_dec(&mut out, d.common as u128);
    out.append("\n\nagreed (both assigned)  : ");
    push_dec(&mut out, d.both as u128);
    out.append("\nonly ");
    push_left(&mut out, base, 24);
    out.append(" : ");
    push_dec(&mut out, d.only_base as u128);
    out.append("\nonly ");
    push_left(&mut out, against, 24);
    out.append(" : ");
    push_dec(&mut out, tail as u128);
    out.append("\n");
    let any: bool = d.both > 0 || d.only_base > 0 || tail > 0;
    let mut middle: String = String::new();
    if any {
        middle.append("\nundisputed share: ");
        middle.append(share);
        middle.append("% — deletable without a second look\n");
        assert(middle@ =~= "\nundisputed share: "@ + share@
            + "% — deletable without a second look\n"@);
    }
    let mut end: String = String::new();
    if show > 0 {
        end.append("\n=== assigned only by ");
        end.append(against);
        end.append(" (");
        push_dec(&mut end, tail as u128);
        end.append(" messages) ===\neither its false positives or a seam ");
        end.append(base);
        end.append(" misses\n");
        end.append(dump);
        assert(end@ =~= "\n=== assigned only by "@ + against@ + " ("@ + dec(d.tail@.len())
            + " messages) ===\neither its false positives or a seam "@ + base@ + " misses\n"@
            + dump@);
    }
    out.append(middle.as_str());
    out.append(end.as_str());
    out
}

/// Comparing the other way round: what both doomed stays, and the tails change
/// places.
pub proof fn law_difference_is_symmetric(base: Seq<Run>, against: Seq<Run>, corpus: Seq<Marked>)
    ensures
        ({
            let a = doomed_by(base, corpus);
            let b = doomed_by(against, corpus);
            let forth = common_windows(base, against);
            let back = common_windows(against, base);
            &&& forth.len() == back.len()
            &&& share_of(a, b, forth, true) == share_of(b, a, back, true)
            &&& share_of(a, b, forth, false) == share_of(a, b, back, false)
            &&& share_of(b, a, forth, false) == share_of(b, a, back, false)
        }),
{
    let a = doomed_by(base, corpus);
    let b = doomed_by(against, corpus);
    assert(common_windows(base, against) =~= common_windows(against, base));
    assert(share_of(a, b, common_windows(base, against), true) =~= share_of(
        b,
        a,
        common_windows(against, base),
        true,
    ));
}

/// Only what lies in a window both models saw is compared.
pub proof fn law_only_common_windows_count(
    a: Map<(i64, i32), Seq<char>>,
    b: Map<(i64, i32), Seq<char>>,
    x: Seq<Run>,
    y: Seq<Run>,
    in_second: bool,
    p: (i64, i32),
)
    requires
        share_of(a, b, common_windows(x, y), in_second).contains(p),
    ensures
        lies_in(windows_of(x), p),
        lies_in(windows_of(y), p),
{
    let w = choose|w: (i64, i32, i32)|
        #[trigger] common_windows(x, y).contains(w) && w.0 == p.0 && w.1 <= p.1 <= w.2;
    assert(windows_of(x).contains(w) && windows_of(y).contains(w));
}

} // verus!
