//! Agreement between runs on identical windows. Different model families
//! disagree meaningfully — and only those windows are worth a human.

use crate::eval::{
    covered_count, cut_of, expand, keys_in, run_keys, run_views, Run, RunView,
};
use crate::text::{
    before, dec, dec_int, listed, push_dec, push_int, same, text_lt, views,
};
use vstd::prelude::*;

verus! {

/// How far two runs agree on one window: the messages both cut, and the
/// messages either cuts. The names are in ascending order.
#[derive(Debug)]
pub struct Overlap {
    pub a: String,
    pub b: String,
    pub shared: u128,
    pub all: u128,
    pub window: (i64, i32, i32),
}

/// An overlap as plain values.
#[verifier::ext_equal]
pub struct OverlapView {
    pub a: Seq<char>,
    pub b: Seq<char>,
    pub shared: nat,
    pub all: nat,
    pub window: (i64, i32, i32),
}

impl View for Overlap {
    type V = OverlapView;

    open spec fn view(&self) -> OverlapView {
        OverlapView {
            a: self.a@,
            b: self.b@,
            shared: self.shared as nat,
            all: self.all as nat,
            window: self.window,
        }
    }
}

pub open spec fn overlap_views(v: Seq<Overlap>) -> Seq<OverlapView> {
    Seq::new(v.len(), |i: int| v[i]@)
}

/// The window a run is about.
pub open spec fn about(r: RunView) -> (i64, i32, i32) {
    (r.dialog_id, r.from_id, r.to_id)
}

/// How far two runs agree.
pub open spec fn overlap_of(x: RunView, y: RunView) -> OverlapView {
    let (cx, cy) = (cut_of(x.msgs, x.deleted), cut_of(y.msgs, y.deleted));
    let shared = covered_count(cx, cy);
    let swap = text_lt(y.key, x.key);
    OverlapView {
        a: if swap {
            y.key
        } else {
            x.key
        },
        b: if swap {
            x.key
        } else {
            y.key
        },
        shared,
        all: (cx.len() + cy.len() - shared) as nat,
        window: about(x),
    }
}

/// A run against those before it on the same window.
pub open spec fn with_earlier(earlier: Seq<RunView>, r: RunView) -> Seq<OverlapView>
    decreases earlier.len(),
{
    if earlier.len() == 0 {
        seq![]
    } else {
        let init = with_earlier(earlier.drop_last(), r);
        if about(earlier.last()) == about(r) {
            init.push(overlap_of(earlier.last(), r))
        } else {
            init
        }
    }
}

/// Every two runs on the same window.
pub open spec fn overlaps_of(runs: Seq<RunView>) -> Seq<OverlapView>
    decreases runs.len(),
{
    if runs.len() == 0 {
        seq![]
    } else {
        overlaps_of(runs.drop_last()) + with_earlier(runs.drop_last(), runs.last())
    }
}

/// Less than half of what either cuts is cut by both.
pub open spec fn far_apart(o: OverlapView) -> bool {
    2 * o.shared < o.all
}

fn overlap(x: &Run, y: &Run, cx: &Vec<i32>, cy: &Vec<i32>) -> (r: Overlap)
    requires
        cx@ == cut_of(x.msgs@, x.deleted@),
        cy@ == cut_of(y.msgs@, y.deleted@),
    ensures
        r@ == overlap_of(x@, y@),
{
    let mut shared: usize = 0;
    let mut i: usize = 0;
    assert(cx@.take(0) =~= Seq::<i32>::empty());
    while i < cx.len()
        invariant
            shared <= i <= cx@.len(),
            shared == covered_count(cx@.take(i as int), cy@),
        decreases cx@.len() - i,
    {
        assert(cx@.take(i + 1).drop_last() =~= cx@.take(i as int));
        let mut k: usize = 0;
        let mut found: bool = false;
        while k < cy.len() && !found
            invariant
                i < cx@.len(),
                k <= cy@.len(),
                found ==> cy@.contains(cx@[i as int]),
                !found ==> forall|j: int| 0 <= j < k ==> #[trigger] cy@[j] != cx@[i as int],
            decreases cy@.len() - k + if found {
                0int
            } else {
                1int
            },
        {
            if cy[k] == cx[i] {
                found = true;
            } else {
                k += 1;
            }
        }
        if found {
            shared += 1;
        }
        i += 1;
    }
    assert(cx@.take(i as int) =~= cx@);
    let total: u128 = (cx.len() as u128) + (cy.len() as u128);
    let swap: bool = before(y.key.as_str(), x.key.as_str());
    let (a, b): (String, String) = if swap {
        (y.key.clone(), x.key.clone())
    } else {
        (x.key.clone(), y.key.clone())
    };
    Overlap {
        a,
        b,
        shared: shared as u128,
        all: total - shared as u128,
        window: (x.dialog_id, x.from_id, x.to_id),
    }
}

/// Every two runs on the same window.
pub fn overlaps(runs: &Vec<Run>) -> (r: Vec<Overlap>)
    ensures
        overlap_views(r@) == overlaps_of(run_views(runs@)),
{
    let ghost all = run_views(runs@);
    let mut cuts: Vec<Vec<i32>> = Vec::new();
    let mut out: Vec<Overlap> = Vec::new();
    let mut j: usize = 0;
    assert(all.take(0) =~= Seq::<RunView>::empty());
    assert(overlap_views(out@) =~= Seq::<OverlapView>::empty());
    while j < runs.len()
        invariant
            j <= runs@.len(),
            all == run_views(runs@),
            cuts@.len() == j,
            forall|k: int|
                0 <= k < j ==> (#[trigger] cuts@[k])@ == cut_of(
                    runs@[k].msgs@,
                    runs@[k].deleted@,
                ),
            overlap_views(out@) == overlaps_of(all.take(j as int)),
        decreases runs@.len() - j,
    {
        let y: &Run = &runs[j];
        let cy: Vec<i32> = expand(y);
        let ghost base = overlap_views(out@);
        let ghost earlier = all.take(j as int);
        let mut i: usize = 0;
        assert(earlier.take(0) =~= Seq::<RunView>::empty());
        assert(base + with_earlier(earlier.take(0), y@) =~= base);
        while i < j
            invariant
                i <= j < runs@.len(),
                all == run_views(runs@),
                earlier == all.take(j as int),
                cuts@.len() == j,
                forall|k: int|
                    0 <= k < j ==> (#[trigger] cuts@[k])@ == cut_of(
                        runs@[k].msgs@,
                        runs@[k].deleted@,
                    ),
                cy@ == cut_of(y.msgs@, y.deleted@),
                overlap_views(out@) == base + with_earlier(earlier.take(i as int), y@),
            decreases j - i,
        {
            let x: &Run = &runs[i];
            assert(earlier.take(i + 1).drop_last() =~= earlier.take(i as int));
            assert(earlier.take(i + 1).last() == x@);
            if x.dialog_id == y.dialog_id && x.from_id == y.from_id && x.to_id == y.to_id {
                assert(cuts@[i as int]@ == cut_of(x.msgs@, x.deleted@));
                let o: Overlap = overlap(x, y, &cuts[i], &cy);
                let ghost was = overlap_views(out@);
                out.push(o);
                assert(overlap_views(out@) =~= was.push(o@));
            }
            i += 1;
            assert(overlap_views(out@) =~= base + with_earlier(earlier.take(i as int), y@));
        }
        assert(earlier.take(i as int) =~= earlier);
        assert(all.take(j + 1).drop_last() =~= earlier);
        assert(all.take(j + 1).last() == y@);
        cuts.push(cy);
        j += 1;
    }
    assert(all.take(j as int) =~= all);
    out
}

// --- pairs of runs -------------------------------------------------------

/// Two runs: what they share on every window both saw, and on how many they
/// are far apart.
#[derive(Debug)]
pub struct Pair {
    pub a: String,
    pub b: String,
    /// Messages both cut and messages either cuts, window by window.
    pub parts: Vec<(u128, u128)>,
    pub far: usize,
}

/// A pair as plain values.
#[verifier::ext_equal]
pub struct PairView {
    pub a: Seq<char>,
    pub b: Seq<char>,
    pub parts: Seq<(u128, u128)>,
    pub far: nat,
}

impl View for Pair {
    type V = PairView;

    open spec fn view(&self) -> PairView {
        PairView { a: self.a@, b: self.b@, parts: self.parts@, far: self.far as nat }
    }
}

pub open spec fn pair_views(v: Seq<Pair>) -> Seq<PairView> {
    Seq::new(v.len(), |i: int| v[i]@)
}

/// The pair of two names.
pub open spec fn pair_of(os: Seq<OverlapView>, a: Seq<char>, b: Seq<char>) -> PairView
    decreases os.len(),
{
    if os.len() == 0 {
        PairView { a, b, parts: seq![], far: 0 }
    } else {
        let init = pair_of(os.drop_last(), a, b);
        let o = os.last();
        if o.a == a && o.b == b {
            PairView {
                a,
                b,
                parts: init.parts.push((o.shared as u128, o.all as u128)),
                far: init.far + if far_apart(o) {
                    1nat
                } else {
                    0nat
                },
            }
        } else {
            init
        }
    }
}

/// The pairs of one name with the others, where there are any.
pub open spec fn pairs_with(
    os: Seq<OverlapView>,
    a: Seq<char>,
    others: Seq<Seq<char>>,
) -> Seq<PairView>
    decreases others.len(),
{
    if others.len() == 0 {
        seq![]
    } else {
        let init = pairs_with(os, a, others.drop_last());
        let p = pair_of(os, a, others.last());
        if p.parts.len() == 0 {
            init
        } else {
            init.push(p)
        }
    }
}

/// All pairs, in ascending order of their names.
pub open spec fn pairs_of(
    os: Seq<OverlapView>,
    names: Seq<Seq<char>>,
    others: Seq<Seq<char>>,
) -> Seq<PairView>
    decreases names.len(),
{
    if names.len() == 0 {
        seq![]
    } else {
        pairs_of(os, names.drop_last(), others) + pairs_with(os, names.last(), others)
    }
}

fn pair(os: &Vec<Overlap>, a: &str, b: &str) -> (r: Pair)
    ensures
        r@ == pair_of(overlap_views(os@), a@, b@),
{
    let ghost all = overlap_views(os@);
    let mut parts: Vec<(u128, u128)> = Vec::new();
    let mut far: usize = 0;
    let mut i: usize = 0;
    assert(all.take(0) =~= Seq::<OverlapView>::empty());
    while i < os.len()
        invariant
            far <= i <= os@.len(),
            all == overlap_views(os@),
            ({
                let p = pair_of(all.take(i as int), a@, b@);
                &&& p.a == a@
                &&& p.b == b@
                &&& p.parts == parts@
                &&& p.far == far
            }),
        decreases os@.len() - i,
    {
        let o: &Overlap = &os[i];
        assert(all.take(i + 1).drop_last() =~= all.take(i as int));
        assert(all.take(i + 1).last() == o@);
        if same(o.a.as_str(), a) && same(o.b.as_str(), b) {
            parts.push((o.shared, o.all));
            // Less than half of what either cuts, without doubling.
            if o.shared < o.all && o.shared < o.all - o.shared {
                far += 1;
            }
        }
        i += 1;
    }
    assert(all.take(i as int) =~= all);
    Pair { a: a.to_owned(), b: b.to_owned(), parts, far }
}

/// All pairs of runs that met on a window, in ascending order of their names.
pub fn pairs(runs: &Vec<Run>, os: &Vec<Overlap>) -> (r: Vec<Pair>)
    ensures
        pair_views(r@) == pairs_of(
            overlap_views(os@),
            listed(keys_in(run_views(runs@))),
            listed(keys_in(run_views(runs@))),
        ),
{
    let keys: Vec<String> = run_keys(runs);
    let ghost names = views(keys@);
    let ghost all = overlap_views(os@);
    let mut out: Vec<Pair> = Vec::new();
    let mut i: usize = 0;
    assert(names.take(0) =~= Seq::<Seq<char>>::empty());
    assert(pair_views(out@) =~= Seq::<PairView>::empty());
    while i < keys.len()
        invariant
            i <= keys@.len(),
            names == views(keys@),
            all == overlap_views(os@),
            pair_views(out@) == pairs_of(all, names.take(i as int), names),
        decreases keys@.len() - i,
    {
        let ghost base = pair_views(out@);
        let ghost a = keys@[i as int]@;
        let mut j: usize = 0;
        assert(names.take(0) =~= Seq::<Seq<char>>::empty());
        assert(base + pairs_with(all, a, names.take(0)) =~= base);
        while j < keys.len()
            invariant
                i < keys@.len(),
                j <= keys@.len(),
                names == views(keys@),
                all == overlap_views(os@),
                a == keys@[i as int]@,
                pair_views(out@) == base + pairs_with(all, a, names.take(j as int)),
            decreases keys@.len() - j,
        {
            assert(names.take(j + 1).drop_last() =~= names.take(j as int));
            assert(names.take(j + 1).last() == keys@[j as int]@);
            let p: Pair = pair(os, keys[i].as_str(), keys[j].as_str());
            if p.parts.len() > 0 {
                let ghost was = pair_views(out@);
                out.push(p);
                assert(pair_views(out@) =~= was.push(p@));
            }
            j += 1;
            assert(pair_views(out@) =~= base + pairs_with(all, a, names.take(j as int)));
        }
        assert(names.take(j as int) =~= names);
        assert(names.take(i + 1).drop_last() =~= names.take(i as int));
        assert(names.take(i + 1).last() == a);
        i += 1;
    }
    assert(names.take(i as int) =~= names);
    out
}

// --- windows for a human -------------------------------------------------

/// The order of windows.
pub open spec fn window_lt(a: (i64, i32, i32), b: (i64, i32, i32)) -> bool {
    ||| a.0 < b.0
    ||| a.0 == b.0 && a.1 < b.1
    ||| a.0 == b.0 && a.1 == b.1 && a.2 < b.2
}

fn is_before(a: (i64, i32, i32), b: (i64, i32, i32)) -> (r: bool)
    ensures
        r == window_lt(a, b),
{
    if a.0 != b.0 {
        a.0 < b.0
    } else if a.1 != b.1 {
        a.1 < b.1
    } else {
        a.2 < b.2
    }
}

/// In ascending order, each once.
pub open spec fn ascending(v: Seq<(i64, i32, i32)>) -> bool {
    forall|i: int, j: int| 0 <= i < j < v.len() ==> window_lt(#[trigger] v[i], #[trigger] v[j])
}

/// The windows on which two runs are far apart.
pub open spec fn disputed(os: Seq<OverlapView>) -> Set<(i64, i32, i32)>
    decreases os.len(),
{
    if os.len() == 0 {
        Set::empty()
    } else if far_apart(os.last()) {
        disputed(os.drop_last()).insert(os.last().window)
    } else {
        disputed(os.drop_last())
    }
}

/// Add a window to a list kept in ascending order.
pub fn insert_window(v: &mut Vec<(i64, i32, i32)>, w: (i64, i32, i32))
    requires
        ascending(old(v)@),
    ensures
        ascending(final(v)@),
        final(v)@.to_set() == old(v)@.to_set().insert(w),
{
    let ghost was = v@;
    let mut i: usize = 0;
    while i < v.len() && is_before(v[i], w)
        invariant
            i <= v@.len(),
            v@ == was,
            ascending(was),
            forall|k: int| 0 <= k < i ==> window_lt(#[trigger] was[k], w),
        decreases v@.len() - i,
    {
        i += 1;
    }
    if i < v.len() {
        let x: (i64, i32, i32) = v[i];
        if x.0 == w.0 && x.1 == w.1 && x.2 == w.2 {
            assert(was[i as int] == w);
            assert(was.to_set().contains(w));
            assert(was.to_set().insert(w) =~= was.to_set());
            return ;
        }
    }
    proof {
        assert forall|k: int| i <= k < was.len() implies window_lt(w, #[trigger] was[k]) by {
            if k > i {
                assert(window_lt(was[i as int], was[k]));
            }
        }
    }
    v.insert(i, w);
    proof {
        let now = v@;
        assert(now =~= was.insert(i as int, w));
        assert forall|x: (i64, i32, i32)| now.to_set().contains(x) <==> #[trigger] was.to_set().insert(
            w,
        ).contains(x) by {
            if now.to_set().contains(x) {
                let k = choose|k: int| 0 <= k < now.len() && now[k] == x;
                if k < i {
                    assert(was[k] == x);
                } else if k > i {
                    assert(was[k - 1] == x);
                }
            }
            if was.to_set().contains(x) {
                let k = choose|k: int| 0 <= k < was.len() && was[k] == x;
                if k < i {
                    assert(now[k] == x);
                } else {
                    assert(now[k + 1] == x);
                }
            }
            assert(now[i as int] == w);
        }
        assert(now.to_set() =~= was.to_set().insert(w));
    }
}

/// The windows on which two runs are far apart, in ascending order: only these
/// need a human.
pub fn split_windows(os: &Vec<Overlap>) -> (r: Vec<(i64, i32, i32)>)
    ensures
        ascending(r@),
        r@.to_set() == disputed(overlap_views(os@)),
{
    let ghost all = overlap_views(os@);
    let mut out: Vec<(i64, i32, i32)> = Vec::new();
    let mut i: usize = 0;
    assert(all.take(0) =~= Seq::<OverlapView>::empty());
    assert(out@.to_set() =~= Set::<(i64, i32, i32)>::empty());
    while i < os.len()
        invariant
            i <= os@.len(),
            all == overlap_views(os@),
            ascending(out@),
            out@.to_set() == disputed(all.take(i as int)),
        decreases os@.len() - i,
    {
        let o: &Overlap = &os[i];
        assert(all.take(i + 1).drop_last() =~= all.take(i as int));
        assert(all.take(i + 1).last() == o@);
        if o.shared < o.all && o.shared < o.all - o.shared {
            insert_window(&mut out, o.window);
        }
        i += 1;
    }
    assert(all.take(i as int) =~= all);
    out
}

// --- in words ------------------------------------------------------------

/// The line of a pair. `mean` is its mean agreement, as it is to be shown.
pub open spec fn pair_line(p: PairView, mean: Seq<char>) -> Seq<char> {
    "  "@ + mean + "  "@ + p.a + " <-> "@ + p.b + "  ("@ + dec(p.parts.len())
        + " windows, far apart on "@ + dec(p.far) + ")\n"@
}

pub open spec fn pair_lines(ps: Seq<PairView>, means: Seq<Seq<char>>) -> Seq<char>
    decreases ps.len(),
{
    if ps.len() == 0 {
        seq![]
    } else {
        pair_lines(ps.drop_last(), means) + pair_line(ps.last(), means[ps.len() - 1])
    }
}

pub open spec fn window_line(w: (i64, i32, i32)) -> Seq<char> {
    "  "@ + dec_int(w.0 as int) + ":"@ + dec_int(w.1 as int) + ".."@ + dec_int(w.2 as int) + "\n"@
}

pub open spec fn window_lines(ws: Seq<(i64, i32, i32)>) -> Seq<char>
    decreases ws.len(),
{
    if ws.len() == 0 {
        seq![]
    } else {
        window_lines(ws.drop_last()) + window_line(ws.last())
    }
}

/// The windows for a human, the first fifteen of them by name.
pub open spec fn split_text(split: Seq<(i64, i32, i32)>) -> Seq<char> {
    if split.len() == 0 {
        seq![]
    } else {
        "\nwindows for a human ("@ + dec(split.len()) + ") — only these need one:\n"@
            + window_lines(
            split.take(
                if split.len() < 15 {
                    split.len() as int
                } else {
                    15
                },
            ),
        )
    }
}

/// The agreement of the runs in words.
pub open spec fn agreement_of(
    ps: Seq<PairView>,
    means: Seq<Seq<char>>,
    split: Seq<(i64, i32, i32)>,
) -> Seq<char> {
    if ps.len() == 0 {
        "\nagreement: only one run — triage the same set with another model\n"@
    } else {
        "\nagreement (Jaccard over message ids):\n"@ + pair_lines(ps, means) + split_text(split)
    }
}

fn push_pair_line(out: &mut String, p: &Pair, mean: &str)
    ensures
        final(out)@ == old(out)@ + pair_line(p@, mean@),
{
    out.append("  ");
    out.append(mean);
    out.append("  ");
    out.append(p.a.as_str());
    out.append(" <-> ");
    out.append(p.b.as_str());
    out.append("  (");
    push_dec(out, p.parts.len() as u128);
    out.append(" windows, far apart on ");
    push_dec(out, p.far as u128);
    out.append(")\n");
    assert(out@ =~= old(out)@ + pair_line(p@, mean@));
}

fn push_window_line(out: &mut String, w: (i64, i32, i32))
    ensures
        final(out)@ == old(out)@ + window_line(w),
{
    out.append("  ");
    push_int(out, w.0);
    out.append(":");
    push_int(out, w.1 as i64);
    out.append("..");
    push_int(out, w.2 as i64);
    out.append("\n");
    assert(out@ =~= old(out)@ + window_line(w));
}

fn push_split(out: &mut String, split: &Vec<(i64, i32, i32)>)
    ensures
        final(out)@ == old(out)@ + split_text(split@),
{
    if split.len() == 0 {
        assert(out@ =~= old(out)@ + split_text(split@));
        return ;
    }
    out.append("\nwindows for a human (");
    push_dec(out, split.len() as u128);
    out.append(") — only these need one:\n");
    let ghost head = out@;
    let n: usize = if split.len() < 15 {
        split.len()
    } else {
        15
    };
    let mut i: usize = 0;
    assert(split@.take(0) =~= Seq::<(i64, i32, i32)>::empty());
    assert(out@ =~= head + window_lines(split@.take(0)));
    while i < n
        invariant
            i <= n <= split@.len(),
            out@ == head + window_lines(split@.take(i as int)),
        decreases n - i,
    {
        assert(split@.take(i + 1).drop_last() =~= split@.take(i as int));
        push_window_line(out, split[i]);
        i += 1;
        assert(out@ =~= head + window_lines(split@.take(i as int)));
    }
    assert(out@ =~= old(out)@ + split_text(split@));
}

/// The agreement of the runs in words. `means` are the mean agreements of the
/// pairs, as they are to be shown.
pub fn agreement(ps: &Vec<Pair>, means: &Vec<String>, split: &Vec<(i64, i32, i32)>) -> (r: String)
    requires
        means@.len() == ps@.len(),
    ensures
        r@ == agreement_of(pair_views(ps@), views(means@), split@),
{
    if ps.len() == 0 {
        return "\nagreement: only one run — triage the same set with another model\n".to_owned();
    }
    let ghost all = pair_views(ps@);
    let mut out: String = "\nagreement (Jaccard over message ids):\n".to_owned();
    let ghost head = out@;
    let mut i: usize = 0;
    assert(all.take(0) =~= Seq::<PairView>::empty());
    assert(out@ =~= head + pair_lines(all.take(0), views(means@)));
    while i < ps.len()
        invariant
            i <= ps@.len(),
            means@.len() == ps@.len(),
            all == pair_views(ps@),
            out@ == head + pair_lines(all.take(i as int), views(means@)),
        decreases ps@.len() - i,
    {
        assert(all.take(i + 1).drop_last() =~= all.take(i as int));
        assert(all.take(i + 1).last() == ps@[i as int]@);
        assert(views(means@)[i as int] == means@[i as int]@);
        push_pair_line(&mut out, &ps[i], means[i].as_str());
        i += 1;
        assert(out@ =~= head + pair_lines(all.take(i as int), views(means@)));
    }
    assert(all.take(i as int) =~= all);
    push_split(&mut out, split);
    out
}

// --- what agreement promises ---------------------------------------------

/// Two runs that cut the same are never far apart, and neither are two that
/// cut nothing.
pub proof fn law_equal_cuts_are_not_disputed(x: RunView, y: RunView)
    requires
        cut_of(x.msgs, x.deleted) == cut_of(y.msgs, y.deleted),
    ensures
        !far_apart(overlap_of(x, y)),
{
    let ids = cut_of(x.msgs, x.deleted);
    lemma_covers_itself(ids, ids);
}

proof fn lemma_covers_itself(part: Seq<i32>, ids: Seq<i32>)
    requires
        forall|i: int| 0 <= i < part.len() ==> ids.contains(#[trigger] part[i]),
    ensures
        covered_count(part, ids) == part.len(),
    decreases part.len(),
{
    if part.len() > 0 {
        let rest = part.drop_last();
        assert forall|i: int| 0 <= i < rest.len() implies ids.contains(#[trigger] rest[i]) by {
            assert(rest[i] == part[i]);
        }
        lemma_covers_itself(rest, ids);
        assert(ids.contains(part[part.len() - 1]));
    }
}

/// A single run disputes nothing.
pub proof fn law_one_run_has_no_pairs(r: RunView)
    ensures
        overlaps_of(seq![r]).len() == 0,
{
    assert(seq![r].drop_last() =~= Seq::<RunView>::empty());
    assert(overlaps_of(Seq::<RunView>::empty()).len() == 0);
    assert(with_earlier(Seq::<RunView>::empty(), r).len() == 0);
}

} // verus!
