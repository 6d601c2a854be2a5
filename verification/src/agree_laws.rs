//! What agreement counts, told from the runs.

use crate::agree::{
    about, agreement_of, disputed, far_apart, overlap_of, overlaps_of, pair_line, pair_lines,
    pair_of, pairs_of, pairs_with, split_text, window_line, window_lines, with_earlier,
    OverlapView, PairView,
};
use crate::eval::{cut_of, RunView};
use crate::eval_laws::{
    between_ends, law_the_cut_lie_between_the_ends, law_violations_and_covered_anchors,
};
use crate::text::{dec, dec_int, lemma_text_lt_total, text_lt};
use vstd::prelude::*;

verus! {

/// Two runs are compared by the messages both cut and those either cuts, under
/// their names in ascending order and the window they judged.
pub proof fn law_overlap_counts_what_both_cut(x: RunView, y: RunView)
    ensures
        ({
            let o = overlap_of(x, y);
            let cx = x.msgs.filter(between_ends(x.deleted));
            let cy = y.msgs.filter(between_ends(y.deleted));
            &&& o.shared == cx.filter(|id: i32| cy.contains(id)).len()
            &&& o.shared + o.all == cx.len() + cy.len()
            &&& o.window.0 == x.dialog_id && o.window.1 == x.from_id && o.window.2 == x.to_id
            &&& (o.a == x.key && o.b == y.key) || (o.a == y.key && o.b == x.key)
            &&& o.a == o.b || text_lt(o.a, o.b)
        }),
{
    let cx = cut_of(x.msgs, x.deleted);
    let cy = cut_of(y.msgs, y.deleted);
    law_the_cut_lie_between_the_ends(x.msgs, x.deleted);
    law_the_cut_lie_between_the_ends(y.msgs, y.deleted);
    law_violations_and_covered_anchors(cy, 0, Set::empty(), cx);
    lemma_text_lt_total(x.key, y.key);
    lemma_filter_is_part(cx, |id: i32| cy.contains(id));
}

proof fn lemma_filter_is_part(ids: Seq<i32>, keep: spec_fn(i32) -> bool)
    ensures
        ids.filter(keep).len() <= ids.len(),
    decreases ids.len(),
{
    reveal(Seq::filter);
    if ids.len() > 0 {
        lemma_filter_is_part(ids.drop_last(), keep);
    }
}

/// Two runs are far apart where they share less than half of what either cuts:
/// never where they cut alike, always where they cut and share nothing.
pub proof fn law_far_apart_is_under_a_half(o: OverlapView)
    ensures
        far_apart(o) <==> o.shared + o.shared < o.all,
        o.shared == o.all ==> !far_apart(o),
        o.shared == 0 && o.all > 0 ==> far_apart(o),
{
}

/// The two runs judged the same stretch of the same dialog.
pub open spec fn same_window(x: RunView, y: RunView) -> bool {
    x.dialog_id == y.dialog_id && x.from_id == y.from_id && x.to_id == y.to_id
}

proof fn lemma_with_earlier(earlier: Seq<RunView>, r: RunView, i: int)
    requires
        0 <= i < earlier.len(),
        same_window(earlier[i], r),
    ensures
        with_earlier(earlier, r).contains(overlap_of(earlier[i], r)),
    decreases earlier.len(),
{
    let init = earlier.drop_last();
    let before = with_earlier(init, r);
    if i == earlier.len() - 1 {
        let now = before.push(overlap_of(earlier[i], r));
        assert(now[before.len() as int] == overlap_of(earlier[i], r));
    } else {
        assert(init[i] == earlier[i]);
        lemma_with_earlier(init, r, i);
        let k = choose|k: int| 0 <= k < before.len() && before[k] == overlap_of(earlier[i], r);
        assert(with_earlier(earlier, r)[k] == overlap_of(earlier[i], r));
    }
}

/// Every two runs on the same window are compared.
pub proof fn law_all_runs_on_a_window_are_compared(runs: Seq<RunView>, i: int, j: int)
    requires
        0 <= i < j < runs.len(),
        same_window(runs[i], runs[j]),
    ensures
        overlaps_of(runs).contains(overlap_of(runs[i], runs[j])),
    decreases runs.len(),
{
    let init = runs.drop_last();
    let o = overlap_of(runs[i], runs[j]);
    let (old_part, new_part) = (overlaps_of(init), with_earlier(init, runs.last()));
    let now = overlaps_of(runs);
    assert(now == old_part + new_part);
    assert(init[i] == runs[i]);
    if j == runs.len() - 1 {
        lemma_with_earlier(init, runs[j], i);
        let k = choose|k: int| 0 <= k < new_part.len() && new_part[k] == o;
        assert(now[old_part.len() + k] == o);
    } else {
        assert(init[j] == runs[j]);
        law_all_runs_on_a_window_are_compared(init, i, j);
        let k = choose|k: int| 0 <= k < old_part.len() && old_part[k] == o;
        assert(now[k] == o);
    }
}

proof fn lemma_from_earlier(earlier: Seq<RunView>, r: RunView, k: int)
    requires
        0 <= k < with_earlier(earlier, r).len(),
    ensures
        exists|i: int|
            0 <= i < earlier.len() && same_window(#[trigger] earlier[i], r) && with_earlier(
                earlier,
                r,
            )[k] == overlap_of(earlier[i], r),
    decreases earlier.len(),
{
    let init = earlier.drop_last();
    let before = with_earlier(init, r);
    if k < before.len() {
        lemma_from_earlier(init, r, k);
        let i = choose|i: int|
            0 <= i < init.len() && same_window(#[trigger] init[i], r) && before[k] == overlap_of(
                init[i],
                r,
            );
        assert(earlier[i] == init[i]);
        assert(with_earlier(earlier, r)[k] == before[k]);
    } else {
        let i = earlier.len() - 1;
        assert(about(earlier[i]) == about(r));
        assert(same_window(earlier[i], r));
    }
}

/// Only runs on the same window are compared, the earlier with the later.
pub proof fn law_only_runs_on_a_window_are_compared(runs: Seq<RunView>, k: int)
    requires
        0 <= k < overlaps_of(runs).len(),
    ensures
        exists|i: int, j: int|
            0 <= i < j < runs.len() && same_window(runs[i], runs[j]) && overlaps_of(runs)[k]
                == #[trigger] overlap_of(runs[i], runs[j]),
    decreases runs.len(),
{
    let init = runs.drop_last();
    let (old_part, new_part) = (overlaps_of(init), with_earlier(init, runs.last()));
    let now = overlaps_of(runs);
    assert(now == old_part + new_part);
    if k < old_part.len() {
        law_only_runs_on_a_window_are_compared(init, k);
        let (i, j) = choose|i: int, j: int|
            0 <= i < j < init.len() && same_window(init[i], init[j]) && old_part[k]
                == #[trigger] overlap_of(init[i], init[j]);
        assert(runs[i] == init[i] && runs[j] == init[j]);
        assert(now[k] == overlap_of(runs[i], runs[j]));
    } else {
        let p = k - old_part.len();
        lemma_from_earlier(init, runs.last(), p);
        let i = choose|i: int|
            0 <= i < init.len() && same_window(#[trigger] init[i], runs.last()) && new_part[p]
                == overlap_of(init[i], runs.last());
        let j = runs.len() - 1;
        assert(runs[i] == init[i] && runs[j] == runs.last());
        assert(now[k] == overlap_of(runs[i], runs[j]));
    }
}

/// A pair of names gathers the comparisons under both names, in order, and
/// counts those far apart.
pub proof fn law_pairs_gather_their_comparisons(
    os: Seq<OverlapView>,
    o: OverlapView,
    a: Seq<char>,
    b: Seq<char>,
)
    ensures
        ({
            let (was, now) = (pair_of(os, a, b), pair_of(os.push(o), a, b));
            &&& now.a == a && now.b == b
            &&& (o.a != a || o.b != b) ==> now == was
            &&& o.a == a && o.b == b ==> now.parts == was.parts.push(
                (o.shared as u128, o.all as u128),
            )
            &&& o.a == a && o.b == b && o.shared + o.shared < o.all ==> now.far == was.far + 1
            &&& o.a == a && o.b == b && o.shared + o.shared >= o.all ==> now.far == was.far
        }),
        pair_of(seq![], a, b).parts.len() == 0,
        pair_of(seq![], a, b).far == 0,
    decreases os.len(),
{
    assert(os.push(o).drop_last() =~= os);
    if os.len() > 0 {
        lemma_pair_names(os, a, b);
    }
}

proof fn lemma_pair_names(os: Seq<OverlapView>, a: Seq<char>, b: Seq<char>)
    ensures
        pair_of(os, a, b).a == a,
        pair_of(os, a, b).b == b,
    decreases os.len(),
{
    if os.len() > 0 {
        lemma_pair_names(os.drop_last(), a, b);
    }
}

proof fn lemma_pairs_with(os: Seq<OverlapView>, a: Seq<char>, others: Seq<Seq<char>>, j: int)
    requires
        0 <= j < others.len(),
        pair_of(os, a, others[j]).parts.len() > 0,
    ensures
        pairs_with(os, a, others).contains(pair_of(os, a, others[j])),
    decreases others.len(),
{
    let init = others.drop_last();
    let before = pairs_with(os, a, init);
    let p = pair_of(os, a, others[j]);
    let now = pairs_with(os, a, others);
    if j == others.len() - 1 {
        assert(now[before.len() as int] == p);
    } else {
        assert(init[j] == others[j]);
        lemma_pairs_with(os, a, init, j);
        let k = choose|k: int| 0 <= k < before.len() && before[k] == p;
        assert(now[k] == p);
    }
}

/// Every two names with a window in common have a line.
pub proof fn law_every_pair_is_listed(
    os: Seq<OverlapView>,
    names: Seq<Seq<char>>,
    others: Seq<Seq<char>>,
    i: int,
    j: int,
)
    requires
        0 <= i < names.len(),
        0 <= j < others.len(),
        exists|k: int|
            0 <= k < os.len() && (#[trigger] os[k]).a == names[i] && os[k].b == others[j],
    ensures
        pairs_of(os, names, others).contains(pair_of(os, names[i], others[j])),
    decreases names.len(),
{
    let k = choose|k: int|
        0 <= k < os.len() && (#[trigger] os[k]).a == names[i] && os[k].b == others[j];
    lemma_has_parts(os, names[i], others[j], k);
    let init = names.drop_last();
    let (old_part, new_part) = (pairs_of(os, init, others), pairs_with(os, names.last(), others));
    let now = pairs_of(os, names, others);
    let p = pair_of(os, names[i], others[j]);
    assert(now == old_part + new_part);
    if i == names.len() - 1 {
        lemma_pairs_with(os, names[i], others, j);
        let n = choose|n: int| 0 <= n < new_part.len() && new_part[n] == p;
        assert(now[old_part.len() + n] == p);
    } else {
        assert(init[i] == names[i]);
        law_every_pair_is_listed(os, init, others, i, j);
        let n = choose|n: int| 0 <= n < old_part.len() && old_part[n] == p;
        assert(now[n] == p);
    }
}

proof fn lemma_has_parts(os: Seq<OverlapView>, a: Seq<char>, b: Seq<char>, k: int)
    requires
        0 <= k < os.len(),
        os[k].a == a,
        os[k].b == b,
    ensures
        pair_of(os, a, b).parts.len() > 0,
    decreases os.len(),
{
    if k < os.len() - 1 {
        assert(os.drop_last()[k] == os[k]);
        lemma_has_parts(os.drop_last(), a, b, k);
    }
}

/// A window is for a human exactly where two runs on it are far apart.
pub proof fn law_disputed_windows(os: Seq<OverlapView>, w: (i64, i32, i32))
    ensures
        disputed(os).contains(w) <==> exists|k: int|
            0 <= k < os.len() && (#[trigger] os[k]).window == w && os[k].shared + os[k].shared
                < os[k].all,
    decreases os.len(),
{
    if os.len() > 0 {
        let init = os.drop_last();
        law_disputed_windows(init, w);
        if exists|k: int|
            0 <= k < os.len() && (#[trigger] os[k]).window == w && os[k].shared + os[k].shared
                < os[k].all {
            let k = choose|k: int|
                0 <= k < os.len() && (#[trigger] os[k]).window == w && os[k].shared + os[k].shared
                    < os[k].all;
            if k < init.len() {
                assert(init[k] == os[k]);
                assert(init[k].window == w);
            }
        }
        if disputed(init).contains(w) {
            let k = choose|k: int|
                0 <= k < init.len() && (#[trigger] init[k]).window == w && init[k].shared
                    + init[k].shared < init[k].all;
            assert(os[k] == init[k]);
        }
        assert(os[os.len() - 1] == os.last());
    }
}

/// The line of a pair: how far it agrees on average, its names, on how many
/// windows, and on how many it is far apart. The line of a window: dialog,
/// first and last message.
pub proof fn law_agreement_lines(p: PairView, mean: Seq<char>, w: (i64, i32, i32))
    ensures
        pair_line(p, mean) == "  "@ + mean + "  "@ + p.a + " <-> "@ + p.b + "  ("@ + dec(
            p.parts.len(),
        ) + " windows, far apart on "@ + dec(p.far) + ")\n"@,
        window_line(w) == "  "@ + dec_int(w.0 as int) + ":"@ + dec_int(w.1 as int) + ".."@
            + dec_int(w.2 as int) + "\n"@,
{
}

/// Nothing to compare is said; else there is a line for each pair, and for
/// each of the first fifteen windows for a human, under their number.
pub proof fn law_agreement_is_told_line_by_line(
    ps: Seq<PairView>,
    p: PairView,
    means: Seq<Seq<char>>,
    mean: Seq<char>,
    split: Seq<(i64, i32, i32)>,
    w: (i64, i32, i32),
)
    requires
        means.len() == ps.len(),
    ensures
        agreement_of(seq![], means, split)
            == "\nagreement: only one run — triage the same set with another model\n"@,
        agreement_of(ps.push(p), means.push(mean), split)
            == "\nagreement (Jaccard over message ids):\n"@ + pair_lines(ps, means) + pair_line(
            p,
            mean,
        ) + split_text(split),
        pair_lines(seq![], means).len() == 0,
        pair_lines(ps.push(p), means.push(mean)) == pair_lines(ps, means) + pair_line(p, mean),
        window_lines(seq![]).len() == 0,
        window_lines(split.push(w)) == window_lines(split) + window_line(w),
        split_text(seq![]).len() == 0,
        0 < split.len() <= 15 ==> split_text(split) == "\nwindows for a human ("@ + dec(split.len())
            + ") — only these need one:\n"@ + window_lines(split),
        split.len() > 15 ==> split_text(split) == "\nwindows for a human ("@ + dec(split.len())
            + ") — only these need one:\n"@ + window_lines(split.take(15)),
{
    let all = ps.push(p);
    assert(all.drop_last() =~= ps);
    lemma_means(ps, means, means.push(mean));
    assert(split.push(w).drop_last() =~= split);
    if 0 < split.len() <= 15 {
        assert(split.take(split.len() as int) =~= split);
    }
    assert("\nagreement (Jaccard over message ids):\n"@ + pair_lines(all, means.push(mean))
        + split_text(split) =~= "\nagreement (Jaccard over message ids):\n"@ + pair_lines(ps, means)
        + pair_line(p, mean) + split_text(split));
}

proof fn lemma_means(ps: Seq<PairView>, a: Seq<Seq<char>>, b: Seq<Seq<char>>)
    requires
        a.len() >= ps.len(),
        b.len() >= ps.len(),
        forall|i: int| 0 <= i < ps.len() ==> #[trigger] a[i] == b[i],
    ensures
        pair_lines(ps, a) == pair_lines(ps, b),
    decreases ps.len(),
{
    if ps.len() > 0 {
        lemma_means(ps.drop_last(), a, b);
        assert(a[ps.len() - 1] == b[ps.len() - 1]);
    }
}

} // verus!
