//! In what order windows are taken, told from the windows themselves.

use crate::fnv::fnv_of;
use crate::order::{
    comes_first, key_lt, lemma_order_exists, lemma_order_places, order_of,
};
use crate::select::{
    first_axes, first_axis, first_of, kept, key_of, keys_of, le_bytes, passes, sampled, selected,
    sorted, spread_of, strata, stratum, CutoffView, Sorting,
};
use crate::text::{lemma_can_list, lemma_listed, listed, strictly_sorted};
use crate::window::WindowView;
use crate::window_laws::lemma_sorted_keeps;
use vstd::prelude::*;

verus! {

/// A window is worth a repeat run exactly where its newest anchor is new
/// enough or a new rule fired on it; without a cutoff every window is.
pub proof fn law_fresh_or_newly_flagged(w: WindowView, c: CutoffView)
    ensures
        passes(w, None),
        passes(w, Some(c)) <==> w.newest >= c.since || exists|r: Seq<char>|
            #[trigger] w.rules.contains(r) && c.new_rules.contains(r),
{
    if exists|r: Seq<char>| #[trigger] w.rules.contains(r) && c.new_rules.contains(r) {
        let r = choose|r: Seq<char>| #[trigger] w.rules.contains(r) && c.new_rules.contains(r);
        let i = choose|i: int| 0 <= i < w.rules.len() && w.rules[i] == r;
        assert(c.new_rules.contains(w.rules[i]));
    }
    if exists|i: int| 0 <= i < w.rules.len() && c.new_rules.contains(#[trigger] w.rules[i]) {
        let i = choose|i: int| 0 <= i < w.rules.len() && c.new_rules.contains(#[trigger] w.rules[i]);
        assert(w.rules.contains(w.rules[i]));
    }
}

proof fn lemma_in_order(ws: Seq<WindowView>, by: Sorting, i: int, j: int)
    requires
        0 <= i < j < sorted(ws, by).len(),
    ensures
        !key_lt(key_of(sorted(ws, by)[j], by), key_of(sorted(ws, by)[i], by)),
{
    let keys = keys_of(ws, by);
    let order = order_of(keys);
    lemma_order_exists(keys);
    lemma_order_places(keys, order);
    let leq = |a: int, b: int| comes_first(keys, a, b);
    assert(leq(order[i], order[j]));
    assert(sorted(ws, by)[i] == ws[order[i]] && sorted(ws, by)[j] == ws[order[j]]);
}

/// The freshest and sharpest first: harsher tiers before softer ones, within a
/// tier more anchors before fewer, then by dialog and first message.
pub proof fn law_freshest_and_sharpest_first(
    ws: Seq<WindowView>,
    limit: Option<usize>,
    cutoff: Option<CutoffView>,
    i: int,
    j: int,
)
    requires
        0 <= i < j < selected(ws, limit, None, cutoff).len(),
        forall|k: int|
            0 <= k < kept(ws, cutoff).len() ==> (#[trigger] kept(ws, cutoff)[k]).anchors.len()
                <= i32::MAX,
    ensures
        ({
            let (a, b) = (
                selected(ws, limit, None, cutoff)[i],
                selected(ws, limit, None, cutoff)[j],
            );
            &&& a.tier.rank() <= b.tier.rank()
            &&& a.tier == b.tier ==> a.anchors.len() >= b.anchors.len()
            &&& a.tier == b.tier && a.anchors.len() == b.anchors.len() ==> a.dialog_id
                <= b.dialog_id
            &&& a.tier == b.tier && a.anchors.len() == b.anchors.len() && a.dialog_id
                == b.dialog_id ==> a.from_id <= b.from_id
        }),
{
    let fit = kept(ws, cutoff);
    let ranked = sorted(fit, Sorting::Rank);
    lemma_sorted_keeps(fit, Sorting::Rank);
    lemma_in_order(fit, Sorting::Rank, i, j);
    let order = order_of(keys_of(fit, Sorting::Rank));
    lemma_order_exists(keys_of(fit, Sorting::Rank));
    lemma_order_places(keys_of(fit, Sorting::Rank), order);
    assert(ranked[i] == fit[order[i]] && ranked[j] == fit[order[j]]);
    assert(fit[order[i]].anchors.len() <= i32::MAX && fit[order[j]].anchors.len() <= i32::MAX);
    assert(selected(ws, limit, None, cutoff)[i] == ranked[i]);
    assert(selected(ws, limit, None, cutoff)[j] == ranked[j]);
}

/// A sample comes by dialog and first message.
pub proof fn law_samples_come_in_place(
    ws: Seq<WindowView>,
    limit: Option<usize>,
    n: usize,
    cutoff: Option<CutoffView>,
    i: int,
    j: int,
)
    requires
        0 <= i < j < selected(ws, limit, Some(n), cutoff).len(),
    ensures
        ({
            let (a, b) = (
                selected(ws, limit, Some(n), cutoff)[i],
                selected(ws, limit, Some(n), cutoff)[j],
            );
            a.dialog_id < b.dialog_id || (a.dialog_id == b.dialog_id && a.from_id <= b.from_id)
        }),
{
    let ranked = sorted(kept(ws, cutoff), Sorting::Rank);
    let groups = strata(ranked);
    let part = first_of(crate::select::dealt(groups, crate::select::deepest(groups)), n);
    assert(sampled(ranked, n) == sorted(part, Sorting::Place));
    lemma_in_order(part, Sorting::Place, i, j);
}

/// A limit keeps as many as there may be, from the front.
pub proof fn law_limits_cut_the_tail(ws: Seq<WindowView>, n: usize, i: int)
    ensures
        first_of(ws, n).len() == (if ws.len() < n {
            ws.len() as int
        } else {
            n as int
        }),
        0 <= i < first_of(ws, n).len() ==> first_of(ws, n)[i] == ws[i],
{
}

/// The windows of a sample are grouped by their first axis: one group for each
/// axis that comes first somewhere, in the order of their names; a group holds
/// the windows of its axis, all of them and no other, by spread.
pub proof fn law_groups_are_axes(ws: Seq<WindowView>, g: int, i: int, j: int)
    requires
        0 <= g < strata(ws).len(),
        0 <= i < j < strata(ws)[g].len(),
    ensures
        strata(ws).len() == listed(first_axes(ws).to_set()).len(),
        first_axis(strata(ws)[g][i]) == listed(first_axes(ws).to_set())[g],
        first_axis(strata(ws)[g][j]) == listed(first_axes(ws).to_set())[g],
        spread_of(strata(ws)[g][i].dialog_id, strata(ws)[g][i].from_id) <= spread_of(
            strata(ws)[g][j].dialog_id,
            strata(ws)[g][j].from_id,
        ),
{
    let axes = listed(first_axes(ws).to_set());
    let axis = axes[g];
    let p = |w: WindowView| first_axis(w) == axis;
    let own = ws.filter(p);
    assert(strata(ws)[g] == stratum(ws, axis));
    lemma_in_order(own, Sorting::Spread, i, j);
    let keys = keys_of(own, Sorting::Spread);
    let order = order_of(keys);
    lemma_order_exists(keys);
    lemma_order_places(keys, order);
    assert(strata(ws)[g][i] == own[order[i]] && strata(ws)[g][j] == own[order[j]]);
    ws.lemma_filter_pred(p, order[i]);
    ws.lemma_filter_pred(p, order[j]);
}

/// Every axis that comes first in some window has a group, and each group has
/// an axis of its own.
pub proof fn law_every_axis_has_a_group(ws: Seq<WindowView>, i: int)
    requires
        0 <= i < ws.len(),
    ensures
        strictly_sorted(listed(first_axes(ws).to_set())),
        listed(first_axes(ws).to_set()).contains(first_axis(ws[i])),
        ws[i].axes.len() > 0 ==> first_axis(ws[i]) == ws[i].axes[0],
        ws[i].axes.len() == 0 ==> first_axis(ws[i]).len() == 0,
{
    let names = first_axes(ws);
    let s = lemma_can_list(names);
    lemma_listed(s);
    assert(names[i] == first_axis(ws[i]));
    assert(names.contains(names[i]));
    assert(names.to_set().contains(names[i]));
    assert(s.to_set().contains(names[i]));
}

/// The hash: each byte is folded in and multiplied by the prime, the result
/// cut to thirty-two bits.
pub proof fn law_hash_folds_bytes(bytes: Seq<u8>, b: u8)
    ensures
        fnv_of(Seq::<u8>::empty()) == 0x811c_9dc5,
        fnv_of(bytes.push(b)) as int == ((fnv_of(bytes) ^ (b as u32)) as int * 0x0100_0193)
            % 0x1_0000_0000,
{
    assert(bytes.push(b).drop_last() =~= bytes);
    let h = fnv_of(bytes) ^ (b as u32);
    assert(fnv_of(bytes.push(b)) == h.wrapping_mul(16_777_619u32));
}

/// The place of a window is hashed byte by byte, the low bytes first, eight of
/// its dialog and four of its first message.
pub proof fn law_places_are_hashed_low_byte_first(n: u64)
    ensures
        le_bytes(n, 8).len() == 8,
        le_bytes(n, 8)[0] == n % 256,
        le_bytes(n, 8)[1] == (n / 256) % 256,
        le_bytes(n, 8)[2] == (n / 0x1_0000) % 256,
        le_bytes(n, 8)[3] == (n / 0x100_0000) % 256,
        le_bytes(n, 8)[4] == (n / 0x1_0000_0000) % 256,
        le_bytes(n, 8)[5] == (n / 0x100_0000_0000) % 256,
        le_bytes(n, 8)[6] == (n / 0x1_0000_0000_0000) % 256,
        le_bytes(n, 8)[7] == (n / 0x100_0000_0000_0000) % 256,
        le_bytes(n, 4) == le_bytes(n, 8).take(4),
{
    assert(((n >> 0u64) & 0xffu64) as u8 == n % 256) by (bit_vector);
    assert(((n >> 8u64) & 0xffu64) as u8 == (n / 256) % 256) by (bit_vector);
    assert(((n >> 16u64) & 0xffu64) as u8 == (n / 0x1_0000) % 256) by (bit_vector);
    assert(((n >> 24u64) & 0xffu64) as u8 == (n / 0x100_0000) % 256) by (bit_vector);
    assert(((n >> 32u64) & 0xffu64) as u8 == (n / 0x1_0000_0000) % 256) by (bit_vector);
    assert(((n >> 40u64) & 0xffu64) as u8 == (n / 0x100_0000_0000) % 256) by (bit_vector);
    assert(((n >> 48u64) & 0xffu64) as u8 == (n / 0x1_0000_0000_0000) % 256) by (bit_vector);
    assert(((n >> 56u64) & 0xffu64) as u8 == (n / 0x100_0000_0000_0000) % 256) by (bit_vector);
    assert(le_bytes(n, 4) =~= le_bytes(n, 8).take(4));
}

/// Where a window stands decides its spread.
pub proof fn law_spread_is_the_hash_of_the_place(dialog_id: i64, from_id: i32)
    ensures
        spread_of(dialog_id, from_id) == fnv_of(
            le_bytes(dialog_id as u64, 8) + le_bytes((from_id as u32) as u64, 4),
        ),
{
}

} // verus!
