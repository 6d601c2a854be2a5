//! Which windows a run takes. Deterministic: two models with the same flags
//! must see the same set, or a bake-off compares samples, not models.

use crate::clock::{day_start, day_start_of, second_view};
use crate::fnv::{fnv_bytes, fnv_of};
use crate::order::{ints, lemma_order_places, order, order_of, picked, Key};
use crate::text::{has_name, insert_names, lemma_listed, listed, same, views};
use crate::window::{window_views, Window, WindowView};
use vstd::prelude::*;

verus! {

/// Selection for a repeat run: keep a window if its anchors reach material
/// newer than the cutoff, or if a rule fired that was not in the dictionary
/// last time. Counted over anchors, because an anchor is the reason for the
/// call and the ±30 messages of context are not.
#[derive(Debug, Clone)]
pub struct Cutoff {
    pub since: i64,
    pub new_rules: Vec<String>,
}

/// A cutoff as plain values.
pub struct CutoffView {
    pub since: i64,
    pub new_rules: Seq<Seq<char>>,
}

impl View for Cutoff {
    type V = CutoffView;

    open spec fn view(&self) -> CutoffView {
        CutoffView { since: self.since, new_rules: views(self.new_rules@) }
    }
}

/// The plain values of an optional cutoff.
pub open spec fn cutoff_view(c: Option<&Cutoff>) -> Option<CutoffView> {
    match c {
        Some(c) => Some(c@),
        None => None,
    }
}

/// Fresh enough, or fired on a rule that is new.
pub open spec fn passes(w: WindowView, cutoff: Option<CutoffView>) -> bool {
    match cutoff {
        Some(c) => w.newest >= c.since || exists|i: int|
            0 <= i < w.rules.len() && c.new_rules.contains(#[trigger] w.rules[i]),
        None => true,
    }
}

/// The windows a cutoff lets through.
pub open spec fn kept(ws: Seq<WindowView>, cutoff: Option<CutoffView>) -> Seq<WindowView> {
    ws.filter(|w: WindowView| passes(w, cutoff))
}

/// The freshest and sharpest first: by tier, then by the number of anchors,
/// then by dialog and place.
pub open spec fn rank_key(w: WindowView) -> Key {
    Key(w.tier.rank() as i128, -(w.anchors.len() as i128) as i128, w.dialog_id as i128, w.from_id as i128)
}

/// By dialog and place.
pub open spec fn place_key(w: WindowView) -> Key {
    Key(w.dialog_id as i128, w.from_id as i128, 0, 0)
}

/// Spread inside an axis.
pub open spec fn spread_key(w: WindowView) -> Key {
    Key(spread_of(w.dialog_id, w.from_id) as i128, 0, 0, 0)
}

/// What a list of windows is sorted by.
pub enum Sorting {
    Rank,
    Place,
    Spread,
}

/// The key of a window under a sorting.
pub open spec fn key_of(w: WindowView, by: Sorting) -> Key {
    match by {
        Sorting::Rank => rank_key(w),
        Sorting::Place => place_key(w),
        Sorting::Spread => spread_key(w),
    }
}

/// The keys of a list of windows.
pub open spec fn keys_of(ws: Seq<WindowView>, by: Sorting) -> Seq<Key> {
    Seq::new(ws.len(), |i: int| key_of(ws[i], by))
}

/// A list of windows sorted, ties in the order they came in.
pub open spec fn sorted(ws: Seq<WindowView>, by: Sorting) -> Seq<WindowView> {
    picked(ws, order_of(keys_of(ws, by)))
}

/// Byte `k` of a number, the least significant first.
pub open spec fn byte_at(n: u64, k: nat) -> u8 {
    ((n >> ((8 * k) as u64)) & 0xffu64) as u8
}

/// The bytes of a number, the least significant first.
pub open spec fn le_bytes(n: u64, width: nat) -> Seq<u8> {
    Seq::new(width, |k: int| byte_at(n, k as nat))
}

/// The hash of a window's place: the bytes of its dialog id and of its first
/// message id, little end first, in two's complement.
pub open spec fn spread_of(dialog_id: i64, from_id: i32) -> u32 {
    fnv_of(le_bytes(dialog_id as u64, 8) + le_bytes((from_id as u32) as u64, 4))
}

fn push_le(out: &mut Vec<u8>, n: u64, width: u64)
    requires
        width <= 8,
    ensures
        final(out)@ == old(out)@ + le_bytes(n, width as nat),
{
    let mut k: u64 = 0;
    assert(out@ =~= old(out)@ + le_bytes(n, 0));
    while k < width
        invariant
            k <= width <= 8,
            out@ == old(out)@ + le_bytes(n, k as nat),
        decreases width - k,
    {
        let b: u8 = ((n >> (8 * k)) & 0xffu64) as u8;
        out.push(b);
        k += 1;
        assert(out@ =~= old(out)@ + le_bytes(n, k as nat));
    }
}

/// Stable spread inside an axis: without it the sample slides into the one or
/// two most talkative dialogs.
pub fn spread(w: &Window) -> (r: u32)
    ensures
        r == spread_of(w.dialog_id, w.from_id),
{
    let mut bytes: Vec<u8> = Vec::new();
    push_le(&mut bytes, w.dialog_id as u64, 8);
    push_le(&mut bytes, (w.from_id as u32) as u64, 4);
    assert(bytes@ =~= le_bytes(w.dialog_id as u64, 8) + le_bytes((w.from_id as u32) as u64, 4));
    fnv_bytes(bytes.as_slice())
}

fn key(w: &Window, by: &Sorting) -> (r: Key)
    ensures
        r == key_of(w@, *by),
{
    match by {
        Sorting::Rank => {
            let count: usize = w.anchors.len();
            Key(
                w.tier.order() as i128,
                -(count as i128),
                w.dialog_id as i128,
                w.from_id as i128,
            )
        },
        Sorting::Place => Key(w.dialog_id as i128, w.from_id as i128, 0, 0),
        Sorting::Spread => Key(spread(w) as i128, 0, 0, 0),
    }
}

fn sort(ws: &Vec<Window>, by: Sorting) -> (r: Vec<Window>)
    ensures
        window_views(r@) == sorted(window_views(ws@), by),
{
    let ghost all = window_views(ws@);
    let mut keys: Vec<Key> = Vec::new();
    let mut i: usize = 0;
    while i < ws.len()
        invariant
            i <= ws@.len(),
            all == window_views(ws@),
            keys@ == keys_of(all, by).take(i as int),
        decreases ws@.len() - i,
    {
        keys.push(key(&ws[i], &by));
        assert(ws@[i as int]@ == all[i as int]);
        i += 1;
        assert(keys@ =~= keys_of(all, by).take(i as int));
    }
    assert(keys@ =~= keys_of(all, by));
    let places: Vec<usize> = order(&keys);
    proof {
        lemma_order_places(keys@, ints(places@));
    }
    let mut out: Vec<Window> = Vec::new();
    let mut j: usize = 0;
    let ghost goal = sorted(all, by);
    while j < places.len()
        invariant
            j <= places@.len(),
            all == window_views(ws@),
            goal == picked(all, ints(places@)),
            forall|k: int|
                0 <= k < ints(places@).len() ==> 0 <= #[trigger] ints(places@)[k] < ws@.len(),
            window_views(out@) == goal.take(j as int),
        decreases places@.len() - j,
    {
        assert(ints(places@)[j as int] == places@[j as int]);
        let ghost was = window_views(out@);
        let w: Window = ws[places[j]].copy();
        out.push(w);
        assert(window_views(out@) =~= was.push(w@));
        assert(w@ == all[places@[j as int] as int]);
        j += 1;
        assert(window_views(out@) =~= goal.take(j as int));
    }
    assert(goal.take(j as int) =~= goal);
    out
}

fn fits(w: &Window, cutoff: Option<&Cutoff>) -> (r: bool)
    ensures
        r == passes(w@, cutoff_view(cutoff)),
{
    match cutoff {
        None => true,
        Some(c) => {
            if w.newest >= c.since {
                return true;
            }
            let mut i: usize = 0;
            while i < w.rules.len()
                invariant
                    i <= w.rules@.len(),
                    cutoff == Some(c),
                    forall|k: int|
                        0 <= k < i ==> !views(c.new_rules@).contains(#[trigger] w@.rules[k]),
                decreases w.rules@.len() - i,
            {
                assert(w@.rules[i as int] == w.rules@[i as int]@);
                if has_name(&c.new_rules, w.rules[i].as_str()) {
                    return true;
                }
                i += 1;
            }
            false
        },
    }
}

fn keep(ws: &Vec<Window>, cutoff: Option<&Cutoff>) -> (r: Vec<Window>)
    ensures
        window_views(r@) == kept(window_views(ws@), cutoff_view(cutoff)),
{
    let ghost all = window_views(ws@);
    let ghost good = |w: WindowView| passes(w, cutoff_view(cutoff));
    let mut out: Vec<Window> = Vec::new();
    let mut i: usize = 0;
    assert(all.take(0).filter(good) =~= Seq::<WindowView>::empty());
    assert(window_views(out@) =~= Seq::<WindowView>::empty());
    while i < ws.len()
        invariant
            i <= ws@.len(),
            all == window_views(ws@),
            good == (|w: WindowView| passes(w, cutoff_view(cutoff))),
            window_views(out@) == all.take(i as int).filter(good),
        decreases ws@.len() - i,
    {
        proof {
            assert(all.take(i + 1) =~= all.take(i as int).push(ws@[i as int]@));
            all.take(i as int).lemma_filter_push(ws@[i as int]@, good);
        }
        if fits(&ws[i], cutoff) {
            let ghost was = window_views(out@);
            let w: Window = ws[i].copy();
            out.push(w);
            assert(window_views(out@) =~= was.push(w@));
        }
        i += 1;
    }
    assert(all.take(i as int) =~= all);
    out
}

// --- the stratified sample -----------------------------------------------

/// The axis a window is counted under: the first by name, none if there is
/// none.
pub open spec fn first_axis(w: WindowView) -> Seq<char> {
    if w.axes.len() == 0 {
        seq![]
    } else {
        w.axes[0]
    }
}

/// The axes windows are counted under, window by window.
pub open spec fn first_axes(ws: Seq<WindowView>) -> Seq<Seq<char>> {
    Seq::new(ws.len(), |i: int| first_axis(ws[i]))
}

/// The windows counted under one axis, spread.
pub open spec fn stratum(ws: Seq<WindowView>, axis: Seq<char>) -> Seq<WindowView> {
    sorted(ws.filter(|w: WindowView| first_axis(w) == axis), Sorting::Spread)
}

/// The windows by axis, the axes in ascending order.
pub open spec fn strata(ws: Seq<WindowView>) -> Seq<Seq<WindowView>> {
    let axes = listed(first_axes(ws).to_set());
    Seq::new(axes.len(), |a: int| stratum(ws, axes[a]))
}

/// The windows dealt in one round: the `i`-th of every group that has one.
pub open spec fn round(groups: Seq<Seq<WindowView>>, i: int) -> Seq<WindowView>
    decreases groups.len(),
{
    if groups.len() == 0 {
        seq![]
    } else {
        let init = round(groups.drop_last(), i);
        if i < groups.last().len() {
            init.push(groups.last()[i])
        } else {
            init
        }
    }
}

/// The windows dealt in the first rounds.
pub open spec fn dealt(groups: Seq<Seq<WindowView>>, rounds: nat) -> Seq<WindowView>
    decreases rounds,
{
    if rounds == 0 {
        seq![]
    } else {
        dealt(groups, (rounds - 1) as nat) + round(groups, rounds - 1)
    }
}

/// How many rounds it takes to deal everything.
pub open spec fn deepest(groups: Seq<Seq<WindowView>>) -> nat
    decreases groups.len(),
{
    if groups.len() == 0 {
        0
    } else {
        let init = deepest(groups.drop_last());
        if groups.last().len() > init {
            groups.last().len()
        } else {
            init
        }
    }
}

/// The first `n` of a list.
pub open spec fn first_of(ws: Seq<WindowView>, n: usize) -> Seq<WindowView> {
    if n < ws.len() {
        ws.take(n as int)
    } else {
        ws
    }
}

/// A sample: axis by axis in turn until there are `n`, by dialog and place.
pub open spec fn sampled(ws: Seq<WindowView>, n: usize) -> Seq<WindowView> {
    let groups = strata(ws);
    sorted(first_of(dealt(groups, deepest(groups)), n), Sorting::Place)
}

/// What a run takes.
pub open spec fn selected(
    ws: Seq<WindowView>,
    limit: Option<usize>,
    sample: Option<usize>,
    cutoff: Option<CutoffView>,
) -> Seq<WindowView> {
    let ranked = sorted(kept(ws, cutoff), Sorting::Rank);
    match (sample, limit) {
        (Some(n), _) => sampled(ranked, n),
        (None, Some(n)) => first_of(ranked, n),
        (None, None) => ranked,
    }
}

fn axis_of(w: &Window) -> (r: String)
    ensures
        r@ == first_axis(w@),
{
    if w.axes.len() == 0 {
        let none: String = String::new();
        assert(none@ =~= first_axis(w@));
        none
    } else {
        assert(w@.axes[0] == w.axes@[0]@);
        w.axes[0].clone()
    }
}

fn axis_names(ws: &Vec<Window>) -> (r: Vec<String>)
    ensures
        views(r@) == listed(first_axes(window_views(ws@)).to_set()),
{
    let ghost all = window_views(ws@);
    let mut every: Vec<String> = Vec::new();
    let mut i: usize = 0;
    while i < ws.len()
        invariant
            i <= ws@.len(),
            all == window_views(ws@),
            views(every@) == first_axes(all).take(i as int),
        decreases ws@.len() - i,
    {
        let ghost was = views(every@);
        let name: String = axis_of(&ws[i]);
        every.push(name);
        assert(views(every@) =~= was.push(name@));
        assert(all[i as int] == ws@[i as int]@);
        i += 1;
        assert(views(every@) =~= first_axes(all).take(i as int));
    }
    assert(first_axes(all).take(i as int) =~= first_axes(all));
    let mut names: Vec<String> = Vec::new();
    assert(views(names@) =~= Seq::<Seq<char>>::empty());
    insert_names(&mut names, &every);
    proof {
        assert(Seq::<Seq<char>>::empty().to_set().union(first_axes(all).to_set())
            =~= first_axes(all).to_set());
        lemma_listed(views(names@));
    }
    names
}

fn under_axis(ws: &Vec<Window>, axis: &str) -> (r: Vec<Window>)
    ensures
        window_views(r@) == stratum(window_views(ws@), axis@),
{
    let ghost all = window_views(ws@);
    let ghost good = |w: WindowView| first_axis(w) == axis@;
    let mut out: Vec<Window> = Vec::new();
    let mut i: usize = 0;
    assert(all.take(0).filter(good) =~= Seq::<WindowView>::empty());
    assert(window_views(out@) =~= Seq::<WindowView>::empty());
    while i < ws.len()
        invariant
            i <= ws@.len(),
            all == window_views(ws@),
            good == (|w: WindowView| first_axis(w) == axis@),
            window_views(out@) == all.take(i as int).filter(good),
        decreases ws@.len() - i,
    {
        proof {
            assert(all.take(i + 1) =~= all.take(i as int).push(ws@[i as int]@));
            all.take(i as int).lemma_filter_push(ws@[i as int]@, good);
        }
        let name: String = axis_of(&ws[i]);
        if same(name.as_str(), axis) {
            let ghost was = window_views(out@);
            let w: Window = ws[i].copy();
            out.push(w);
            assert(window_views(out@) =~= was.push(w@));
        }
        i += 1;
    }
    assert(all.take(i as int) =~= all);
    sort(&out, Sorting::Spread)
}

/// The plain values of grouped windows.
pub open spec fn group_views(v: Seq<Vec<Window>>) -> Seq<Seq<WindowView>> {
    Seq::new(v.len(), |i: int| window_views(v[i]@))
}

fn group(ws: &Vec<Window>) -> (r: Vec<Vec<Window>>)
    ensures
        group_views(r@) == strata(window_views(ws@)),
{
    let names: Vec<String> = axis_names(ws);
    let ghost goal = strata(window_views(ws@));
    let mut out: Vec<Vec<Window>> = Vec::new();
    let mut a: usize = 0;
    while a < names.len()
        invariant
            a <= names@.len(),
            names@.len() == goal.len(),
            goal == strata(window_views(ws@)),
            views(names@) == listed(first_axes(window_views(ws@)).to_set()),
            group_views(out@) == goal.take(a as int),
        decreases names@.len() - a,
    {
        let ghost was = group_views(out@);
        let g: Vec<Window> = under_axis(ws, names[a].as_str());
        assert(views(names@)[a as int] == names@[a as int]@);
        out.push(g);
        assert(group_views(out@) =~= was.push(window_views(g@)));
        a += 1;
        assert(group_views(out@) =~= goal.take(a as int));
    }
    assert(goal.take(a as int) =~= goal);
    out
}

fn deal_round(out: &mut Vec<Window>, groups: &Vec<Vec<Window>>, i: usize)
    ensures
        window_views(final(out)@) == window_views(old(out)@) + round(
            group_views(groups@),
            i as int,
        ),
{
    let ghost all = group_views(groups@);
    let ghost start = window_views(out@);
    let mut g: usize = 0;
    assert(all.take(0) =~= Seq::<Seq<WindowView>>::empty());
    assert(start + round(all.take(0), i as int) =~= start);
    while g < groups.len()
        invariant
            g <= groups@.len(),
            all == group_views(groups@),
            window_views(out@) == start + round(all.take(g as int), i as int),
        decreases groups@.len() - g,
    {
        let ghost now = all.take(g + 1);
        assert(now.drop_last() =~= all.take(g as int));
        assert(now.last() == window_views(groups@[g as int]@));
        if i < groups[g].len() {
            let ghost was = window_views(out@);
            let w: Window = groups[g][i].copy();
            assert(w@ == now.last()[i as int]);
            out.push(w);
            assert(window_views(out@) =~= was.push(w@));
        }
        g += 1;
        assert(window_views(out@) =~= start + round(now, i as int));
    }
    assert(all.take(g as int) =~= all);
}

fn deal(groups: &Vec<Vec<Window>>) -> (r: Vec<Window>)
    ensures
        window_views(r@) == dealt(group_views(groups@), deepest(group_views(groups@))),
{
    let ghost all = group_views(groups@);
    let mut rounds: usize = 0;
    let mut g: usize = 0;
    assert(all.take(0) =~= Seq::<Seq<WindowView>>::empty());
    while g < groups.len()
        invariant
            g <= groups@.len(),
            all == group_views(groups@),
            rounds == deepest(all.take(g as int)),
        decreases groups@.len() - g,
    {
        assert(all.take(g + 1).drop_last() =~= all.take(g as int));
        assert(all.take(g + 1).last() == window_views(groups@[g as int]@));
        if groups[g].len() > rounds {
            rounds = groups[g].len();
        }
        g += 1;
    }
    assert(all.take(g as int) =~= all);

    let mut out: Vec<Window> = Vec::new();
    let mut i: usize = 0;
    assert(window_views(out@) =~= dealt(all, 0));
    while i < rounds
        invariant
            i <= rounds,
            all == group_views(groups@),
            window_views(out@) == dealt(all, i as nat),
        decreases rounds - i,
    {
        deal_round(&mut out, groups, i);
        i += 1;
    }
    out
}

fn shorten(ws: &mut Vec<Window>, n: usize)
    ensures
        window_views(final(ws)@) == first_of(window_views(old(ws)@), n),
{
    if n < ws.len() {
        ws.truncate(n);
    }
    assert(window_views(ws@) =~= first_of(window_views(old(ws)@), n));
}

/// Which windows a run takes.
///
/// `limit` takes the head — the freshest and sharpest; `sample` stratifies by
/// axis, because comparing models needs spread. `cutoff` is applied first, or
/// the head of the list would be spent on material already paid for.
pub fn select(
    windows: Vec<Window>,
    limit: Option<usize>,
    sample: Option<usize>,
    cutoff: Option<&Cutoff>,
) -> (r: Vec<Window>)
    ensures
        window_views(r@) == selected(window_views(windows@), limit, sample, cutoff_view(cutoff)),
{
    let fit: Vec<Window> = keep(&windows, cutoff);
    let mut ranked: Vec<Window> = sort(&fit, Sorting::Rank);
    match sample {
        Some(n) => {
            let groups: Vec<Vec<Window>> = group(&ranked);
            let mut taken: Vec<Window> = deal(&groups);
            shorten(&mut taken, n);
            sort(&taken, Sorting::Place)
        },
        None => {
            match limit {
                Some(n) => {
                    shorten(&mut ranked, n);
                    ranked
                },
                None => ranked,
            }
        },
    }
}

// --- from the command line -----------------------------------------------

/// Why there is no cutoff.
#[derive(Debug)]
pub enum CutoffError {
    /// New rules without a date: that would mean «look only at the new
    /// rules», which is not the question the flag exists for.
    RulesWithoutDate,
    /// No date, and why.
    BadDate(String),
}

/// The words for an error.
pub open spec fn error_text(e: CutoffError) -> Seq<char> {
    match e {
        CutoffError::RulesWithoutDate => "--new-rule only works together with --since"@,
        CutoffError::BadDate(why) => "--since expects a date like 2026-08-10: "@ + why@,
    }
}

impl CutoffError {
    /// The error in words.
    pub fn message(&self) -> (r: String)
        ensures
            r@ == error_text(*self),
    {
        match self {
            CutoffError::RulesWithoutDate => {
                "--new-rule only works together with --since".to_owned()
            },
            CutoffError::BadDate(why) => {
                let mut out: String = "--since expects a date like 2026-08-10: ".to_owned();
                out.append(why.as_str());
                out
            },
        }
    }
}

/// The cutoff of a date, if one was given: the second it begins at, or what is
/// wrong with it. Without a date there is no filter at all.
pub open spec fn is_cutoff(
    since: Option<Result<i64, Seq<char>>>,
    new_rules: Seq<Seq<char>>,
    r: Result<Option<Cutoff>, CutoffError>,
) -> bool {
    match since {
        None => if new_rules.len() == 0 {
            r matches Ok(c) && c is None
        } else {
            r matches Err(e) && e is RulesWithoutDate
        },
        Some(Ok(at)) => r matches Ok(Some(c)) && c@ == (CutoffView { since: at, new_rules }),
        Some(Err(why)) => r matches Err(CutoffError::BadDate(text)) && text@ == why,
    }
}

/// Cutoff for a repeat run, from the second it begins at.
pub fn cutoff_at(
    since: Option<Result<i64, String>>,
    new_rules: Vec<String>,
) -> (r: Result<Option<Cutoff>, CutoffError>)
    ensures
        is_cutoff(
            match since {
                Some(at) => Some(second_view(at)),
                None => None,
            },
            views(new_rules@),
            r,
        ),
{
    assert(views(new_rules@).len() == new_rules@.len());
    match since {
        None => {
            if new_rules.len() > 0 {
                Err(CutoffError::RulesWithoutDate)
            } else {
                Ok(None)
            }
        },
        Some(Ok(at)) => Ok(Some(Cutoff { since: at, new_rules })),
        Some(Err(why)) => Err(CutoffError::BadDate(why)),
    }
}

/// Cutoff for a repeat run. Without a date there is no filter at all.
pub fn cutoff(
    since: Option<&str>,
    new_rules: Vec<String>,
) -> (r: Result<Option<Cutoff>, CutoffError>)
    ensures
        is_cutoff(
            match since {
                Some(day) => Some(day_start_of(day@)),
                None => None,
            },
            views(new_rules@),
            r,
        ),
{
    match since {
        None => cutoff_at(None, new_rules),
        Some(day) => cutoff_at(Some(day_start(day)), new_rules),
    }
}

/// How many windows a run takes: a dry run takes one unless told otherwise.
pub fn limit_for(limit: Option<usize>, dry_run: bool) -> (r: Option<usize>)
    ensures
        r == (if limit is Some || !dry_run {
            limit
        } else {
            Some(1)
        }),
{
    if limit.is_some() || !dry_run {
        limit
    } else {
        Some(1)
    }
}

} // verus!
