//! How many model calls lie ahead, and on what.

use crate::model::Tier;
use crate::order::{ints, lemma_order_places, order, order_of, Key};
use crate::text::{
    dec, has_name, insert_names, lemma_listed, left, listed, push_dec, push_left, strictly_sorted,
    views,
};
use crate::window::{window_views, Window, WindowView};
use vstd::prelude::*;

verus! {

/// What the windows come to.
#[derive(Debug, Clone, Copy, PartialEq, Eq)]
pub struct Load {
    pub messages: u128,
    pub voices: u128,
    pub chars: u128,
    /// Estimate of the input: ~2.5 Cyrillic characters per token, plus the
    /// line overhead and the policy.
    pub tokens: u128,
}

pub open spec fn messages_in(ws: Seq<WindowView>) -> nat
    decreases ws.len(),
{
    if ws.len() == 0 {
        0
    } else {
        messages_in(ws.drop_last()) + ws.last().total as nat
    }
}

pub open spec fn voices_in_all(ws: Seq<WindowView>) -> nat
    decreases ws.len(),
{
    if ws.len() == 0 {
        0
    } else {
        voices_in_all(ws.drop_last()) + ws.last().voices.len()
    }
}

pub open spec fn chars_in_all(ws: Seq<WindowView>) -> nat
    decreases ws.len(),
{
    if ws.len() == 0 {
        0
    } else {
        chars_in_all(ws.drop_last()) + ws.last().chars as nat
    }
}

/// Input tokens: two characters each, and per window sixty lines of 25
/// characters plus the policy.
pub open spec fn tokens_for(ws: Seq<WindowView>) -> nat {
    chars_in_all(ws) / 2 + ws.len() * 1950
}

/// What the windows come to.
pub fn load_of(windows: &Vec<Window>) -> (r: Load)
    ensures
        r.messages == messages_in(window_views(windows@)),
        r.voices == voices_in_all(window_views(windows@)),
        r.chars == chars_in_all(window_views(windows@)),
        r.tokens == tokens_for(window_views(windows@)),
{
    let ghost all = window_views(windows@);
    let mut messages: u128 = 0;
    let mut voices: u128 = 0;
    let mut chars: u128 = 0;
    let mut i: usize = 0;
    assert(all.take(0) =~= Seq::<WindowView>::empty());
    while i < windows.len()
        invariant
            i <= windows@.len(),
            all == window_views(windows@),
            messages == messages_in(all.take(i as int)),
            voices == voices_in_all(all.take(i as int)),
            chars == chars_in_all(all.take(i as int)),
            messages <= i * 0xffff_ffff_ffff_ffff,
            voices <= i * 0xffff_ffff_ffff_ffff,
            chars <= i * 0xffff_ffff_ffff_ffff,
        decreases windows@.len() - i,
    {
        let w: &Window = &windows[i];
        proof {
            assert(all.take(i + 1).drop_last() =~= all.take(i as int));
            assert(all.take(i + 1).last() == w@);
            assert(i * 0xffff_ffff_ffff_ffff + 0xffff_ffff_ffff_ffff <= u128::MAX)
                by (nonlinear_arith)
                requires
                    i <= 0xffff_ffff_ffff_ffff,
            ;
        }
        let spoken: usize = w.voices.len();
        messages = messages + w.total as u128;
        voices = voices + spoken as u128;
        chars = chars + w.chars as u128;
        i += 1;
    }
    proof {
        assert(all.take(i as int) =~= all);
        assert(i * 0xffff_ffff_ffff_ffff <= 0xffff_ffff_ffff_ffff * 0xffff_ffff_ffff_ffff)
            by (nonlinear_arith)
            requires
                i <= 0xffff_ffff_ffff_ffff,
        ;
    }
    let tokens: u128 = chars / 2 + (windows.len() as u128) * 1950;
    Load { messages, voices, chars, tokens }
}

// --- window sizes --------------------------------------------------------

pub open spec fn size_keys(ws: Seq<WindowView>) -> Seq<Key> {
    Seq::new(ws.len(), |i: int| Key(ws[i].total as i128, 0, 0, 0))
}

/// Sizes of the windows in ascending order.
pub open spec fn sizes_of(ws: Seq<WindowView>) -> Seq<usize> {
    Seq::new(ws.len(), |i: int| ws[order_of(size_keys(ws))[i]].total)
}

fn sizes(windows: &Vec<Window>) -> (r: Vec<usize>)
    ensures
        r@ == sizes_of(window_views(windows@)),
{
    let ghost all = window_views(windows@);
    let mut keys: Vec<Key> = Vec::new();
    let mut i: usize = 0;
    while i < windows.len()
        invariant
            i <= windows@.len(),
            all == window_views(windows@),
            keys@ == size_keys(all).take(i as int),
        decreases windows@.len() - i,
    {
        keys.push(Key(windows[i].total as i128, 0, 0, 0));
        assert(all[i as int] == windows@[i as int]@);
        i += 1;
        assert(keys@ =~= size_keys(all).take(i as int));
    }
    assert(keys@ =~= size_keys(all));
    let places: Vec<usize> = order(&keys);
    proof {
        lemma_order_places(keys@, ints(places@));
    }
    let mut out: Vec<usize> = Vec::new();
    let mut j: usize = 0;
    while j < places.len()
        invariant
            j <= places@.len(),
            places@.len() == windows@.len(),
            all == window_views(windows@),
            ints(places@) == order_of(size_keys(all)),
            forall|k: int|
                0 <= k < ints(places@).len() ==> 0 <= #[trigger] ints(places@)[k] < windows@.len(),
            out@ == sizes_of(all).take(j as int),
        decreases places@.len() - j,
    {
        assert(ints(places@)[j as int] == places@[j as int]);
        out.push(windows[places[j]].total);
        j += 1;
        assert(out@ =~= sizes_of(all).take(j as int));
    }
    assert(out@ =~= sizes_of(all));
    out
}

/// Window size drives both price and quality: on a huge context the model
/// starts cutting in slabs instead of aimed ranges.
pub open spec fn size_line(sizes: Seq<usize>) -> Seq<char> {
    let top = sizes.len() - 1;
    if sizes.len() == 0 {
        seq![]
    } else {
        "window size        : med "@ + dec(sizes[top / 2] as nat) + "  p90 "@ + dec(
            sizes[top * 9 / 10] as nat,
        ) + "  p99 "@ + dec(sizes[top * 99 / 100] as nat) + "  max "@ + dec(sizes[top] as nat)
            + "\n"@
    }
}

fn push_size_line(out: &mut String, sizes: &Vec<usize>)
    ensures
        final(out)@ == old(out)@ + size_line(sizes@),
{
    if sizes.len() == 0 {
        assert(out@ =~= old(out)@ + size_line(sizes@));
        return ;
    }
    let top: usize = sizes.len() - 1;
    let p90: usize = ((top as u128) * 9 / 10) as usize;
    let p99: usize = ((top as u128) * 99 / 100) as usize;
    out.append("window size        : med ");
    push_dec(out, sizes[top / 2] as u128);
    out.append("  p90 ");
    push_dec(out, sizes[p90] as u128);
    out.append("  p99 ");
    push_dec(out, sizes[p99] as u128);
    out.append("  max ");
    push_dec(out, sizes[top] as u128);
    out.append("\n");
    assert(out@ =~= old(out)@ + size_line(sizes@));
}

// --- by tier, by axis ----------------------------------------------------

/// How many windows are of a tier.
pub open spec fn of_tier(ws: Seq<WindowView>, t: Tier) -> nat
    decreases ws.len(),
{
    if ws.len() == 0 {
        0
    } else {
        of_tier(ws.drop_last(), t) + if ws.last().tier == t {
            1nat
        } else {
            0nat
        }
    }
}

/// The line of a tier, where a window is of it.
pub open spec fn tier_line(ws: Seq<WindowView>, t: Tier) -> Seq<char> {
    if of_tier(ws, t) == 0 {
        seq![]
    } else {
        "  "@ + t.name() + "  "@ + dec(of_tier(ws, t)) + "\n"@
    }
}

fn push_tier_line(out: &mut String, windows: &Vec<Window>, t: Tier)
    ensures
        final(out)@ == old(out)@ + tier_line(window_views(windows@), t),
{
    let ghost all = window_views(windows@);
    let mut n: usize = 0;
    let mut i: usize = 0;
    assert(all.take(0) =~= Seq::<WindowView>::empty());
    while i < windows.len()
        invariant
            n <= i <= windows@.len(),
            all == window_views(windows@),
            n == of_tier(all.take(i as int), t),
        decreases windows@.len() - i,
    {
        assert(all.take(i + 1).drop_last() =~= all.take(i as int));
        assert(all.take(i + 1).last() == windows@[i as int]@);
        if windows[i].tier == t {
            n += 1;
        }
        i += 1;
    }
    assert(all.take(i as int) =~= all);
    if n > 0 {
        out.append("  ");
        out.append(t.as_str());
        out.append("  ");
        push_dec(out, n as u128);
        out.append("\n");
    }
    assert(out@ =~= old(out)@ + tier_line(all, t));
}

/// How many windows fired on an axis.
pub open spec fn of_axis(ws: Seq<WindowView>, axis: Seq<char>) -> nat
    decreases ws.len(),
{
    if ws.len() == 0 {
        0
    } else {
        of_axis(ws.drop_last(), axis) + if ws.last().axes.contains(axis) {
            1nat
        } else {
            0nat
        }
    }
}

/// Every axis a window fired on.
pub open spec fn axes_in(ws: Seq<WindowView>) -> Set<Seq<char>>
    decreases ws.len(),
{
    if ws.len() == 0 {
        Set::empty()
    } else {
        axes_in(ws.drop_last()).union(ws.last().axes.to_set())
    }
}

pub open spec fn axis_line(ws: Seq<WindowView>, axis: Seq<char>) -> Seq<char> {
    "  "@ + left(axis, 14) + " "@ + dec(of_axis(ws, axis)) + "\n"@
}

/// The lines of a list of axes.
pub open spec fn axis_lines(ws: Seq<WindowView>, axes: Seq<Seq<char>>) -> Seq<char>
    decreases axes.len(),
{
    if axes.len() == 0 {
        seq![]
    } else {
        axis_lines(ws, axes.drop_last()) + axis_line(ws, axes.last())
    }
}

fn push_axis_line(out: &mut String, windows: &Vec<Window>, axis: &str)
    ensures
        final(out)@ == old(out)@ + axis_line(window_views(windows@), axis@),
{
    let ghost all = window_views(windows@);
    let mut n: usize = 0;
    let mut i: usize = 0;
    assert(all.take(0) =~= Seq::<WindowView>::empty());
    while i < windows.len()
        invariant
            n <= i <= windows@.len(),
            all == window_views(windows@),
            n == of_axis(all.take(i as int), axis@),
        decreases windows@.len() - i,
    {
        assert(all.take(i + 1).drop_last() =~= all.take(i as int));
        assert(all.take(i + 1).last() == windows@[i as int]@);
        if has_name(&windows[i].axes, axis) {
            n += 1;
        }
        i += 1;
    }
    assert(all.take(i as int) =~= all);
    out.append("  ");
    push_left(out, axis, 14);
    out.append(" ");
    push_dec(out, n as u128);
    out.append("\n");
    assert(out@ =~= old(out)@ + axis_line(all, axis@));
}

fn push_axis_lines(out: &mut String, windows: &Vec<Window>)
    ensures
        final(out)@ == old(out)@ + axis_lines(
            window_views(windows@),
            listed(axes_in(window_views(windows@))),
        ),
{
    let ghost all = window_views(windows@);
    let mut axes: Vec<String> = Vec::new();
    let mut i: usize = 0;
    proof {
        assert(all.take(0) =~= Seq::<WindowView>::empty());
        assert(views(axes@).to_set() =~= Set::<Seq<char>>::empty());
    }
    while i < windows.len()
        invariant
            i <= windows@.len(),
            all == window_views(windows@),
            strictly_sorted(views(axes@)),
            views(axes@).to_set() == axes_in(all.take(i as int)),
        decreases windows@.len() - i,
    {
        assert(all.take(i + 1).drop_last() =~= all.take(i as int));
        assert(all.take(i + 1).last() == windows@[i as int]@);
        insert_names(&mut axes, &windows[i].axes);
        i += 1;
    }
    proof {
        assert(all.take(i as int) =~= all);
        lemma_listed(views(axes@));
    }
    let ghost names = views(axes@);
    let mut a: usize = 0;
    assert(names.take(0) =~= Seq::<Seq<char>>::empty());
    assert(out@ =~= old(out)@ + axis_lines(all, names.take(0)));
    while a < axes.len()
        invariant
            a <= axes@.len(),
            all == window_views(windows@),
            names == views(axes@),
            out@ == old(out)@ + axis_lines(all, names.take(a as int)),
        decreases axes@.len() - a,
    {
        assert(names.take(a + 1).drop_last() =~= names.take(a as int));
        assert(names.take(a + 1).last() == axes@[a as int]@);
        push_axis_line(out, windows, axes[a].as_str());
        a += 1;
        assert(out@ =~= old(out)@ + axis_lines(all, names.take(a as int)));
    }
    assert(names.take(a as int) =~= names);
}

/// Tokens per call.
pub open spec fn per_call(ws: Seq<WindowView>) -> nat {
    tokens_for(ws) / (if ws.len() == 0 {
        1
    } else {
        ws.len()
    })
}

/// The report on a list of windows. `text` and `tokens` are the characters
/// and the tokens in millions, as they are to be shown.
pub open spec fn report_of(ws: Seq<WindowView>, text: Seq<char>, tokens: Seq<char>) -> Seq<char> {
    Seq::<char>::empty() + "windows (LLM calls): "@ + dec(ws.len()) + "\nmessages in windows: "@
        + dec(messages_in(ws)) + "\n"@ + size_line(sizes_of(ws)) + "voice to transcribe: "@ + dec(
        voices_in_all(ws),
    ) + "\ntext in windows    : "@ + text + "M characters\ninput tokens (est) : "@ + tokens
        + "M (~"@ + dec(per_call(ws)) + " per call)\n\nby tier:\n"@ + tier_line(ws, Tier::T0)
        + tier_line(ws, Tier::T1) + tier_line(ws, Tier::T2) + "\nby axis:\n"@ + axis_lines(
        ws,
        listed(axes_in(ws)),
    )
}

/// How many model calls lie ahead, and on what.
pub fn report(windows: &Vec<Window>, text: &str, tokens: &str) -> (r: String)
    ensures
        r@ == report_of(window_views(windows@), text@, tokens@),
{
    let load: Load = load_of(windows);
    let count: usize = windows.len();
    let by_size: Vec<usize> = sizes(windows);
    let mut out: String = String::new();
    out.append("windows (LLM calls): ");
    push_dec(&mut out, count as u128);
    out.append("\nmessages in windows: ");
    push_dec(&mut out, load.messages);
    out.append("\n");
    push_size_line(&mut out, &by_size);
    out.append("voice to transcribe: ");
    push_dec(&mut out, load.voices);
    out.append("\ntext in windows    : ");
    out.append(text);
    out.append("M characters\ninput tokens (est) : ");
    out.append(tokens);
    out.append("M (~");
    push_dec(
        &mut out,
        load.tokens / (if count == 0 {
            1
        } else {
            count as u128
        }),
    );
    out.append(" per call)\n\nby tier:\n");
    push_tier_line(&mut out, windows, Tier::T0);
    push_tier_line(&mut out, windows, Tier::T1);
    push_tier_line(&mut out, windows, Tier::T2);
    out.append("\nby axis:\n");
    push_axis_lines(&mut out, windows);
    out
}

} // verus!
