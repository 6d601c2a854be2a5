//! Clustering hits into windows: one window is one LLM call.
//!
//! A window is measured in messages, not ids: ids come with gaps, so «±30»
//! by id would be an arbitrary number of messages.

use crate::config::{
    CLUSTER_GAP, HIT_THRESHOLD, IGNORE_DIALOGS, IGNORE_KINDS, MAX_WINDOW, WINDOW,
};
use crate::model::Tier;
pub use crate::select::{select, Cutoff};
pub use crate::window_report::report;
use crate::text::{
    copy_names, insert_names, lemma_listed, listed, pieces, same, split, strictly_sorted, views,
};
use vstd::prelude::*;

verus! {

#[derive(Debug, Clone)]
pub struct Window {
    pub dialog_id: i64,
    pub from_id: i32,
    pub to_id: i32,
    /// The messages that made this window exist.
    pub anchors: Vec<i32>,
    /// In ascending order, each once.
    pub axes: Vec<String>,
    /// Harshest tier among the anchors — it goes into the prompt as a label.
    pub tier: Tier,
    /// Voice messages inside the window: only these go to transcription.
    pub voices: Vec<i32>,
    pub total: usize,
    /// Characters of text inside the window — an estimate of the prompt size.
    pub chars: usize,
    /// Date of the newest anchor and the rules the anchors fired on, in
    /// ascending order, each once. Used by `Cutoff` only.
    pub newest: i64,
    pub rules: Vec<String>,
}

/// A window as plain values.
#[verifier::ext_equal]
pub struct WindowView {
    pub dialog_id: i64,
    pub from_id: i32,
    pub to_id: i32,
    pub anchors: Seq<i32>,
    pub axes: Seq<Seq<char>>,
    pub tier: Tier,
    pub voices: Seq<i32>,
    pub total: usize,
    pub chars: usize,
    pub newest: i64,
    pub rules: Seq<Seq<char>>,
}

impl View for Window {
    type V = WindowView;

    open spec fn view(&self) -> WindowView {
        WindowView {
            dialog_id: self.dialog_id,
            from_id: self.from_id,
            to_id: self.to_id,
            anchors: self.anchors@,
            axes: views(self.axes@),
            tier: self.tier,
            voices: self.voices@,
            total: self.total,
            chars: self.chars,
            newest: self.newest,
            rules: views(self.rules@),
        }
    }
}

/// The plain values of a list of windows.
pub open spec fn window_views(v: Seq<Window>) -> Seq<WindowView> {
    Seq::new(v.len(), |i: int| v[i]@)
}

/// A copy of a list of ids.
fn copy_ids(ids: &Vec<i32>) -> (r: Vec<i32>)
    ensures
        r@ == ids@,
{
    let mut out: Vec<i32> = Vec::new();
    let mut i: usize = 0;
    while i < ids.len()
        invariant
            i <= ids@.len(),
            out@ == ids@.take(i as int),
        decreases ids@.len() - i,
    {
        out.push(ids[i]);
        i += 1;
        assert(out@ =~= ids@.take(i as int));
    }
    assert(ids@.take(i as int) =~= ids@);
    out
}

impl Window {
    /// A window of the same values.
    pub fn copy(&self) -> (r: Window)
        ensures
            r@ == self@,
    {
        Window {
            dialog_id: self.dialog_id,
            from_id: self.from_id,
            to_id: self.to_id,
            anchors: copy_ids(&self.anchors),
            axes: copy_names(&self.axes),
            tier: self.tier,
            voices: copy_ids(&self.voices),
            total: self.total,
            chars: self.chars,
            newest: self.newest,
            rules: copy_names(&self.rules),
        }
    }
}

/// A message with its hits aggregated.
#[derive(Debug, Clone)]
pub struct Row {
    pub msg_id: i32,
    pub date: i64,
    /// Summed over the hits.
    pub priority: u64,
    pub protected: bool,
    pub axes: Vec<String>,
    pub rules: Vec<String>,
    /// Harshest tier among the hits.
    pub tier: Option<Tier>,
    pub voice: bool,
    pub chars: usize,
}

/// The names in a list written with commas.
pub open spec fn names_in(list: Option<&str>) -> Set<Seq<char>> {
    match list {
        Some(s) => pieces(s@, ',').to_set(),
        None => Set::empty(),
    }
}

/// The names in a list written with commas, in ascending order, each once.
pub fn split_names(list: Option<&str>) -> (r: Vec<String>)
    ensures
        views(r@) == listed(names_in(list)),
        strictly_sorted(views(r@)),
{
    let mut out: Vec<String> = Vec::new();
    assert(views(out@).to_set() =~= Set::<Seq<char>>::empty());
    if let Some(s) = list {
        let parts: Vec<String> = split(s, ',');
        insert_names(&mut out, &parts);
        assert(Set::<Seq<char>>::empty().union(views(parts@).to_set()) =~= views(parts@).to_set());
    }
    proof {
        lemma_listed(views(out@));
    }
    out
}

/// A kind of media that is spoken.
pub open spec fn is_spoken(media: Option<&str>) -> bool {
    media matches Some(m) && (m@ == "voice_message"@ || m@ == "video_message"@)
}

/// Whether a kind of media is spoken.
pub fn is_voice(media: Option<&str>) -> (r: bool)
    ensures
        r == is_spoken(media),
{
    match media {
        Some(m) => same(m, "voice_message") || same(m, "video_message"),
        None => false,
    }
}

// --- anchors -------------------------------------------------------------

/// Sharp enough to spend a call on, and not whitelisted.
pub open spec fn anchors_window(r: Row) -> bool {
    !r.protected && r.priority >= HIT_THRESHOLD
}

/// Summed priority plus the whitelist. Priority only decides whether a model
/// call is worth spending — the verdict is the model's.
pub fn is_anchor(r: &Row) -> (b: bool)
    ensures
        b == anchors_window(*r),
{
    !r.protected && r.priority >= HIT_THRESHOLD
}

/// Places of the anchors among the messages of a dialog.
pub open spec fn anchor_places(rows: Seq<Row>) -> Seq<usize>
    decreases rows.len(),
{
    if rows.len() == 0 {
        seq![]
    } else {
        let init = anchor_places(rows.drop_last());
        if anchors_window(rows.last()) {
            init.push((rows.len() - 1) as usize)
        } else {
            init
        }
    }
}

/// Places cut into clusters wherever the distance to the next is over `gap`.
pub open spec fn clusters_of(places: Seq<usize>, gap: int) -> Seq<Seq<usize>>
    decreases places.len(),
{
    if places.len() == 0 {
        seq![]
    } else {
        let init = clusters_of(places.drop_last(), gap);
        let a = places.last();
        if init.len() > 0 && a - init.last().last() <= gap {
            init.drop_last().push(init.last().push(a))
        } else {
            init.push(seq![a])
        }
    }
}

/// What clustering keeps true: nothing empty, and every place comes from the
/// list.
proof fn lemma_clusters(places: Seq<usize>, gap: int, top: int)
    requires
        forall|i: int| 0 <= i < places.len() ==> (#[trigger] places[i]) < top,
    ensures
        forall|c: int|
            0 <= c < clusters_of(places, gap).len() ==> (#[trigger] clusters_of(
                places,
                gap,
            )[c]).len() > 0,
        forall|c: int, m: int|
            0 <= c < clusters_of(places, gap).len() && 0 <= m < clusters_of(places, gap)[c].len()
                ==> (#[trigger] clusters_of(places, gap)[c][m]) < top,
        places.len() > 0 ==> clusters_of(places, gap).len() > 0 && clusters_of(
            places,
            gap,
        ).last().last() == places.last(),
    decreases places.len(),
{
    if places.len() > 0 {
        let init = places.drop_last();
        assert forall|i: int| 0 <= i < init.len() implies (#[trigger] init[i]) < top by {
            assert(init[i] == places[i]);
        }
        lemma_clusters(init, gap, top);
        let was = clusters_of(init, gap);
        let now = clusters_of(places, gap);
        let a = places.last();
        assert(a == places[places.len() - 1]);
        assert forall|c: int| 0 <= c < now.len() implies (#[trigger] now[c]).len() > 0 by {
            if c < was.len() - 1 {
                assert(now[c] == was[c]);
            } else if c == was.len() - 1 {
                assert(was[c].len() > 0);
            }
        }
        assert forall|c: int, m: int|
            0 <= c < now.len() && 0 <= m < now[c].len() implies (#[trigger] now[c][m]) < top by {
            if c < was.len() - 1 {
                assert(now[c] == was[c]);
                assert(was[c][m] < top);
            } else if c == was.len() - 1 {
                if m < was[c].len() {
                    assert(now[c][m] == was[c][m]);
                }
            }
        }
    }
}

/// The lists of places, as plain values.
pub open spec fn place_lists(v: Seq<Vec<usize>>) -> Seq<Seq<usize>> {
    Seq::new(v.len(), |i: int| v[i]@)
}

proof fn lemma_anchor_places(rows: Seq<Row>)
    ensures
        forall|i: int|
            0 <= i < anchor_places(rows).len() ==> (#[trigger] anchor_places(rows)[i])
                < rows.len() || rows.len() > usize::MAX,
        forall|i: int, j: int|
            0 <= i < j < anchor_places(rows).len() && rows.len() <= usize::MAX ==> (
            #[trigger] anchor_places(rows)[i]) < (#[trigger] anchor_places(rows)[j]),
    decreases rows.len(),
{
    if rows.len() > 0 {
        lemma_anchor_places(rows.drop_last());
        if rows.len() <= usize::MAX {
            let init = anchor_places(rows.drop_last());
            let now = anchor_places(rows);
            assert forall|i: int| 0 <= i < now.len() implies (#[trigger] now[i]) < rows.len() by {
                if i < init.len() {
                    assert(now[i] == init[i]);
                }
            }
            assert forall|i: int, j: int| 0 <= i < j < now.len() implies (#[trigger] now[i]) < (
            #[trigger] now[j]) by {
                assert(now[i] == init[i]);
                if j < init.len() {
                    assert(now[j] == init[j]);
                }
            }
        }
    }
}

/// The anchors of a dialog, clustered.
fn clusters(rows: &Vec<Row>, gap: usize) -> (r: Vec<Vec<usize>>)
    ensures
        place_lists(r@) == clusters_of(anchor_places(rows@), gap as int),
        forall|c: int| 0 <= c < r@.len() ==> (#[trigger] r@[c])@.len() > 0,
        forall|c: int, m: int|
            0 <= c < r@.len() && 0 <= m < r@[c]@.len() ==> (#[trigger] r@[c]@[m]) < rows@.len(),
{
    let mut out: Vec<Vec<usize>> = Vec::new();
    let mut a: usize = 0;
    let ghost mut seen: Seq<usize> = Seq::empty();
    assert(rows@.take(0) =~= Seq::<Row>::empty());
    assert(place_lists(out@) =~= clusters_of(seen, gap as int));
    while a < rows.len()
        invariant
            a <= rows@.len(),
            seen == anchor_places(rows@.take(a as int)),
            place_lists(out@) == clusters_of(seen, gap as int),
            forall|i: int| 0 <= i < seen.len() ==> (#[trigger] seen[i]) < a,
        decreases rows@.len() - a,
    {
        assert(rows@.take(a + 1).drop_last() =~= rows@.take(a as int));
        if is_anchor(&rows[a]) {
            let ghost was = place_lists(out@);
            proof {
                lemma_clusters(seen, gap as int, a as int);
                assert(seen.push(a).drop_last() =~= seen);
            }
            let k: usize = out.len();
            let mut merged: bool = false;
            if k > 0 {
                assert(was[k - 1] == out@[k - 1]@);
                assert(was[k - 1].len() > 0);
                let size: usize = out[k - 1].len();
                let end: usize = out[k - 1][size - 1];
                assert(was[k - 1][size - 1] < a);
                if a - end <= gap {
                    let mut tail: Vec<usize> = Vec::new();
                    match out.pop() {
                        Some(t) => {
                            tail = t;
                        },
                        None => {},
                    }
                    tail.push(a);
                    out.push(tail);
                    merged = true;
                    assert(place_lists(out@) =~= was.drop_last().push(was.last().push(a)));
                }
            }
            if !merged {
                let mut fresh: Vec<usize> = Vec::new();
                fresh.push(a);
                out.push(fresh);
                assert(fresh@ =~= seq![a]);
                assert(place_lists(out@) =~= was.push(seq![a]));
            }
            proof {
                seen = seen.push(a);
            }
        }
        a += 1;
    }
    proof {
        assert(rows@.take(a as int) =~= rows@);
        lemma_clusters(seen, gap as int, rows@.len() as int);
        assert forall|c: int| 0 <= c < out@.len() implies (#[trigger] out@[c])@.len() > 0 by {
            assert(out@[c]@ == place_lists(out@)[c]);
        }
        assert forall|c: int, m: int|
            0 <= c < out@.len() && 0 <= m < out@[c]@.len() implies (#[trigger] out@[c]@[m])
            < rows@.len() by {
            assert(out@[c]@ == place_lists(out@)[c]);
            assert(place_lists(out@)[c][m] < rows@.len());
        }
    }
    out
}

/// First and last place of a cluster's window: `pad` messages on either side,
/// as far as the dialog goes.
pub open spec fn span_of(members: Seq<usize>, pad: int, len: int) -> (int, int) {
    (
        if members[0] < pad {
            0
        } else {
            members[0] - pad
        },
        if members.last() + pad < len {
            members.last() + pad
        } else {
            len - 1
        },
    )
}

fn span(members: &Vec<usize>, pad: usize, len: usize) -> (r: (usize, usize))
    requires
        members@.len() > 0,
        members@.last() < len,
    ensures
        r.0 == span_of(members@, pad as int, len as int).0,
        r.1 == span_of(members@, pad as int, len as int).1,
{
    let start: usize = members[0];
    let end: usize = members[members.len() - 1];
    let lo: usize = if start < pad {
        0
    } else {
        start - pad
    };
    let hi: usize = if len - 1 - end < pad {
        len - 1
    } else {
        end + pad
    };
    (lo, hi)
}

/// Where the windows of a dialog begin and end, by place.
pub fn cluster(rows: &Vec<Row>, pad: usize, gap: usize) -> (r: Vec<(usize, usize)>)
    ensures
        r@.len() == clusters_of(anchor_places(rows@), gap as int).len(),
        forall|c: int|
            0 <= c < r@.len() ==> {
                let at = span_of(
                    clusters_of(anchor_places(rows@), gap as int)[c],
                    pad as int,
                    rows@.len() as int,
                );
                (#[trigger] r@[c]).0 == at.0 && r@[c].1 == at.1
            },
{
    let groups: Vec<Vec<usize>> = clusters(rows, gap);
    let mut out: Vec<(usize, usize)> = Vec::new();
    let mut c: usize = 0;
    let ghost all = clusters_of(anchor_places(rows@), gap as int);
    while c < groups.len()
        invariant
            c <= groups@.len(),
            all == clusters_of(anchor_places(rows@), gap as int),
            place_lists(groups@) == all,
            groups@.len() == all.len(),
            forall|c: int| 0 <= c < groups@.len() ==> (#[trigger] groups@[c])@.len() > 0,
            forall|c: int, m: int|
                0 <= c < groups@.len() && 0 <= m < groups@[c]@.len() ==> (#[trigger] groups@[c]@[m])
                    < rows@.len(),
            out@.len() == c,
            forall|k: int|
                0 <= k < c ==> {
                    let at = span_of(all[k], pad as int, rows@.len() as int);
                    (#[trigger] out@[k]).0 == at.0 && out@[k].1 == at.1
                },
        decreases groups@.len() - c,
    {
        assert(groups@[c as int]@ == all[c as int]);
        assert(groups@[c as int]@[groups@[c as int]@.len() - 1] < rows@.len());
        out.push(span(&groups[c], pad, rows.len()));
        c += 1;
    }
    out
}

// --- windows of a dialog -------------------------------------------------

/// The axes the given messages fired on.
pub open spec fn axes_at(rows: Seq<Row>, members: Seq<usize>) -> Set<Seq<char>>
    decreases members.len(),
{
    if members.len() == 0 {
        Set::empty()
    } else {
        axes_at(rows, members.drop_last()).union(
            views(rows[members.last() as int].axes@).to_set(),
        )
    }
}

/// The rules the given messages fired on.
pub open spec fn rules_at(rows: Seq<Row>, members: Seq<usize>) -> Set<Seq<char>>
    decreases members.len(),
{
    if members.len() == 0 {
        Set::empty()
    } else {
        rules_at(rows, members.drop_last()).union(
            views(rows[members.last() as int].rules@).to_set(),
        )
    }
}

/// The date of the newest of the given messages; dates before the epoch do
/// not count.
pub open spec fn newest_at(rows: Seq<Row>, members: Seq<usize>) -> i64
    decreases members.len(),
{
    if members.len() == 0 {
        0
    } else {
        let init = newest_at(rows, members.drop_last());
        let date = rows[members.last() as int].date;
        if date > init {
            date
        } else {
            init
        }
    }
}

/// The harshest tier of the given messages.
pub open spec fn harshest_at(rows: Seq<Row>, members: Seq<usize>) -> Tier
    decreases members.len(),
{
    if members.len() == 0 {
        Tier::T2
    } else {
        let init = harshest_at(rows, members.drop_last());
        match rows[members.last() as int].tier {
            Some(t) => if t.rank() < init.rank() {
                t
            } else {
                init
            },
            None => init,
        }
    }
}

/// Ids of the messages at the given places.
pub open spec fn ids_at(rows: Seq<Row>, members: Seq<usize>) -> Seq<i32> {
    Seq::new(members.len(), |i: int| rows[members[i] as int].msg_id)
}

/// Ids of the voice messages from place `lo` up to place `hi`.
pub open spec fn voices_between(rows: Seq<Row>, lo: int, hi: int) -> Seq<i32>
    decreases hi - lo,
{
    if hi <= lo {
        seq![]
    } else {
        let init = voices_between(rows, lo, hi - 1);
        if rows[hi - 1].voice {
            init.push(rows[hi - 1].msg_id)
        } else {
            init
        }
    }
}

/// Characters of text from place `lo` up to place `hi`.
pub open spec fn chars_between(rows: Seq<Row>, lo: int, hi: int) -> nat
    decreases hi - lo,
{
    if hi <= lo {
        0
    } else {
        chars_between(rows, lo, hi - 1) + rows[hi - 1].chars as nat
    }
}

/// The window of one cluster.
pub open spec fn window_at(
    dialog_id: i64,
    rows: Seq<Row>,
    members: Seq<usize>,
    pad: int,
) -> WindowView {
    let (lo, hi) = span_of(members, pad, rows.len() as int);
    WindowView {
        dialog_id,
        from_id: rows[lo].msg_id,
        to_id: rows[hi].msg_id,
        anchors: ids_at(rows, members),
        axes: listed(axes_at(rows, members)),
        tier: harshest_at(rows, members),
        voices: voices_between(rows, lo, hi + 1),
        total: (hi - lo + 1) as usize,
        chars: chars_between(rows, lo, hi + 1) as usize,
        newest: newest_at(rows, members),
        rules: listed(rules_at(rows, members)),
    }
}

/// The windows of a dialog, one for each cluster of anchors.
pub open spec fn windows_of(dialog_id: i64, rows: Seq<Row>, pad: int, gap: int) -> Seq<WindowView> {
    let groups = clusters_of(anchor_places(rows), gap);
    Seq::new(groups.len(), |c: int| window_at(dialog_id, rows, groups[c], pad))
}

proof fn lemma_chars_monotone(rows: Seq<Row>, lo: int, mid: int, hi: int)
    requires
        lo <= mid <= hi,
    ensures
        chars_between(rows, lo, mid) <= chars_between(rows, lo, hi),
    decreases hi - mid,
{
    if mid < hi {
        lemma_chars_monotone(rows, lo, mid, hi - 1);
    }
}

proof fn lemma_chars_inside(rows: Seq<Row>, lo: int, hi: int)
    requires
        0 <= lo <= hi,
    ensures
        chars_between(rows, lo, hi) <= chars_between(rows, 0, hi),
    decreases hi - lo,
{
    if lo < hi {
        lemma_chars_inside(rows, lo, hi - 1);
    }
}

/// The window around one cluster.
fn window_around(dialog_id: i64, rows: &Vec<Row>, members: &Vec<usize>, pad: usize) -> (r: Window)
    requires
        members@.len() > 0,
        forall|m: int| 0 <= m < members@.len() ==> (#[trigger] members@[m]) < rows@.len(),
        members@[0] <= members@.last(),
        chars_between(rows@, 0, rows@.len() as int) <= usize::MAX,
    ensures
        r@ == window_at(dialog_id, rows@, members@, pad as int),
{
    assert(members@[members@.len() - 1] < rows@.len());
    let (lo, hi): (usize, usize) = span(members, pad, rows.len());

    let mut axes: Vec<String> = Vec::new();
    let mut rules: Vec<String> = Vec::new();
    let mut newest: i64 = 0;
    let mut tier: Tier = Tier::T2;
    let mut anchors: Vec<i32> = Vec::new();
    let mut k: usize = 0;
    proof {
        assert(views(axes@).to_set() =~= Set::<Seq<char>>::empty());
        assert(views(rules@).to_set() =~= Set::<Seq<char>>::empty());
        assert(members@.take(0) =~= Seq::<usize>::empty());
        assert(ids_at(rows@, members@.take(0)) =~= Seq::<i32>::empty());
    }
    while k < members.len()
        invariant
            k <= members@.len(),
            forall|m: int| 0 <= m < members@.len() ==> (#[trigger] members@[m]) < rows@.len(),
            strictly_sorted(views(axes@)),
            strictly_sorted(views(rules@)),
            views(axes@).to_set() == axes_at(rows@, members@.take(k as int)),
            views(rules@).to_set() == rules_at(rows@, members@.take(k as int)),
            newest == newest_at(rows@, members@.take(k as int)),
            tier == harshest_at(rows@, members@.take(k as int)),
            anchors@ == ids_at(rows@, members@.take(k as int)),
        decreases members@.len() - k,
    {
        let m: usize = members[k];
        let ghost now = members@.take(k + 1);
        assert(now.drop_last() =~= members@.take(k as int));
        assert(now.last() == m);
        insert_names(&mut axes, &rows[m].axes);
        insert_names(&mut rules, &rows[m].rules);
        if rows[m].date > newest {
            newest = rows[m].date;
        }
        match rows[m].tier {
            Some(t) => {
                if t.order() < tier.order() {
                    tier = t;
                }
            },
            None => {},
        }
        anchors.push(rows[m].msg_id);
        k += 1;
        assert(anchors@ =~= ids_at(rows@, now));
    }
    assert(members@.take(k as int) =~= members@);

    let mut voices: Vec<i32> = Vec::new();
    let mut chars: usize = 0;
    let mut i: usize = lo;
    let count: usize = rows.len();
    while i <= hi
        invariant
            lo <= i <= hi + 1,
            hi < count,
            count == rows@.len(),
            chars_between(rows@, 0, rows@.len() as int) <= usize::MAX,
            voices@ == voices_between(rows@, lo as int, i as int),
            chars == chars_between(rows@, lo as int, i as int),
        decreases hi + 1 - i,
    {
        proof {
            lemma_chars_inside(rows@, lo as int, i + 1);
            lemma_chars_monotone(rows@, 0, i + 1, rows@.len() as int);
        }
        if rows[i].voice {
            voices.push(rows[i].msg_id);
        }
        chars = chars + rows[i].chars;
        i += 1;
    }
    proof {
        lemma_listed(views(axes@));
        lemma_listed(views(rules@));
    }
    Window {
        dialog_id,
        from_id: rows[lo].msg_id,
        to_id: rows[hi].msg_id,
        anchors,
        axes,
        tier,
        voices,
        total: hi - lo + 1,
        chars,
        newest,
        rules,
    }
}

/// Places in ascending order stay in ascending order inside a cluster.
proof fn lemma_clusters_ascend(places: Seq<usize>, gap: int)
    requires
        forall|i: int, j: int|
            0 <= i < j < places.len() ==> (#[trigger] places[i]) < (#[trigger] places[j]),
    ensures
        forall|c: int|
            0 <= c < clusters_of(places, gap).len() ==> (#[trigger] clusters_of(
                places,
                gap,
            )[c]).len() > 0 && clusters_of(places, gap)[c][0] <= clusters_of(
                places,
                gap,
            )[c].last(),
    decreases places.len(),
{
    if places.len() > 0 {
        let init = places.drop_last();
        assert forall|i: int, j: int| 0 <= i < j < init.len() implies (#[trigger] init[i]) < (
        #[trigger] init[j]) by {
            assert(init[i] == places[i] && init[j] == places[j]);
        }
        lemma_clusters_ascend(init, gap);
        let was = clusters_of(init, gap);
        let now = clusters_of(places, gap);
        let top = places.last() as int;
        assert forall|i: int| 0 <= i < init.len() implies (#[trigger] init[i]) < top by {
            assert(init[i] == places[i] && places[places.len() - 1] == top);
        }
        lemma_clusters(init, gap, top);
        assert forall|c: int| 0 <= c < now.len() implies (#[trigger] now[c]).len() > 0 && now[c][0]
            <= now[c].last() by {
            if c < was.len() - 1 {
                assert(now[c] == was[c]);
            } else if c == was.len() - 1 {
                assert(was[c].len() > 0);
                assert(was[c][0] < top);
            }
        }
    }
}

/// The windows of a dialog, padding and gap as given.
fn build_padded(rows: &Vec<Row>, dialog_id: i64, pad: usize, gap: usize) -> (r: Vec<Window>)
    requires
        chars_between(rows@, 0, rows@.len() as int) <= usize::MAX,
    ensures
        window_views(r@) == windows_of(dialog_id, rows@, pad as int, gap as int),
{
    let groups: Vec<Vec<usize>> = clusters(rows, gap);
    let ghost all = clusters_of(anchor_places(rows@), gap as int);
    let ghost goal = windows_of(dialog_id, rows@, pad as int, gap as int);
    let mut out: Vec<Window> = Vec::new();
    let mut c: usize = 0;
    let count: usize = rows.len();
    proof {
        assert(rows@.len() == count);
        lemma_anchor_places(rows@);
        lemma_clusters_ascend(anchor_places(rows@), gap as int);
    }
    while c < groups.len()
        invariant
            c <= groups@.len(),
            all == clusters_of(anchor_places(rows@), gap as int),
            goal == windows_of(dialog_id, rows@, pad as int, gap as int),
            place_lists(groups@) == all,
            groups@.len() == all.len(),
            chars_between(rows@, 0, rows@.len() as int) <= usize::MAX,
            forall|c: int| 0 <= c < groups@.len() ==> (#[trigger] groups@[c])@.len() > 0,
            forall|c: int, m: int|
                0 <= c < groups@.len() && 0 <= m < groups@[c]@.len() ==> (#[trigger] groups@[c]@[m])
                    < rows@.len(),
            forall|c: int|
                0 <= c < all.len() ==> (#[trigger] all[c]).len() > 0 && all[c][0] <= all[c].last(),
            window_views(out@) == goal.take(c as int),
        decreases groups@.len() - c,
    {
        assert(groups@[c as int]@ == all[c as int]);
        let ghost was = window_views(out@);
        let w: Window = window_around(dialog_id, rows, &groups[c], pad);
        out.push(w);
        assert(window_views(out@) =~= was.push(w@));
        c += 1;
        assert(window_views(out@) =~= goal.take(c as int));
    }
    assert(goal.take(c as int) =~= goal);
    out
}

/// The windows of a dialog.
pub fn build_dialog(rows: &Vec<Row>, dialog_id: i64) -> (r: Vec<Window>)
    requires
        chars_between(rows@, 0, rows@.len() as int) <= usize::MAX,
    ensures
        window_views(r@) == windows_of(dialog_id, rows@, WINDOW as int, CLUSTER_GAP as int),
{
    build_padded(rows, dialog_id, WINDOW, CLUSTER_GAP)
}

/// A dialog with its messages, by ascending id.
#[derive(Debug, Clone)]
pub struct Loaded {
    pub id: i64,
    pub kind: String,
    pub rows: Vec<Row>,
}

/// Left out of triage, by id or by kind.
pub open spec fn left_out(id: i64, kind: Seq<char>) -> bool {
    ||| exists|i: int| 0 <= i < IGNORE_DIALOGS@.len() && #[trigger] IGNORE_DIALOGS@[i] == id
    ||| exists|i: int| 0 <= i < IGNORE_KINDS@.len() && #[trigger] IGNORE_KINDS@[i]@ == kind
}

/// Whether a dialog is left out of triage.
pub fn ignored(id: i64, kind: &str) -> (r: bool)
    ensures
        r == left_out(id, kind@),
{
    let ids: &[i64] = &IGNORE_DIALOGS;
    let mut i: usize = 0;
    while i < ids.len()
        invariant
            i <= ids@.len(),
            ids@ == IGNORE_DIALOGS@,
            forall|k: int| 0 <= k < i ==> #[trigger] IGNORE_DIALOGS@[k] != id,
        decreases ids@.len() - i,
    {
        if ids[i] == id {
            assert(IGNORE_DIALOGS@[i as int] == id);
            return true;
        }
        i += 1;
    }
    let kinds: &[&'static str] = &IGNORE_KINDS;
    let mut j: usize = 0;
    while j < kinds.len()
        invariant
            j <= kinds@.len(),
            kinds@ == IGNORE_KINDS@,
            forall|k: int| 0 <= k < j ==> #[trigger] IGNORE_KINDS@[k]@ != kind@,
        decreases kinds@.len() - j,
    {
        if same(kinds[j], kind) {
            assert(IGNORE_KINDS@[j as int]@ == kind@);
            return true;
        }
        j += 1;
    }
    false
}

/// The windows of all dialogs that are not left out, one dialog after
/// another.
pub open spec fn all_windows(dialogs: Seq<Loaded>) -> Seq<WindowView>
    decreases dialogs.len(),
{
    if dialogs.len() == 0 {
        seq![]
    } else {
        let d = dialogs.last();
        all_windows(dialogs.drop_last()) + (if left_out(d.id, d.kind@) {
            seq![]
        } else {
            windows_of(d.id, d.rows@, WINDOW as int, CLUSTER_GAP as int)
        })
    }
}

proof fn lemma_window_views_add(a: Seq<Window>, b: Seq<Window>)
    ensures
        window_views(a + b) == window_views(a) + window_views(b),
{
    assert(window_views(a + b) =~= window_views(a) + window_views(b));
}

/// The windows of a corpus.
pub fn build(dialogs: &Vec<Loaded>) -> (r: Vec<Window>)
    requires
        forall|d: int|
            0 <= d < dialogs@.len() ==> chars_between(
                (#[trigger] dialogs@[d]).rows@,
                0,
                dialogs@[d].rows@.len() as int,
            ) <= usize::MAX,
    ensures
        window_views(r@) == all_windows(dialogs@),
{
    let mut out: Vec<Window> = Vec::new();
    let mut d: usize = 0;
    assert(dialogs@.take(0) =~= Seq::<Loaded>::empty());
    assert(window_views(out@) =~= Seq::<WindowView>::empty());
    while d < dialogs.len()
        invariant
            d <= dialogs@.len(),
            forall|d: int|
                0 <= d < dialogs@.len() ==> chars_between(
                    (#[trigger] dialogs@[d]).rows@,
                    0,
                    dialogs@[d].rows@.len() as int,
                ) <= usize::MAX,
            window_views(out@) == all_windows(dialogs@.take(d as int)),
        decreases dialogs@.len() - d,
    {
        assert(dialogs@.take(d + 1).drop_last() =~= dialogs@.take(d as int));
        let one: &Loaded = &dialogs[d];
        let ghost was = out@;
        if !ignored(one.id, one.kind.as_str()) {
            let mut more: Vec<Window> = build_dialog(&one.rows, one.id);
            proof {
                lemma_window_views_add(was, more@);
            }
            out.append(&mut more);
        }
        d += 1;
        assert(window_views(out@) =~= all_windows(dialogs@.take(d as int)));
    }
    assert(dialogs@.take(d as int) =~= dialogs@);
    out
}

// --- widening ------------------------------------------------------------

/// Messages of a dialog come by ascending id.
pub open spec fn by_id(rows: Seq<Row>) -> bool {
    forall|i: int, j: int|
        0 <= i < j < rows.len() ==> (#[trigger] rows[i]).msg_id < (#[trigger] rows[j]).msg_id
}

/// How many messages have an id below the given one.
pub open spec fn count_below(rows: Seq<Row>, id: i32) -> nat
    decreases rows.len(),
{
    if rows.len() == 0 {
        0
    } else {
        count_below(rows.drop_last(), id) + if rows.last().msg_id < id {
            1nat
        } else {
            0nat
        }
    }
}

/// How many messages have an id up to and with the given one.
pub open spec fn count_upto(rows: Seq<Row>, id: i32) -> nat
    decreases rows.len(),
{
    if rows.len() == 0 {
        0
    } else {
        count_upto(rows.drop_last(), id) + if rows.last().msg_id <= id {
            1nat
        } else {
            0nat
        }
    }
}

/// The id `n` messages before the given one; the first message where the
/// dialog does not go back that far.
pub open spec fn stepped_back(rows: Seq<Row>, from: i32, n: int) -> i32 {
    let below = count_below(rows, from);
    if n == 0 || rows.len() == 0 {
        from
    } else if n <= below {
        rows[below - n].msg_id
    } else {
        rows[0].msg_id
    }
}

/// The id `n` messages after the given one; the last message where the dialog
/// does not go on that far.
pub open spec fn stepped_on(rows: Seq<Row>, to: i32, n: int) -> i32 {
    let upto = count_upto(rows, to);
    if n == 0 || rows.len() == 0 {
        to
    } else if upto + n <= rows.len() {
        rows[upto + n - 1].msg_id
    } else {
        rows.last().msg_id
    }
}

/// The message has an id in the range.
pub open spec fn in_range(r: Row, from: i32, to: i32) -> bool {
    from <= r.msg_id <= to
}

/// How many messages have an id in the range.
pub open spec fn count_in(rows: Seq<Row>, from: i32, to: i32) -> nat
    decreases rows.len(),
{
    if rows.len() == 0 {
        0
    } else {
        count_in(rows.drop_last(), from, to) + if in_range(rows.last(), from, to) {
            1nat
        } else {
            0nat
        }
    }
}

/// Characters of text in the range.
pub open spec fn chars_in(rows: Seq<Row>, from: i32, to: i32) -> nat
    decreases rows.len(),
{
    if rows.len() == 0 {
        0
    } else {
        chars_in(rows.drop_last(), from, to) + if in_range(rows.last(), from, to) {
            rows.last().chars as nat
        } else {
            0nat
        }
    }
}

/// Ids of the voice messages in the range.
pub open spec fn voices_in(rows: Seq<Row>, from: i32, to: i32) -> Seq<i32>
    decreases rows.len(),
{
    if rows.len() == 0 {
        seq![]
    } else {
        let init = voices_in(rows.drop_last(), from, to);
        if in_range(rows.last(), from, to) && rows.last().voice {
            init.push(rows.last().msg_id)
        } else {
            init
        }
    }
}

/// How many more messages a window may take.
pub open spec fn room_of(total: usize) -> int {
    if total < MAX_WINDOW {
        MAX_WINDOW - total
    } else {
        0
    }
}

/// What is not negative of a request.
pub open spec fn wish(x: i64) -> int {
    if x > 0 {
        x as int
    } else {
        0
    }
}

/// One side's share of the room: the request is split proportionally, so one
/// side cannot eat the ceiling.
pub open spec fn share_of(side: i64, other: i64, room: int) -> int {
    let asked = wish(side) + wish(other);
    if asked == 0 {
        0
    } else {
        wish(side) * room / asked
    }
}

/// The window widened on request.
pub open spec fn widened(rows: Seq<Row>, w: WindowView, before: i64, after: i64) -> WindowView {
    let room = room_of(w.total);
    if room == 0 {
        w
    } else {
        let from_id = stepped_back(rows, w.from_id, share_of(before, after, room));
        let to_id = stepped_on(rows, w.to_id, share_of(after, before, room));
        WindowView {
            from_id,
            to_id,
            total: count_in(rows, from_id, to_id) as usize,
            chars: chars_in(rows, from_id, to_id) as usize,
            voices: voices_in(rows, from_id, to_id),
            ..w
        }
    }
}

proof fn lemma_share(side: int, asked: int, room: int)
    requires
        0 <= side <= asked,
        0 < asked,
        0 <= room,
    ensures
        0 <= side * room / asked <= room,
{
    assert(0 <= side * room <= asked * room) by (nonlinear_arith)
        requires
            0 <= side <= asked,
            0 <= room,
    ;
    assert(0 <= side * room / asked <= room) by (nonlinear_arith)
        requires
            0 <= side * room <= asked * room,
            0 < asked,
            0 <= room,
    ;
}

fn share(side: i64, other: i64, room: i64) -> (r: usize)
    requires
        0 <= room <= MAX_WINDOW,
    ensures
        r == share_of(side, other, room as int),
        r <= room,
{
    let mine: i128 = if side > 0 {
        side as i128
    } else {
        0
    };
    let theirs: i128 = if other > 0 {
        other as i128
    } else {
        0
    };
    let asked: i128 = mine + theirs;
    if asked == 0 {
        return 0;
    }
    proof {
        lemma_share(mine as int, asked as int, room as int);
        assert(mine * room <= 0x7fff_ffff_ffff_ffff * 0x7fff_ffff_ffff_ffff) by (nonlinear_arith)
            requires
                0 <= mine <= 0x7fff_ffff_ffff_ffff,
                0 <= room <= 0x7fff_ffff_ffff_ffff,
        ;
        assert(0 <= mine * room) by (nonlinear_arith)
            requires
                0 <= mine,
                0 <= room,
        ;
    }
    (mine * (room as i128) / asked) as usize
}

/// The id `n` messages before/after this one. The edge is not an error.
fn step(rows: &Vec<Row>, from: i32, n: usize, back: bool) -> (r: i32)
    ensures
        r == (if back {
            stepped_back(rows@, from, n as int)
        } else {
            stepped_on(rows@, from, n as int)
        }),
{
    if n == 0 || rows.len() == 0 {
        return from;
    }
    let mut passed: usize = 0;
    let mut i: usize = 0;
    assert(rows@.take(0) =~= Seq::<Row>::empty());
    while i < rows.len()
        invariant
            passed <= i <= rows@.len(),
            passed == (if back {
                count_below(rows@.take(i as int), from)
            } else {
                count_upto(rows@.take(i as int), from)
            }),
        decreases rows@.len() - i,
    {
        assert(rows@.take(i + 1).drop_last() =~= rows@.take(i as int));
        if rows[i].msg_id < from || (!back && rows[i].msg_id == from) {
            passed += 1;
        }
        i += 1;
    }
    assert(rows@.take(i as int) =~= rows@);
    if back {
        if n <= passed {
            if n == 0 {
                from
            } else {
                rows[passed - n].msg_id
            }
        } else {
            rows[0].msg_id
        }
    } else if n <= rows.len() - passed {
        rows[passed + (n - 1)].msg_id
    } else {
        rows[rows.len() - 1].msg_id
    }
}

proof fn lemma_chars_in_prefix(rows: Seq<Row>, k: int, from: i32, to: i32)
    requires
        0 <= k <= rows.len(),
    ensures
        chars_in(rows.take(k), from, to) <= chars_in(rows, from, to),
        chars_in(rows, from, to) <= chars_between(rows, 0, rows.len() as int),
    decreases rows.len(),
{
    if rows.len() > 0 {
        let init = rows.drop_last();
        lemma_chars_same(init, rows, init.len() as int);
        if k < rows.len() {
            assert(rows.take(k) =~= init.take(k));
            lemma_chars_in_prefix(init, k, from, to);
        } else {
            assert(rows.take(k) =~= rows);
            lemma_chars_in_prefix(init, 0, from, to);
        }
    } else {
        assert(rows.take(k) =~= rows);
    }
}

proof fn lemma_chars_same(a: Seq<Row>, b: Seq<Row>, n: int)
    requires
        0 <= n <= a.len(),
        n <= b.len(),
        forall|i: int| 0 <= i < n ==> a[i] == b[i],
    ensures
        chars_between(a, 0, n) == chars_between(b, 0, n),
    decreases n,
{
    if n > 0 {
        lemma_chars_same(a, b, n - 1);
    }
}

/// How much lies in a range of ids: messages, characters, voice messages.
fn measure(rows: &Vec<Row>, from: i32, to: i32) -> (r: (usize, usize, Vec<i32>))
    requires
        chars_between(rows@, 0, rows@.len() as int) <= usize::MAX,
    ensures
        r.0 == count_in(rows@, from, to),
        r.1 == chars_in(rows@, from, to),
        r.2@ == voices_in(rows@, from, to),
{
    let mut total: usize = 0;
    let mut chars: usize = 0;
    let mut voices: Vec<i32> = Vec::new();
    let mut i: usize = 0;
    assert(rows@.take(0) =~= Seq::<Row>::empty());
    while i < rows.len()
        invariant
            total <= i <= rows@.len(),
            chars_between(rows@, 0, rows@.len() as int) <= usize::MAX,
            total == count_in(rows@.take(i as int), from, to),
            chars == chars_in(rows@.take(i as int), from, to),
            voices@ == voices_in(rows@.take(i as int), from, to),
        decreases rows@.len() - i,
    {
        proof {
            assert(rows@.take(i + 1).drop_last() =~= rows@.take(i as int));
            lemma_chars_in_prefix(rows@, i + 1, from, to);
        }
        let r: &Row = &rows[i];
        if from <= r.msg_id && r.msg_id <= to {
            total += 1;
            chars = chars + r.chars;
            if r.voice {
                voices.push(r.msg_id);
            }
        }
        i += 1;
    }
    assert(rows@.take(i as int) =~= rows@);
    (total, chars, voices)
}

/// Widen a window on the model's request, up to `MAX_WINDOW`. By position
/// among the messages of its dialog.
pub fn expand(rows: &Vec<Row>, w: &Window, before: i64, after: i64) -> (r: Window)
    requires
        by_id(rows@),
        chars_between(rows@, 0, rows@.len() as int) <= usize::MAX,
    ensures
        r@ == widened(rows@, w@, before, after),
{
    let mut out: Window = w.copy();
    if w.total as u64 >= MAX_WINDOW as u64 {
        return out;
    }
    let room: i64 = MAX_WINDOW - (w.total as i64);
    out.from_id = step(rows, w.from_id, share(before, after, room), true);
    out.to_id = step(rows, w.to_id, share(after, before, room), false);
    let (total, chars, voices): (usize, usize, Vec<i32>) = measure(rows, out.from_id, out.to_id);
    out.total = total;
    out.chars = chars;
    out.voices = voices;
    out
}

} // verus!