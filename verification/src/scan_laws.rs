//! What a scan finds, told from the messages themselves.

use crate::dict::{matches_in, protects, DictionaryView, MatchView};
use crate::model::{Axis, HitView, Layer, MessageView, Tier};
use crate::norm::normalized;
use crate::scan::{
    albums, bond, bond_hits, hit_ids, hits_of, in_albums, keyword_hits, last_at, lemma_bond_found,
    lemma_bonded_is_hit, lemma_has_place, lemma_hit_ids, lemma_in_albums, lemma_last_at,
    lemma_replies_to, parents, replies_to, safe_ids,
};
use vstd::prelude::*;

verus! {

// --- topology ------------------------------------------------------------------

/// No two messages of the dialog share an id.
pub open spec fn ids_differ(msgs: Seq<MessageView>) -> bool {
    forall|i: int, j: int|
        0 <= i < j < msgs.len() ==> (#[trigger] msgs[i]).msg_id != (#[trigger] msgs[j]).msg_id
}

/// Some hit is on the message of that id.
pub open spec fn is_hit(hits: Seq<HitView>, id: i32) -> bool {
    exists|i: int| 0 <= i < hits.len() && (#[trigger] hits[i]).msg_id == id
}

/// Message `k` was hit and replies to the message of that id.
pub open spec fn hit_replies_to(
    msgs: Seq<MessageView>,
    hits: Seq<HitView>,
    k: int,
    id: i32,
) -> bool {
    &&& 0 <= k < msgs.len()
    &&& is_hit(hits, msgs[k].msg_id)
    &&& msgs[k].reply_to == Some(id)
}

/// Message `k` was hit and belongs to the album.
pub open spec fn hit_in_album(msgs: Seq<MessageView>, hits: Seq<HitView>, k: int, g: i64) -> bool {
    &&& 0 <= k < msgs.len()
    &&& is_hit(hits, msgs[k].msg_id)
    &&& msgs[k].grouped_id == Some(g)
}

/// A message that was hit replies to it.
pub open spec fn is_replied_by_hit(msgs: Seq<MessageView>, hits: Seq<HitView>, i: int) -> bool {
    exists|k: int| #[trigger] hit_replies_to(msgs, hits, k, msgs[i].msg_id)
}

/// It replies to a message that was hit.
pub open spec fn replies_to_hit(msgs: Seq<MessageView>, hits: Seq<HitView>, i: int) -> bool {
    msgs[i].reply_to matches Some(p) && is_hit(hits, p)
}

/// It belongs to an album of which a message was hit.
pub open spec fn shares_album(msgs: Seq<MessageView>, hits: Seq<HitView>, i: int) -> bool {
    msgs[i].grouped_id matches Some(g) && exists|k: int| #[trigger] hit_in_album(msgs, hits, k, g)
}

proof fn lemma_ids(hits: Seq<HitView>, id: i32)
    ensures
        hit_ids(hits).contains(id) == is_hit(hits, id),
    decreases hits.len(),
{
    if is_hit(hits, id) {
        let i = choose|i: int| 0 <= i < hits.len() && (#[trigger] hits[i]).msg_id == id;
        lemma_hit_ids(hits, i);
    }
    if hits.len() > 0 && hit_ids(hits).contains(id) {
        let init = hits.drop_last();
        if hits.last().msg_id == id {
            assert(hits[hits.len() - 1].msg_id == id);
        } else {
            lemma_ids(init, id);
            let i = choose|i: int| 0 <= i < init.len() && (#[trigger] init[i]).msg_id == id;
            assert(hits[i] == init[i]);
        }
    }
}

proof fn lemma_only_place(msgs: Seq<MessageView>, i: int)
    requires
        ids_differ(msgs),
        0 <= i < msgs.len(),
    ensures
        last_at(msgs, msgs[i].msg_id) == Some(i),
{
    lemma_has_place(msgs, i);
    lemma_last_at(msgs, msgs[i].msg_id);
    let k = last_at(msgs, msgs[i].msg_id)->0;
    if k < i {
        assert(msgs[k].msg_id != msgs[i].msg_id);
    } else if i < k {
        assert(msgs[i].msg_id != msgs[k].msg_id);
    }
}

proof fn lemma_hit_part(hits: Seq<HitView>, id: i32)
    requires
        hits.len() > 0,
        is_hit(hits.drop_last(), id),
    ensures
        is_hit(hits, id),
{
    let init = hits.drop_last();
    let i = choose|i: int| 0 <= i < init.len() && (#[trigger] init[i]).msg_id == id;
    assert(hits[i] == init[i]);
}

proof fn lemma_parents(msgs: Seq<MessageView>, hits: Seq<HitView>, id: i32)
    requires
        ids_differ(msgs),
    ensures
        parents(msgs, hits).contains(id) <==> exists|k: int|
            #[trigger] hit_replies_to(msgs, hits, k, id),
    decreases hits.len(),
{
    if hits.len() > 0 {
        let init = hits.drop_last();
        lemma_parents(msgs, init, id);
        let last = hits.last().msg_id;
        lemma_last_at(msgs, last);
        assert(hits[hits.len() - 1].msg_id == last);
        if parents(msgs, hits).contains(id) {
            if parents(msgs, init).contains(id) {
                let k = choose|k: int| #[trigger] hit_replies_to(msgs, init, k, id);
                lemma_hit_part(hits, msgs[k].msg_id);
                assert(hit_replies_to(msgs, hits, k, id));
            } else {
                let k = last_at(msgs, last)->0;
                assert(is_hit(hits, msgs[k].msg_id));
                assert(hit_replies_to(msgs, hits, k, id));
            }
        }
        if exists|k: int| #[trigger] hit_replies_to(msgs, hits, k, id) {
            let k = choose|k: int| #[trigger] hit_replies_to(msgs, hits, k, id);
            let i = choose|i: int|
                0 <= i < hits.len() && (#[trigger] hits[i]).msg_id == msgs[k].msg_id;
            lemma_only_place(msgs, k);
            if i < init.len() {
                assert(init[i] == hits[i]);
                assert(hit_replies_to(msgs, init, k, id));
            }
        }
    } else {
        assert forall|k: int| !#[trigger] hit_replies_to(msgs, hits, k, id) by {}
    }
}

proof fn lemma_albums(msgs: Seq<MessageView>, hits: Seq<HitView>, g: i64)
    requires
        ids_differ(msgs),
    ensures
        albums(msgs, hits).contains(g) <==> exists|k: int|
            #[trigger] hit_in_album(msgs, hits, k, g),
    decreases hits.len(),
{
    if hits.len() > 0 {
        let init = hits.drop_last();
        lemma_albums(msgs, init, g);
        let last = hits.last().msg_id;
        lemma_last_at(msgs, last);
        assert(hits[hits.len() - 1].msg_id == last);
        if albums(msgs, hits).contains(g) {
            if albums(msgs, init).contains(g) {
                let k = choose|k: int| #[trigger] hit_in_album(msgs, init, k, g);
                lemma_hit_part(hits, msgs[k].msg_id);
                assert(hit_in_album(msgs, hits, k, g));
            } else {
                let k = last_at(msgs, last)->0;
                assert(is_hit(hits, msgs[k].msg_id));
                assert(hit_in_album(msgs, hits, k, g));
            }
        }
        if exists|k: int| #[trigger] hit_in_album(msgs, hits, k, g) {
            let k = choose|k: int| #[trigger] hit_in_album(msgs, hits, k, g);
            let i = choose|i: int|
                0 <= i < hits.len() && (#[trigger] hits[i]).msg_id == msgs[k].msg_id;
            lemma_only_place(msgs, k);
            if i < init.len() {
                assert(init[i] == hits[i]);
                assert(hit_in_album(msgs, init, k, g));
            }
        }
    } else {
        assert forall|k: int| !#[trigger] hit_in_album(msgs, hits, k, g) by {}
    }
}

proof fn lemma_album_member(msgs: Seq<MessageView>, groups: Set<i64>, id: i32) -> (k: int)
    requires
        in_albums(msgs, groups).contains(id),
    ensures
        0 <= k < msgs.len(),
        msgs[k].msg_id == id,
        msgs[k].grouped_id matches Some(g) && groups.contains(g),
    decreases msgs.len(),
{
    if msgs.last().msg_id == id && (msgs.last().grouped_id matches Some(g) && groups.contains(g)) {
        msgs.len() - 1
    } else {
        let k = lemma_album_member(msgs.drop_last(), groups, id);
        assert(msgs.drop_last()[k] == msgs[k]);
        k
    }
}

proof fn lemma_replier(msgs: Seq<MessageView>, ids: Set<i32>, id: i32) -> (k: int)
    requires
        replies_to(msgs, ids).contains(id),
    ensures
        0 <= k < msgs.len(),
        msgs[k].msg_id == id,
        msgs[k].reply_to matches Some(p) && ids.contains(p),
    decreases msgs.len(),
{
    if msgs.last().msg_id == id && (msgs.last().reply_to matches Some(p) && ids.contains(p)) {
        msgs.len() - 1
    } else {
        let k = lemma_replier(msgs.drop_last(), ids, id);
        assert(msgs.drop_last()[k] == msgs[k]);
        k
    }
}

proof fn lemma_same_place(msgs: Seq<MessageView>, i: int, k: int)
    requires
        ids_differ(msgs),
        0 <= i < msgs.len(),
        0 <= k < msgs.len(),
        msgs[i].msg_id == msgs[k].msg_id,
    ensures
        i == k,
{
    if i < k {
        assert(msgs[i].msg_id != msgs[k].msg_id);
    } else if k < i {
        assert(msgs[k].msg_id != msgs[i].msg_id);
    }
}

proof fn lemma_bond(msgs: Seq<MessageView>, hits: Seq<HitView>, i: int)
    requires
        ids_differ(msgs),
        0 <= i < msgs.len(),
    ensures
        bond(msgs, hits, msgs[i].msg_id) == (if is_hit(hits, msgs[i].msg_id) {
            None
        } else if shares_album(msgs, hits, i) {
            Some("same_album"@)
        } else if is_replied_by_hit(msgs, hits, i) {
            Some("replied_by_hit"@)
        } else if replies_to_hit(msgs, hits, i) {
            Some("reply_to_hit"@)
        } else {
            None
        }),
{
    let id = msgs[i].msg_id;
    lemma_ids(hits, id);
    lemma_parents(msgs, hits, id);
    let groups = albums(msgs, hits);
    if in_albums(msgs, groups).contains(id) {
        let k = lemma_album_member(msgs, groups, id);
        lemma_same_place(msgs, i, k);
        lemma_albums(msgs, hits, msgs[i].grouped_id->0);
    }
    if shares_album(msgs, hits, i) {
        lemma_albums(msgs, hits, msgs[i].grouped_id->0);
        lemma_in_albums(msgs, groups, i);
    }
    let ids = hit_ids(hits);
    if replies_to(msgs, ids).contains(id) {
        let k = lemma_replier(msgs, ids, id);
        lemma_same_place(msgs, i, k);
        lemma_ids(hits, msgs[i].reply_to->0);
    }
    if replies_to_hit(msgs, hits, i) {
        lemma_ids(hits, msgs[i].reply_to->0);
        lemma_replies_to(msgs, ids, i);
    }
}

/// A message that was not hit is pulled in exactly where it shares an album
/// with a hit, a hit replies to it, or it replies to a hit, however far apart
/// the two stand; and the hit it gets names the closest of the three.
pub proof fn law_topology_pulls_what_belongs_together(
    msgs: Seq<MessageView>,
    hits: Seq<HitView>,
    now: i64,
    i: int,
)
    requires
        ids_differ(msgs),
        0 <= i < msgs.len(),
    ensures
        is_hit(bond_hits(msgs, hits, now, msgs.len() as int), msgs[i].msg_id) <==> !is_hit(
            hits,
            msgs[i].msg_id,
        ) && (shares_album(msgs, hits, i) || is_replied_by_hit(msgs, hits, i) || replies_to_hit(
            msgs,
            hits,
            i,
        )),
        forall|n: int|
            0 <= n < bond_hits(msgs, hits, now, msgs.len() as int).len() && (#[trigger] bond_hits(
                msgs,
                hits,
                now,
                msgs.len() as int,
            )[n]).msg_id == msgs[i].msg_id ==> {
                let h = bond_hits(msgs, hits, now, msgs.len() as int)[n];
                &&& h.dialog_id == msgs[i].dialog_id
                &&& h.axis == Axis::Politics
                &&& h.layer == Layer::Topology
                &&& h.tier == Tier::of_age(now - msgs[i].date)
                &&& h.priority == 500 * h.tier.weight_factor()
                &&& !h.protected
                &&& h.surface is None
                &&& h.term == h.rule_id
                &&& shares_album(msgs, hits, i) ==> h.rule_id == "same_album"@
                &&& !shares_album(msgs, hits, i) && is_replied_by_hit(msgs, hits, i) ==> h.rule_id
                    == "replied_by_hit"@
                &&& !shares_album(msgs, hits, i) && !is_replied_by_hit(msgs, hits, i) ==> h.rule_id
                    == "reply_to_hit"@
            },
{
    let all = bond_hits(msgs, hits, now, msgs.len() as int);
    let id = msgs[i].msg_id;
    lemma_bond(msgs, hits, i);
    lemma_only_place(msgs, i);
    if bond(msgs, hits, id) is Some {
        lemma_bond_found(msgs, hits, now, id, msgs.len() as int);
        let n = choose|n: int| 0 <= n < all.len() && (#[trigger] all[n]).msg_id == id;
        assert(is_hit(all, id));
    }
    assert forall|n: int| 0 <= n < all.len() && (#[trigger] all[n]).msg_id == id implies {
        let h = all[n];
        &&& bond(msgs, hits, id) == Some(h.rule_id)
        &&& h.dialog_id == msgs[i].dialog_id
        &&& h.axis == Axis::Politics
        &&& h.layer == Layer::Topology
        &&& h.tier == Tier::of_age(now - msgs[i].date)
        &&& h.priority == 500 * h.tier.weight_factor()
        &&& !h.protected
        &&& h.surface is None
        &&& h.term == h.rule_id
    } by {
        lemma_bond_hit(msgs, hits, now, msgs.len() as int, n, i);
    }
}

proof fn lemma_bond_hit(
    msgs: Seq<MessageView>,
    hits: Seq<HitView>,
    now: i64,
    k: int,
    n: int,
    i: int,
)
    requires
        ids_differ(msgs),
        0 <= k <= msgs.len(),
        0 <= i < msgs.len(),
        0 <= n < bond_hits(msgs, hits, now, k).len(),
        bond_hits(msgs, hits, now, k)[n].msg_id == msgs[i].msg_id,
    ensures
        ({
            let h = bond_hits(msgs, hits, now, k)[n];
            &&& bond(msgs, hits, msgs[i].msg_id) == Some(h.rule_id)
            &&& h.dialog_id == msgs[i].dialog_id
            &&& h.axis == Axis::Politics
            &&& h.layer == Layer::Topology
            &&& h.tier == Tier::of_age(now - msgs[i].date)
            &&& h.priority == 500 * h.tier.weight_factor()
            &&& !h.protected
            &&& h.surface is None
            &&& h.term == h.rule_id
        }),
    decreases k,
{
    if k > 0 {
        let init = bond_hits(msgs, hits, now, k - 1);
        if n < init.len() {
            assert(bond_hits(msgs, hits, now, k)[n] == init[n]);
            lemma_bond_hit(msgs, hits, now, k - 1, n, i);
        } else {
            lemma_same_place(msgs, i, k - 1);
        }
    }
}

/// After the pass, what a hit replies to is hit and what replies to a hit is
/// hit, and so is everything that shares an album with one.
pub proof fn law_nothing_tied_to_a_hit_is_left(
    msgs: Seq<MessageView>,
    hits: Seq<HitView>,
    now: i64,
    i: int,
    k: int,
)
    requires
        ids_differ(msgs),
        0 <= i < msgs.len(),
        0 <= k < msgs.len(),
        is_hit(hits, msgs[k].msg_id),
        msgs[k].reply_to == Some(msgs[i].msg_id) || msgs[i].reply_to == Some(msgs[k].msg_id) || (
        msgs[k].grouped_id is Some && msgs[k].grouped_id == msgs[i].grouped_id),
    ensures
        is_hit(hits + bond_hits(msgs, hits, now, msgs.len() as int), msgs[i].msg_id),
{
    let id = msgs[i].msg_id;
    let all = hits + bond_hits(msgs, hits, now, msgs.len() as int);
    lemma_bond(msgs, hits, i);
    lemma_only_place(msgs, i);
    lemma_ids(hits, id);
    if msgs[k].reply_to == Some(id) {
        assert(hit_replies_to(msgs, hits, k, id));
    }
    if msgs[k].grouped_id is Some && msgs[k].grouped_id == msgs[i].grouped_id {
        assert(hit_in_album(msgs, hits, k, msgs[i].grouped_id->0));
    }
    lemma_bonded_is_hit(msgs, hits, now, id);
    lemma_ids(all, id);
}

/// No message is pulled in twice.
pub proof fn law_each_message_is_pulled_once(
    msgs: Seq<MessageView>,
    hits: Seq<HitView>,
    now: i64,
    k: int,
    a: int,
    b: int,
)
    requires
        0 <= k <= msgs.len(),
        0 <= a < b < bond_hits(msgs, hits, now, k).len(),
    ensures
        bond_hits(msgs, hits, now, k)[a].msg_id != bond_hits(msgs, hits, now, k)[b].msg_id,
    decreases k,
{
    let init = bond_hits(msgs, hits, now, k - 1);
    let all = bond_hits(msgs, hits, now, k);
    assert(all[a] == init[a]);
    if b < init.len() {
        assert(all[b] == init[b]);
        law_each_message_is_pulled_once(msgs, hits, now, k - 1, a, b);
    } else {
        lemma_pulled_before(msgs, hits, now, k - 1, a);
    }
}

proof fn lemma_pulled_before(
    msgs: Seq<MessageView>,
    hits: Seq<HitView>,
    now: i64,
    k: int,
    a: int,
)
    requires
        0 <= k <= msgs.len(),
        0 <= a < bond_hits(msgs, hits, now, k).len(),
    ensures
        last_at(msgs, bond_hits(msgs, hits, now, k)[a].msg_id) matches Some(p) && p < k,
    decreases k,
{
    let init = bond_hits(msgs, hits, now, k - 1);
    if a < init.len() {
        assert(bond_hits(msgs, hits, now, k)[a] == init[a]);
        lemma_pulled_before(msgs, hits, now, k - 1, a);
    }
}

// --- words -----------------------------------------------------------------------

/// A hit is what the match on that message says.
pub open spec fn tells(
    h: HitView,
    m: MessageView,
    mt: MatchView,
    now: i64,
    safe: bool,
) -> bool {
    &&& h.dialog_id == m.dialog_id
    &&& h.msg_id == m.msg_id
    &&& h.axis == mt.axis
    &&& h.rule_id == mt.rule_id
    &&& h.term == mt.term
    &&& h.surface == mt.surface
    &&& h.layer == mt.layer
    &&& h.tier == Tier::of_age(now - m.date)
    &&& h.priority == mt.weight * h.tier.weight_factor()
    &&& h.protected <==> safe && mt.axis != Axis::CryptoHard
}

/// The whitelist speaks for the message.
pub open spec fn whitelisted(d: DictionaryView, m: MessageView) -> bool {
    m.text.len() > 0 && protects(d, normalized(m.text).text)
}

proof fn lemma_hits_of(
    m: MessageView,
    ms: Seq<MatchView>,
    now: i64,
    only: Option<Axis>,
    safe: bool,
    j: int,
) -> (n: int)
    requires
        0 <= j < ms.len(),
        only is None || only == Some(ms[j].axis),
    ensures
        0 <= n < hits_of(m, ms, now, only, safe).len(),
        tells(hits_of(m, ms, now, only, safe)[n], m, ms[j], now, safe),
    decreases ms.len(),
{
    let all = hits_of(m, ms, now, only, safe);
    let init = hits_of(m, ms.drop_last(), now, only, safe);
    if j == ms.len() - 1 {
        let f = Tier::of_age(now - m.date).weight_factor();
        let w = ms[j].weight;
        assert(w * f <= 0xffff_ffff * 100) by (nonlinear_arith)
            requires
                0 <= w <= 0xffff_ffff,
                0 <= f <= 100,
        ;
        assert(0 <= w * f) by (nonlinear_arith)
            requires
                0 <= w,
                0 <= f,
        ;
        all.len() - 1
    } else {
        assert(ms.drop_last()[j] == ms[j]);
        let n = lemma_hits_of(m, ms.drop_last(), now, only, safe, j);
        assert(all[n] == init[n]);
        n
    }
}

/// Every match in a message is a hit on it, with what the match says, the tier
/// of its age, its weight counted by it, and the whitelist taken into account.
pub proof fn law_every_match_is_a_hit(
    d: DictionaryView,
    msgs: Seq<MessageView>,
    now: i64,
    only: Option<Axis>,
    k: int,
    j: int,
)
    requires
        0 <= k < msgs.len(),
        msgs[k].text.len() > 0,
        0 <= j < matches_in(d, msgs[k].text, normalized(msgs[k].text)).len(),
        only is None || only == Some(matches_in(d, msgs[k].text, normalized(msgs[k].text))[j].axis),
    ensures
        exists|n: int|
            0 <= n < keyword_hits(d, msgs, now, only).len() && tells(
                #[trigger] keyword_hits(d, msgs, now, only)[n],
                msgs[k],
                matches_in(d, msgs[k].text, normalized(msgs[k].text))[j],
                now,
                whitelisted(d, msgs[k]),
            ),
    decreases msgs.len(),
{
    let init = keyword_hits(d, msgs.drop_last(), now, only);
    let all = keyword_hits(d, msgs, now, only);
    let mt = matches_in(d, msgs[k].text, normalized(msgs[k].text))[j];
    if k == msgs.len() - 1 {
        let m = msgs[k];
        let ms = matches_in(d, m.text, normalized(m.text));
        let n = lemma_hits_of(m, ms, now, only, whitelisted(d, m), j);
        assert(all[init.len() + n] == hits_of(m, ms, now, only, whitelisted(d, m))[n]);
    } else {
        assert(msgs.drop_last()[k] == msgs[k]);
        law_every_match_is_a_hit(d, msgs.drop_last(), now, only, k, j);
        let n = choose|n: int|
            0 <= n < init.len() && tells(#[trigger] init[n], msgs[k], mt, now, whitelisted(d, msgs[k]));
        assert(all[n] == init[n]);
    }
}

proof fn lemma_hit_from(
    m: MessageView,
    ms: Seq<MatchView>,
    now: i64,
    only: Option<Axis>,
    safe: bool,
    n: int,
) -> (j: int)
    requires
        0 <= n < hits_of(m, ms, now, only, safe).len(),
    ensures
        0 <= j < ms.len(),
        tells(hits_of(m, ms, now, only, safe)[n], m, ms[j], now, safe),
        only is None || only == Some(ms[j].axis),
    decreases ms.len(),
{
    let init = hits_of(m, ms.drop_last(), now, only, safe);
    if n < init.len() {
        assert(hits_of(m, ms, now, only, safe)[n] == init[n]);
        let j = lemma_hit_from(m, ms.drop_last(), now, only, safe, n);
        assert(ms.drop_last()[j] == ms[j]);
        j
    } else {
        let j = ms.len() - 1;
        let f = Tier::of_age(now - m.date).weight_factor();
        let w = ms[j].weight;
        assert(0 <= w * f <= 0xffff_ffff * 100) by (nonlinear_arith)
            requires
                0 <= w <= 0xffff_ffff,
                0 <= f <= 100,
        ;
        j
    }
}

/// No hit without a match: each comes from a match in a message that has text,
/// on the axis that was asked for.
pub proof fn law_every_hit_has_a_match(
    d: DictionaryView,
    msgs: Seq<MessageView>,
    now: i64,
    only: Option<Axis>,
    n: int,
) -> (r: (int, int))
    requires
        0 <= n < keyword_hits(d, msgs, now, only).len(),
    ensures
        0 <= r.0 < msgs.len(),
        msgs[r.0].text.len() > 0,
        0 <= r.1 < matches_in(d, msgs[r.0].text, normalized(msgs[r.0].text)).len(),
        tells(
            keyword_hits(d, msgs, now, only)[n],
            msgs[r.0],
            matches_in(d, msgs[r.0].text, normalized(msgs[r.0].text))[r.1],
            now,
            whitelisted(d, msgs[r.0]),
        ),
        only is None || only == Some(keyword_hits(d, msgs, now, only)[n].axis),
    decreases msgs.len(),
{
    let init = keyword_hits(d, msgs.drop_last(), now, only);
    if n < init.len() {
        assert(keyword_hits(d, msgs, now, only)[n] == init[n]);
        let r = law_every_hit_has_a_match(d, msgs.drop_last(), now, only, n);
        assert(msgs.drop_last()[r.0] == msgs[r.0]);
        r
    } else {
        let m = msgs.last();
        let ms = matches_in(d, m.text, normalized(m.text));
        let hs = hits_of(m, ms, now, only, whitelisted(d, m));
        assert(keyword_hits(d, msgs, now, only)[n] == hs[n - init.len()]);
        let j = lemma_hit_from(m, ms, now, only, whitelisted(d, m), n - init.len());
        (msgs.len() - 1, j)
    }
}

/// One hit for each match on the axis asked for, and the messages in order.
pub proof fn law_hits_come_message_by_message(
    d: DictionaryView,
    a: Seq<MessageView>,
    b: Seq<MessageView>,
    now: i64,
    only: Option<Axis>,
)
    ensures
        keyword_hits(d, a + b, now, only) == keyword_hits(d, a, now, only) + keyword_hits(
            d,
            b,
            now,
            only,
        ),
        safe_ids(d, a + b) == safe_ids(d, a) + safe_ids(d, b),
        b.len() == 1 && b[0].text.len() == 0 ==> keyword_hits(d, b, now, only).len() == 0
            && safe_ids(d, b).len() == 0,
        b.len() == 1 && b[0].text.len() > 0 && only is None ==> keyword_hits(d, b, now, only).len()
            == matches_in(d, b[0].text, normalized(b[0].text)).len(),
        b.len() == 1 ==> safe_ids(d, b) == (if whitelisted(d, b[0]) {
            seq![b[0].msg_id]
        } else {
            seq![]
        }),
    decreases b.len(),
{
    if b.len() == 0 {
        assert(a + b =~= a);
        assert(keyword_hits(d, a, now, only) + keyword_hits(d, b, now, only) =~= keyword_hits(
            d,
            a,
            now,
            only,
        ));
        assert(safe_ids(d, a) + safe_ids(d, b) =~= safe_ids(d, a));
    } else {
        assert((a + b).drop_last() =~= a + b.drop_last());
        law_hits_come_message_by_message(d, a, b.drop_last(), now, only);
        assert(keyword_hits(d, a + b, now, only) =~= keyword_hits(d, a, now, only) + keyword_hits(
            d,
            b,
            now,
            only,
        ));
        assert(safe_ids(d, a + b) =~= safe_ids(d, a) + safe_ids(d, b));
        if b.len() == 1 {
            assert(b.drop_last() =~= Seq::<MessageView>::empty());
            assert(b.last() == b[0]);
            assert(keyword_hits(d, b.drop_last(), now, only).len() == 0);
            assert(safe_ids(d, b.drop_last()) =~= Seq::<i32>::empty());
            if only is None {
                lemma_all_matches(
                    b[0],
                    matches_in(d, b[0].text, normalized(b[0].text)),
                    now,
                    whitelisted(d, b[0]),
                );
            }
            assert(safe_ids(d, b) =~= (if whitelisted(d, b[0]) {
                seq![b[0].msg_id]
            } else {
                seq![]
            }));
        }
    }
}

proof fn lemma_all_matches(m: MessageView, ms: Seq<MatchView>, now: i64, safe: bool)
    ensures
        hits_of(m, ms, now, None, safe).len() == ms.len(),
    decreases ms.len(),
{
    if ms.len() > 0 {
        lemma_all_matches(m, ms.drop_last(), now, safe);
    }
}

} // verus!
