//! Corpus scan: dictionary, regexes, structural escalation. One dialog at a
//! time — the corpus does not fit in memory, and escalation never crosses a
//! dialog boundary anyway.

use crate::dict::{matches_in, match_views, protects, Dictionary, DictionaryView, Match, MatchView};
use crate::model::{
    hit_views, message_views, Axis, Hit, HitView, Layer, Message, MessageView, Tier,
};
use crate::norm::{normalized, Normalized};
use std::collections::{HashMap, HashSet};
use vstd::prelude::*;

verus! {

broadcast use vstd::std_specs::hash::group_hash_axioms;

/// Ages that can be counted.
pub open spec fn datable(msgs: Seq<MessageView>, now: i64) -> bool {
    forall|i: int|
        0 <= i < msgs.len() ==> i64::MIN <= now - (#[trigger] msgs[i]).date <= i64::MAX
}

// --- the dictionary ------------------------------------------------------

/// The hit of one match.
pub open spec fn hit_of(m: MessageView, mt: MatchView, now: i64, protected: bool) -> HitView {
    let tier = Tier::of_age(now - m.date);
    HitView {
        dialog_id: m.dialog_id,
        msg_id: m.msg_id,
        axis: mt.axis,
        rule_id: mt.rule_id,
        term: mt.term,
        surface: mt.surface,
        layer: mt.layer,
        tier,
        priority: (mt.weight * tier.weight_factor()) as u64,
        // A seed phrase stays a seed phrase even inside holiday chatter.
        protected: protected && mt.axis != Axis::CryptoHard,
    }
}

/// The hits of a message's matches, on one axis or on all.
pub open spec fn hits_of(
    m: MessageView,
    ms: Seq<MatchView>,
    now: i64,
    only: Option<Axis>,
    protected: bool,
) -> Seq<HitView>
    decreases ms.len(),
{
    if ms.len() == 0 {
        seq![]
    } else {
        let init = hits_of(m, ms.drop_last(), now, only, protected);
        if only is Some && only->0 != ms.last().axis {
            init
        } else {
            init.push(hit_of(m, ms.last(), now, protected))
        }
    }
}

/// Whitelisted, whether the dictionary fired on it or not.
pub open spec fn is_safe(d: DictionaryView, m: MessageView) -> bool {
    m.text.len() > 0 && protects(d, normalized(m.text).text)
}

/// The hits of a dialog's messages, message by message.
pub open spec fn keyword_hits(
    d: DictionaryView,
    msgs: Seq<MessageView>,
    now: i64,
    only: Option<Axis>,
) -> Seq<HitView>
    decreases msgs.len(),
{
    if msgs.len() == 0 {
        seq![]
    } else {
        let m = msgs.last();
        keyword_hits(d, msgs.drop_last(), now, only) + (if m.text.len() == 0 {
            seq![]
        } else {
            hits_of(
                m,
                matches_in(d, m.text, normalized(m.text)),
                now,
                only,
                is_safe(d, m),
            )
        })
    }
}

/// Ids of the whitelisted messages of a dialog.
pub open spec fn safe_ids(d: DictionaryView, msgs: Seq<MessageView>) -> Seq<i32>
    decreases msgs.len(),
{
    if msgs.len() == 0 {
        seq![]
    } else if is_safe(d, msgs.last()) {
        safe_ids(d, msgs.drop_last()).push(msgs.last().msg_id)
    } else {
        safe_ids(d, msgs.drop_last())
    }
}

/// Add the hits of the matches found in a message.
pub fn push_hits(
    hits: &mut Vec<Hit>,
    m: &Message,
    matches: Vec<Match>,
    now: i64,
    only: Option<Axis>,
    protected: bool,
)
    requires
        i64::MIN <= now - m.date <= i64::MAX,
    ensures
        hit_views(final(hits)@) == hit_views(old(hits)@) + hits_of(
            m@,
            match_views(matches@),
            now,
            only,
            protected,
        ),
{
    let tier: Tier = Tier::of(m.date, now);
    let ghost all = match_views(matches@);
    let ghost start = hit_views(hits@);
    let mut i: usize = 0;
    assert(all.take(0) =~= Seq::<MatchView>::empty());
    assert(start + hits_of(m@, all.take(0), now, only, protected) =~= start);
    while i < matches.len()
        invariant
            i <= matches@.len(),
            all == match_views(matches@),
            tier == Tier::of_age(now - m.date),
            hit_views(hits@) == start + hits_of(m@, all.take(i as int), now, only, protected),
        decreases matches@.len() - i,
    {
        let mt: &Match = &matches[i];
        let ghost before = all.take(i as int);
        assert(all.take(i + 1).drop_last() =~= before);
        assert(all.take(i + 1).last() == mt@);
        let other: bool = match only {
            Some(a) => a != mt.axis,
            None => false,
        };
        if !other {
            let surface: Option<String> = match &mt.surface {
                Some(s) => Some(s.clone()),
                None => None,
            };
            let ghost was = hit_views(hits@);
            let factor: u64 = tier.multiplier();
            let weight: u64 = mt.weight as u64;
            assert(weight * factor <= 0xffff_ffff * 100) by (nonlinear_arith)
                requires
                    weight <= 0xffff_ffff,
                    factor <= 100,
            ;
            let h: Hit = Hit {
                dialog_id: m.dialog_id,
                msg_id: m.msg_id,
                axis: mt.axis,
                rule_id: mt.rule_id.clone(),
                term: mt.term.clone(),
                surface,
                layer: mt.layer,
                tier,
                priority: weight * factor,
                protected: protected && mt.axis != Axis::CryptoHard,
            };
            hits.push(h);
            assert(hit_views(hits@) =~= was.push(h@));
            assert(h@ == hit_of(m@, mt@, now, protected));
        }
        i += 1;
        assert(hit_views(hits@) =~= start + hits_of(m@, all.take(i as int), now, only, protected));
    }
    assert(all.take(i as int) =~= all);
}

/// The hits of a dialog's messages, and the ids of the whitelisted ones.
pub fn keyword_pass(
    msgs: &Vec<Message>,
    dict: &Dictionary,
    now: i64,
    only_axis: Option<Axis>,
) -> (r: (Vec<Hit>, Vec<i32>))
    requires
        datable(message_views(msgs@), now),
    ensures
        hit_views(r.0@) == keyword_hits(dict@, message_views(msgs@), now, only_axis),
        r.1@ == safe_ids(dict@, message_views(msgs@)),
{
    let ghost all = message_views(msgs@);
    let mut hits: Vec<Hit> = Vec::new();
    let mut protected_ids: Vec<i32> = Vec::new();
    let mut i: usize = 0;
    assert(all.take(0) =~= Seq::<MessageView>::empty());
    assert(hit_views(hits@) =~= Seq::<HitView>::empty());
    while i < msgs.len()
        invariant
            i <= msgs@.len(),
            all == message_views(msgs@),
            datable(all, now),
            hit_views(hits@) == keyword_hits(dict@, all.take(i as int), now, only_axis),
            protected_ids@ == safe_ids(dict@, all.take(i as int)),
        decreases msgs@.len() - i,
    {
        let m: &Message = &msgs[i];
        assert(all.take(i + 1).drop_last() =~= all.take(i as int));
        assert(all.take(i + 1).last() == m@);
        assert(all[i as int] == m@);
        if m.text.as_str().unicode_len() > 0 {
            let norm: Normalized = Normalized::build(m.text.as_str());
            // Checked before and independently of matching: a message the
            // dictionary never fired on still deserves protection.
            let protected: bool = dict.is_protected(&norm);
            if protected {
                protected_ids.push(m.msg_id);
            }
            let matches: Vec<Match> = dict.scan(m.text.as_str(), &norm);
            push_hits(&mut hits, m, matches, now, only_axis, protected);
        }
        i += 1;
        assert(hit_views(hits@) =~= keyword_hits(dict@, all.take(i as int), now, only_axis));
    }
    assert(all.take(i as int) =~= all);
    (hits, protected_ids)
}

// --- dialog topology -----------------------------------------------------

/// Ids of the messages that were hit.
pub open spec fn hit_ids(hits: Seq<HitView>) -> Set<i32>
    decreases hits.len(),
{
    if hits.len() == 0 {
        Set::empty()
    } else {
        hit_ids(hits.drop_last()).insert(hits.last().msg_id)
    }
}

/// Where a message id stands in a dialog; the last place, if there are
/// several.
pub open spec fn last_at(msgs: Seq<MessageView>, id: i32) -> Option<int>
    decreases msgs.len(),
{
    if msgs.len() == 0 {
        None
    } else if msgs.last().msg_id == id {
        Some(msgs.len() - 1)
    } else {
        last_at(msgs.drop_last(), id)
    }
}

/// Ids that messages which were hit reply to.
pub open spec fn parents(msgs: Seq<MessageView>, hits: Seq<HitView>) -> Set<i32>
    decreases hits.len(),
{
    if hits.len() == 0 {
        Set::empty()
    } else {
        let init = parents(msgs, hits.drop_last());
        match last_at(msgs, hits.last().msg_id) {
            Some(k) => match msgs[k].reply_to {
                Some(p) => init.insert(p),
                None => init,
            },
            None => init,
        }
    }
}

/// Albums that messages which were hit belong to.
pub open spec fn albums(msgs: Seq<MessageView>, hits: Seq<HitView>) -> Set<i64>
    decreases hits.len(),
{
    if hits.len() == 0 {
        Set::empty()
    } else {
        let init = albums(msgs, hits.drop_last());
        match last_at(msgs, hits.last().msg_id) {
            Some(k) => match msgs[k].grouped_id {
                Some(g) => init.insert(g),
                None => init,
            },
            None => init,
        }
    }
}

/// Ids of the messages that belong to one of the albums.
pub open spec fn in_albums(msgs: Seq<MessageView>, groups: Set<i64>) -> Set<i32>
    decreases msgs.len(),
{
    if msgs.len() == 0 {
        Set::empty()
    } else {
        let init = in_albums(msgs.drop_last(), groups);
        match msgs.last().grouped_id {
            Some(g) => if groups.contains(g) {
                init.insert(msgs.last().msg_id)
            } else {
                init
            },
            None => init,
        }
    }
}

/// Ids of the messages that reply to one of the given ids.
pub open spec fn replies_to(msgs: Seq<MessageView>, ids: Set<i32>) -> Set<i32>
    decreases msgs.len(),
{
    if msgs.len() == 0 {
        Set::empty()
    } else {
        let init = replies_to(msgs.drop_last(), ids);
        match msgs.last().reply_to {
            Some(p) => if ids.contains(p) {
                init.insert(msgs.last().msg_id)
            } else {
                init
            },
            None => init,
        }
    }
}

/// Why a message that was not hit belongs with one that was: the same album
/// before a reply by it, and that before a reply to it.
pub open spec fn bond(msgs: Seq<MessageView>, hits: Seq<HitView>, id: i32) -> Option<Seq<char>> {
    if hit_ids(hits).contains(id) {
        None
    } else if in_albums(msgs, albums(msgs, hits)).contains(id) {
        Some("same_album"@)
    } else if parents(msgs, hits).contains(id) {
        Some("replied_by_hit"@)
    } else if replies_to(msgs, hit_ids(hits)).contains(id) {
        Some("reply_to_hit"@)
    } else {
        None
    }
}

/// Weaker than a dictionary hit: it only pulls the message into the window,
/// the verdict stays with the triage.
pub const STRUCTURAL_WEIGHT: u64 = 500;

/// The hit of a message that belongs with one that was hit.
pub open spec fn bond_hit(m: MessageView, rule: Seq<char>, now: i64) -> HitView {
    let tier = Tier::of_age(now - m.date);
    HitView {
        dialog_id: m.dialog_id,
        msg_id: m.msg_id,
        axis: Axis::Politics,
        rule_id: rule,
        term: rule,
        surface: None,
        layer: Layer::Topology,
        tier,
        priority: (STRUCTURAL_WEIGHT * tier.weight_factor()) as u64,
        protected: false,
    }
}

/// The hits of the first `k` messages that belong with one that was hit, each
/// id once.
pub open spec fn bond_hits(
    msgs: Seq<MessageView>,
    hits: Seq<HitView>,
    now: i64,
    k: int,
) -> Seq<HitView>
    decreases k,
{
    if k <= 0 {
        seq![]
    } else {
        let init = bond_hits(msgs, hits, now, k - 1);
        let m = msgs[k - 1];
        match bond(msgs, hits, m.msg_id) {
            Some(rule) => if last_at(msgs, m.msg_id) == Some(k - 1) {
                init.push(bond_hit(m, rule, now))
            } else {
                init
            },
            None => init,
        }
    }
}

/// A map from ids to the places they stand at.
spec fn maps_places(map: Map<i32, usize>, msgs: Seq<MessageView>) -> bool {
    forall|id: i32|
        match last_at(msgs, id) {
            Some(k) => #[trigger] map.contains_key(id) && map[id] == k,
            None => !map.contains_key(id),
        }
}

pub proof fn lemma_last_at(msgs: Seq<MessageView>, id: i32)
    ensures
        match last_at(msgs, id) {
            Some(k) => 0 <= k < msgs.len() && msgs[k].msg_id == id,
            None => true,
        },
    decreases msgs.len(),
{
    if msgs.len() > 0 && msgs.last().msg_id != id {
        lemma_last_at(msgs.drop_last(), id);
    }
}

fn index_places(msgs: &Vec<Message>) -> (r: HashMap<i32, usize>)
    ensures
        maps_places(r@, message_views(msgs@)),
{
    let ghost all = message_views(msgs@);
    let mut map: HashMap<i32, usize> = HashMap::new();
    let mut i: usize = 0;
    assert(all.take(0) =~= Seq::<MessageView>::empty());
    while i < msgs.len()
        invariant
            i <= msgs@.len(),
            all == message_views(msgs@),
            maps_places(map@, all.take(i as int)),
        decreases msgs@.len() - i,
    {
        let ghost was = map@;
        let ghost now = all.take(i + 1);
        assert(now.drop_last() =~= all.take(i as int));
        assert(now.last() == msgs@[i as int]@);
        map.insert(msgs[i].msg_id, i);
        proof {
            assert forall|id: i32|
                match last_at(now, id) {
                    Some(k) => #[trigger] map@.contains_key(id) && map@[id] == k,
                    None => !map@.contains_key(id),
                } by {
                assert(was.contains_key(id) == (last_at(all.take(i as int), id) is Some));
            }
        }
        i += 1;
    }
    assert(all.take(i as int) =~= all);
    map
}

fn collect_ids(hits: &Vec<Hit>) -> (r: HashSet<i32>)
    ensures
        r@ == hit_ids(hit_views(hits@)),
{
    let ghost all = hit_views(hits@);
    let mut set: HashSet<i32> = HashSet::new();
    let mut i: usize = 0;
    assert(all.take(0) =~= Seq::<HitView>::empty());
    while i < hits.len()
        invariant
            i <= hits@.len(),
            all == hit_views(hits@),
            set@ == hit_ids(all.take(i as int)),
        decreases hits@.len() - i,
    {
        assert(all.take(i + 1).drop_last() =~= all.take(i as int));
        assert(all.take(i + 1).last() == hits@[i as int]@);
        set.insert(hits[i].msg_id);
        i += 1;
    }
    assert(all.take(i as int) =~= all);
    set
}

fn collect_bonds(
    msgs: &Vec<Message>,
    hits: &Vec<Hit>,
    by_id: &HashMap<i32, usize>,
) -> (r: (HashSet<i32>, HashSet<i64>))
    requires
        maps_places(by_id@, message_views(msgs@)),
    ensures
        r.0@ == parents(message_views(msgs@), hit_views(hits@)),
        r.1@ == albums(message_views(msgs@), hit_views(hits@)),
{
    let ghost all = hit_views(hits@);
    let ghost dialog = message_views(msgs@);
    let mut above: HashSet<i32> = HashSet::new();
    let mut groups: HashSet<i64> = HashSet::new();
    let mut i: usize = 0;
    assert(all.take(0) =~= Seq::<HitView>::empty());
    while i < hits.len()
        invariant
            i <= hits@.len(),
            all == hit_views(hits@),
            dialog == message_views(msgs@),
            maps_places(by_id@, dialog),
            above@ == parents(dialog, all.take(i as int)),
            groups@ == albums(dialog, all.take(i as int)),
        decreases hits@.len() - i,
    {
        let id: i32 = hits[i].msg_id;
        assert(all.take(i + 1).drop_last() =~= all.take(i as int));
        assert(all.take(i + 1).last() == hits@[i as int]@);
        proof {
            lemma_last_at(dialog, id);
            assert(by_id@.contains_key(id) == (last_at(dialog, id) is Some));
        }
        match by_id.get(&id) {
            Some(at) => {
                let m: &Message = &msgs[*at];
                assert(dialog[*at as int] == m@);
                if let Some(p) = m.reply_to {
                    above.insert(p);
                }
                if let Some(g) = m.grouped_id {
                    groups.insert(g);
                }
            },
            None => {},
        }
        i += 1;
    }
    assert(all.take(i as int) =~= all);
    (above, groups)
}

fn collect_related(
    msgs: &Vec<Message>,
    ids: &HashSet<i32>,
    groups: &HashSet<i64>,
) -> (r: (HashSet<i32>, HashSet<i32>))
    ensures
        r.0@ == replies_to(message_views(msgs@), ids@),
        r.1@ == in_albums(message_views(msgs@), groups@),
{
    let ghost all = message_views(msgs@);
    let mut below: HashSet<i32> = HashSet::new();
    let mut beside: HashSet<i32> = HashSet::new();
    let mut i: usize = 0;
    assert(all.take(0) =~= Seq::<MessageView>::empty());
    while i < msgs.len()
        invariant
            i <= msgs@.len(),
            all == message_views(msgs@),
            below@ == replies_to(all.take(i as int), ids@),
            beside@ == in_albums(all.take(i as int), groups@),
        decreases msgs@.len() - i,
    {
        let m: &Message = &msgs[i];
        assert(all.take(i + 1).drop_last() =~= all.take(i as int));
        assert(all.take(i + 1).last() == m@);
        if let Some(p) = m.reply_to {
            if ids.contains(&p) {
                below.insert(m.msg_id);
            }
        }
        if let Some(g) = m.grouped_id {
            if groups.contains(&g) {
                beside.insert(m.msg_id);
            }
        }
        i += 1;
    }
    assert(all.take(i as int) =~= all);
    (below, beside)
}

/// Dialog topology: replies in both directions, and albums.
///
/// The backward direction is the point of this pass: voice messages are not
/// scanned, but if a risky message replies to one, that voice message belongs
/// in the window too.
pub fn structural_pass(msgs: &Vec<Message>, hits: &mut Vec<Hit>, now: i64) -> (r: usize)
    requires
        datable(message_views(msgs@), now),
    ensures
        hit_views(final(hits)@) == hit_views(old(hits)@) + bond_hits(
            message_views(msgs@),
            hit_views(old(hits)@),
            now,
            msgs@.len() as int,
        ),
        r == final(hits)@.len() - old(hits)@.len(),
{
    let ghost dialog = message_views(msgs@);
    let ghost start = hit_views(hits@);
    let ids: HashSet<i32> = collect_ids(hits);
    let by_id: HashMap<i32, usize> = index_places(msgs);
    let (above, groups): (HashSet<i32>, HashSet<i64>) = collect_bonds(msgs, hits, &by_id);
    let (below, beside): (HashSet<i32>, HashSet<i32>) = collect_related(msgs, &ids, &groups);

    let count: usize = hits.len();
    let mut i: usize = 0;
    assert(start + bond_hits(dialog, start, now, 0) =~= start);
    while i < msgs.len()
        invariant
            i <= msgs@.len(),
            dialog == message_views(msgs@),
            datable(dialog, now),
            start.len() == count,
            ids@ == hit_ids(start),
            maps_places(by_id@, dialog),
            above@ == parents(dialog, start),
            below@ == replies_to(dialog, ids@),
            beside@ == in_albums(dialog, albums(dialog, start)),
            hit_views(hits@) == start + bond_hits(dialog, start, now, i as int),
        decreases msgs@.len() - i,
    {
        let m: &Message = &msgs[i];
        let id: i32 = m.msg_id;
        assert(dialog[i as int] == m@);
        assert(by_id@.contains_key(id) == (last_at(dialog, id) is Some));
        let last: bool = match by_id.get(&id) {
            Some(at) => *at == i,
            None => false,
        };
        let rule: Option<&'static str> = if ids.contains(&id) {
            None
        } else if beside.contains(&id) {
            Some("same_album")
        } else if above.contains(&id) {
            Some("replied_by_hit")
        } else if below.contains(&id) {
            Some("reply_to_hit")
        } else {
            None
        };
        if last {
            if let Some(rule) = rule {
                let tier: Tier = Tier::of(m.date, now);
                let ghost was = hit_views(hits@);
                let h: Hit = Hit {
                    dialog_id: m.dialog_id,
                    msg_id: id,
                    axis: Axis::Politics,
                    rule_id: rule.to_owned(),
                    term: rule.to_owned(),
                    surface: None,
                    layer: Layer::Topology,
                    tier,
                    priority: STRUCTURAL_WEIGHT * tier.multiplier(),
                    protected: false,
                };
                hits.push(h);
                assert(hit_views(hits@) =~= was.push(h@));
                assert(h@ == bond_hit(m@, rule@, now));
            }
        }
        i += 1;
        assert(hit_views(hits@) =~= start + bond_hits(dialog, start, now, i as int));
    }
    assert(hits@.len() == hit_views(hits@).len());
    hits.len() - count
}

// --- a dialog ------------------------------------------------------------

/// What scanning a dialog gives.
#[derive(Debug)]
pub struct Scanned {
    pub hits: Vec<Hit>,
    /// Ids of the whitelisted messages.
    pub protected: Vec<i32>,
    /// How many of the hits come from the dialog's topology.
    pub structural: usize,
}

/// Scan one dialog.
pub fn scan_dialog(
    msgs: &Vec<Message>,
    dict: &Dictionary,
    now: i64,
    only_axis: Option<Axis>,
) -> (r: Scanned)
    requires
        datable(message_views(msgs@), now),
    ensures
        ({
            let dialog = message_views(msgs@);
            let words = keyword_hits(dict@, dialog, now, only_axis);
            let bonds = bond_hits(dialog, words, now, dialog.len() as int);
            &&& hit_views(r.hits@) == words + bonds
            &&& r.structural == bonds.len()
            &&& r.protected@ == safe_ids(dict@, dialog)
        }),
{
    let (mut hits, protected): (Vec<Hit>, Vec<i32>) = keyword_pass(msgs, dict, now, only_axis);
    let structural: usize = structural_pass(msgs, &mut hits, now);
    assert(hits@.len() == hit_views(hits@).len());
    Scanned { hits, protected, structural }
}

/// What a scan came to.
#[derive(Debug, Default, Clone, Copy, PartialEq, Eq, Structural)]
pub struct Stats {
    pub dialogs: usize,
    pub messages: usize,
    pub hits: usize,
    pub structural: usize,
    pub protected: usize,
}

impl Stats {
    /// Room for the counts of one more dialog.
    pub open spec fn has_room(self, messages: int, scanned: Scanned) -> bool {
        &&& self.dialogs < usize::MAX
        &&& self.messages + messages <= usize::MAX
        &&& self.hits + scanned.hits@.len() <= usize::MAX
        &&& self.structural + scanned.structural <= usize::MAX
        &&& self.protected + scanned.protected@.len() <= usize::MAX
    }

    /// Count one dialog; one without messages is no dialog.
    pub fn count(&mut self, messages: usize, scanned: &Scanned)
        requires
            old(self).has_room(messages as int, *scanned),
        ensures
            messages == 0 ==> *final(self) == *old(self),
            messages > 0 ==> *final(self) == (Stats {
                dialogs: (old(self).dialogs + 1) as usize,
                messages: (old(self).messages + messages) as usize,
                hits: (old(self).hits + scanned.hits@.len()) as usize,
                structural: (old(self).structural + scanned.structural) as usize,
                protected: (old(self).protected + scanned.protected@.len()) as usize,
            }),
    {
        if messages == 0 {
            return ;
        }
        self.dialogs = self.dialogs + 1;
        self.messages = self.messages + messages;
        self.hits = self.hits + scanned.hits.len();
        self.structural = self.structural + scanned.structural;
        self.protected = self.protected + scanned.protected.len();
    }
}

// --- what a scan promises ------------------------------------------------

/// A message named by a hit of the topology was not hit itself, and its hit
/// carries the reason and the structural weight.
pub proof fn law_topology_pulls_only_unhit_messages(
    msgs: Seq<MessageView>,
    hits: Seq<HitView>,
    now: i64,
    k: int,
    i: int,
)
    requires
        0 <= k <= msgs.len(),
        0 <= i < bond_hits(msgs, hits, now, k).len(),
    ensures
        ({
            let h = bond_hits(msgs, hits, now, k)[i];
            &&& !hit_ids(hits).contains(h.msg_id)
            &&& last_at(msgs, h.msg_id) is Some
            &&& bond(msgs, hits, h.msg_id) == Some(h.rule_id)
            &&& h.layer == Layer::Topology
            &&& h.priority == STRUCTURAL_WEIGHT * h.tier.weight_factor()
        }),
    decreases k,
{
    if k > 0 {
        let init = bond_hits(msgs, hits, now, k - 1);
        if i < init.len() {
            law_topology_pulls_only_unhit_messages(msgs, hits, now, k - 1, i);
            assert(bond_hits(msgs, hits, now, k)[i] == init[i]);
        }
    }
}

pub proof fn lemma_bond_found(msgs: Seq<MessageView>, hits: Seq<HitView>, now: i64, id: i32, k: int)
    requires
        bond(msgs, hits, id) is Some,
        last_at(msgs, id) matches Some(at) && at < k <= msgs.len(),
    ensures
        exists|i: int|
            0 <= i < bond_hits(msgs, hits, now, k).len() && (#[trigger] bond_hits(
                msgs,
                hits,
                now,
                k,
            )[i]).msg_id == id,
    decreases k,
{
    lemma_last_at(msgs, id);
    let at = last_at(msgs, id)->0;
    let init = bond_hits(msgs, hits, now, k - 1);
    let full = bond_hits(msgs, hits, now, k);
    if at == k - 1 {
        assert(full[full.len() - 1].msg_id == id);
    } else {
        lemma_bond_found(msgs, hits, now, id, k - 1);
        let i = choose|i: int| 0 <= i < init.len() && (#[trigger] init[i]).msg_id == id;
        assert(full[i] == init[i]);
    }
}

pub proof fn lemma_hit_ids(hits: Seq<HitView>, i: int)
    requires
        0 <= i < hits.len(),
    ensures
        hit_ids(hits).contains(hits[i].msg_id),
    decreases hits.len(),
{
    if i < hits.len() - 1 {
        assert(hits.drop_last()[i] == hits[i]);
        lemma_hit_ids(hits.drop_last(), i);
    }
}

proof fn lemma_hit_ids_kept(a: Seq<HitView>, b: Seq<HitView>, id: i32)
    requires
        hit_ids(a).contains(id),
    ensures
        hit_ids(a + b).contains(id),
    decreases b.len(),
{
    if b.len() == 0 {
        assert(a + b =~= a);
    } else {
        assert((a + b).drop_last() =~= a + b.drop_last());
        lemma_hit_ids_kept(a, b.drop_last(), id);
    }
}

/// After the pass over the topology, a message with a reason is hit.
pub proof fn lemma_bonded_is_hit(msgs: Seq<MessageView>, hits: Seq<HitView>, now: i64, id: i32)
    requires
        hit_ids(hits).contains(id) || bond(msgs, hits, id) is Some,
        last_at(msgs, id) is Some,
    ensures
        hit_ids(hits + bond_hits(msgs, hits, now, msgs.len() as int)).contains(id),
{
    let more = bond_hits(msgs, hits, now, msgs.len() as int);
    if hit_ids(hits).contains(id) {
        lemma_hit_ids_kept(hits, more, id);
    } else {
        lemma_last_at(msgs, id);
        lemma_bond_found(msgs, hits, now, id, msgs.len() as int);
        let i = choose|i: int| 0 <= i < more.len() && (#[trigger] more[i]).msg_id == id;
        lemma_hit_ids(hits + more, hits.len() + i);
        assert((hits + more)[hits.len() + i] == more[i]);
    }
}

pub proof fn lemma_has_place(msgs: Seq<MessageView>, i: int)
    requires
        0 <= i < msgs.len(),
    ensures
        last_at(msgs, msgs[i].msg_id) is Some,
    decreases msgs.len(),
{
    if i < msgs.len() - 1 {
        assert(msgs.drop_last()[i] == msgs[i]);
        lemma_has_place(msgs.drop_last(), i);
    }
}

pub proof fn lemma_in_albums(msgs: Seq<MessageView>, groups: Set<i64>, i: int)
    requires
        0 <= i < msgs.len(),
        msgs[i].grouped_id matches Some(g) && groups.contains(g),
    ensures
        in_albums(msgs, groups).contains(msgs[i].msg_id),
    decreases msgs.len(),
{
    if i < msgs.len() - 1 {
        assert(msgs.drop_last()[i] == msgs[i]);
        lemma_in_albums(msgs.drop_last(), groups, i);
    }
}

/// An album goes whole: once one of its messages was hit, all of them are.
pub proof fn law_albums_are_pulled_whole(
    msgs: Seq<MessageView>,
    hits: Seq<HitView>,
    now: i64,
    i: int,
)
    requires
        0 <= i < msgs.len(),
        msgs[i].grouped_id matches Some(g) && albums(msgs, hits).contains(g),
    ensures
        hit_ids(hits + bond_hits(msgs, hits, now, msgs.len() as int)).contains(msgs[i].msg_id),
{
    lemma_in_albums(msgs, albums(msgs, hits), i);
    lemma_has_place(msgs, i);
    lemma_bonded_is_hit(msgs, hits, now, msgs[i].msg_id);
}

pub proof fn lemma_replies_to(msgs: Seq<MessageView>, ids: Set<i32>, i: int)
    requires
        0 <= i < msgs.len(),
        msgs[i].reply_to matches Some(p) && ids.contains(p),
    ensures
        replies_to(msgs, ids).contains(msgs[i].msg_id),
    decreases msgs.len(),
{
    if i < msgs.len() - 1 {
        assert(msgs.drop_last()[i] == msgs[i]);
        lemma_replies_to(msgs.drop_last(), ids, i);
    }
}

/// Replies pull in both directions: what replies to a hit is hit, and what a
/// hit replies to is hit.
pub proof fn law_replies_pull_both_ways(
    msgs: Seq<MessageView>,
    hits: Seq<HitView>,
    now: i64,
    i: int,
)
    requires
        0 <= i < msgs.len(),
        parents(msgs, hits).contains(msgs[i].msg_id) || (msgs[i].reply_to matches Some(p)
            && hit_ids(hits).contains(p)),
    ensures
        hit_ids(hits + bond_hits(msgs, hits, now, msgs.len() as int)).contains(msgs[i].msg_id),
{
    lemma_has_place(msgs, i);
    if msgs[i].reply_to matches Some(p) && hit_ids(hits).contains(p) {
        lemma_replies_to(msgs, hit_ids(hits), i);
    }
    lemma_bonded_is_hit(msgs, hits, now, msgs[i].msg_id);
}

proof fn lemma_hard_unprotected(
    m: MessageView,
    ms: Seq<MatchView>,
    now: i64,
    only: Option<Axis>,
    protected: bool,
)
    ensures
        forall|i: int|
            0 <= i < hits_of(m, ms, now, only, protected).len() ==> (#[trigger] hits_of(
                m,
                ms,
                now,
                only,
                protected,
            )[i]).axis == Axis::CryptoHard ==> !hits_of(m, ms, now, only, protected)[i].protected,
    decreases ms.len(),
{
    if ms.len() > 0 {
        lemma_hard_unprotected(m, ms.drop_last(), now, only, protected);
    }
}

/// The whitelist does not lift machine artifacts: a hit on the hard crypto
/// axis is never protected.
pub proof fn law_hard_hits_are_never_protected(
    d: DictionaryView,
    msgs: Seq<MessageView>,
    now: i64,
    only: Option<Axis>,
)
    ensures
        forall|i: int|
            0 <= i < keyword_hits(d, msgs, now, only).len() ==> (#[trigger] keyword_hits(
                d,
                msgs,
                now,
                only,
            )[i]).axis == Axis::CryptoHard ==> !keyword_hits(d, msgs, now, only)[i].protected,
    decreases msgs.len(),
{
    if msgs.len() > 0 {
        let m = msgs.last();
        let init = keyword_hits(d, msgs.drop_last(), now, only);
        let ms = matches_in(d, m.text, normalized(m.text));
        law_hard_hits_are_never_protected(d, msgs.drop_last(), now, only);
        lemma_hard_unprotected(m, ms, now, only, is_safe(d, m));
        let all = keyword_hits(d, msgs, now, only);
        assert forall|i: int| 0 <= i < all.len() && (#[trigger] all[i]).axis
            == Axis::CryptoHard implies !all[i].protected by {
            if i < init.len() {
                assert(all[i] == init[i]);
            } else {
                assert(all[i] == hits_of(m, ms, now, only, is_safe(d, m))[i - init.len()]);
            }
        }
    }
}

} // verus!
