//! Ingest from a Telegram Desktop export (Settings → Advanced → Export
//! Telegram data, JSON). Not one API call. What it structurally lacks —
//! `access_hash`, `grouped_id` — comes over MTProto.

use crate::clock::{moment, moment_of};
use crate::json::{compact, field, field_of, push_compact, Json};
use crate::model::{
    message_views, Dialog, DialogView, Message, MessageView, PeerKind,
};
use crate::text::{
    chars_of, dec_int, i64_of_text, opt_view, parse_i64, push_int, same,
};
use std::collections::HashMap;
use vstd::prelude::*;

verus! {

broadcast use vstd::std_specs::hash::group_hash_axioms;

/// A message as the export writes it.
#[derive(Debug)]
pub struct RawMessage {
    pub id: i32,
    pub kind: Option<String>,
    /// A string in the export, not a number.
    pub date_unixtime: Option<String>,
    pub date: Option<String>,
    pub from_id: Option<String>,
    pub reply_to_message_id: Option<i32>,
    pub forwarded_from: Option<Json>,
    pub media_type: Option<String>,
    pub mime_type: Option<String>,
    pub file: Option<String>,
    pub photo: Option<String>,
    /// Either a string or an array of strings and entity objects.
    pub text: Json,
}

/// A chat as the export writes it.
#[derive(Debug)]
pub struct Chat {
    pub name: Option<String>,
    pub kind: Option<String>,
    pub id: Option<i64>,
    pub messages: Vec<RawMessage>,
}

/// An export: the wrapper around all chats, or a single chat with none.
#[derive(Debug)]
pub struct Export {
    pub user_id: Option<i64>,
    pub chats: Option<Vec<Chat>>,
    pub single: Option<Chat>,
}

/// Why an export cannot be taken in.
#[derive(Debug)]
pub enum ExportError {
    /// Neither a list of chats nor a single chat.
    NotAnExport,
    /// A message without a date that can be read. Without a date there is no
    /// tier, and the tier shapes the verdict.
    NoDate(i32),
}

/// The words for an error.
pub open spec fn error_text(e: ExportError) -> Seq<char> {
    match e {
        ExportError::NotAnExport =>
            "neither `chats.list` nor a single chat in the file — is it a Telegram export?"@,
        ExportError::NoDate(id) => "message "@ + dec_int(id as int) + " has no parsable date"@,
    }
}

impl ExportError {
    /// The error in words.
    pub fn message(&self) -> (r: String)
        ensures
            r@ == error_text(*self),
    {
        match self {
            ExportError::NotAnExport => {
                "neither `chats.list` nor a single chat in the file — is it a Telegram export?".to_owned()
            },
            ExportError::NoDate(id) => {
                let mut out: String = "message ".to_owned();
                push_int(&mut out, *id as i64);
                out.append(" has no parsable date");
                out
            },
        }
    }
}

fn copy_opt(s: &Option<String>) -> (r: Option<String>)
    ensures
        opt_view(r) == opt_view(*s),
{
    match s {
        Some(s) => Some(s.clone()),
        None => None,
    }
}

/// An optional string is there and reads so.
pub open spec fn reads(s: Option<String>, word: Seq<char>) -> bool {
    s matches Some(t) && t@ == word
}

fn reads_as(s: &Option<String>, word: &str) -> (r: bool)
    ensures
        r == reads(*s, word@),
{
    match s {
        Some(t) => same(t.as_str(), word),
        None => false,
    }
}

// --- peer ids ------------------------------------------------------------

/// A text from its first digit or minus on.
pub open spec fn numeric_tail(s: Seq<char>) -> Seq<char>
    decreases s.len(),
{
    if s.len() == 0 || s[0] == '-' || ('0' <= s[0] && s[0] <= '9') {
        s
    } else {
        numeric_tail(s.drop_first())
    }
}

/// The number in a peer id.
pub open spec fn peer_number(s: Seq<char>) -> Option<i64> {
    i64_of_text(numeric_tail(s))
}

/// `from_id` in the export is a string like `user123456` or `channel123456`.
pub fn parse_peer_id(s: &str) -> (r: Option<i64>)
    ensures
        r == peer_number(s@),
{
    let cs: Vec<char> = chars_of(s);
    let mut i: usize = 0;
    assert(cs@.skip(0) =~= cs@);
    while i < cs.len() && cs[i] != '-' && !('0' <= cs[i] && cs[i] <= '9')
        invariant
            i <= cs@.len(),
            numeric_tail(cs@) == numeric_tail(cs@.skip(i as int)),
        decreases cs@.len() - i,
    {
        assert(cs@.skip(i as int)[0] == cs@[i as int]);
        assert(cs@.skip(i as int).drop_first() =~= cs@.skip(i + 1));
        i += 1;
    }
    proof {
        if i < cs@.len() {
            assert(cs@.skip(i as int)[0] == cs@[i as int]);
        }
        assert(cs@.skip(i as int) =~= cs@.subrange(i as int, cs@.len() as int));
    }
    parse_i64(vstd::slice::slice_subrange(cs.as_slice(), i, cs.len()))
}

/// The number in an optional peer id.
pub open spec fn sender_of(raw: RawMessage) -> Option<i64> {
    match raw.from_id {
        Some(s) => peer_number(s@),
        None => None,
    }
}

fn sender(raw: &RawMessage) -> (r: Option<i64>)
    ensures
        r == sender_of(*raw),
{
    match &raw.from_id {
        Some(s) => parse_peer_id(s.as_str()),
        None => None,
    }
}

// --- dates ---------------------------------------------------------------

/// The date of a message: the number of seconds where it is written out, the
/// moment in words otherwise.
pub open spec fn date_from(raw: RawMessage, spoken: Option<i64>) -> Option<i64> {
    let written = match raw.date_unixtime {
        Some(u) => i64_of_text(u@),
        None => None,
    };
    if written is Some {
        written
    } else {
        spoken
    }
}

/// The moment a message gives in words. The export writes local time without a
/// zone, which is read as it stands.
pub open spec fn spoken_date(raw: RawMessage) -> Option<i64> {
    match raw.date {
        Some(d) => moment_of(d@),
        None => None,
    }
}

/// The date of a message.
pub open spec fn date_of(raw: RawMessage) -> Option<i64> {
    date_from(raw, spoken_date(raw))
}

/// The date of a message, given the moment it gives in words.
pub fn pick_date(raw: &RawMessage, spoken: Option<i64>) -> (r: Result<i64, ExportError>)
    ensures
        r == (match date_from(*raw, spoken) {
            Some(at) => Ok::<i64, ExportError>(at),
            None => Err(ExportError::NoDate(raw.id)),
        }),
{
    if let Some(u) = &raw.date_unixtime {
        let cs: Vec<char> = chars_of(u.as_str());
        if let Some(v) = parse_i64(cs.as_slice()) {
            return Ok(v);
        }
    }
    match spoken {
        Some(at) => Ok(at),
        None => Err(ExportError::NoDate(raw.id)),
    }
}

/// The date of a message.
pub fn parse_date(raw: &RawMessage) -> (r: Result<i64, ExportError>)
    ensures
        r == (match date_of(*raw) {
            Some(at) => Ok::<i64, ExportError>(at),
            None => Err(ExportError::NoDate(raw.id)),
        }),
{
    let spoken: Option<i64> = match &raw.date {
        Some(d) => moment(d.as_str()),
        None => None,
    };
    pick_date(raw, spoken)
}

// --- media, forwards, text -----------------------------------------------

/// The kind of media a message carries.
pub open spec fn media_of(raw: RawMessage) -> Option<Seq<char>> {
    if raw.media_type is Some {
        opt_view(raw.media_type)
    } else if raw.photo is Some {
        Some("photo"@)
    } else if raw.file is Some {
        if raw.mime_type is Some {
            opt_view(raw.mime_type)
        } else {
            Some("file"@)
        }
    } else {
        None
    }
}

/// The kind of media a message carries.
pub fn media_type(raw: &RawMessage) -> (r: Option<String>)
    ensures
        opt_view(r) == media_of(*raw),
{
    if let Some(mt) = &raw.media_type {
        return Some(mt.clone());
    }
    if raw.photo.is_some() {
        return Some("photo".to_owned());
    }
    if raw.file.is_some() {
        return match &raw.mime_type {
            Some(mime) => Some(mime.clone()),
            None => Some("file".to_owned()),
        };
    }
    None
}

/// A value as text: a string as it is, nothing for null and false, and
/// anything else in JSON notation.
pub open spec fn value_text(v: Json) -> Option<Seq<char>> {
    match v {
        Json::Str(s) => if s@.len() > 0 {
            Some(s@)
        } else {
            Some(compact(v))
        },
        Json::Null => None,
        Json::Bool(b) => if b {
            Some(compact(v))
        } else {
            None
        },
        _ => Some(compact(v)),
    }
}

/// A value as text.
pub fn value_to_string(v: &Json) -> (r: Option<String>)
    ensures
        opt_view(r) == value_text(*v),
{
    match v {
        Json::Str(s) => {
            if s.as_str().unicode_len() > 0 {
                return Some(s.clone());
            }
        },
        Json::Null => {
            return None;
        },
        Json::Bool(b) => {
            if !*b {
                return None;
            }
        },
        _ => {},
    }
    let mut out: String = String::new();
    push_compact(&mut out, v);
    assert(out@ =~= compact(*v));
    Some(out)
}

/// What one piece of a message adds to its text: a string itself, an entity
/// its text, and for links the address, which can be the meaningful part.
pub open spec fn piece_text(v: Json) -> Seq<char> {
    match v {
        Json::Str(s) => s@,
        Json::Object(o) => {
            (match field_of(o@, "text"@) {
                Some(Json::Str(t)) => t@,
                _ => seq![],
            }) + (match field_of(o@, "href"@) {
                Some(Json::Str(h)) => " "@ + h@,
                _ => seq![],
            })
        },
        _ => seq![],
    }
}

/// What the pieces of a message add up to.
pub open spec fn pieces_text(items: Seq<Json>) -> Seq<char>
    decreases items.len(),
{
    if items.len() == 0 {
        seq![]
    } else {
        pieces_text(items.drop_last()) + piece_text(items.last())
    }
}

/// The text of a message.
pub open spec fn flat_text(v: Json) -> Seq<char> {
    match v {
        Json::Str(s) => s@,
        Json::Array(items) => pieces_text(items@),
        _ => seq![],
    }
}

fn push_piece(out: &mut String, v: &Json)
    ensures
        final(out)@ == old(out)@ + piece_text(*v),
{
    match v {
        Json::Str(s) => {
            out.append(s.as_str());
        },
        Json::Object(o) => {
            if let Some(t) = field(o, "text") {
                if let Json::Str(t) = t {
                    out.append(t.as_str());
                }
            }
            if let Some(h) = field(o, "href") {
                if let Json::Str(h) = h {
                    out.append(" ");
                    out.append(h.as_str());
                }
            }
        },
        _ => {},
    }
    assert(out@ =~= old(out)@ + piece_text(*v));
}

/// `text` is either a string or an array of strings and entities (links,
/// mentions, code). Flattened: entities carry meaningful words.
pub fn flatten_text(v: &Json) -> (r: String)
    ensures
        r@ == flat_text(*v),
{
    match v {
        Json::Str(s) => s.clone(),
        Json::Array(items) => {
            let mut out: String = String::new();
            let mut i: usize = 0;
            assert(items@.take(0) =~= Seq::<Json>::empty());
            while i < items.len()
                invariant
                    i <= items@.len(),
                    out@ == pieces_text(items@.take(i as int)),
                decreases items@.len() - i,
            {
                assert(items@.take(i + 1).drop_last() =~= items@.take(i as int));
                push_piece(&mut out, &items[i]);
                i += 1;
            }
            assert(items@.take(i as int) =~= items@);
            out
        },
        _ => {
            let out: String = String::new();
            assert(out@ =~= flat_text(*v));
            out
        },
    }
}

// --- whose export it is --------------------------------------------------

/// The id of the first chat with oneself, if there is one.
pub open spec fn saved_id(chats: Seq<Chat>) -> Option<i64>
    decreases chats.len(),
{
    if chats.len() == 0 {
        None
    } else if saved_id(chats.drop_last()) is Some {
        saved_id(chats.drop_last())
    } else if reads(chats.last().kind, "saved_messages"@) {
        chats.last().id
    } else {
        None
    }
}

/// How many of the messages name a sender other than the peer, this one.
pub open spec fn votes_in(messages: Seq<RawMessage>, peer: i64, id: i64) -> nat
    decreases messages.len(),
{
    if messages.len() == 0 {
        0
    } else {
        votes_in(messages.drop_last(), peer, id) + if sender_of(messages.last()) == Some(id) && id
            != peer {
            1nat
        } else {
            0nat
        }
    }
}

/// Votes for an id over the personal chats: in a personal chat the chat's id is
/// the other person, so any other sender in it is the owner.
pub open spec fn votes_for(chats: Seq<Chat>, id: i64) -> nat
    decreases chats.len(),
{
    if chats.len() == 0 {
        0
    } else {
        let c = chats.last();
        votes_for(chats.drop_last(), id) + (match c.id {
            Some(peer) => if reads(c.kind, "personal_chat"@) {
                votes_in(c.messages@, peer, id)
            } else {
                0
            },
            None => 0,
        })
    }
}

/// Everything counted so far, and a leader among it.
spec fn counts(map: Map<i64, u128>, best: Option<(i64, u128)>, votes: spec_fn(i64) -> nat) -> bool {
    &&& forall|id: i64|
        #![trigger map.contains_key(id)]
        (if map.contains_key(id) {
            map[id] == votes(id)
        } else {
            votes(id) == 0
        })
    &&& match best {
        Some((id, n)) => map.contains_key(id) && map[id] == n && n > 0 && forall|other: i64|
            #[trigger] votes(other) <= n,
        None => forall|other: i64| #[trigger] votes(other) == 0,
    }
}

proof fn lemma_counts_same(
    map: Map<i64, u128>,
    best: Option<(i64, u128)>,
    f: spec_fn(i64) -> nat,
    g: spec_fn(i64) -> nat,
)
    requires
        counts(map, best, f),
        forall|id: i64| #[trigger] f(id) == g(id),
    ensures
        counts(map, best, g),
{
    assert forall|id: i64|
        #![trigger map.contains_key(id)]
        (if map.contains_key(id) {
            map[id] == g(id)
        } else {
            g(id) == 0
        }) by {
        assert(f(id) == g(id));
    }
    match best {
        Some((id, n)) => {
            assert forall|other: i64| #[trigger] g(other) <= n by {
                assert(f(other) == g(other));
            }
        },
        None => {
            assert forall|other: i64| #[trigger] g(other) == 0 by {
                assert(f(other) == g(other));
            }
        },
    }
}

fn vote(
    map: &mut HashMap<i64, u128>,
    best: Option<(i64, u128)>,
    f: i64,
    Ghost(votes): Ghost<spec_fn(i64) -> nat>,
    Ghost(total): Ghost<int>,
) -> (r: Option<(i64, u128)>)
    requires
        counts(old(map)@, best, votes),
        forall|id: i64| #[trigger] votes(id) <= total,
        total < u128::MAX,
    ensures
        counts(
            final(map)@,
            r,
            |id: i64|
                votes(id) + if id == f {
                    1nat
                } else {
                    0nat
                },
        ),
{
    let ghost was = map@;
    assert(votes(f) <= total);
    assert(was.contains_key(f) ==> was[f] == votes(f));
    let n: u128 = match map.get(&f) {
        Some(n) => *n + 1,
        None => 1,
    };
    map.insert(f, n);
    let leads: bool = match best {
        Some((_, top)) => n > top,
        None => true,
    };
    proof {
        let more = |id: i64|
            votes(id) + if id == f {
                1nat
            } else {
                0nat
            };
        assert(n == more(f));
        assert forall|id: i64|
            #![trigger map@.contains_key(id)]
            (if map@.contains_key(id) {
                map@[id] == more(id)
            } else {
                more(id) == 0
            }) by {
            assert(was.contains_key(id) || !was.contains_key(id));
        }
        if leads {
            assert forall|other: i64| #[trigger] more(other) <= n by {
                assert(votes(other) <= n || best is None);
                assert(votes(other) <= total);
            }
        } else {
            let (id, top) = best->0;
            assert(was.contains_key(id));
            assert forall|other: i64| #[trigger] more(other) <= top by {
                assert(votes(other) <= top);
            }
        }
    }
    if leads {
        Some((f, n))
    } else {
        best
    }
}

/// In a personal chat `chat.id` is the other person, so any other sender in
/// it is me. Works even when `personal_information` gave no id.
pub fn infer_my_id(chats: &Vec<Chat>) -> (r: Option<i64>)
    ensures
        saved_id(chats@) is Some ==> r == saved_id(chats@),
        saved_id(chats@) is None ==> match r {
            Some(id) => votes_for(chats@, id) > 0 && forall|other: i64|
                #[trigger] votes_for(chats@, other) <= votes_for(chats@, id),
            None => forall|other: i64| #[trigger] votes_for(chats@, other) == 0,
        },
{
    // Saved Messages is the surest sign: its id is my own user_id.
    let mut i: usize = 0;
    assert(chats@.take(0) =~= Seq::<Chat>::empty());
    while i < chats.len()
        invariant
            i <= chats@.len(),
            saved_id(chats@.take(i as int)) is None,
        decreases chats@.len() - i,
    {
        assert(chats@.take(i + 1).drop_last() =~= chats@.take(i as int));
        if reads_as(&chats[i].kind, "saved_messages") {
            if let Some(id) = chats[i].id {
                proof {
                    lemma_saved_stays(chats@, i + 1);
                }
                return Some(id);
            }
        }
        i += 1;
    }
    assert(chats@.take(i as int) =~= chats@);

    // Otherwise, a vote over the personal chats.
    let mut map: HashMap<i64, u128> = HashMap::new();
    let mut best: Option<(i64, u128)> = None;
    let mut c: usize = 0;
    let count: usize = chats.len();
    let ghost mut total: int = 0;
    while c < count
        invariant
            c <= count,
            count == chats@.len(),
            counts(map@, best, |id: i64| votes_for(chats@.take(c as int), id)),
            forall|id: i64| #[trigger] votes_for(chats@.take(c as int), id) <= total,
            total <= c * 0xffff_ffff_ffff_ffff,
        decreases count - c,
    {
        let chat: &Chat = &chats[c];
        let ghost now = chats@.take(c + 1);
        assert(now.drop_last() =~= chats@.take(c as int));
        let mut counted: bool = false;
        let size: usize = chat.messages.len();
        if reads_as(&chat.kind, "personal_chat") {
            if let Some(peer) = chat.id {
                counted = true;
                let ghost base = |id: i64| votes_for(chats@.take(c as int), id);
                let mut m: usize = 0;
                let ghost start = total;
                proof {
                    let none = chat.messages@.take(0);
                    let so_far = |id: i64| base(id) + votes_in(none, peer, id);
                    lemma_counts_same(map@, best, base, so_far);
                }
                while m < size
                    invariant
                        m <= size,
                        size == chat.messages@.len(),
                        c < count,
                        counts(
                            map@,
                            best,
                            |id: i64| base(id) + votes_in(chat.messages@.take(m as int), peer, id),
                        ),
                        forall|id: i64|
                            base(id) + #[trigger] votes_in(chat.messages@.take(m as int), peer, id)
                                <= total,
                        total <= start + m,
                        start <= c * 0xffff_ffff_ffff_ffff,
                    decreases size - m,
                {
                    let ghost before = chat.messages@.take(m as int);
                    let ghost after = chat.messages@.take(m + 1);
                    let ghost so_far = |id: i64| base(id) + votes_in(before, peer, id);
                    let ghost next = |id: i64| base(id) + votes_in(after, peer, id);
                    assert(after.drop_last() =~= before);
                    proof {
                        assert(c * 0xffff_ffff_ffff_ffff + 0xffff_ffff_ffff_ffff < u128::MAX)
                            by (nonlinear_arith)
                            requires
                                c < 0xffff_ffff_ffff_ffff,
                        ;
                    }
                    let mut other: Option<i64> = None;
                    if let Some(f) = sender(&chat.messages[m]) {
                        if f != peer {
                            other = Some(f);
                        }
                    }
                    match other {
                        Some(f) => {
                            best = vote(&mut map, best, f, Ghost(so_far), Ghost(total));
                            proof {
                                let more = |id: i64|
                                    so_far(id) + if id == f {
                                        1nat
                                    } else {
                                        0nat
                                    };
                                lemma_counts_same(map@, best, more, next);
                            }
                        },
                        None => {
                            proof {
                                lemma_counts_same(map@, best, so_far, next);
                            }
                        },
                    }
                    proof {
                        total = total + 1;
                        assert forall|id: i64|
                            base(id) + #[trigger] votes_in(after, peer, id) <= total by {
                            assert(base(id) + votes_in(before, peer, id) <= total - 1);
                        }
                    }
                    m += 1;
                }
                proof {
                    let all = chat.messages@.take(m as int);
                    assert(all =~= chat.messages@);
                    let so_far = |id: i64| base(id) + votes_in(all, peer, id);
                    let next = |id: i64| votes_for(now, id);
                    lemma_counts_same(map@, best, so_far, next);
                    assert forall|id: i64| #[trigger] votes_for(now, id) <= total by {
                        assert(base(id) + votes_in(all, peer, id) <= total);
                    }
                }
            }
        }
        proof {
            if !counted {
                let base = |id: i64| votes_for(chats@.take(c as int), id);
                let next = |id: i64| votes_for(now, id);
                assert forall|id: i64| #[trigger] base(id) == next(id) by {
                    assert(votes_for(now, id) == votes_for(chats@.take(c as int), id));
                }
                lemma_counts_same(map@, best, base, next);
                assert forall|id: i64| #[trigger] votes_for(now, id) <= total by {
                    assert(votes_for(chats@.take(c as int), id) <= total);
                }
            }
            assert((c + 1) * 0xffff_ffff_ffff_ffff == c * 0xffff_ffff_ffff_ffff
                + 0xffff_ffff_ffff_ffff) by (nonlinear_arith);
        }
        c += 1;
    }
    proof {
        assert(chats@.take(c as int) =~= chats@);
        let votes = |id: i64| votes_for(chats@, id);
        assert(counts(map@, best, votes));
        match best {
            Some((id, n)) => {
                assert(votes(id) == n);
                assert forall|other: i64| #[trigger] votes_for(chats@, other) <= votes_for(
                    chats@,
                    id,
                ) by {
                    assert(votes(other) <= n);
                }
            },
            None => {
                assert forall|other: i64| #[trigger] votes_for(chats@, other) == 0 by {
                    assert(votes(other) == 0);
                }
            },
        }
    }
    match best {
        Some((id, _)) => Some(id),
        None => None,
    }
}

proof fn lemma_saved_stays(chats: Seq<Chat>, k: int)
    requires
        0 <= k <= chats.len(),
        saved_id(chats.take(k)) is Some,
    ensures
        saved_id(chats) == saved_id(chats.take(k)),
    decreases chats.len(),
{
    if k == chats.len() {
        assert(chats.take(k) =~= chats);
    } else {
        let init = chats.drop_last();
        assert(init.take(k) =~= chats.take(k));
        lemma_saved_stays(init, k);
    }
}

// --- taking an export in --------------------------------------------------

/// The chats of an export and its owner.
#[derive(Debug)]
pub struct Intake {
    pub chats: Vec<Chat>,
    pub my_id: Option<i64>,
}

/// The chats of an export: the list where there is one, the single chat
/// otherwise. A chat without an id is no chat.
pub open spec fn chats_of(e: Export) -> Option<Seq<Chat>> {
    match e.chats {
        Some(list) => Some(list@),
        None => match e.single {
            Some(chat) => if chat.id is Some {
                Some(seq![chat])
            } else {
                None
            },
            None => None,
        },
    }
}

/// Whose export it is: what was said outright, what the export says of itself,
/// what its chats give away.
pub open spec fn is_owner(
    me: Option<i64>,
    user_id: Option<i64>,
    chats: Seq<Chat>,
    my_id: Option<i64>,
) -> bool {
    if me is Some {
        my_id == me
    } else if user_id is Some {
        my_id == user_id
    } else if saved_id(chats) is Some {
        my_id == saved_id(chats)
    } else {
        match my_id {
            Some(id) => votes_for(chats, id) > 0 && forall|other: i64|
                #[trigger] votes_for(chats, other) <= votes_for(chats, id),
            None => forall|other: i64| #[trigger] votes_for(chats, other) == 0,
        }
    }
}

/// The chats of an export and its owner.
pub fn open_export(e: Export, me_override: Option<i64>) -> (r: Result<Intake, ExportError>)
    ensures
        match r {
            Ok(intake) => chats_of(e) == Some(intake.chats@) && is_owner(
                me_override,
                e.user_id,
                intake.chats@,
                intake.my_id,
            ),
            Err(why) => chats_of(e) is None && why is NotAnExport,
        },
{
    let user_id: Option<i64> = e.user_id;
    let chats: Vec<Chat> = match e.chats {
        Some(list) => list,
        None => {
            match e.single {
                Some(chat) => {
                    if chat.id.is_none() {
                        return Err(ExportError::NotAnExport);
                    }
                    let mut one: Vec<Chat> = Vec::new();
                    one.push(chat);
                    assert(one@ =~= seq![chat]);
                    one
                },
                None => {
                    return Err(ExportError::NotAnExport);
                },
            }
        },
    };
    let my_id: Option<i64> = if me_override.is_some() {
        me_override
    } else if user_id.is_some() {
        user_id
    } else {
        infer_my_id(&chats)
    };
    Ok(Intake { chats, my_id })
}

/// Service messages (joined a group, changed a photo) carry no text and are
/// not deleted like ordinary ones.
pub open spec fn is_service(raw: RawMessage) -> bool {
    reads(raw.kind, "service"@)
}

/// The message an export message stands for.
pub open spec fn message_of(raw: RawMessage, dialog_id: i64, my_id: Option<i64>) -> MessageView {
    let from_id = sender_of(raw);
    MessageView {
        dialog_id,
        msg_id: raw.id,
        date: date_of(raw)->0,
        from_id,
        outgoing: my_id is Some && from_id is Some && my_id == from_id,
        reply_to: raw.reply_to_message_id,
        grouped_id: None,
        fwd_from: match raw.forwarded_from {
            Some(v) => value_text(v),
            None => None,
        },
        media_type: media_of(raw),
        file_path: if raw.file is Some {
            opt_view(raw.file)
        } else {
            opt_view(raw.photo)
        },
        text: flat_text(raw.text),
    }
}

/// The ordinary messages of a chat.
pub open spec fn messages_of(
    raws: Seq<RawMessage>,
    dialog_id: i64,
    my_id: Option<i64>,
) -> Seq<MessageView>
    decreases raws.len(),
{
    if raws.len() == 0 {
        seq![]
    } else if is_service(raws.last()) {
        messages_of(raws.drop_last(), dialog_id, my_id)
    } else {
        messages_of(raws.drop_last(), dialog_id, my_id).push(
            message_of(raws.last(), dialog_id, my_id),
        )
    }
}

/// How many of the messages are service messages.
pub open spec fn service_count(raws: Seq<RawMessage>) -> nat
    decreases raws.len(),
{
    if raws.len() == 0 {
        0
    } else {
        service_count(raws.drop_last()) + if is_service(raws.last()) {
            1nat
        } else {
            0nat
        }
    }
}

/// Every ordinary message before place `k` has a date that can be read.
pub open spec fn dated_before(raws: Seq<RawMessage>, k: int) -> bool {
    forall|i: int|
        0 <= i < k && !is_service(#[trigger] raws[i]) ==> date_of(raws[i]) is Some
}

/// The dialog a chat stands for.
pub open spec fn dialog_of(chat: Chat, id: i64, count: nat) -> DialogView {
    DialogView {
        id,
        kind: PeerKind::of_export_type(
            match chat.kind {
                Some(k) => k@,
                None => seq![],
            },
        ),
        access_hash: None,
        title: match chat.name {
            Some(n) => n@,
            None => "id"@ + dec_int(id as int),
        },
        username: None,
        archived: false,
        msg_count: count as i64,
    }
}

/// A chat ready to be stored.
#[derive(Debug)]
pub struct Taken {
    pub dialog: Dialog,
    pub messages: Vec<Message>,
    pub skipped_service: usize,
}

fn take_message(
    raw: &RawMessage,
    dialog_id: i64,
    my_id: Option<i64>,
) -> (r: Result<Message, ExportError>)
    ensures
        match r {
            Ok(m) => date_of(*raw) is Some && m@ == message_of(*raw, dialog_id, my_id),
            Err(why) => date_of(*raw) is None && why == ExportError::NoDate(raw.id),
        },
{
    let date: i64 = match parse_date(raw) {
        Ok(at) => at,
        Err(why) => {
            return Err(why);
        },
    };
    let from_id: Option<i64> = sender(raw);
    let outgoing: bool = match (my_id, from_id) {
        (Some(me), Some(f)) => f == me,
        _ => false,
    };
    let fwd_from: Option<String> = match &raw.forwarded_from {
        Some(v) => value_to_string(v),
        None => None,
    };
    let file_path: Option<String> = if raw.file.is_some() {
        copy_opt(&raw.file)
    } else {
        copy_opt(&raw.photo)
    };
    Ok(
        Message {
            dialog_id,
            msg_id: raw.id,
            date,
            from_id,
            outgoing,
            reply_to: raw.reply_to_message_id,
            // The export has no grouped_id.
            grouped_id: None,
            fwd_from,
            media_type: media_type(raw),
            file_path,
            text: flatten_text(&raw.text),
        },
    )
}

/// Take one chat in. One without an id is passed over.
pub fn ingest_chat(chat: &Chat, my_id: Option<i64>) -> (r: Result<Option<Taken>, ExportError>)
    ensures
        ({
            let raws = chat.messages@;
            match (chat.id, r) {
                (None, Ok(None)) => true,
                (Some(id), Ok(Some(t))) => {
                    &&& dated_before(raws, raws.len() as int)
                    &&& message_views(t.messages@) == messages_of(raws, id, my_id)
                    &&& t.skipped_service == service_count(raws)
                    &&& t.dialog@ == dialog_of(*chat, id, messages_of(raws, id, my_id).len())
                },
                (Some(_), Err(ExportError::NoDate(at))) => exists|k: int|
                    {
                        &&& 0 <= k < raws.len()
                        &&& #[trigger] dated_before(raws, k)
                        &&& !is_service(raws[k])
                        &&& date_of(raws[k]) is None
                        &&& at == raws[k].id
                    },
                _ => false,
            }
        }),
{
    let id: i64 = match chat.id {
        Some(id) => id,
        None => {
            return Ok(None);
        },
    };
    let kind: PeerKind = match &chat.kind {
        Some(k) => PeerKind::from_export_type(k.as_str()),
        None => {
            let none: String = String::new();
            assert(none@ =~= Seq::<char>::empty());
            PeerKind::from_export_type(none.as_str())
        },
    };
    let ghost raws = chat.messages@;
    let mut messages: Vec<Message> = Vec::new();
    let mut skipped: usize = 0;
    let mut i: usize = 0;
    assert(raws.take(0) =~= Seq::<RawMessage>::empty());
    assert(message_views(messages@) =~= Seq::<MessageView>::empty());
    while i < chat.messages.len()
        invariant
            skipped <= i <= raws.len(),
            raws == chat.messages@,
            chat.id == Some(id),
            dated_before(raws, i as int),
            message_views(messages@) == messages_of(raws.take(i as int), id, my_id),
            skipped == service_count(raws.take(i as int)),
        decreases raws.len() - i,
    {
        let raw: &RawMessage = &chat.messages[i];
        assert(raws.take(i + 1).drop_last() =~= raws.take(i as int));
        assert(raws.take(i + 1).last() == *raw);
        if reads_as(&raw.kind, "service") {
            skipped += 1;
        } else {
            match take_message(raw, id, my_id) {
                Ok(m) => {
                    let ghost was = message_views(messages@);
                    messages.push(m);
                    assert(message_views(messages@) =~= was.push(m@));
                },
                Err(why) => {
                    let ghost k = i as int;
                    assert(dated_before(raws, k));
                    return Err(why);
                },
            }
        }
        i += 1;
    }
    assert(raws.take(i as int) =~= raws);
    assert(messages@.len() == message_views(messages@).len());
    let title: String = match &chat.name {
        Some(n) => n.clone(),
        None => {
            let mut t: String = "id".to_owned();
            push_int(&mut t, id);
            t
        },
    };
    let count: usize = messages.len();
    let dialog: Dialog = Dialog {
        id,
        kind,
        access_hash: None,
        title,
        username: None,
        archived: false,
        msg_count: count as i64,
    };
    Ok(Some(Taken { dialog, messages, skipped_service: skipped }))
}

/// What taking an export in came to.
#[derive(Debug, Clone, Copy, PartialEq, Eq, Structural)]
pub struct Stats {
    pub dialogs: usize,
    pub messages: usize,
    pub skipped_service: usize,
    pub my_id: Option<i64>,
}

impl Stats {
    /// Nothing taken in yet.
    pub fn start(my_id: Option<i64>) -> (r: Stats)
        ensures
            r == (Stats { dialogs: 0, messages: 0, skipped_service: 0, my_id }),
    {
        Stats { dialogs: 0, messages: 0, skipped_service: 0, my_id }
    }

    /// Room for the counts of one more chat.
    pub open spec fn has_room(self, t: Taken) -> bool {
        &&& self.dialogs < usize::MAX
        &&& self.messages + t.messages@.len() <= usize::MAX
        &&& self.skipped_service + t.skipped_service <= usize::MAX
    }

    /// Count one chat.
    pub fn count(&mut self, t: &Taken)
        requires
            old(self).has_room(*t),
        ensures
            *final(self) == (Stats {
                dialogs: (old(self).dialogs + 1) as usize,
                messages: (old(self).messages + t.messages@.len()) as usize,
                skipped_service: (old(self).skipped_service + t.skipped_service) as usize,
                my_id: old(self).my_id,
            }),
    {
        self.dialogs = self.dialogs + 1;
        self.messages = self.messages + t.messages.len();
        self.skipped_service = self.skipped_service + t.skipped_service;
    }
}

/// Nothing is lost on the way in: every message of a chat is either taken or
/// counted as skipped.
pub proof fn law_every_message_is_taken_or_skipped(
    raws: Seq<RawMessage>,
    dialog_id: i64,
    my_id: Option<i64>,
)
    ensures
        messages_of(raws, dialog_id, my_id).len() + service_count(raws) == raws.len(),
    decreases raws.len(),
{
    if raws.len() > 0 {
        law_every_message_is_taken_or_skipped(raws.drop_last(), dialog_id, my_id);
    }
}

/// A message is one's own only if both its sender and the owner are known and
/// are the same.
pub proof fn law_outgoing_needs_both_ids(raw: RawMessage, dialog_id: i64, my_id: Option<i64>)
    ensures
        message_of(raw, dialog_id, my_id).outgoing <==> my_id is Some && sender_of(raw) == my_id,
{
}

} // verus!
