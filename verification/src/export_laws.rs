//! What taking an export in promises of texts, senders, dates and owners.

use crate::clock::moment_of;
use crate::export::{
    chats_of, date_of, dialog_of, flat_text, is_owner, is_service, media_of, message_of,
    messages_of, numeric_tail, peer_number, piece_text, pieces_text, saved_id, sender_of,
    service_count, value_text, votes_for, votes_in, Chat, Export, RawMessage,
};
use crate::json::{compact, field_of, Json};
use crate::model::MessageView;
use crate::text::{dec_int, i64_of_text};
use crate::text_laws::{law_decimal_notation, law_numbers_round_trip};
use vstd::prelude::*;

verus! {

// --- texts -------------------------------------------------------------------

/// The object has such a field at that place, and none of that name before.
pub open spec fn holds_at(o: Seq<(String, Json)>, k: int, key: Seq<char>, v: Json) -> bool {
    &&& 0 <= k < o.len()
    &&& o[k].0@ == key
    &&& o[k].1 == v
    &&& forall|j: int| 0 <= j < k ==> (#[trigger] o[j]).0@ != key
}

/// The object has no field of that name.
pub open spec fn lacks(o: Seq<(String, Json)>, key: Seq<char>) -> bool {
    forall|j: int| 0 <= j < o.len() ==> (#[trigger] o[j]).0@ != key
}

/// A field is found under its name, the first of that name, and nothing is
/// found under a name that is not there.
pub proof fn law_fields_are_found(o: Seq<(String, Json)>, key: Seq<char>, k: int)
    ensures
        lacks(o, key) ==> field_of(o, key) is None,
        0 <= k < o.len() && holds_at(o, k, key, o[k].1) ==> field_of(o, key) == Some(o[k].1),
    decreases o.len(),
{
    if o.len() > 0 && o[0].0@ != key {
        let rest = o.drop_first();
        law_fields_are_found(rest, key, k - 1);
        if lacks(o, key) {
            assert forall|j: int| 0 <= j < rest.len() implies (#[trigger] rest[j]).0@ != key by {
                assert(rest[j] == o[j + 1]);
            }
        }
        if 0 < k < o.len() && holds_at(o, k, key, o[k].1) {
            assert(rest[k - 1] == o[k]);
            assert forall|j: int| 0 <= j < k - 1 implies (#[trigger] rest[j]).0@ != key by {
                assert(rest[j] == o[j + 1]);
            }
        }
    } else if o.len() > 0 {
        assert(o[0].0@ == key);
    }
}

/// An entity gives its text whatever else it holds, and behind it, after a
/// blank, its address if it has one.
pub proof fn law_entities_give_text_and_address(
    o: Vec<(String, Json)>,
    k: int,
    t: String,
    m: int,
    h: String,
)
    ensures
        holds_at(o@, k, "text"@, Json::Str(t)) && lacks(o@, "href"@) ==> piece_text(
            Json::Object(o),
        ) == t@,
        holds_at(o@, k, "text"@, Json::Str(t)) && holds_at(o@, m, "href"@, Json::Str(h))
            ==> piece_text(Json::Object(o)) == t@ + seq![' '] + h@,
        lacks(o@, "text"@) && holds_at(o@, m, "href"@, Json::Str(h)) ==> piece_text(
            Json::Object(o),
        ) == seq![' '] + h@,
        lacks(o@, "text"@) && lacks(o@, "href"@) ==> piece_text(Json::Object(o)) == Seq::<
            char,
        >::empty(),
        holds_at(o@, k, "text"@, Json::Str(t)) ==> piece_text(Json::Object(o)).take(
            t@.len() as int,
        ) == t@,
{
    reveal_strlit(" ");
    assert(" "@ =~= seq![' ']);
    law_fields_are_found(o@, "text"@, k);
    law_fields_are_found(o@, "href"@, m);
    let p = piece_text(Json::Object(o));
    if holds_at(o@, k, "text"@, Json::Str(t)) {
        assert(p.take(t@.len() as int) =~= t@);
        if lacks(o@, "href"@) {
            assert(p =~= t@);
        }
        if holds_at(o@, m, "href"@, Json::Str(h)) {
            assert(p =~= t@ + seq![' '] + h@);
        }
    }
    if lacks(o@, "text"@) {
        if holds_at(o@, m, "href"@, Json::Str(h)) {
            assert(p =~= seq![' '] + h@);
        }
        if lacks(o@, "href"@) {
            assert(p =~= Seq::<char>::empty());
        }
    }
}

/// Text and address are strings; anything else in their place adds nothing.
pub proof fn law_only_strings_are_text(o: Vec<(String, Json)>, k: int, v: Json, t: String)
    requires
        v !is Str,
    ensures
        holds_at(o@, k, "text"@, v) && lacks(o@, "href"@) ==> piece_text(Json::Object(o)) == Seq::<
            char,
        >::empty(),
        holds_at(o@, k, "href"@, v) && lacks(o@, "text"@) ==> piece_text(Json::Object(o)) == Seq::<
            char,
        >::empty(),
        v !is Object ==> piece_text(v) == Seq::<char>::empty(),
        v !is Array ==> flat_text(v) == Seq::<char>::empty(),
        flat_text(Json::Str(t)) == t@,
        piece_text(Json::Str(t)) == t@,
{
    law_fields_are_found(o@, "text"@, k);
    law_fields_are_found(o@, "href"@, k);
    if holds_at(o@, k, "text"@, v) && lacks(o@, "href"@) {
        assert(piece_text(Json::Object(o)) =~= Seq::<char>::empty());
    }
    if holds_at(o@, k, "href"@, v) && lacks(o@, "text"@) {
        assert(piece_text(Json::Object(o)) =~= Seq::<char>::empty());
    }
}

proof fn lemma_pieces_add(a: Seq<Json>, b: Seq<Json>)
    ensures
        pieces_text(a + b) == pieces_text(a) + pieces_text(b),
    decreases b.len(),
{
    if b.len() == 0 {
        assert(a + b =~= a);
        assert(pieces_text(a) + pieces_text(b) =~= pieces_text(a));
    } else {
        assert((a + b).drop_last() =~= a + b.drop_last());
        lemma_pieces_add(a, b.drop_last());
        assert(pieces_text(a + b) =~= pieces_text(a) + pieces_text(b));
    }
}

/// No piece of a text is lost: the text of a list of pieces is the text of
/// those before any one of them, then its own, then that of those behind it.
pub proof fn law_no_piece_is_lost(items: Vec<Json>, k: int)
    requires
        0 <= k < items@.len(),
    ensures
        flat_text(Json::Array(items)) == pieces_text(items@.take(k)) + piece_text(items@[k])
            + pieces_text(items@.skip(k + 1)),
        items@[k] matches Json::Str(s) ==> flat_text(Json::Array(items)) == pieces_text(
            items@.take(k),
        ) + s@ + pieces_text(items@.skip(k + 1)),
        pieces_text(Seq::<Json>::empty()) == Seq::<char>::empty(),
{
    let head = items@.take(k);
    let one = seq![items@[k]];
    let tail = items@.skip(k + 1);
    assert(items@ =~= (head + one) + tail);
    lemma_pieces_add(head + one, tail);
    lemma_pieces_add(head, one);
    assert(one.drop_last() =~= Seq::<Json>::empty());
    assert(one.last() == items@[k]);
    assert(pieces_text(one.drop_last()) =~= Seq::<char>::empty());
    assert(pieces_text(one) =~= piece_text(items@[k]));
}

/// A forward names its source as it is written; what says nothing is none.
pub proof fn law_values_as_text(v: Json)
    ensures
        v matches Json::Str(s) ==> (s@.len() > 0 ==> value_text(v) == Some(s@)),
        v is Null ==> value_text(v) is None,
        v matches Json::Bool(b) ==> (!b ==> value_text(v) is None),
        v matches Json::Number(n) ==> value_text(v) == Some(n@),
        v is Array || v is Object ==> value_text(v) == Some(compact(v)),
{
}

// --- senders -------------------------------------------------------------------

/// Neither a digit nor a minus.
pub open spec fn no_number_in(s: Seq<char>) -> bool {
    forall|i: int|
        0 <= i < s.len() ==> (#[trigger] s[i]) != '-' && !('0' <= s[i] && s[i] <= '9')
}

proof fn lemma_tail(prefix: Seq<char>, rest: Seq<char>)
    requires
        no_number_in(prefix),
        rest.len() == 0 || rest[0] == '-' || ('0' <= rest[0] && rest[0] <= '9'),
    ensures
        numeric_tail(prefix + rest) == rest,
    decreases prefix.len(),
{
    let s = prefix + rest;
    if prefix.len() == 0 {
        assert(s =~= rest);
    } else {
        assert(s[0] == prefix[0]);
        let less = prefix.drop_first();
        assert(s.drop_first() =~= less + rest);
        assert(no_number_in(less)) by {
            assert forall|i: int| 0 <= i < less.len() implies (#[trigger] less[i]) != '-' && !('0'
                <= less[i] && less[i] <= '9') by {
                assert(less[i] == prefix[i + 1]);
            }
        }
        lemma_tail(less, rest);
    }
}

/// A sender is the number behind the word, whatever the word; without a number
/// there is none.
pub proof fn law_sender_is_the_number(raw: RawMessage, word: Seq<char>, id: i64)
    requires
        no_number_in(word),
    ensures
        peer_number(word + dec_int(id as int)) == Some(id),
        peer_number(word) is None,
        raw.from_id matches Some(s) ==> (s@ == word + dec_int(id as int) ==> sender_of(raw) == Some(
            id,
        )),
        raw.from_id is None ==> sender_of(raw) is None,
{
    law_numbers_round_trip(id);
    if id < 0 {
        law_decimal_notation((-id) as nat);
    } else {
        law_decimal_notation(id as nat);
        assert('0' <= dec_int(id as int)[0] && dec_int(id as int)[0] <= '9');
    }
    lemma_tail(word, dec_int(id as int));
    lemma_tail(word, Seq::<char>::empty());
    assert(word + Seq::<char>::empty() =~= word);
}

// --- dates ---------------------------------------------------------------------

/// The second a message writes out is its date whatever else it says; without
/// one the moment in words is; without both there is none.
pub proof fn law_written_second_wins(raw: RawMessage, at: i64)
    ensures
        raw.date_unixtime matches Some(u) ==> (u@ == dec_int(at as int) ==> date_of(raw) == Some(
            at,
        )),
        (raw.date_unixtime is None || i64_of_text((raw.date_unixtime->0)@) is None) ==> {
            &&& raw.date matches Some(d) ==> date_of(raw) == moment_of(d@)
            &&& raw.date is None ==> date_of(raw) is None
        },
{
    law_numbers_round_trip(at);
}

// --- messages --------------------------------------------------------------------

/// What a message carries: what it says of itself, then a photo, then the type
/// of its file, then just a file.
pub proof fn law_media_is_named(raw: RawMessage)
    ensures
        raw.media_type matches Some(m) ==> media_of(raw) == Some(m@),
        raw.media_type is None && raw.photo is Some ==> media_of(raw) == Some("photo"@),
        raw.media_type is None && raw.photo is None && raw.file is Some ==> (match raw.mime_type {
            Some(m) => media_of(raw) == Some(m@),
            None => media_of(raw) == Some("file"@),
        }),
        media_of(raw) is None <==> raw.media_type is None && raw.photo is None && raw.file is None,
{
}

/// Nothing a message says is changed on the way in.
pub proof fn law_messages_keep_what_they_say(raw: RawMessage, dialog_id: i64, my_id: Option<i64>)
    ensures
        ({
            let m: MessageView = message_of(raw, dialog_id, my_id);
            &&& m.dialog_id == dialog_id
            &&& m.msg_id == raw.id
            &&& date_of(raw) matches Some(at) ==> m.date == at
            &&& m.from_id == sender_of(raw)
            &&& m.reply_to == raw.reply_to_message_id
            &&& m.grouped_id is None
            &&& m.text == flat_text(raw.text)
            &&& m.media_type == media_of(raw)
            &&& raw.file matches Some(f) ==> m.file_path == Some(f@)
            &&& raw.file is None ==> (match raw.photo {
                Some(p) => m.file_path == Some(p@),
                None => m.file_path is None,
            })
            &&& raw.forwarded_from matches Some(v) ==> m.fwd_from == value_text(v)
            &&& raw.forwarded_from is None ==> m.fwd_from is None
        }),
{
}

/// Messages are taken in one by one and in order: the service messages are
/// passed over and counted, and no other.
pub proof fn law_messages_are_taken_in_order(
    raws: Seq<RawMessage>,
    k: int,
    dialog_id: i64,
    my_id: Option<i64>,
)
    requires
        0 <= k < raws.len(),
    ensures
        (raws[k].kind is Some && (raws[k].kind->0)@ == "service"@) ==> messages_of(
            raws,
            dialog_id,
            my_id,
        ) == messages_of(raws.take(k), dialog_id, my_id) + messages_of(
            raws.skip(k + 1),
            dialog_id,
            my_id,
        ) && service_count(raws) == service_count(raws.take(k)) + 1 + service_count(
            raws.skip(k + 1),
        ),
        (raws[k].kind is None || (raws[k].kind->0)@ != "service"@) ==> messages_of(
            raws,
            dialog_id,
            my_id,
        ) == messages_of(raws.take(k), dialog_id, my_id).push(
            message_of(raws[k], dialog_id, my_id),
        ) + messages_of(raws.skip(k + 1), dialog_id, my_id) && service_count(raws)
            == service_count(raws.take(k)) + service_count(raws.skip(k + 1)),
        messages_of(Seq::<RawMessage>::empty(), dialog_id, my_id).len() == 0,
        service_count(Seq::<RawMessage>::empty()) == 0,
    decreases raws.len(),
{
    let init = raws.drop_last();
    if k == raws.len() - 1 {
        assert(raws.take(k) =~= init);
        assert(raws.skip(k + 1) =~= Seq::<RawMessage>::empty());
        assert(raws[k] == raws.last());
        assert(messages_of(raws.skip(k + 1), dialog_id, my_id) =~= Seq::<MessageView>::empty());
        assert(messages_of(raws, dialog_id, my_id) =~= messages_of(raws, dialog_id, my_id)
            + Seq::<MessageView>::empty());
    } else {
        law_messages_are_taken_in_order(init, k, dialog_id, my_id);
        assert(init.take(k) =~= raws.take(k));
        assert(init[k] == raws[k]);
        let tail = raws.skip(k + 1);
        assert(tail.drop_last() =~= init.skip(k + 1));
        assert(tail.last() == raws.last());
        let whole = messages_of(raws, dialog_id, my_id);
        let head = messages_of(raws.take(k), dialog_id, my_id);
        if is_service(raws[k]) {
            assert(whole =~= head + messages_of(tail, dialog_id, my_id));
        } else {
            assert(whole =~= head.push(message_of(raws[k], dialog_id, my_id)) + messages_of(
                tail,
                dialog_id,
                my_id,
            ));
        }
    }
}

/// A dialog keeps the name of its chat, or is named after its id.
pub proof fn law_dialogs_keep_their_name(chat: Chat, id: i64, count: nat)
    ensures
        dialog_of(chat, id, count).id == id,
        chat.name matches Some(n) ==> dialog_of(chat, id, count).title == n@,
        chat.name is None ==> dialog_of(chat, id, count).title == "id"@ + dec_int(id as int),
        count <= i64::MAX ==> dialog_of(chat, id, count).msg_count == count,
        !dialog_of(chat, id, count).archived,
{
}

// --- whose export it is ------------------------------------------------------------

/// What was said outright decides, then what the export says of itself.
pub proof fn law_owner_is_told_before_inferred(
    me: Option<i64>,
    user_id: Option<i64>,
    chats: Seq<Chat>,
    my_id: Option<i64>,
)
    requires
        is_owner(me, user_id, chats, my_id),
    ensures
        me is Some ==> my_id == me,
        me is None && user_id is Some ==> my_id == user_id,
{
}

/// A chat with oneself, with an id.
pub open spec fn is_saved(c: Chat) -> bool {
    &&& c.id is Some
    &&& c.kind matches Some(k) && k@ == "saved_messages"@
}

/// The first chat with oneself gives the owner away, before any vote.
pub proof fn law_saved_messages_give_the_owner(chats: Seq<Chat>, k: int, my_id: Option<i64>)
    ensures
        (forall|j: int| 0 <= j < chats.len() ==> !is_saved(#[trigger] chats[j])) <==> saved_id(
            chats,
        ) is None,
        0 <= k < chats.len() && is_saved(chats[k]) && (forall|j: int|
            0 <= j < k ==> !is_saved(#[trigger] chats[j])) ==> saved_id(chats) == chats[k].id,
        saved_id(chats) is Some && is_owner(None, None, chats, my_id) ==> my_id == saved_id(chats),
    decreases chats.len(),
{
    if chats.len() > 0 {
        let init = chats.drop_last();
        law_saved_messages_give_the_owner(init, k, my_id);
        assert(chats.last() == chats[chats.len() - 1]);
        if saved_id(init) is Some {
            let j = choose|j: int| 0 <= j < init.len() && is_saved(#[trigger] init[j]);
            assert(is_saved(chats[j]));
        } else {
            assert forall|j: int| 0 <= j < init.len() implies !is_saved(#[trigger] chats[j]) by {
                assert(init[j] == chats[j]);
            }
        }
        if 0 <= k < init.len() {
            assert(init[k] == chats[k]);
            if forall|j: int| 0 <= j < k ==> !is_saved(#[trigger] chats[j]) {
                assert forall|j: int| 0 <= j < k implies !is_saved(#[trigger] init[j]) by {
                    assert(init[j] == chats[j]);
                }
            }
        }
    }
}

/// A personal chat with a known other person.
pub open spec fn is_personal(c: Chat) -> bool {
    &&& c.id is Some
    &&& c.kind matches Some(k) && k@ == "personal_chat"@
}

/// Every message of a personal chat that is not from the other person is one
/// vote for its sender, and there are no other votes.
pub proof fn law_votes_are_messages_of_personal_chats(chats: Seq<Chat>, c: Chat, id: i64)
    ensures
        votes_for(Seq::<Chat>::empty(), id) == 0,
        !is_personal(c) ==> votes_for(chats.push(c), id) == votes_for(chats, id),
        is_personal(c) ==> votes_for(chats.push(c), id) == votes_for(chats, id) + votes_in(
            c.messages@,
            c.id->0,
            id,
        ),
        votes_for(chats, id) > 0 ==> exists|k: int, m: int|
            0 <= k < chats.len() && 0 <= m < chats[k].messages@.len() && is_personal(
                #[trigger] chats[k],
            ) && sender_of(#[trigger] chats[k].messages@[m]) == Some(id) && chats[k].id != Some(
                id,
            ),
    decreases chats.len(),
{
    assert(chats.push(c).drop_last() =~= chats);
    if chats.len() > 0 && votes_for(chats, id) > 0 {
        let init = chats.drop_last();
        let last = chats.last();
        law_votes_are_messages_of_personal_chats(init, c, id);
        if votes_for(init, id) > 0 {
            let (k, m) = choose|k: int, m: int|
                0 <= k < init.len() && 0 <= m < init[k].messages@.len() && is_personal(
                    #[trigger] init[k],
                ) && sender_of(#[trigger] init[k].messages@[m]) == Some(id) && init[k].id != Some(
                    id,
                );
            assert(chats[k] == init[k]);
            assert(sender_of(chats[k].messages@[m]) == Some(id));
        } else {
            let m = lemma_some_vote(last.messages@, last.id->0, id);
            assert(chats[chats.len() - 1] == last);
            assert(sender_of(chats[chats.len() - 1].messages@[m]) == Some(id));
        }
    }
}

proof fn lemma_some_vote(messages: Seq<RawMessage>, peer: i64, id: i64) -> (m: int)
    requires
        votes_in(messages, peer, id) > 0,
    ensures
        0 <= m < messages.len(),
        sender_of(messages[m]) == Some(id),
        id != peer,
    decreases messages.len(),
{
    if sender_of(messages.last()) == Some(id) && id != peer {
        messages.len() - 1
    } else {
        lemma_some_vote(messages.drop_last(), peer, id)
    }
}

/// One message, one vote: for its sender, unless that is the other person.
pub proof fn law_one_message_one_vote(
    messages: Seq<RawMessage>,
    raw: RawMessage,
    peer: i64,
    id: i64,
)
    ensures
        sender_of(raw) == Some(id) && id != peer ==> votes_in(messages.push(raw), peer, id)
            == votes_in(messages, peer, id) + 1,
        sender_of(raw) != Some(id) ==> votes_in(messages.push(raw), peer, id) == votes_in(
            messages,
            peer,
            id,
        ),
        votes_in(messages, peer, peer) == 0,
        votes_in(Seq::<RawMessage>::empty(), peer, id) == 0,
    decreases messages.len(),
{
    assert(messages.push(raw).drop_last() =~= messages);
    if messages.len() > 0 {
        law_one_message_one_vote(messages.drop_last(), raw, peer, id);
    }
}

/// An export is its list of chats, or else its single chat with an id.
pub proof fn law_exports_hold_chats(e: Export)
    ensures
        e.chats matches Some(list) ==> chats_of(e) == Some(list@),
        e.chats is None ==> {
            &&& e.single matches Some(c) ==> (c.id is Some ==> chats_of(e) == Some(seq![c]))
            &&& (e.single is None || (e.single->0).id is None) ==> chats_of(e) is None
        },
{
}

} // verus!
