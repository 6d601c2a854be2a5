//! Taking an export in.

use glisser::export::{
    flatten_text, infer_my_id, ingest_chat, media_type, open_export, parse_date, parse_peer_id, pick_date,
    value_to_string, Chat, Export, ExportError, RawMessage, Stats,
};
use glisser::json::Json;
use glisser::model::PeerKind;

fn text(s: &str) -> Json {
    Json::Str(s.to_string())
}

fn raw(id: i32, from: Option<&str>) -> RawMessage {
    RawMessage {
        id,
        kind: None,
        date_unixtime: Some(id.to_string()),
        date: None,
        from_id: from.map(str::to_string),
        reply_to_message_id: None,
        forwarded_from: None,
        media_type: None,
        mime_type: None,
        file: None,
        photo: None,
        text: text(""),
    }
}

fn chat(kind: &str, id: Option<i64>, messages: Vec<RawMessage>) -> Chat {
    Chat { name: Some("Friend".into()), kind: Some(kind.into()), id, messages }
}

#[test]
fn text_flattens_string_and_entity_array() {
    assert_eq!(flatten_text(&text("hello")), "hello");

    let v = Json::Array(vec![
        text("look "),
        Json::Object(vec![
            ("type".into(), text("text_link")),
            ("text".into(), text("here")),
            ("href".into(), text("https://example.com/x")),
        ]),
        text(" done"),
    ]);
    let out = flatten_text(&v);
    assert!(out.contains("look"));
    assert!(out.contains("here"));
    // The href carries the domain — a signal in its own right.
    assert!(out.contains("example.com"));
    assert!(out.contains("done"));
    assert_eq!(out, "look here https://example.com/x done");
}

#[test]
fn peer_ids_parse_from_prefixed_form() {
    assert_eq!(parse_peer_id("user123456"), Some(123456));
    assert_eq!(parse_peer_id("channel987"), Some(987));
    assert_eq!(parse_peer_id("junk"), None);
}

#[test]
fn saved_messages_id_identifies_me() {
    let chats = vec![Chat {
        name: Some("Saved".into()),
        kind: Some("saved_messages".into()),
        id: Some(555),
        messages: vec![],
    }];
    assert_eq!(infer_my_id(&chats), Some(555));
}

#[test]
fn my_id_inferred_from_personal_chat_when_no_saved_messages() {
    // In a chat with 777, anything not from 777 is from me.
    let chats = vec![Chat {
        name: Some("Friend".into()),
        kind: Some("personal_chat".into()),
        id: Some(777),
        messages: vec![
            RawMessage {
                id: 1,
                kind: None,
                date_unixtime: Some("1".into()),
                date: None,
                from_id: Some("user777".into()),
                reply_to_message_id: None,
                forwarded_from: None,
                media_type: None,
                mime_type: None,
                file: None,
                photo: None,
                text: text(""),
            },
            RawMessage {
                id: 2,
                kind: None,
                date_unixtime: Some("2".into()),
                date: None,
                from_id: Some("user42".into()),
                reply_to_message_id: None,
                forwarded_from: None,
                media_type: None,
                mime_type: None,
                file: None,
                photo: None,
                text: text(""),
            },
        ],
    }];
    assert_eq!(infer_my_id(&chats), Some(42));
}

#[test]
fn unixtime_string_is_parsed() {
    let raw = RawMessage {
        id: 1,
        kind: None,
        date_unixtime: Some("1577836800".into()),
        date: None,
        from_id: None,
        reply_to_message_id: None,
        forwarded_from: None,
        media_type: None,
        mime_type: None,
        file: None,
        photo: None,
        text: text(""),
    };
    assert_eq!(parse_date(&raw).unwrap(), 1_577_836_800);
}

#[test]
fn a_moment_in_words_is_read_as_it_stands() {
    let mut m = raw(7, None);
    m.date_unixtime = None;
    m.date = Some("2020-01-01T00:01:05".into());
    assert_eq!(parse_date(&m).unwrap(), 1_577_836_865);
    // The number wins over the words, where it is one.
    m.date_unixtime = Some("12".into());
    assert_eq!(parse_date(&m).unwrap(), 12);
    m.date_unixtime = Some("soon".into());
    assert_eq!(parse_date(&m).unwrap(), 1_577_836_865);
    m.date = Some("2020-01-01".into());
    let e = parse_date(&m).unwrap_err();
    assert!(matches!(e, ExportError::NoDate(7)));
    assert_eq!(e.message(), "message 7 has no parsable date");
    m.date = None;
    assert!(parse_date(&m).is_err());
}

#[test]
fn peer_ids_keep_their_sign() {
    assert_eq!(parse_peer_id("-100123"), Some(-100123));
    assert_eq!(parse_peer_id("chat-5"), Some(-5));
    assert_eq!(parse_peer_id("user12x"), None);
    assert_eq!(parse_peer_id(""), None);
    assert_eq!(parse_peer_id("user9223372036854775807"), Some(i64::MAX));
    assert_eq!(parse_peer_id("user9223372036854775808"), None);
}

#[test]
fn the_most_frequent_stranger_is_me() {
    let chats = vec![
        chat("personal_chat", Some(1), vec![raw(1, Some("user9")), raw(2, Some("user1"))]),
        chat("private_group", Some(2), vec![raw(3, Some("user5")), raw(4, Some("user5"))]),
        chat("personal_chat", Some(3), vec![raw(5, Some("user9")), raw(6, Some("user4"))]),
    ];
    assert_eq!(infer_my_id(&chats), Some(9));
    assert_eq!(infer_my_id(&Vec::new()), None);
    let alone = vec![chat("personal_chat", Some(1), vec![raw(1, Some("user1"))])];
    assert_eq!(infer_my_id(&alone), None);
}

#[test]
fn media_is_named() {
    let mut m = raw(1, None);
    assert_eq!(media_type(&m), None);
    m.file = Some("a.bin".into());
    assert_eq!(media_type(&m).as_deref(), Some("file"));
    m.mime_type = Some("video/mp4".into());
    assert_eq!(media_type(&m).as_deref(), Some("video/mp4"));
    m.photo = Some("a.jpg".into());
    assert_eq!(media_type(&m).as_deref(), Some("photo"));
    m.media_type = Some("voice_message".into());
    assert_eq!(media_type(&m).as_deref(), Some("voice_message"));
}

#[test]
fn values_become_text() {
    assert_eq!(value_to_string(&text("News")).as_deref(), Some("News"));
    assert_eq!(value_to_string(&Json::Null), None);
    assert_eq!(value_to_string(&Json::Bool(false)), None);
    assert_eq!(value_to_string(&Json::Bool(true)).as_deref(), Some("true"));
    assert_eq!(value_to_string(&text("")).as_deref(), Some("\"\""));
    assert_eq!(value_to_string(&Json::Number("12".into())).as_deref(), Some("12"));
    let v = Json::Object(vec![
        ("a".into(), Json::Array(vec![Json::Number("1".into()), Json::Null])),
        ("b\"".into(), text("x\ny")),
    ]);
    assert_eq!(value_to_string(&v).as_deref(), Some("{\"a\":[1,null],\"b\\\"\":\"x\\ny\"}"));
}

#[test]
fn strings_are_escaped_in_json() {
    let v = Json::Array(vec![text("\"\\\u{8}\t\n\u{c}\r\u{0}\u{1f}\u{7f}/ё😀")]);
    assert_eq!(
        value_to_string(&v).as_deref(),
        Some("[\"\\\"\\\\\\b\\t\\n\\f\\r\\u0000\\u001f\u{7f}/ё😀\"]")
    );
}

#[test]
fn an_export_is_opened() {
    let wrapped = Export {
        user_id: Some(8),
        chats: Some(vec![chat("personal_chat", Some(1), vec![raw(1, Some("user9"))])]),
        single: None,
    };
    let got = open_export(wrapped, None).unwrap();
    assert_eq!(got.chats.len(), 1);
    assert_eq!(got.my_id, Some(8));

    let single = Export {
        user_id: None,
        chats: None,
        single: Some(chat("personal_chat", Some(1), vec![raw(1, Some("user9"))])),
    };
    assert_eq!(open_export(single, None).unwrap().my_id, Some(9));

    let told = Export { user_id: Some(8), chats: Some(Vec::new()), single: None };
    assert_eq!(open_export(told, Some(3)).unwrap().my_id, Some(3));

    let nameless = Export { user_id: None, chats: None, single: Some(chat("x", None, Vec::new())) };
    let e = open_export(nameless, None).unwrap_err();
    assert!(matches!(e, ExportError::NotAnExport));
    assert_eq!(
        e.message(),
        "neither `chats.list` nor a single chat in the file — is it a Telegram export?"
    );
    let empty = Export { user_id: None, chats: None, single: None };
    assert!(open_export(empty, None).is_err());
}

#[test]
fn a_chat_is_taken_in() {
    let mut service = raw(2, None);
    service.kind = Some("service".into());
    let mut own = raw(3, Some("user42"));
    own.reply_to_message_id = Some(1);
    own.photo = Some("p.jpg".into());
    own.text = text("hello");
    own.forwarded_from = Some(text("News"));
    let c = chat("personal_chat", Some(777), vec![raw(1, Some("user777")), service, own]);
    let t = ingest_chat(&c, Some(42)).unwrap().unwrap();
    assert_eq!(t.skipped_service, 1);
    assert_eq!(t.messages.len() + t.skipped_service, 3);
    assert_eq!(t.dialog.id, 777);
    assert_eq!(t.dialog.kind, PeerKind::User);
    assert_eq!(t.dialog.title, "Friend");
    assert_eq!(t.dialog.msg_count, 2);
    assert_eq!(t.dialog.access_hash, None);
    assert!(!t.messages[0].outgoing);
    let m = &t.messages[1];
    assert!(m.outgoing);
    assert_eq!(m.dialog_id, 777);
    assert_eq!(m.msg_id, 3);
    assert_eq!(m.date, 3);
    assert_eq!(m.from_id, Some(42));
    assert_eq!(m.reply_to, Some(1));
    assert_eq!(m.grouped_id, None);
    assert_eq!(m.fwd_from.as_deref(), Some("News"));
    assert_eq!(m.media_type.as_deref(), Some("photo"));
    assert_eq!(m.file_path.as_deref(), Some("p.jpg"));
    assert_eq!(m.text, "hello");

    // Without an owner nothing is one's own.
    let t = ingest_chat(&c, None).unwrap().unwrap();
    assert!(t.messages.iter().all(|m| !m.outgoing));

    let mut stats = Stats::start(Some(42));
    stats.count(&t);
    stats.count(&t);
    assert_eq!(stats, Stats { dialogs: 2, messages: 4, skipped_service: 2, my_id: Some(42) });
}

#[test]
fn a_chat_without_a_name_or_an_id() {
    let mut c = chat("personal_chat", Some(-5), Vec::new());
    c.name = None;
    c.kind = None;
    let t = ingest_chat(&c, None).unwrap().unwrap();
    assert_eq!(t.dialog.title, "id-5");
    assert_eq!(t.dialog.kind, PeerKind::Megagroup);
    c.id = None;
    assert!(ingest_chat(&c, None).unwrap().is_none());
}

#[test]
fn a_message_without_a_date_stops_the_chat() {
    let mut bad = raw(2, None);
    bad.date_unixtime = None;
    let c = chat("personal_chat", Some(1), vec![raw(1, None), bad, raw(3, None)]);
    assert!(matches!(ingest_chat(&c, None), Err(ExportError::NoDate(2))));
}

#[test]
fn the_written_number_wins() {
    let mut m = raw(4, None);
    assert_eq!(pick_date(&m, Some(9)).unwrap(), 4);
    m.date_unixtime = Some("+7".into());
    assert_eq!(pick_date(&m, Some(9)).unwrap(), 7);
    m.date_unixtime = Some("9223372036854775808".into());
    assert_eq!(pick_date(&m, Some(9)).unwrap(), 9);
    m.date_unixtime = None;
    assert_eq!(pick_date(&m, Some(9)).unwrap(), 9);
    assert!(matches!(pick_date(&m, None), Err(ExportError::NoDate(4))));
}
