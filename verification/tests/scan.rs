//! Scanning a dialog.

use glisser::dict::{Dictionary, RegexRule, Rule};
use glisser::model::{Axis, Layer, Message, Tier};
use glisser::norm::Normalized;
use glisser::scan::{keyword_pass, push_hits, scan_dialog, structural_pass, Scanned, Stats};
use glisser::scan_report::{report, AxisTier, DialogHits, Summary, TermHits};

const DAY: i64 = 86_400;
const NOW: i64 = 1_000 * DAY;

const WAR: [&str; 1] = ["войн"];
const HARD: [&str; 1] = ["сид фраз"];

fn dict() -> Dictionary {
    Dictionary::with(
        &vec![
            Rule { axis: Axis::Politics, id: "war", weight: 2000, terms: &WAR },
            Rule { axis: Axis::CryptoHard, id: "seed", weight: 3000, terms: &HARD },
        ],
        &vec![RegexRule { axis: Axis::Crypto, id: "btc", weight: 1500, pattern: r"\bBTC\b" }],
        &["отпуск"],
        &["навсегда"],
    )
    .unwrap()
}

fn msg(msg_id: i32, text: &str) -> Message {
    Message {
        dialog_id: 7,
        msg_id,
        date: NOW,
        from_id: None,
        outgoing: true,
        reply_to: None,
        grouped_id: None,
        fwd_from: None,
        media_type: None,
        file_path: None,
        text: text.to_string(),
    }
}

fn rules(s: &Scanned) -> Vec<(i32, String)> {
    s.hits.iter().map(|h| (h.msg_id, h.rule_id.clone())).collect()
}

#[test]
fn age_damps_the_priority() {
    let mut old = msg(2, "война");
    old.date = NOW - 200 * DAY;
    let mut ancient = msg(3, "война");
    ancient.date = NOW - 400 * DAY;
    let (hits, safe) = keyword_pass(&vec![msg(1, "война"), old, ancient], &dict(), NOW, None);
    assert_eq!(
        hits.iter().map(|h| (h.tier, h.priority)).collect::<Vec<_>>(),
        vec![(Tier::T0, 200_000), (Tier::T1, 170_000), (Tier::T2, 90_000)]
    );
    assert!(safe.is_empty());
    assert_eq!(hits[0].dialog_id, 7);
    assert_eq!(hits[0].term, "войн");
    assert_eq!(hits[0].layer, Layer::Keyword);
}

#[test]
fn one_axis_can_be_singled_out() {
    let msgs = vec![msg(1, "война и BTC")];
    let (all, _) = keyword_pass(&msgs, &dict(), NOW, None);
    assert_eq!(all.len(), 2);
    let (one, _) = keyword_pass(&msgs, &dict(), NOW, Some(Axis::Crypto));
    assert_eq!(one.len(), 1);
    assert_eq!(one[0].rule_id, "btc");
    assert_eq!(one[0].priority, 150_000);
}

#[test]
fn the_whitelist_marks_messages_not_hits() {
    let msgs = vec![
        msg(1, "едем в отпуск"),
        msg(2, "в отпуск, тут война"),
        msg(3, ""),
        msg(4, "в отпуск навсегда"),
    ];
    let (hits, safe) = keyword_pass(&msgs, &dict(), NOW, None);
    assert_eq!(safe, vec![1, 2]);
    assert_eq!(hits.len(), 1);
    assert!(hits[0].protected);
}

#[test]
fn hard_evidence_is_never_protected() {
    let (hits, safe) = keyword_pass(&vec![msg(1, "в отпуск взял сид фразу")], &dict(), NOW, None);
    assert_eq!(safe, vec![1]);
    assert_eq!(hits.len(), 1);
    assert_eq!(hits[0].axis, Axis::CryptoHard);
    assert!(!hits[0].protected);
}

#[test]
fn replies_pull_both_ways() {
    let mut voice = msg(1, "");
    voice.media_type = Some("voice_message".into());
    let mut hit = msg(2, "война");
    hit.reply_to = Some(1);
    let mut answer = msg(3, "да уж");
    answer.reply_to = Some(2);
    let mut lost = msg(4, "война");
    lost.reply_to = Some(99);
    let s = scan_dialog(&vec![voice, hit, answer, lost, msg(5, "тихо")], &dict(), NOW, None);
    assert_eq!(s.structural, 2);
    let mut got = rules(&s);
    got.sort();
    assert_eq!(
        got,
        vec![
            (1, "replied_by_hit".to_string()),
            (2, "war".to_string()),
            (3, "reply_to_hit".to_string()),
            (4, "war".to_string()),
        ]
    );
    let pulled = s.hits.iter().find(|h| h.msg_id == 1).unwrap();
    assert_eq!(pulled.layer, Layer::Topology);
    assert_eq!(pulled.axis, Axis::Politics);
    assert_eq!(pulled.term, "replied_by_hit");
    assert_eq!(pulled.priority, 50_000);
    assert_eq!(pulled.surface, None);
    assert!(!pulled.protected);
}

#[test]
fn albums_are_pulled_whole() {
    let mut a = msg(1, "война");
    a.grouped_id = Some(5);
    let mut b = msg(2, "");
    b.grouped_id = Some(5);
    // Both an answer and a part of the album: the album has the last word.
    let mut c = msg(3, "");
    c.grouped_id = Some(5);
    c.reply_to = Some(1);
    let mut d = msg(4, "");
    d.grouped_id = Some(6);
    let s = scan_dialog(&vec![a, b, c, d], &dict(), NOW, None);
    let mut got = rules(&s);
    got.sort();
    assert_eq!(
        got,
        vec![
            (1, "war".to_string()),
            (2, "same_album".to_string()),
            (3, "same_album".to_string()),
        ]
    );
}

#[test]
fn topology_leaves_hits_alone() {
    let mut a = msg(1, "война");
    a.grouped_id = Some(5);
    let mut b = msg(2, "BTC");
    b.reply_to = Some(1);
    b.grouped_id = Some(5);
    let msgs = vec![a, b];
    let (mut hits, _) = keyword_pass(&msgs, &dict(), NOW, None);
    assert_eq!(structural_pass(&msgs, &mut hits, NOW), 0);
    assert_eq!(hits.len(), 2);
    let mut none = Vec::new();
    assert_eq!(structural_pass(&msgs, &mut none, NOW), 0);
    assert!(none.is_empty());
}

#[test]
fn figures_add_up() {
    let mut stats = Stats::default();
    let s = scan_dialog(&vec![msg(1, "война"), msg(2, "в отпуск")], &dict(), NOW, None);
    stats.count(2, &s);
    stats.count(0, &s);
    stats.count(2, &s);
    assert_eq!(stats, Stats { dialogs: 2, messages: 4, hits: 2, structural: 0, protected: 2 });
}

#[test]
fn the_summary_in_words() {
    let s = Summary {
        total: 200,
        marked: 3,
        share: "1.50".into(),
        by_axis: vec![AxisTier { axis: "politics".into(), tier: "T0".into(), hits: 4, messages: 3 }],
        top_terms: vec![TermHits { rule: "war".into(), term: "войн".into(), hits: 4 }],
        top_dialogs: vec![DialogHits {
            title: "Friend".into(),
            hits: 3,
            total: 100,
            share: "3.0".into(),
        }],
        held: 1,
    };
    let expected = [
        "messages in corpus : 200",
        "marked             : 3 (1.50%)",
        "",
        "by axis and tier:",
        "  politics       T0  hits       4  messages       3",
        "",
        "top rules:",
        "        4  war                  войн",
        "",
        "top dialogs by density:",
        "       3 / 100       3.0%  Friend",
        "",
        "held by the whitelist: 1",
        "",
    ];
    assert_eq!(report(&s), expected.join("\n"));
    let none = Summary {
        total: 0,
        marked: 0,
        share: String::new(),
        by_axis: vec![],
        top_terms: vec![],
        top_dialogs: vec![],
        held: 0,
    };
    assert!(report(&none).starts_with("messages in corpus : 0\nmarked             : 0\n\n"));
}

#[test]
fn matches_become_hits() {
    let m = msg(1, "война и BTC");
    let found = dict().scan(&m.text, &Normalized::build(&m.text));
    let mut hits = Vec::new();
    push_hits(&mut hits, &m, found, NOW, Some(Axis::Politics), true);
    assert_eq!(hits.len(), 1);
    assert_eq!((hits[0].rule_id.as_str(), hits[0].priority), ("war", 200_000));
    assert!(hits[0].protected);
}
