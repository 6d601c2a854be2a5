//! Rendering a window, judging it, assembling the plan.

use glisser::model::Tier;
use glisser::plan::{
    approve, clamp, find_messages, rebuild_plan, scope_is_named, Mark, Marked, PlanError, PlanRow, Run,
};
use glisser::prompt::en;
use glisser::triage::{
    render, render_dated, render_in, step, would_widen, Heard, Line, Need, Range, Stats, Step, Verdict,
    VERDICT_SCHEMA,
};
use glisser::window::{Row, Window};

fn win(from_id: i32, to_id: i32) -> Window {
    Window {
        dialog_id: 1,
        from_id,
        to_id,
        anchors: vec![from_id],
        axes: vec!["crypto".into(), "politics".into()],
        tier: Tier::T1,
        voices: Vec::new(),
        total: (to_id - from_id + 1) as usize,
        chars: 0,
        newest: 0,
        rules: Vec::new(),
    }
}

fn line(msg_id: i32, text: &str) -> Line {
    Line {
        msg_id,
        date: 1_577_836_800 + 60 * 61,
        outgoing: msg_id % 2 == 0,
        text: text.into(),
        media_type: None,
        transcript: None,
        marks: None,
        protected: false,
    }
}

#[test]
fn a_window_is_rendered_densely() {
    let mut marked = line(2, "one\ntwo");
    marked.marks = Some("politics/war".into());
    let mut voice = line(3, "");
    voice.transcript = Some("spoken".into());
    voice.media_type = Some("voice_message".into());
    let mut photo = line(4, "");
    photo.media_type = Some("photo".into());
    let mut safe = line(5, "holiday");
    safe.protected = true;
    safe.marks = Some("politics/war".into());
    let got = render_in(&en(), Some("Friend"), &win(2, 6), &vec![marked, voice, photo, safe, line(6, "")]);
    let expected = [
        "Chat: Friend",
        "Window tier: T1 — 6 to 12 months, cut",
        "Axes that fired: crypto, politics",
        "",
        "Conversation (id, date, author):",
        "[2] 2020-01-01 01:01 Me: one ⏎ two",
        "      ^ fired: politics/war",
        "[3] 2020-01-01 01:01 Them: [voice message, transcript] spoken",
        "[4] 2020-01-01 01:01 Me: [photo, no text]",
        "[5] 2020-01-01 01:01 Them: holiday",
        "      ^ [PROTECTED] must not be deleted",
        "[6] 2020-01-01 01:01 Me: ",
        "",
        "Which ranges do you delete?",
    ];
    assert_eq!(got, expected.join("\n"));
}

#[test]
fn an_unnamed_chat_is_said_to_be_one() {
    assert!(render_in(&en(), None, &win(1, 2), &Vec::new()).starts_with("Chat: unnamed\n"));
    // The configured language.
    assert!(render(None, &win(1, 2), &Vec::new()).starts_with("Диалог: без имени\n"));
}

#[test]
fn a_date_out_of_range_is_left_blank() {
    let mut l = line(1, "x");
    l.date = i64::MAX;
    assert!(render_in(&en(), None, &win(1, 2), &vec![l]).contains("\n[1]  Them: x\n"));
}

#[test]
fn the_answer_has_four_parts() {
    for part in ["delete_ranges", "protected", "need_context", "notes"] {
        assert!(VERDICT_SCHEMA.contains(&format!("\"{part}\": {{")));
    }
}

fn range(from: i64, to: i64) -> Range {
    Range {
        from,
        to,
        axis: "politics".into(),
        confidence: 0.75f64.to_bits(),
        reason: format!("{from}..{to}"),
    }
}

fn verdict(ranges: Vec<Range>, need: Option<(i64, i64)>) -> Verdict {
    Verdict {
        delete_ranges: ranges,
        protected: Vec::new(),
        need_context: need.map(|(before, after)| Need { before, after, why: String::new() }),
        notes: String::new(),
    }
}

fn rows(n: i32) -> Vec<Row> {
    (0..n)
        .map(|msg_id| Row {
            msg_id,
            date: 0,
            priority: 0,
            protected: false,
            axes: Vec::new(),
            rules: Vec::new(),
            tier: None,
            voice: false,
            chars: 1,
        })
        .collect()
}

#[test]
fn a_refused_window_is_skipped() {
    let w = win(10, 20);
    let (s, st) = step(&w, &w, &Heard::Refused, &rows(100));
    assert!(matches!(s, Step::Skip));
    assert_eq!(st, Stats { failed: 1, ..Stats::start() });
}

#[test]
fn a_garbled_answer_fails_unless_blank() {
    let w = win(10, 20);
    let (s, st) = step(&w, &w, &Heard::Garbled { blank: false }, &rows(100));
    assert!(matches!(s, Step::Skip));
    assert_eq!(st, Stats { failed: 1, ..Stats::start() });
    let (s, st) = step(&w, &w, &Heard::Garbled { blank: true }, &rows(100));
    assert!(matches!(s, Step::Skip));
    assert_eq!(st, Stats::start());
}

#[test]
fn a_verdict_is_stored_with_its_passes() {
    let w = win(10, 20);
    let heard = Heard::Judged(verdict(vec![range(11, 12), range(15, 15)], Some((0, 0))));
    let (s, st) = step(&w, &w, &heard, &rows(100));
    assert!(matches!(s, Step::Store { passes: 1, seen_from: 10, seen_to: 20 }));
    assert_eq!(st, Stats { windows: 1, ranges: 2, ..Stats::start() });
}

#[test]
fn a_window_is_widened_once() {
    let w = win(10, 20);
    let asks = Heard::Judged(verdict(Vec::new(), Some((5, 0))));
    let (s, st) = step(&w, &w, &asks, &rows(100));
    let Step::Ask(wider) = s else { panic!("there is room to widen") };
    assert_eq!((wider.from_id, wider.to_id), (0, 20));
    assert_eq!(wider.total, 21);
    assert_eq!(st, Stats { expanded: 1, ..Stats::start() });
    // The second request is not heard.
    let (s, st) = step(&w, &wider, &asks, &rows(100));
    assert!(matches!(s, Step::Store { passes: 2, seen_from: 0, seen_to: 20 }));
    assert_eq!(st, Stats { windows: 1, ..Stats::start() });
}

#[test]
fn a_request_without_room_is_stored_at_once() {
    let w = win(0, 20);
    let asks = verdict(Vec::new(), Some((5, 0)));
    assert!(would_widen(&w, &w, &asks));
    let (s, _) = step(&w, &w, &Heard::Judged(asks), &rows(21));
    assert!(matches!(s, Step::Store { passes: 1, .. }));
    assert!(!would_widen(&w, &w, &verdict(Vec::new(), Some((0, -1)))));
    assert!(!would_widen(&w, &w, &verdict(Vec::new(), None)));
    assert!(!would_widen(&w, &win(0, 30), &verdict(Vec::new(), Some((1, 1)))));
}

#[test]
fn shares_of_a_run_are_merged() {
    let a = Stats { windows: 1, ranges: 2, failed: 3, expanded: 4, prompt_tokens: 5, completion_tokens: 6 };
    assert_eq!(
        a.merge(&a),
        Some(Stats {
            windows: 2,
            ranges: 4,
            failed: 6,
            expanded: 8,
            prompt_tokens: 10,
            completion_tokens: 12
        })
    );
    let full = Stats { prompt_tokens: u64::MAX, ..Stats::start() };
    assert_eq!(full.merge(&a), None);
}

#[test]
fn ranges_are_turned_and_clamped() {
    assert_eq!(clamp(&range(11, 15), 10, 20), (11, 15));
    assert_eq!(clamp(&range(15, 11), 10, 20), (11, 15));
    assert_eq!(clamp(&range(-5, 764_667_000_000), 10, 20), (10, 20));
    assert_eq!(clamp(&range(1, 2), 10, 20), (10, 10));
    assert_eq!(clamp(&range(30, 40), 10, 20), (20, 20));
}

fn corpus() -> Vec<Marked> {
    let mark = |msg_id: i32| Mark { msg_id, protected: msg_id == 13 };
    vec![
        Marked { dialog_id: 1, messages: vec![10, 11, 13, 16, 20].into_iter().map(mark).collect() },
        Marked { dialog_id: 2, messages: vec![11].into_iter().map(mark).collect() },
    ]
}

fn run(dialog_id: i64, ranges: Option<Vec<Range>>) -> Run {
    Run {
        dialog_id,
        from_id: 10,
        to_id: 18,
        seen_from: 10,
        seen_to: 18,
        verdict: ranges.map(|r| verdict(r, None)),
    }
}

#[test]
fn the_plan_holds_only_what_is_due() {
    let plan = rebuild_plan(
        &vec![
            run(1, Some(vec![range(11, 764_667_000_000)])),
            run(1, None),
            run(1, Some(vec![range(10, 11)])),
            run(2, Some(vec![range(12, 18)])),
            run(3, Some(vec![range(10, 18)])),
        ],
        &corpus(),
    )
    .unwrap();
    let got: Vec<(i64, i32, &str)> =
        plan.iter().map(|p| (p.dialog_id, p.msg_id, p.reason.as_str())).collect();
    // 13 is protected, 20 lies outside the window, 11 keeps its first reason.
    assert_eq!(
        got,
        vec![(1, 11, "11..764667000000"), (1, 16, "11..764667000000"), (1, 10, "10..11")]
    );
    assert!(plan.iter().all(|p| !p.approved && p.axis == "politics"));
    assert_eq!(f64::from_bits(plan[0].confidence), 0.75);
    assert!(matches!(rebuild_plan(&Vec::new(), &corpus()), Err(PlanError::NoRuns)));
}

#[test]
fn a_range_is_clamped_to_the_window_the_model_saw() {
    let corpus = vec![Marked {
        dialog_id: 1,
        messages: (70..=190).map(|msg_id| Mark { msg_id, protected: false }).collect(),
    }];
    let planned = |ranges: Vec<Range>| -> Vec<i32> {
        let run = Run { from_id: 100, to_id: 160, seen_from: 70, seen_to: 190, ..run(1, Some(ranges)) };
        let plan = rebuild_plan(&vec![run], &corpus).unwrap();
        plan.iter().map(|p| p.msg_id).collect()
    };
    assert_eq!(planned(vec![range(180, 185)]), (180..=185).collect::<Vec<i32>>());
    assert_eq!(planned(vec![range(0, 71)]), vec![70, 71]);
    assert_eq!(planned(vec![range(500, 189)]), vec![189, 190]);
}

#[test]
fn messages_are_found_by_dialog() {
    let c = corpus();
    assert_eq!(find_messages(&c, 1).unwrap().len(), 5);
    assert!(find_messages(&c, 9).is_none());
}

#[test]
fn the_gate_is_opened_by_hand() {
    let row = |dialog_id: i64, msg_id: i32, axis: &str| PlanRow {
        dialog_id,
        msg_id,
        reason: String::new(),
        axis: axis.into(),
        confidence: 0,
        approved: false,
    };
    let mut plan = vec![row(1, 1, "crypto"), row(1, 2, "politics"), row(2, 3, "crypto")];
    let open = |p: &Vec<PlanRow>| -> Vec<i32> {
        p.iter().filter(|r| r.approved).map(|r| r.msg_id).collect()
    };
    assert_eq!(approve(&mut plan, Some(1), None, true), 2);
    assert_eq!(open(&plan), vec![1, 2]);
    assert_eq!(approve(&mut plan, None, Some("crypto"), false), 2);
    assert_eq!(open(&plan), vec![2]);
    assert_eq!(approve(&mut plan, Some(2), Some("politics"), true), 0);
    assert_eq!(approve(&mut plan, None, None, true), 3);
    assert_eq!(open(&plan), vec![1, 2, 3]);
}

#[test]
fn the_scope_has_to_be_named() {
    assert!(!scope_is_named(None, None, false));
    assert!(scope_is_named(Some(1), None, false));
    assert!(scope_is_named(None, Some("crypto"), false));
    assert!(scope_is_named(None, None, true));
}

#[test]
fn dates_are_shown_as_given() {
    let got = render_dated(&en(), None, &win(1, 2), &vec![line(1, "x")], &vec!["today".into()]);
    assert!(got.contains("\n[1] today Them: x\n"));
}

#[test]
fn what_is_cut_is_planned() {
    let runs = vec![run(1, Some(vec![range(10, 10)])), run(1, Some(vec![range(10, 18)]))];
    let plan = rebuild_plan(&runs, &corpus()).unwrap();
    let mut ids: Vec<i32> = plan.iter().map(|p| p.msg_id).collect();
    ids.sort();
    assert_eq!(ids, vec![10, 11, 16]);
}
