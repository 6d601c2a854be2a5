//! Clustering hits into windows, choosing and widening them.

use glisser::model::Tier;
use glisser::select::{cutoff, cutoff_at, limit_for, spread, CutoffError};
use glisser::window::{
    build, build_dialog, cluster, expand, ignored, is_anchor, is_voice, report, select, split_names,
    Cutoff, Loaded, Row, Window,
};
use glisser::window_report::load_of;

fn row(msg_id: i32, priority: u64, protected: bool) -> Row {
    Row {
        msg_id,
        date: 0,
        priority,
        protected,
        axes: Vec::new(),
        rules: Vec::new(),
        tier: Some(Tier::T0),
        voice: false,
        chars: 0,
    }
}

#[test]
fn nearby_anchors_merge_into_one_window() {
    let mut rows: Vec<Row> = (0..100).map(|i| row(i, 0, false)).collect();
    rows[20].priority = 200_000;
    rows[25].priority = 200_000;
    rows[28].priority = 200_000;
    // Three anchors within the gap → one window, not three calls.
    assert_eq!(cluster(&rows, 5, 10), vec![(15, 33)]);
}

#[test]
fn distant_anchors_stay_separate() {
    let mut rows: Vec<Row> = (0..100).map(|i| row(i, 0, false)).collect();
    rows[20].priority = 200_000;
    rows[60].priority = 200_000;
    assert_eq!(cluster(&rows, 5, 10), vec![(15, 25), (55, 65)]);
}

#[test]
fn window_clamps_at_dialog_edges() {
    let mut rows: Vec<Row> = (0..10).map(|i| row(i, 0, false)).collect();
    rows[1].priority = 200_000;
    assert_eq!(cluster(&rows, 30, 10), vec![(0, 9)]);
}

#[test]
fn protected_messages_never_anchor() {
    let mut rows: Vec<Row> = (0..50).map(|i| row(i, 0, false)).collect();
    rows[20].priority = 900_000;
    rows[20].protected = true;
    assert!(cluster(&rows, 5, 10).is_empty());
}

#[test]
fn below_threshold_does_not_anchor() {
    let mut rows: Vec<Row> = (0..50).map(|i| row(i, 0, false)).collect();
    rows[20].priority = 60_000; // a damped T2 hit
    assert!(cluster(&rows, 5, 10).is_empty());
}

fn win(newest: i64, rules: &[&str]) -> Window {
    Window {
        dialog_id: 1,
        from_id: 1,
        to_id: 2,
        anchors: vec![1],
        axes: Vec::new(),
        tier: Tier::T0,
        voices: Vec::new(),
        total: 2,
        chars: 0,
        newest,
        rules: rules.iter().map(|s| s.to_string()).collect(),
    }
}

/// The old is already paid for, but a new rule lifts a window of any age.
/// The sample walks the axes in turn, so a bake-off gets spread rather
/// than thirty crypto windows in a row.
#[test]
fn sample_takes_one_window_per_axis_in_turn() {
    let of = |axis: &str, from_id: i32| Window {
        from_id,
        axes: [axis.to_string()].into_iter().collect(),
        ..win(0, &[])
    };
    let got = select(
        vec![
            of("crypto", 1),
            of("crypto", 2),
            of("crypto", 3),
            of("politics", 4),
        ],
        None,
        Some(3),
        None,
    );
    // two crypto windows and the single politics one, not three crypto
    assert_eq!(got.len(), 3);
    assert!(got.iter().any(|w| w.axes.contains(&"politics".to_string())));
    assert_eq!(got.iter().filter(|w| w.axes.contains(&"crypto".to_string())).count(), 2);
}

#[test]
fn cutoff_keeps_fresh_and_new_rules_only() {
    let c = Cutoff {
        since: 100,
        new_rules: ["leaving_question".to_string()].into_iter().collect(),
    };
    let got = select(
        vec![
            win(50, &["intent"]),           // old, old rule — skipped
            win(150, &["intent"]),          // fresh — taken
            win(50, &["leaving_question"]), // old, new rule — taken
        ],
        None,
        None,
        Some(&c),
    );
    assert_eq!(got.len(), 2);
    assert!(got
        .iter()
        .all(|w| w.newest == 150 || w.rules.contains(&"leaving_question".to_string())));
}

#[test]
fn the_threshold_itself_anchors() {
    assert!(is_anchor(&row(1, 100_000, false)));
    assert!(!is_anchor(&row(1, 99_999, false)));
    assert!(!is_anchor(&row(1, 100_000, true)));
}

#[test]
fn the_gap_is_inclusive() {
    let mut rows: Vec<Row> = (0..100).map(|i| row(i, 0, false)).collect();
    rows[20].priority = 100_000;
    rows[30].priority = 100_000;
    rows[41].priority = 100_000;
    assert_eq!(cluster(&rows, 0, 10), vec![(20, 30), (41, 41)]);
    assert_eq!(cluster(&Vec::new(), 5, 5), vec![]);
    // A pad beyond every dialog stops at its edges.
    assert_eq!(cluster(&rows, usize::MAX, 0), vec![(0, 99), (0, 99), (0, 99)]);
}

#[test]
fn a_window_gathers_its_anchors() {
    let mut rows: Vec<Row> = (0..200).map(|i| row(10 * i, 0, false)).collect();
    for r in rows.iter_mut() {
        r.chars = 3;
    }
    rows[50].priority = 200_000;
    rows[50].axes = vec!["politics".into()];
    rows[50].rules = vec!["war".into()];
    rows[50].date = 500;
    rows[50].tier = Some(Tier::T2);
    rows[60].priority = 200_000;
    rows[60].axes = vec!["crypto".into(), "politics".into()];
    rows[60].rules = vec!["btc".into()];
    rows[60].date = 400;
    rows[60].tier = Some(Tier::T1);
    rows[25].voice = true;
    rows[15].voice = true;
    let got = build_dialog(&rows, 9);
    assert_eq!(got.len(), 1);
    let w = &got[0];
    assert_eq!(w.dialog_id, 9);
    assert_eq!((w.from_id, w.to_id), (200, 900));
    assert_eq!(w.anchors, vec![500, 600]);
    assert_eq!(w.axes, vec!["crypto", "politics"]);
    assert_eq!(w.rules, vec!["btc", "war"]);
    assert_eq!(w.tier, Tier::T1);
    assert_eq!(w.voices, vec![250]);
    assert_eq!(w.total, 71);
    assert_eq!(w.chars, 213);
    assert_eq!(w.newest, 500);
    assert!(build_dialog(&Vec::new(), 9).is_empty());
}

#[test]
fn groups_are_left_out() {
    assert!(ignored(1, "megagroup"));
    assert!(ignored(1, "chat"));
    assert!(!ignored(1, "user"));
    assert!(!ignored(1, "channel"));
    let loaded = |id: i64, kind: &str| Loaded {
        id,
        kind: kind.into(),
        rows: vec![row(1, 100_000, false)],
    };
    let got = build(&vec![loaded(1, "user"), loaded(2, "chat"), loaded(3, "saved_messages")]);
    assert_eq!(got.iter().map(|w| w.dialog_id).collect::<Vec<_>>(), vec![1, 3]);
}

#[test]
fn widening_is_split_in_proportion() {
    let mut rows: Vec<Row> = (0..300).map(|i| row(i, 0, false)).collect();
    for r in rows.iter_mut() {
        r.chars = 2;
    }
    rows[150].priority = 200_000;
    rows[100].voice = true;
    let w = build_dialog(&rows, 1).remove(0);
    assert_eq!((w.from_id, w.to_id, w.total), (120, 180, 61));
    // 59 to go: 30 * 59 / 40 = 44 before, 10 * 59 / 40 = 14 after.
    let wide = expand(&rows, &w, 30, 10);
    assert_eq!((wide.from_id, wide.to_id, wide.total), (76, 194, 119));
    assert_eq!(wide.chars, 238);
    assert_eq!(wide.voices, vec![100]);
    assert_eq!(wide.anchors, w.anchors);
    // One side takes it all.
    let up = expand(&rows, &w, 1000, 0);
    assert_eq!((up.from_id, up.to_id, up.total), (61, 180, 120));
    // Nothing asked, nothing given.
    let same = expand(&rows, &w, 0, -5);
    assert_eq!((same.from_id, same.to_id, same.total), (120, 180, 61));
}

#[test]
fn widening_stops_at_the_edges_and_the_ceiling() {
    let mut rows: Vec<Row> = (0..70).map(|i| row(i, 0, false)).collect();
    rows[35].priority = 200_000;
    let w = build_dialog(&rows, 1).remove(0);
    assert_eq!((w.from_id, w.to_id), (5, 65));
    let wide = expand(&rows, &w, 20, 20);
    assert_eq!((wide.from_id, wide.to_id, wide.total), (0, 69, 70));

    let full = Window { total: 120, ..w.clone() };
    let same = expand(&rows, &full, 20, 20);
    assert_eq!((same.from_id, same.to_id, same.total), (5, 65, 120));
}

#[test]
fn the_spread_is_stable() {
    let at = |dialog_id: i64, from_id: i32| Window { dialog_id, from_id, ..win(0, &[]) };
    assert_eq!(spread(&at(1, 1)), 1_591_488_917);
    assert_eq!(spread(&at(1, 2)), 2_936_565_926);
    assert_eq!(spread(&at(1, 3)), 4_281_642_935);
    assert_eq!(spread(&at(-5, 7)), 3_558_112_190);
}

#[test]
fn the_head_is_the_freshest_and_sharpest() {
    let of = |tier: Tier, anchors: usize, from_id: i32| Window {
        tier,
        anchors: vec![1; anchors],
        from_id,
        ..win(0, &[])
    };
    let windows = vec![
        of(Tier::T2, 9, 1),
        of(Tier::T0, 1, 2),
        of(Tier::T1, 5, 3),
        of(Tier::T0, 4, 5),
        of(Tier::T0, 4, 4),
    ];
    let ids = |limit| -> Vec<i32> {
        select(windows.clone(), limit, None, None).iter().map(|w| w.from_id).collect()
    };
    assert_eq!(ids(None), vec![4, 5, 2, 3, 1]);
    assert_eq!(ids(Some(2)), vec![4, 5]);
    assert_eq!(ids(Some(9)), vec![4, 5, 2, 3, 1]);
    assert_eq!(ids(Some(0)), Vec::<i32>::new());
}

#[test]
fn a_sample_is_exact_and_in_dialog_order() {
    let of = |axis: &str, from_id: i32| Window {
        from_id,
        axes: vec![axis.to_string()],
        ..win(0, &[])
    };
    let windows = vec![of("crypto", 3), of("crypto", 2), of("crypto", 1), of("politics", 4)];
    let ids = |n| -> Vec<i32> {
        select(windows.clone(), None, Some(n), None).iter().map(|w| w.from_id).collect()
    };
    // By spread 1 comes first, then 2, then 3.
    assert_eq!(ids(1), vec![1]);
    assert_eq!(ids(2), vec![1, 4]);
    assert_eq!(ids(3), vec![1, 2, 4]);
    assert_eq!(ids(9), vec![1, 2, 3, 4]);
    assert_eq!(ids(0), Vec::<i32>::new());
}

#[test]
fn a_selection_does_not_depend_on_the_order_of_windows() {
    let of = |axis: &str, from_id: i32| Window {
        from_id,
        axes: vec![axis.to_string()],
        ..win(i64::from(from_id), &[])
    };
    let mut windows: Vec<Window> =
        (1..=9).map(|id| of(if id % 3 == 0 { "politics" } else { "crypto" }, id)).collect();
    let c = Cutoff { since: 2, new_rules: Vec::new() };
    let ids = |ws: &Vec<Window>, limit, sample| -> Vec<i32> {
        select(ws.clone(), limit, sample, Some(&c)).iter().map(|w| w.from_id).collect()
    };
    let before = (ids(&windows, None, None), ids(&windows, Some(4), None), ids(&windows, None, Some(4)));
    windows.rotate_left(4);
    windows.swap(0, 7);
    let after = (ids(&windows, None, None), ids(&windows, Some(4), None), ids(&windows, None, Some(4)));
    assert_eq!(before, after);
    assert_eq!(before.0, vec![2, 3, 4, 5, 6, 7, 8, 9]);
}

#[test]
fn the_cutoff_comes_before_the_limit() {
    let c = Cutoff { since: 100, new_rules: Vec::new() };
    let windows = vec![
        Window { anchors: vec![1, 2, 3], ..win(50, &[]) },
        Window { from_id: 8, ..win(100, &[]) },
    ];
    let got = select(windows, Some(1), None, Some(&c));
    assert_eq!(got.len(), 1);
    assert_eq!(got[0].from_id, 8);
}

#[test]
fn a_cutoff_needs_a_date() {
    assert!(matches!(cutoff(None, Vec::new()), Ok(None)));
    let e = cutoff(None, vec!["war".into()]).unwrap_err();
    assert!(matches!(e, CutoffError::RulesWithoutDate));
    assert_eq!(e.message(), "--new-rule only works together with --since");
    let c = cutoff(Some("2020-01-01"), vec!["war".into()]).unwrap().unwrap();
    assert_eq!(c.since, 1_577_836_800);
    assert_eq!(c.new_rules, vec!["war"]);
    let e = cutoff(Some("last week"), Vec::new()).unwrap_err();
    assert!(matches!(e, CutoffError::BadDate(_)));
    assert!(e.message().starts_with("--since expects a date like 2026-08-10: "));
}

#[test]
fn a_dry_run_shows_one_window() {
    assert_eq!(limit_for(None, true), Some(1));
    assert_eq!(limit_for(Some(5), true), Some(5));
    assert_eq!(limit_for(None, false), None);
    assert_eq!(limit_for(Some(5), false), Some(5));
}

#[test]
fn names_are_split_and_sorted() {
    assert_eq!(split_names(Some("war,btc,war")), vec!["btc", "war"]);
    assert_eq!(split_names(Some("war")), vec!["war"]);
    assert_eq!(split_names(Some("")), vec![""]);
    assert_eq!(split_names(None), Vec::<String>::new());
    assert!(is_voice(Some("voice_message")));
    assert!(is_voice(Some("video_message")));
    assert!(!is_voice(Some("photo")));
    assert!(!is_voice(None));
}

#[test]
fn the_calls_ahead_in_words() {
    let of = |total: usize, axis: &str, tier: Tier| Window {
        total,
        axes: vec![axis.to_string()],
        tier,
        voices: vec![1, 2],
        chars: 1000,
        ..win(0, &[])
    };
    let windows = vec![
        of(10, "politics", Tier::T1),
        of(30, "crypto", Tier::T0),
        of(20, "politics", Tier::T0),
    ];
    let load = load_of(&windows);
    assert_eq!((load.messages, load.voices, load.chars), (60, 6, 3000));
    assert_eq!(load.tokens, 1500 + 3 * 1950);
    let expected = [
        "windows (LLM calls): 3",
        "messages in windows: 60",
        "window size        : med 20  p90 20  p99 20  max 30",
        "voice to transcribe: 6",
        "text in windows    : 0.0M characters",
        "input tokens (est) : 0.01M (~2450 per call)",
        "",
        "by tier:",
        "  T0  2",
        "  T1  1",
        "",
        "by axis:",
        "  crypto         1",
        "  politics       2",
        "",
    ];
    assert_eq!(report(&windows, "0.0", "0.01"), expected.join("\n"));
    let none = report(&Vec::new(), "0.0", "0.00");
    assert!(none.contains("voice to transcribe: 0\n"));
    assert!(none.contains("(~0 per call)\n"));
    assert!(!none.contains("window size"));
}

#[test]
fn a_cutoff_is_taken_as_it_was_read() {
    let c = cutoff_at(Some(Ok(5)), vec!["war".into()]).unwrap().unwrap();
    assert_eq!((c.since, c.new_rules), (5, vec!["war".to_string()]));
    let e = cutoff_at(Some(Err("too short".into())), Vec::new()).unwrap_err();
    assert_eq!(e.message(), "--since expects a date like 2026-08-10: too short");
    assert!(matches!(cutoff_at(None, Vec::new()), Ok(None)));
}
