//! Scores, agreement, audit and differences.

use glisser::agree::{agreement, insert_window, overlaps, pairs, split_windows};
use glisser::audit::{rules, rules_text, shows, terms, HitRow, Sample, TermRow};
use glisser::diff::{
    compare, group_dated, group_words, groups, report as diff_report, to_look_up, DiffError, Difference, Doomed,
    Glimpse, Group,
};
use glisser::eval::{expand, run_keys, run_of, total, Run};
use glisser::eval_report::{plan_budget, report, spend_for, Scored, Shares, Spend, Worst};
use glisser::idset::{IdIndex, IdSet};
use glisser::model::Tier;
use glisser::order::{order, Key};
use glisser::plan::{Mark, Marked, Run as Judged};
use glisser::schema::{fits, SCHEMA_VERSION};
use glisser::triage::{Range, Verdict};
use glisser::window::Window;

fn range(from: i64, to: i64, reason: &str) -> Range {
    Range { from, to, axis: String::new(), confidence: 0, reason: reason.into() }
}

fn verdict(ranges: Vec<Range>) -> Verdict {
    Verdict {
        delete_ranges: ranges,
        protected: vec![range(1, 1, "kept")],
        need_context: None,
        notes: String::new(),
    }
}

fn run(model: &str, ranges: &[(i64, i64)]) -> Run {
    let v = verdict(ranges.iter().map(|&(a, b)| range(a, b, "")).collect());
    run_of(model, "p1", 1, 10, 30, &vec![10, 12, 14, 20, 30, 12], &v)
}

fn win(anchors: Vec<i32>, total: usize) -> Window {
    Window {
        dialog_id: 1,
        from_id: 10,
        to_id: 30,
        anchors,
        axes: Vec::new(),
        tier: Tier::T0,
        voices: Vec::new(),
        total,
        chars: 0,
        newest: 0,
        rules: Vec::new(),
    }
}

#[test]
fn a_verdict_becomes_a_run() {
    let r = run("m", &[(14, 12), (-5, 10), (29, 764_667_000_000)]);
    assert_eq!(r.key, "m @ p1");
    assert_eq!(r.deleted, vec![(12, 14), (10, 10), (29, 30)]);
    assert_eq!(r.msgs, vec![10, 12, 14, 20, 30]);
    assert_eq!(r.protected_claims, 1);
    assert_eq!(expand(&r), vec![10, 12, 14, 30]);
}

#[test]
fn runs_are_totalled() {
    let runs = vec![run("m", &[(12, 14)]), run("m", &[]), run("m", &[(10, 30)]), run("n", &[])];
    let mut protected = IdSet::new();
    protected.insert(1, 14);
    protected.insert(2, 12);
    let a = total(&runs, "m @ p1", &vec![win(vec![12, 20], 5)], &protected);
    assert_eq!(a.windows, 3);
    assert_eq!(a.in_windows, 15);
    assert_eq!(a.cut, 2 + 5);
    assert_eq!(a.violations, 2);
    assert_eq!(a.full, 1);
    assert_eq!(a.empty, 1);
    assert_eq!(a.claims, 3);
    assert_eq!(a.anchors, 6);
    assert_eq!(a.covered, 1 + 2);
    assert_eq!(a.edge, 1);
    // A window that is no longer built has neither size nor anchors.
    let a = total(&runs, "m @ p1", &Vec::new(), &protected);
    assert_eq!((a.windows, a.in_windows, a.anchors, a.full), (3, 0, 0, 0));
    assert_eq!(run_keys(&runs), vec!["m @ p1", "n @ p1"]);
}

#[test]
fn nine_tenths_are_not_the_whole() {
    let runs = vec![run("m", &[(10, 30)])];
    let full = |size: usize| total(&runs, "m @ p1", &vec![win(vec![], size)], &IdSet::new()).full;
    // Five of five and five of six.
    assert_eq!(full(5), 1);
    assert_eq!(full(6), 0);
    assert_eq!(full(0), 1);
}

#[test]
fn scores_in_words() {
    let runs = vec![run("m", &[(12, 14)])];
    let agg = total(&runs, "m @ p1", &vec![win(vec![12], 5)], &IdSet::new());
    let scored = vec![Scored {
        key: "m @ p1".into(),
        agg,
        shares: Shares {
            cut: "40.0".into(),
            covered: "100".into(),
            empty: "0".into(),
            edge: "0".into(),
            expanded: "50".into(),
        },
        cost: "0.123".into(),
        prompt_tokens: 100,
        completion_tokens: 20,
    }];
    let expected = [
        "runs (model @ policy version):",
        "",
        "m @ p1",
        "  windows 1     cut      2 of      5 in windows (40.0%)",
        "  whitelist violations 0    <- must be 0, or the policy fails to carry it",
        "  anchor coverage 100%   empty verdicts 0% <- high: the dictionary is noisy",
        "  windows cut whole 0    <- many: the model is not discriminating",
        "  range hit the edge 0%   asked to widen 50% <- the window is small",
        "  deliberate keeps 1    <- zero is suspicious: the presumption did not land",
        "  $0.123  tokens 100/20",
        "",
        "[agreement][budget]",
    ];
    assert_eq!(report(&scored, "[agreement]", "[budget]"), expected.join("\n"));
    assert_eq!(
        report(&Vec::new(), "[agreement]", "[budget]"),
        "triage has not run yet — nothing to score\n"
    );
}

#[test]
fn spending_is_found_by_key() {
    let spend = |key: &str, tokens: i64| Spend {
        key: key.into(),
        cost: "0".into(),
        prompt_tokens: tokens,
        completion_tokens: 0,
        expanded: 0,
    };
    let all = vec![spend("a", 1), spend("b", 2), spend("a", 3)];
    assert_eq!(spend_for(&all, "a").unwrap().prompt_tokens, 3);
    assert_eq!(spend_for(&all, "b").unwrap().prompt_tokens, 2);
    assert!(spend_for(&all, "c").is_none());
}

#[test]
fn the_budget_is_checked() {
    let worst = |planned: i64, total: i64| Worst {
        title: "Friend".into(),
        planned,
        total,
        share: "40.0".into(),
    };
    let text = plan_budget(5, 100, "5.00", &vec![worst(4, 10)], "40.00");
    let expected = [
        "",
        "--- plan: 5 of 100 (5.00%) ---",
        "worst dialogs by share deleted:",
        "    40.0%       4 / 10      Friend",
        "  ok        share of corpus: 5.00% against a limit of 5.00%",
        "  ok        worst dialog: 40.00% against a limit of 40.00%",
        "",
    ];
    assert_eq!(text, expected.join("\n"));
    let over = plan_budget(6, 100, "6.00", &vec![worst(1, 10), worst(5, 10)], "50.00");
    assert!(over.contains("  EXCEEDED  share of corpus: 6.00% against a limit of 5.00%\n"));
    assert!(over.contains("  EXCEEDED  worst dialog: 50.00% against a limit of 40.00%\n"));
    assert_eq!(
        plan_budget(0, 100, "0.00", &Vec::new(), "0.00"),
        "\nthe plan is empty — build it with `plan --model ...`\n"
    );
}

#[test]
fn runs_on_one_window_are_compared() {
    // {12, 14} against {12, 14, 20, 30} is a half; against {30} it is nothing.
    let runs = vec![run("b", &[(12, 14)]), run("a", &[(12, 30)]), run("c", &[(30, 30)])];
    let os = overlaps(&runs);
    assert_eq!(os.len(), 3);
    let ps = pairs(&runs, &os);
    let got: Vec<(&str, &str, usize, Vec<(u128, u128)>)> =
        ps.iter().map(|p| (p.a.as_str(), p.b.as_str(), p.far, p.parts.clone())).collect();
    assert_eq!(
        got,
        vec![
            ("a @ p1", "b @ p1", 0, vec![(2, 4)]),
            ("a @ p1", "c @ p1", 1, vec![(1, 4)]),
            ("b @ p1", "c @ p1", 1, vec![(0, 3)]),
        ]
    );
    let split = split_windows(&os);
    assert_eq!(split, vec![(1, 10, 30)]);
    let means = vec!["0.50".to_string(), "0.25".to_string(), "0.00".to_string()];
    let expected = [
        "",
        "agreement (Jaccard over message ids):",
        "  0.50  a @ p1 <-> b @ p1  (1 windows, far apart on 0)",
        "  0.25  a @ p1 <-> c @ p1  (1 windows, far apart on 1)",
        "  0.00  b @ p1 <-> c @ p1  (1 windows, far apart on 1)",
        "",
        "windows for a human (1) — only these need one:",
        "  1:10..30",
        "",
    ];
    assert_eq!(agreement(&ps, &means, &split), expected.join("\n"));
}

#[test]
fn one_run_has_no_agreement() {
    let runs = vec![run("a", &[(12, 14)])];
    let os = overlaps(&runs);
    assert!(os.is_empty());
    assert!(pairs(&runs, &os).is_empty());
    assert_eq!(
        agreement(&Vec::new(), &Vec::new(), &Vec::new()),
        "\nagreement: only one run — triage the same set with another model\n"
    );
}

#[test]
fn equal_cuts_are_not_disputed() {
    let runs = vec![run("a", &[(12, 14)]), run("b", &[(11, 15)]), run("c", &[]), run("d", &[])];
    let os = overlaps(&runs);
    let far: Vec<(String, String)> = os
        .iter()
        .filter(|o| 2 * o.shared < o.all)
        .map(|o| (o.a.clone(), o.b.clone()))
        .collect();
    assert_eq!(far.len(), 4);
    assert!(!far.contains(&("a @ p1".into(), "b @ p1".into())));
    assert!(!far.contains(&("c @ p1".into(), "d @ p1".into())));
}

#[test]
fn the_queue_for_a_human_is_cut_short() {
    let mut split = Vec::new();
    for i in (0..20).rev() {
        insert_window(&mut split, (1, i, i));
        insert_window(&mut split, (1, i, i));
    }
    assert_eq!(split.len(), 20);
    assert_eq!(split[0], (1, 0, 0));
    let runs = vec![run("a", &[]), run("b", &[])];
    let ps = pairs(&runs, &overlaps(&runs));
    let text = agreement(&ps, &vec!["1.00".into()], &split);
    assert!(text.contains("windows for a human (20)"));
    assert!(text.contains("  1:14..14\n"));
    assert!(!text.contains("  1:15..15\n"));
}

fn term(term: &str, hits: i64) -> TermRow {
    TermRow {
        axis: "politics".into(),
        rule_id: "war".into(),
        term: term.into(),
        hits,
        dialogs: 2,
        top: 3,
        share: "60".into(),
        samples: vec![Sample { surface: Some("войн".into()), text: "первая\nвойна".into() }],
    }
}

#[test]
fn terms_are_listed() {
    let rows = vec![term("войн", 5), term("окоп", 2)];
    let expected = [
        "term                  n    dialogs   worst dialog   share there",
        "войн                 5     2         3              60%",
        "    «войн» | первая война",
        "",
    ];
    assert_eq!(terms(&rows, 3, None), expected.join("\n"));
    assert!(shows(&term("войн", 5), 5, Some("ойн")));
    assert!(shows(&term("войн", 5), 5, Some("wa")));
    assert!(shows(&term("войн", 5), 5, Some("litic")));
    assert!(!shows(&term("войн", 5), 5, Some("crypto")));
    assert!(!shows(&term("войн", 5), 6, None));
}

#[test]
fn samples_are_cut_to_a_head() {
    let mut row = term("войн", 5);
    row.samples = vec![Sample { surface: None, text: "я".repeat(200) }];
    let text = terms(&vec![row], 1, None);
    assert!(text.ends_with(&format!("    «» | {}\n", "я".repeat(110))));
}

fn judged(dialog_id: i64, from_id: i32, to_id: i32, ranges: Option<Vec<Range>>) -> Judged {
    Judged {
        dialog_id,
        from_id,
        to_id,
        seen_from: from_id,
        seen_to: to_id,
        verdict: ranges.map(verdict),
    }
}

#[test]
fn rules_are_ranked_by_what_was_cut() {
    let hit = |msg_id: i32, term: &str| HitRow {
        dialog_id: 1,
        msg_id,
        rule_id: "r".into(),
        term: term.into(),
    };
    let mut hits = Vec::new();
    for id in 10..14 {
        hits.push(hit(id, "often"));
    }
    for id in 10..13 {
        hits.push(hit(id, "all"));
        hits.push(hit(id + 10, "none"));
    }
    hits.push(hit(11, "rare"));
    for id in 40..50 {
        hits.push(hit(id, "unseen"));
    }
    let runs = vec![judged(1, 10, 30, Some(vec![range(12, -7, "")])), judged(1, 25, 26, None)];
    let ts = rules(&hits, &runs);
    let got: Vec<(&str, usize, usize)> =
        ts.iter().map(|t| (t.term.as_str(), t.shown, t.cut)).collect();
    assert_eq!(got, vec![("none", 3, 0), ("often", 4, 3), ("all", 3, 3)]);
    let shares = vec!["0".to_string(), "75".to_string(), "100".to_string()];
    let expected = [
        "share of hits that went under the knife (bottom: candidates to drop):",
        "share  in windows  cut       rule / term",
        "   0%  3        0         r / none",
        "  75%  4        3         r / often",
        " 100%  3        3         r / all",
        "",
    ];
    assert_eq!(rules_text(true, &ts, &shares), expected.join("\n"));
    assert_eq!(
        rules_text(false, &Vec::new(), &Vec::new()),
        "no triage runs — the signal comes from calls already made\n"
    );
}

#[test]
fn equal_shares_go_by_volume_and_then_by_name() {
    let mut hits = Vec::new();
    for (term, n) in [("b", 3), ("a", 3), ("c", 4)] {
        for id in 0..n {
            hits.push(HitRow { dialog_id: 1, msg_id: id, rule_id: "r".into(), term: term.into() });
        }
    }
    let ts = rules(&hits, &vec![judged(1, 0, 9, Some(Vec::new()))]);
    let got: Vec<&str> = ts.iter().map(|t| t.term.as_str()).collect();
    assert_eq!(got, vec!["c", "a", "b"]);
}

#[test]
fn a_widened_window_counts_under_its_key() {
    let wide = |ranges: Vec<Range>| Judged { seen_from: 70, seen_to: 190, ..judged(1, 100, 160, Some(ranges)) };
    // The feedback on rules goes by the key: 160 is the edge of it.
    let hits: Vec<HitRow> = [99, 100, 159, 160, 180]
        .iter()
        .map(|&msg_id| HitRow { dialog_id: 1, msg_id, rule_id: "r".into(), term: "t".into() })
        .collect();
    let ts = rules(&hits, &vec![wide(vec![range(180, 185, "")])]);
    assert_eq!((ts[0].shown, ts[0].cut), (3, 1));
    // So does the evaluation.
    let v = verdict(vec![range(180, 185, ""), range(-4, 120, "")]);
    let r = run_of("m", "p1", 1, 100, 160, &vec![100, 160], &v);
    assert_eq!(r.deleted, vec![(160, 160), (100, 120)]);
}

#[test]
fn the_difference_goes_by_what_was_seen() {
    let wide = |ranges: Vec<Range>| Judged { seen_from: 5, seen_to: 35, ..judged(1, 10, 20, Some(ranges)) };
    let base = vec![wide(vec![range(19, 34, "war")])];
    let against = vec![wide(Vec::new()), judged(1, 30, 35, Some(vec![range(30, 30, "")]))];
    let d = compare(&base, &against, &corpus()).unwrap();
    // Windows are compared by the key they are stored under: 19 and 20 lie in it.
    assert_eq!((d.common, d.both, d.only_base), (1, 0, 2));
    // A range outside the key dooms nothing inside it.
    let base = vec![wide(vec![range(30, 34, "war")])];
    assert_eq!(compare(&base, &against, &corpus()).unwrap().only_base, 0);
}

fn corpus() -> Vec<Marked> {
    vec![Marked {
        dialog_id: 1,
        messages: (0..40).map(|msg_id| Mark { msg_id, protected: false }).collect(),
    }]
}

#[test]
fn only_common_windows_are_compared() {
    let base = vec![
        judged(1, 10, 20, Some(vec![range(11, 13, "war")])),
        judged(1, 30, 35, Some(vec![range(30, 35, "lone")])),
    ];
    let against = vec![judged(1, 10, 20, Some(vec![range(13, 14, "money"), range(14, 15, "fuss")]))];
    let d = compare(&base, &against, &corpus()).unwrap();
    assert_eq!((d.common, d.both, d.only_base), (1, 1, 2));
    let mut tail: Vec<(i32, &str)> = d.tail.iter().map(|x| (x.msg_id, x.reason.as_str())).collect();
    tail.sort();
    // The last range to name a message gives its reason.
    assert_eq!(tail, vec![(14, "fuss"), (15, "fuss")]);

    let back = compare(&against, &base, &corpus()).unwrap();
    assert_eq!((back.common, back.both, back.only_base), (1, 1, 2));
    assert_eq!(back.tail.len(), 2);

    let silent = vec![judged(1, 10, 20, Some(Vec::new()))];
    assert!(matches!(compare(&base, &silent, &corpus()), Err(DiffError::NoRuns)));
    assert!(matches!(compare(&Vec::new(), &base, &corpus()), Err(DiffError::NoRuns)));
}

#[test]
fn tails_are_grouped_by_reason() {
    let doomed = |msg_id: i32, reason: &str| Doomed { dialog_id: 1, msg_id, reason: reason.into() };
    let tail = vec![
        doomed(9, "war"),
        doomed(4, "money"),
        doomed(3, "war"),
        doomed(5, "fuss"),
        doomed(7, "war"),
        doomed(8, "war"),
    ];
    let gs = groups(&tail, 2);
    let got: Vec<(&str, Vec<(i64, i32)>)> =
        gs.iter().map(|g| (g.reason.as_str(), g.ids.clone())).collect();
    assert_eq!(
        got,
        vec![("war", vec![(1, 3), (1, 7), (1, 8), (1, 9)]), ("fuss", vec![(1, 5)])]
    );
    assert_eq!(to_look_up(&gs[0]), vec![(1, 3), (1, 7), (1, 8)]);
    assert_eq!(to_look_up(&gs[1]), vec![(1, 5)]);
}

#[test]
fn differences_in_words() {
    let g = Group { reason: "war".into(), ids: vec![(1, 3)] };
    let seen = vec![Glimpse {
        title: "Friend".into(),
        date: 1_577_836_800,
        text: format!("one\n{}", "я".repeat(200)),
    }];
    let dump = group_words(&g, &seen);
    assert_eq!(
        dump,
        format!("\n[1 msgs] war\n    2020-01-01 «Friend» one {}\n", "я".repeat(96))
    );
    let tail = vec![Doomed { dialog_id: 1, msg_id: 3, reason: "war".into() }];
    let d = Difference { common: 4, both: 2, only_base: 1, tail };
    let expected = [
        "windows in common: 4",
        "",
        "agreed (both assigned)  : 2",
        "only first                    : 1",
        "only second                   : 1",
        "",
        "undisputed share: 50% — deletable without a second look",
        "",
        "=== assigned only by second (1 messages) ===",
        "either its false positives or a seam first misses",
        "[dump]",
    ];
    assert_eq!(diff_report(&d, "first", "second", "50", 10, "[dump]"), expected.join("\n"));
    let short = diff_report(&d, "first", "second", "50", 0, "[dump]");
    assert!(short.ends_with("without a second look\n"));
    let none = Difference { common: 4, both: 0, only_base: 0, tail: Vec::new() };
    assert!(!diff_report(&none, "a", "b", "", 0, "").contains("undisputed"));
}

#[test]
fn ids_are_kept_apart_by_dialog() {
    let mut s = IdSet::new();
    s.insert(1, 2);
    assert!(s.contains(1, 2));
    assert!(!s.contains(2, 1));
    assert!(!s.contains(1, -2));
    let mut at = IdIndex::new();
    at.insert(-1, 2, 7);
    at.insert(-1, 2, 8);
    assert_eq!(at.get(-1, 2), Some(8));
    assert_eq!(at.get(1, 2), None);
}

#[test]
fn sorting_is_stable() {
    let k = |a: i128, b: i128| Key(a, b, 0, 0);
    assert_eq!(order(&vec![k(2, 0), k(1, 5), k(1, 3), k(2, 0), k(1, 3)]), vec![2, 4, 1, 0, 3]);
    assert_eq!(order(&Vec::new()), Vec::<usize>::new());
}

#[test]
fn an_older_database_is_refused() {
    assert!(fits(0));
    assert!(fits(SCHEMA_VERSION));
    assert!(!fits(5));
    assert!(!fits(7));
}

#[test]
fn days_are_shown_as_given() {
    let g = Group { reason: "war".into(), ids: vec![(1, 3)] };
    let seen = vec![Glimpse { title: "Friend".into(), date: 0, text: "x".into() }];
    assert_eq!(
        group_dated(&g, &seen, &vec!["today".into()]),
        "\n[1 msgs] war\n    today «Friend» x\n"
    );
}

#[test]
fn shares_are_parts() {
    let runs = vec![run("m", &[(10, 30)]), run("m", &[]), run("m", &[(12, 12)])];
    let a = total(&runs, "m @ p1", &vec![win(vec![12, 20, 30], 5)], &IdSet::new());
    assert!(a.covered <= a.anchors && a.violations <= a.cut);
    assert!(a.full <= a.windows && a.empty <= a.windows && a.edge <= a.windows);
    assert_eq!(a.violations, 0);
}
