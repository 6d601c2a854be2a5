//! Dictionary and matcher.

use glisser::dict::{add_found, clip, cut, DictError, Dictionary, RegexRule, Rule, MIN_TERM_LEN};
use glisser::dict_data::{regexes, rules};
use glisser::model::{Axis, Layer};
use glisser::norm::Normalized;
use glisser::search::{Place, RegexFault};

/// Every term must be long enough and must not shadow another one: both
/// are silent failures otherwise — noise in the report or a doubled weight.
#[test]
fn terms_are_usable_and_distinct() {
    let mut seen: Vec<(String, &str)> = Vec::new();
    for rule in rules() {
        for term in rule.terms {
            let norm = Normalized::build(term).text;
            assert!(
                norm.chars().count() >= MIN_TERM_LEN,
                "{}:{} `{term}` → `{norm}` is too short",
                rule.axis.as_str(),
                rule.id
            );
            if let Some((_, first)) = seen.iter().find(|(n, _)| *n == norm) {
                panic!(
                    "{}:{} `{term}` has the same normal form as `{first}`",
                    rule.axis.as_str(),
                    rule.id
                );
            }
            seen.push((norm, term));
        }
    }
}

#[test]
fn matches_by_stem_and_across_scripts() {
    let d = Dictionary::new().unwrap();
    let hits = |s: &str| -> Vec<String> {
        d.scan(s, &Normalized::build(s))
            .into_iter()
            .map(|m| format!("{}:{}", m.axis.as_str(), m.rule_id))
            .collect()
    };
    assert!(hits("закупился на bybit").contains(&"crypto:exchanges".into()));
    assert!(hits("сидели в окопах").contains(&"politics:war".into()));
    // The same word inside another one must not fire.
    assert!(hits("быстро копится работа").is_empty());
}

#[test]
fn the_shipped_tables_are_whole() {
    assert_eq!(rules().len(), 19);
    assert_eq!(regexes().len(), 16);
    let d = Dictionary::new().unwrap();
    let total: usize = rules().iter().map(|r| r.terms.len()).sum();
    assert_eq!(d.term_count(), total);
    assert_eq!(d.regex_count(), 16);
    let war = rules().into_iter().find(|r| r.id == "war").unwrap();
    assert_eq!(war.weight, 2000);
    assert_eq!(war.axis, Axis::Politics);
    assert_eq!(war.terms[0], "войн");
    assert_eq!(war.terms.len(), 19);
}

const WORDS: [&str; 3] = ["войн", "окоп", "вид на жительств"];
const SHORT: [&str; 2] = ["войн", "дом"];
const TWICE: [&str; 3] = ["война", "в0йна", "в-о-й-н-а"];

fn words(terms: &'static [&'static str]) -> Vec<Rule> {
    vec![Rule { axis: Axis::Politics, id: "words", weight: 2000, terms }]
}

#[test]
fn short_terms_are_refused() {
    let Err(e) = Dictionary::with(&words(&SHORT), &Vec::new(), &[], &[]) else {
        panic!("a term of three letters must be refused")
    };
    let norm = Normalized::build("дом").text;
    let line = format!("politics:words `дом` → `{norm}`");
    assert!(matches!(&e, DictError::Short(lines) if *lines == vec![line.clone()]));
    assert_eq!(
        e.message(),
        format!(
            "terms shorter than 4 chars once normalized — they match across word boundaries:\n  {line}"
        )
    );
}

#[test]
fn equal_normal_forms_count_once() {
    let d = Dictionary::with(&words(&TWICE), &Vec::new(), &[], &[]).unwrap();
    assert_eq!(d.term_count(), 1);
    let text = "опять война, в0йна и в-о-й-н-а";
    let got = d.scan(text, &Normalized::build(text));
    assert_eq!(got.len(), 1);
    assert_eq!(got[0].term, "война");
}

#[test]
fn a_bad_expression_is_named() {
    let bad = vec![
        RegexRule { axis: Axis::Lgbt, id: "fine", weight: 1000, pattern: r"\bok\b" },
        RegexRule { axis: Axis::Lgbt, id: "broken", weight: 1000, pattern: r"(" },
    ];
    let Err(e) = Dictionary::with(&words(&WORDS), &bad, &[], &[]) else {
        panic!("an unclosed group must be refused")
    };
    assert!(matches!(&e, DictError::Regex { id, fault: RegexFault::Syntax(_) } if id == "broken"));
    assert!(e.message().starts_with("bad regex `broken`: "));
}

#[test]
fn an_expression_can_be_too_big() {
    let big = vec![RegexRule {
        axis: Axis::Lgbt,
        id: "huge",
        weight: 1000,
        pattern: r"\w{1000}{1000}",
    }];
    let Err(e) = Dictionary::with(&words(&WORDS), &big, &[], &[]) else {
        panic!("an expression over the size limit must be refused")
    };
    assert!(matches!(&e, DictError::Regex { fault: RegexFault::TooBig(_), .. }));
    assert!(e.message().starts_with("bad regex `huge`: Compiled regex exceeds size limit of "));
}

#[test]
fn a_match_tells_where_it_stood() {
    let d = Dictionary::with(&words(&WORDS), &Vec::new(), &[], &[]).unwrap();
    let text = "началась в.о.й.н.а, сижу в окопе";
    let got = d.scan(text, &Normalized::build(text));
    assert_eq!(got.len(), 2);
    assert_eq!(got[0].term, "войн");
    assert_eq!(got[0].surface.as_deref(), Some("в.о.й.н"));
    assert_eq!(got[0].layer, Layer::Keyword);
    assert_eq!(got[0].weight, 2000);
    assert_eq!(got[0].rule_id, "words");
    assert_eq!(got[1].term, "окоп");
    assert_eq!(got[1].surface.as_deref(), Some("окоп"));
}

#[test]
fn only_terms_of_several_words_cross_spaces() {
    let d = Dictionary::with(&words(&WORDS), &Vec::new(), &[], &[]).unwrap();
    let terms = |s: &str| -> Vec<String> {
        d.scan(s, &Normalized::build(s)).into_iter().map(|m| m.term).collect()
    };
    assert_eq!(terms("оформляю вид на жительство"), vec!["вид на жительств"]);
    // `во йн` of two words is no `войн`.
    assert!(terms("во йная").is_empty());
    // One letter at a time it is.
    assert_eq!(terms("в о й н а"), vec!["войн"]);
}

#[test]
fn repeated_matches_count_once() {
    let d = Dictionary::new().unwrap();
    let text = "война и война, btc и btc, ещё раз войны";
    let got = d.scan(text, &Normalized::build(text));
    let mut keys: Vec<(String, String)> =
        got.iter().map(|m| (m.rule_id.clone(), m.term.clone())).collect();
    let before = keys.len();
    keys.sort();
    keys.dedup();
    assert_eq!(before, keys.len());
    assert_eq!(got.iter().filter(|m| m.rule_id == "acronyms_crypto").count(), 1);
}

#[test]
fn expressions_run_on_the_raw_text() {
    let d = Dictionary::new().unwrap();
    let text = "купил BTC вчера";
    let got = d.scan(text, &Normalized::build(text));
    let m = got.iter().find(|m| m.rule_id == "acronyms_crypto").unwrap();
    assert_eq!(m.surface.as_deref(), Some("BTC"));
    assert_eq!(m.term, "acronyms_crypto");
    assert_eq!(m.layer, Layer::Regex);
    assert_eq!(m.weight, 2000);
    let text = "0x52908400098527886E0F7030069857D2E4169EE7";
    let got = d.scan(text, &Normalized::build(text));
    assert!(got.iter().any(|m| m.rule_id == "eth_address" && m.axis == Axis::CryptoHard));
    let text = "обычное сообщение о погоде";
    assert!(d.scan(text, &Normalized::build(text)).is_empty());
}

#[test]
fn overlapping_terms_all_fire() {
    const NESTED: [&str; 3] = ["воен", "военком", "военкомат"];
    let d = Dictionary::with(&words(&NESTED), &Vec::new(), &[], &[]).unwrap();
    let text = "иду в военкомат";
    let terms: Vec<String> =
        d.scan(text, &Normalized::build(text)).into_iter().map(|m| m.term).collect();
    // By the place they end at.
    assert_eq!(terms, vec!["воен", "военком", "военкомат"]);
}

#[test]
fn the_whitelist_protects_unless_overridden() {
    let d = Dictionary::with(&words(&WORDS), &Vec::new(), &["отпуск", "море"], &["остаться навсегда"])
        .unwrap();
    let safe = |s: &str| d.is_protected(&Normalized::build(s));
    assert!(safe("едем в отпуск"));
    assert!(safe("поехали на море"));
    assert!(!safe("едем в отпуск, хочу остаться навсегда"));
    assert!(!safe("остаться навсегда"));
    assert!(!safe("война"));
    // The shipped whitelist is empty.
    assert!(!Dictionary::new().unwrap().is_protected(&Normalized::build("едем в отпуск")));
}

#[test]
fn long_surfaces_are_clipped() {
    assert_eq!(clip("коротко"), "коротко");
    assert_eq!(clip(&"я".repeat(80)), "я".repeat(80));
    assert_eq!(clip(&"я".repeat(81)), format!("{}…", "я".repeat(80)));
    assert_eq!(cut("привет", 1, 4), "рив");
    assert_eq!(cut("привет", 4, 100), "ет");
    assert_eq!(cut("привет", 10, 20), "");
    assert_eq!(cut("привет", 4, 2), "");
}

#[test]
fn the_longer_comes_first_where_two_end_together() {
    const TAILS: [&str; 2] = ["военком", "новый военком"];
    let d = Dictionary::with(&words(&TAILS), &Vec::new(), &[], &[]).unwrap();
    let text = "новый военком";
    let terms: Vec<String> =
        d.scan(text, &Normalized::build(text)).into_iter().map(|m| m.term).collect();
    assert_eq!(terms, vec!["новый военком", "военком"]);
}

#[test]
fn the_first_expression_at_fault_is_told() {
    let exprs = vec![
        RegexRule { axis: Axis::Lgbt, id: "one", weight: 1000, pattern: "a" },
        RegexRule { axis: Axis::Lgbt, id: "two", weight: 1000, pattern: "b" },
    ];
    let compiled = vec![regex::Regex::new("a").unwrap()];
    let r = Dictionary::assemble(
        &words(&WORDS),
        &exprs,
        compiled,
        Some(RegexFault::TooBig(5)),
        &[],
        &[],
    );
    let Err(e) = r else { panic!("the second expression is at fault") };
    assert_eq!(e.message(), "bad regex `two`: Compiled regex exceeds size limit of 5 bytes.");
    // Short terms are told first.
    let r = Dictionary::assemble(
        &words(&SHORT),
        &exprs,
        Vec::new(),
        Some(RegexFault::Syntax("no".into())),
        &[],
        &[],
    );
    assert!(matches!(r, Err(DictError::Short(_))));
}

#[test]
fn terms_match_where_they_are_found() {
    let d = Dictionary::with(&words(&WORDS), &Vec::new(), &[], &[]).unwrap();
    let text = "окопы";
    let n = Normalized::build(text);
    let at = |start: usize, end: usize| Place { pattern: 1, start, end };
    let got = d.match_terms(text, &n, &vec![at(1, 5), at(0, 4), at(0, 4)]);
    assert_eq!(got.len(), 1);
    assert_eq!(got[0].surface.as_deref(), Some("окоп"));
}

#[test]
fn what_expressions_found_is_added_once() {
    let exprs = vec![
        RegexRule { axis: Axis::Crypto, id: "btc", weight: 1500, pattern: "BTC" },
        RegexRule { axis: Axis::Crypto, id: "eth", weight: 1500, pattern: "ETH" },
        RegexRule { axis: Axis::Crypto, id: "btc", weight: 9000, pattern: "btc" },
    ];
    let mut ms = Vec::new();
    add_found(&mut ms, &exprs, &vec![Some("BTC".into()), None, Some("btc".into())]);
    assert_eq!(ms.len(), 1);
    assert_eq!((ms[0].rule_id.as_str(), ms[0].weight), ("btc", 1500));
    assert_eq!(ms[0].surface.as_deref(), Some("BTC"));
}
