//! Dictionary and matcher. Terms are normalized the same way as the corpus
//! and folded into one Aho-Corasick automaton; regexes run on the raw text,
//! for what must not be normalized (addresses, seed phrases).

use crate::config::{WHITELIST, WHITELIST_OVERRIDE};
use crate::dict_data::{regexes, rules, shipped_regexes, shipped_rules};
use crate::model::{Axis, Layer};
use crate::norm::{normal_text, Normalized, NormalizedView};
use crate::search::{
    any_occurs, automaton, automaton_fault, automaton_patterns, compile, finds_any, find_all,
    first_match, lemma_spots, regex_fault, regex_match, regex_source, spots, Place, RegexFault,
    Spot,
};
use crate::text::{
    chars_of, has_name, joined, opt_view, opt_views, push_joined, same, str_views, string_of, views,
};
use crate::unicode::whitespace;
use aho_corasick::AhoCorasick;
use regex::Regex;
use vstd::prelude::*;

verus! {

/// Terms that mean the same thing, on one axis.
#[derive(Debug, Clone, Copy)]
pub struct Rule {
    pub axis: Axis,
    pub id: &'static str,
    /// In thousandths.
    pub weight: u32,
    pub terms: &'static [&'static str],
}

/// A rule as plain values.
pub struct RuleView {
    pub axis: Axis,
    pub id: Seq<char>,
    pub weight: u32,
    pub terms: Seq<Seq<char>>,
}

impl View for Rule {
    type V = RuleView;

    open spec fn view(&self) -> RuleView {
        RuleView {
            axis: self.axis,
            id: self.id@,
            weight: self.weight,
            terms: str_views(self.terms@),
        }
    }
}

pub open spec fn rule_views(v: Seq<Rule>) -> Seq<RuleView> {
    Seq::new(v.len(), |i: int| v[i]@)
}

#[derive(Debug, Clone, Copy)]
pub struct RegexRule {
    pub axis: Axis,
    pub id: &'static str,
    /// In thousandths.
    pub weight: u32,
    pub pattern: &'static str,
}

/// A regular expression rule as plain values.
pub struct RegexRuleView {
    pub axis: Axis,
    pub id: Seq<char>,
    pub weight: u32,
    pub pattern: Seq<char>,
}

impl View for RegexRule {
    type V = RegexRuleView;

    open spec fn view(&self) -> RegexRuleView {
        RegexRuleView {
            axis: self.axis,
            id: self.id@,
            weight: self.weight,
            pattern: self.pattern@,
        }
    }
}

pub open spec fn regex_rule_views(v: Seq<RegexRule>) -> Seq<RegexRuleView> {
    Seq::new(v.len(), |i: int| v[i]@)
}

/// Shortest term allowed after normalization. Shorter stems match across word
/// boundaries and drown the report; abbreviations go to the regular
/// expressions, where word boundaries hold.
pub const MIN_TERM_LEN: usize = 4;

// --- terms ---------------------------------------------------------------

/// One term of one rule.
#[derive(Debug, Clone, Copy)]
struct Term {
    axis: Axis,
    rule_id: &'static str,
    term: &'static str,
    weight: u32,
    /// A multi-word term («вид на жительство») may cross spaces; a single-word
    /// one may not.
    multiword: bool,
}

/// One term of one rule, as plain values.
pub struct TermView {
    pub axis: Axis,
    pub rule_id: Seq<char>,
    pub term: Seq<char>,
    pub weight: u32,
}

impl Term {
    spec fn model(self) -> TermView {
        TermView {
            axis: self.axis,
            rule_id: self.rule_id@,
            term: self.term@,
            weight: self.weight,
        }
    }
}

spec fn term_views(v: Seq<Term>) -> Seq<TermView> {
    Seq::new(v.len(), |i: int| v[i].model())
}

/// The terms of a rule, one by one.
pub open spec fn terms_of(rule: RuleView) -> Seq<TermView> {
    Seq::new(
        rule.terms.len(),
        |i: int|
            TermView {
                axis: rule.axis,
                rule_id: rule.id,
                term: rule.terms[i],
                weight: rule.weight,
            },
    )
}

/// The terms of all rules, one by one.
pub open spec fn all_terms(rules: Seq<RuleView>) -> Seq<TermView>
    decreases rules.len(),
{
    if rules.len() == 0 {
        seq![]
    } else {
        all_terms(rules.drop_last()) + terms_of(rules.last())
    }
}

/// How many words a text is made of.
pub open spec fn word_count(s: Seq<char>) -> nat
    decreases s.len(),
{
    if s.len() == 0 {
        0
    } else {
        let init = s.drop_last();
        word_count(init) + if !whitespace(s.last()) && (init.len() == 0 || whitespace(
            init.last(),
        )) {
            1nat
        } else {
            0nat
        }
    }
}

fn count_words(s: &str) -> (r: usize)
    ensures
        r == word_count(s@),
{
    let cs: Vec<char> = chars_of(s);
    let mut n: usize = 0;
    let mut i: usize = 0;
    assert(cs@.take(0) =~= Seq::<char>::empty());
    while i < cs.len()
        invariant
            n <= i <= cs@.len(),
            n == word_count(cs@.take(i as int)),
        decreases cs@.len() - i,
    {
        assert(cs@.take(i + 1).drop_last() =~= cs@.take(i as int));
        if !cs[i].is_whitespace() && (i == 0 || cs[i - 1].is_whitespace()) {
            n += 1;
        }
        i += 1;
    }
    assert(cs@.take(i as int) =~= cs@);
    n
}

/// Too short to be looked for.
pub open spec fn too_short(t: TermView) -> bool {
    normal_text(t.term).len() < MIN_TERM_LEN
}

/// How a term that is too short is shown.
pub open spec fn short_line(t: TermView) -> Seq<char> {
    Seq::<char>::empty() + t.axis.name() + ":"@ + t.rule_id + " `"@ + t.term + "` → `"@
        + normal_text(t.term) + "`"@
}

/// The terms that are too short, as they are shown.
pub open spec fn short_lines(terms: Seq<TermView>) -> Seq<Seq<char>>
    decreases terms.len(),
{
    if terms.len() == 0 {
        seq![]
    } else if too_short(terms.last()) {
        short_lines(terms.drop_last()).push(short_line(terms.last()))
    } else {
        short_lines(terms.drop_last())
    }
}

/// The normal forms of terms.
pub open spec fn forms(terms: Seq<TermView>) -> Seq<Seq<char>> {
    Seq::new(terms.len(), |i: int| normal_text(terms[i].term))
}

/// Different spellings often share one normal form. A duplicate would double
/// the weight, so the first one wins and the rest are dropped.
pub open spec fn distinct(terms: Seq<TermView>) -> Seq<TermView>
    decreases terms.len(),
{
    if terms.len() == 0 {
        seq![]
    } else {
        let init = distinct(terms.drop_last());
        let t = terms.last();
        if too_short(t) || forms(init).contains(normal_text(t.term)) {
            init
        } else {
            init.push(t)
        }
    }
}

/// The normal forms of whitelisted words, those that have one.
pub open spec fn whitelisted(words: Seq<Seq<char>>) -> Seq<Seq<char>>
    decreases words.len(),
{
    if words.len() == 0 {
        seq![]
    } else {
        let init = whitelisted(words.drop_last());
        if normal_text(words.last()).len() == 0 {
            init
        } else {
            init.push(normal_text(words.last()))
        }
    }
}

// --- errors --------------------------------------------------------------

/// Why a dictionary cannot be used.
#[derive(Debug)]
pub enum DictError {
    /// Terms shorter than `MIN_TERM_LEN` once normalized.
    Short(Vec<String>),
    /// A regular expression that does not compile.
    Regex { id: String, fault: RegexFault },
    /// An automaton that cannot be built.
    Automaton(String),
}

/// The words for a fault of a regular expression.
pub open spec fn fault_text(fault: RegexFault) -> Seq<char> {
    match fault {
        RegexFault::Syntax(why) => why@,
        RegexFault::TooBig(limit) => Seq::<char>::empty()
            + "Compiled regex exceeds size limit of "@ + crate::text::dec(limit as nat)
            + " bytes."@,
    }
}

/// The words for an error.
pub open spec fn error_text(e: DictError) -> Seq<char> {
    match e {
        DictError::Short(lines) => Seq::<char>::empty() + "terms shorter than "@ + crate::text::dec(
            MIN_TERM_LEN as nat,
        ) + " chars once normalized — they match across word boundaries:\n  "@ + joined(
            views(lines@),
            "\n  "@,
        ),
        DictError::Regex { id, fault } => Seq::<char>::empty() + "bad regex `"@ + id@ + "`: "@
            + fault_text(fault),
        DictError::Automaton(why) => Seq::<char>::empty() + why@,
    }
}

impl DictError {
    /// The error in words.
    pub fn message(&self) -> (r: String)
        ensures
            r@ == error_text(*self),
    {
        let mut out: String = String::new();
        match self {
            DictError::Short(lines) => {
                out.append("terms shorter than ");
                crate::text::push_dec(&mut out, MIN_TERM_LEN as u128);
                out.append(" chars once normalized — they match across word boundaries:\n  ");
                push_joined(&mut out, lines, "\n  ");
            },
            DictError::Regex { id, fault } => {
                out.append("bad regex `");
                out.append(id.as_str());
                out.append("`: ");
                match fault {
                    RegexFault::Syntax(why) => {
                        out.append(why.as_str());
                    },
                    RegexFault::TooBig(limit) => {
                        let mut why: String = String::new();
                        why.append("Compiled regex exceeds size limit of ");
                        crate::text::push_dec(&mut why, *limit as u128);
                        why.append(" bytes.");
                        out.append(why.as_str());
                    },
                }
            },
            DictError::Automaton(why) => {
                out.append(why.as_str());
            },
        }
        out
    }
}

// --- the dictionary ------------------------------------------------------

pub struct Dictionary {
    ac: AhoCorasick,
    terms: Vec<Term>,
    regexes: Vec<RegexRule>,
    /// The expressions of `regexes`, compiled.
    compiled: Vec<Regex>,
    protect: AhoCorasick,
    unprotect: AhoCorasick,
}

/// What a dictionary looks for.
#[verifier::ext_equal]
pub struct DictionaryView {
    /// In the order of their patterns.
    pub terms: Seq<TermView>,
    pub regexes: Seq<RegexRuleView>,
    /// Normal forms that protect a message.
    pub protect: Seq<Seq<char>>,
    /// Normal forms that cancel the protection.
    pub unprotect: Seq<Seq<char>>,
}

impl View for Dictionary {
    type V = DictionaryView;

    closed spec fn view(&self) -> DictionaryView {
        DictionaryView {
            terms: term_views(self.terms@),
            regexes: regex_rule_views(self.regexes@),
            protect: automaton_patterns(self.protect),
            unprotect: automaton_patterns(self.unprotect),
        }
    }
}

/// The dictionary of these tables.
pub open spec fn dictionary_of(
    rules: Seq<RuleView>,
    regexes: Seq<RegexRuleView>,
    whitelist: Seq<Seq<char>>,
    overrides: Seq<Seq<char>>,
) -> DictionaryView {
    DictionaryView {
        terms: distinct(all_terms(rules)),
        regexes,
        protect: whitelisted(whitelist),
        unprotect: whitelisted(overrides),
    }
}

/// Every expression before place `k` has sound syntax.
pub open spec fn sound_before(regexes: Seq<RegexRuleView>, k: int) -> bool {
    forall|i: int| 0 <= i < k ==> regex_fault((#[trigger] regexes[i]).pattern) is None
}

/// What keeps the automata from being built, if anything does.
pub open spec fn first_fault(d: DictionaryView) -> Option<Seq<char>> {
    if automaton_fault(forms(d.terms)) is Some {
        automaton_fault(forms(d.terms))
    } else if automaton_fault(d.protect) is Some {
        automaton_fault(d.protect)
    } else {
        automaton_fault(d.unprotect)
    }
}

proof fn lemma_distinct_long(terms: Seq<TermView>)
    ensures
        forall|i: int|
            0 <= i < distinct(terms).len() ==> !too_short(#[trigger] distinct(terms)[i]),
    decreases terms.len(),
{
    if terms.len() > 0 {
        let init = distinct(terms.drop_last());
        lemma_distinct_long(terms.drop_last());
        assert forall|i: int| 0 <= i < distinct(terms).len() implies !too_short(
            #[trigger] distinct(terms)[i],
        ) by {
            if i < init.len() {
                assert(distinct(terms)[i] == init[i]);
            }
        }
    }
}

/// No two terms of a dictionary share a normal form: a term met under two
/// spellings counts once.
pub proof fn law_normal_forms_are_distinct(terms: Seq<TermView>)
    ensures
        forms(distinct(terms)).no_duplicates(),
        forall|i: int|
            0 <= i < distinct(terms).len() ==> normal_text(
                (#[trigger] distinct(terms)[i]).term,
            ).len() >= MIN_TERM_LEN,
    decreases terms.len(),
{
    lemma_distinct_long(terms);
    assert forall|i: int| 0 <= i < distinct(terms).len() implies normal_text(
        (#[trigger] distinct(terms)[i]).term,
    ).len() >= MIN_TERM_LEN by {
        assert(!too_short(distinct(terms)[i]));
    }
    if terms.len() > 0 {
        let init = distinct(terms.drop_last());
        let now = distinct(terms);
        law_normal_forms_are_distinct(terms.drop_last());
        assert forall|i: int, j: int|
            0 <= i < forms(now).len() && 0 <= j < forms(now).len() && i != j implies forms(now)[i]
            != forms(now)[j] by {
            if i < init.len() {
                assert(forms(now)[i] == forms(init)[i]);
            }
            if j < init.len() {
                assert(forms(now)[j] == forms(init)[j]);
            }
            if i < init.len() && j < init.len() {
                assert(forms(init)[i] != forms(init)[j]);
            }
        }
    }
}

fn flatten(rules: &Vec<Rule>) -> (r: Vec<Term>)
    ensures
        term_views(r@) == all_terms(rule_views(rules@)),
        forall|i: int|
            0 <= i < r@.len() ==> (#[trigger] r@[i]).multiword == (word_count(r@[i].term@) > 1),
{
    let ghost all = rule_views(rules@);
    let mut out: Vec<Term> = Vec::new();
    let mut i: usize = 0;
    assert(all.take(0) =~= Seq::<RuleView>::empty());
    assert(term_views(out@) =~= Seq::<TermView>::empty());
    while i < rules.len()
        invariant
            i <= rules@.len(),
            all == rule_views(rules@),
            term_views(out@) == all_terms(all.take(i as int)),
            forall|i: int|
                0 <= i < out@.len() ==> (#[trigger] out@[i]).multiword == (word_count(
                    out@[i].term@,
                ) > 1),
        decreases rules@.len() - i,
    {
        let rule: Rule = rules[i];
        let ghost before = term_views(out@);
        let ghost these = terms_of(rule@);
        let mut j: usize = 0;
        assert(before + these.take(0) =~= before);
        while j < rule.terms.len()
            invariant
                j <= rule.terms@.len(),
                these == terms_of(rule@),
                term_views(out@) == before + these.take(j as int),
                forall|i: int|
                    0 <= i < out@.len() ==> (#[trigger] out@[i]).multiword == (word_count(
                        out@[i].term@,
                    ) > 1),
            decreases rule.terms@.len() - j,
        {
            let term: &'static str = rule.terms[j];
            let ghost was = term_views(out@);
            let t: Term = Term {
                axis: rule.axis,
                rule_id: rule.id,
                term,
                weight: rule.weight,
                multiword: count_words(term) > 1,
            };
            out.push(t);
            assert(term_views(out@) =~= was.push(t.model()));
            assert(rule@.terms[j as int] == term@);
            j += 1;
            assert(term_views(out@) =~= before + these.take(j as int));
        }
        assert(these.take(j as int) =~= these);
        assert(all.take(i + 1).drop_last() =~= all.take(i as int));
        i += 1;
    }
    assert(all.take(i as int) =~= all);
    out
}

fn copy_rules(v: &Vec<RegexRule>) -> (r: Vec<RegexRule>)
    ensures
        r@ == v@,
{
    let mut out: Vec<RegexRule> = Vec::new();
    let mut i: usize = 0;
    while i < v.len()
        invariant
            i <= v@.len(),
            out@ == v@.take(i as int),
        decreases v@.len() - i,
    {
        out.push(v[i]);
        i += 1;
        assert(out@ =~= v@.take(i as int));
    }
    assert(v@.take(i as int) =~= v@);
    out
}

/// Normal forms of a list of words, the empty ones left out.
fn normal_forms(words: &[&'static str]) -> (r: Vec<String>)
    ensures
        views(r@) == whitelisted(str_views(words@)),
{
    let ghost all = str_views(words@);
    let mut out: Vec<String> = Vec::new();
    let mut i: usize = 0;
    assert(all.take(0) =~= Seq::<Seq<char>>::empty());
    assert(views(out@) =~= Seq::<Seq<char>>::empty());
    while i < words.len()
        invariant
            i <= words@.len(),
            all == str_views(words@),
            views(out@) == whitelisted(all.take(i as int)),
        decreases words@.len() - i,
    {
        assert(all.take(i + 1).drop_last() =~= all.take(i as int));
        assert(all.take(i + 1).last() == words@[i as int]@);
        let n: Normalized = Normalized::build(words[i]);
        assert(n@.text == normal_text(words@[i as int]@));
        if n.letters().unicode_len() > 0 {
            let ghost was = views(out@);
            let form: String = n.letters().to_owned();
            out.push(form);
            assert(views(out@) =~= was.push(form@));
        }
        i += 1;
    }
    assert(all.take(i as int) =~= all);
    out
}

/// Terms sorted out: the ones to look for with their normal forms, and the
/// ones that are too short.
fn sort_out(terms: &Vec<Term>) -> (r: (Vec<Term>, Vec<String>, Vec<String>))
    requires
        forall|i: int|
            0 <= i < terms@.len() ==> (#[trigger] terms@[i]).multiword == (word_count(
                terms@[i].term@,
            ) > 1),
    ensures
        term_views(r.0@) == distinct(term_views(terms@)),
        views(r.1@) == forms(distinct(term_views(terms@))),
        views(r.2@) == short_lines(term_views(terms@)),
        forall|i: int|
            0 <= i < r.0@.len() ==> (#[trigger] r.0@[i]).multiword == (word_count(r.0@[i].term@)
                > 1),
{
    let ghost all = term_views(terms@);
    let mut keep: Vec<Term> = Vec::new();
    let mut pats: Vec<String> = Vec::new();
    let mut short: Vec<String> = Vec::new();
    let mut i: usize = 0;
    proof {
        assert(all.take(0) =~= Seq::<TermView>::empty());
        assert(term_views(keep@) =~= Seq::<TermView>::empty());
        assert(views(pats@) =~= forms(Seq::<TermView>::empty()));
        assert(views(short@) =~= Seq::<Seq<char>>::empty());
    }
    while i < terms.len()
        invariant
            i <= terms@.len(),
            all == term_views(terms@),
            forall|i: int|
                0 <= i < terms@.len() ==> (#[trigger] terms@[i]).multiword == (word_count(
                    terms@[i].term@,
                ) > 1),
            term_views(keep@) == distinct(all.take(i as int)),
            views(pats@) == forms(distinct(all.take(i as int))),
            views(short@) == short_lines(all.take(i as int)),
            forall|i: int|
                0 <= i < keep@.len() ==> (#[trigger] keep@[i]).multiword == (word_count(
                    keep@[i].term@,
                ) > 1),
        decreases terms@.len() - i,
    {
        let t: Term = terms[i];
        assert(all.take(i + 1).drop_last() =~= all.take(i as int));
        assert(all.take(i + 1).last() == t.model());
        let n: Normalized = Normalized::build(t.term);
        assert(n@.text == normal_text(t.term@));
        let form: String = n.letters().to_owned();
        if form.as_str().unicode_len() < MIN_TERM_LEN {
            let mut line: String = String::new();
            line.append(t.axis.as_str());
            line.append(":");
            line.append(t.rule_id);
            line.append(" `");
            line.append(t.term);
            line.append("` → `");
            line.append(form.as_str());
            line.append("`");
            let ghost was = views(short@);
            short.push(line);
            assert(views(short@) =~= was.push(line@));
        } else if !has_name(&pats, form.as_str()) {
            let ghost (a, b) = (term_views(keep@), views(pats@));
            keep.push(t);
            pats.push(form);
            proof {
                assert(term_views(keep@) =~= a.push(t.model()));
                assert(views(pats@) =~= b.push(form@));
                assert(forms(a.push(t.model())) =~= forms(a).push(form@));
            }
        }
        i += 1;
    }
    assert(all.take(i as int) =~= all);
    (keep, pats, short)
}

// --- matches -------------------------------------------------------------

#[derive(Debug, Clone)]
pub struct Match {
    pub axis: Axis,
    pub rule_id: String,
    pub term: String,
    /// In thousandths.
    pub weight: u32,
    pub layer: Layer,
    pub surface: Option<String>,
}

/// A match as plain values.
pub struct MatchView {
    pub axis: Axis,
    pub rule_id: Seq<char>,
    pub term: Seq<char>,
    pub weight: u32,
    pub layer: Layer,
    pub surface: Option<Seq<char>>,
}

impl View for Match {
    type V = MatchView;

    open spec fn view(&self) -> MatchView {
        MatchView {
            axis: self.axis,
            rule_id: self.rule_id@,
            term: self.term@,
            weight: self.weight,
            layer: self.layer,
            surface: opt_view(self.surface),
        }
    }
}

pub open spec fn match_views(v: Seq<Match>) -> Seq<MatchView> {
    Seq::new(v.len(), |i: int| v[i]@)
}

/// At most eighty characters of a text.
pub open spec fn clipped(s: Seq<char>) -> Seq<char> {
    if s.len() <= 80 {
        s
    } else {
        s.take(80).push('…')
    }
}

/// The characters of a range, as far as the text goes.
pub open spec fn stretch(s: Seq<char>, a: int, b: int) -> Seq<char> {
    let from = if a < s.len() {
        a
    } else {
        s.len() as int
    };
    let to = if b < s.len() {
        b
    } else {
        s.len() as int
    };
    if from < to {
        s.subrange(from, to)
    } else {
        seq![]
    }
}

fn clip_chars(cs: &[char]) -> (r: String)
    ensures
        r@ == clipped(cs@),
{
    if cs.len() <= 80 {
        string_of(cs)
    } else {
        let mut out: String = string_of(vstd::slice::slice_subrange(cs, 0, 80));
        out.push('…');
        assert(out@ =~= clipped(cs@));
        out
    }
}

/// At most eighty characters of a text.
pub fn clip(s: &str) -> (r: String)
    ensures
        r@ == clipped(s@),
{
    let cs: Vec<char> = chars_of(s);
    clip_chars(cs.as_slice())
}

/// A range of a text, clipped.
pub fn cut(s: &str, a: usize, b: usize) -> (r: String)
    ensures
        r@ == clipped(stretch(s@, a as int, b as int)),
{
    let cs: Vec<char> = chars_of(s);
    let from: usize = if a < cs.len() {
        a
    } else {
        cs.len()
    };
    let to: usize = if b < cs.len() {
        b
    } else {
        cs.len()
    };
    if from < to {
        clip_chars(vstd::slice::slice_subrange(cs.as_slice(), from, to))
    } else {
        let none: String = String::new();
        assert(none@ =~= clipped(stretch(s@, a as int, b as int)));
        none
    }
}

/// The match of a term between two letters of the normal form.
pub open spec fn keyword_match(t: TermView, n: NormalizedView, raw: Seq<char>, s: Spot) -> MatchView {
    MatchView {
        axis: t.axis,
        rule_id: t.rule_id,
        term: t.term,
        weight: t.weight,
        layer: Layer::Keyword,
        surface: match n.source_range(s.start, s.end) {
            Some((a, b)) => Some(clipped(stretch(raw, a as int, b as int))),
            None => None,
        },
    }
}

/// A term fires where it begins a word, and does not crawl over a space unless
/// it is made of several words itself.
pub open spec fn fires(t: TermView, n: NormalizedView, s: Spot) -> bool {
    n.begins_word(s.start) && (word_count(t.term) > 1 || n.one_word(s.start, s.end))
}

/// A rule and term already matched.
pub open spec fn met(ms: Seq<MatchView>, rule_id: Seq<char>, term: Seq<char>) -> bool {
    exists|k: int|
        0 <= k < ms.len() && (#[trigger] ms[k]).rule_id == rule_id && ms[k].term == term
}

/// The matches of terms at the given spots: each rule and term once, a
/// repeated term must not multiply the weight.
pub open spec fn keyword_matches(
    terms: Seq<TermView>,
    n: NormalizedView,
    raw: Seq<char>,
    at: Seq<Spot>,
) -> Seq<MatchView>
    decreases at.len(),
{
    if at.len() == 0 {
        seq![]
    } else {
        let init = keyword_matches(terms, n, raw, at.drop_last());
        let t = terms[at.last().pattern];
        if fires(t, n, at.last()) && !met(init, t.rule_id, t.term) {
            init.push(keyword_match(t, n, raw, at.last()))
        } else {
            init
        }
    }
}

/// Matches with those of regular expressions added. `found` holds what each
/// expression found.
pub open spec fn with_found(
    ms: Seq<MatchView>,
    regexes: Seq<RegexRuleView>,
    found: Seq<Option<Seq<char>>>,
) -> Seq<MatchView>
    decreases regexes.len(),
{
    if regexes.len() == 0 {
        ms
    } else {
        let init = with_found(ms, regexes.drop_last(), found);
        let r = regexes.last();
        match found[regexes.len() - 1] {
            Some(m) => if met(init, r.id, r.id) {
                init
            } else {
                init.push(
                    MatchView {
                        axis: r.axis,
                        rule_id: r.id,
                        term: r.id,
                        weight: r.weight,
                        layer: Layer::Regex,
                        surface: Some(clipped(m)),
                    },
                )
            },
            None => init,
        }
    }
}

/// What each expression finds in a message.
pub open spec fn found_in(regexes: Seq<RegexRuleView>, raw: Seq<char>) -> Seq<
    Option<Seq<char>>,
> {
    Seq::new(regexes.len(), |i: int| regex_match(regexes[i].pattern, raw))
}

/// Everything a dictionary finds in a message.
pub open spec fn matches_in(d: DictionaryView, raw: Seq<char>, n: NormalizedView) -> Seq<MatchView> {
    with_found(
        keyword_matches(d.terms, n, raw, spots(forms(d.terms), n.text)),
        d.regexes,
        found_in(d.regexes, raw),
    )
}

fn is_met(ms: &Vec<Match>, rule_id: &str, term: &str) -> (r: bool)
    ensures
        r == met(match_views(ms@), rule_id@, term@),
{
    let ghost all = match_views(ms@);
    let mut i: usize = 0;
    while i < ms.len()
        invariant
            i <= ms@.len(),
            all == match_views(ms@),
            forall|k: int|
                0 <= k < i ==> !((#[trigger] all[k]).rule_id == rule_id@ && all[k].term == term@),
        decreases ms@.len() - i,
    {
        assert(all[i as int] == ms@[i as int]@);
        if same(ms[i].rule_id.as_str(), rule_id) && same(ms[i].term.as_str(), term) {
            return true;
        }
        i += 1;
    }
    false
}

/// Protected: a whitelisted term is present and nothing overrides it.
pub open spec fn protects(d: DictionaryView, text: Seq<char>) -> bool {
    any_occurs(d.protect, text) && !any_occurs(d.unprotect, text)
}

/// What comes of building a dictionary from tables, where the expressions
/// compile up to the one at fault, if there is one. Terms that are too short
/// come first, then that expression, then what keeps an automaton from being
/// built. With none of these there is a dictionary.
pub open spec fn assembled(
    rules: Seq<RuleView>,
    exprs: Seq<RegexRuleView>,
    sound: int,
    fault: Option<RegexFault>,
    whitelist: Seq<Seq<char>>,
    overrides: Seq<Seq<char>>,
    r: Result<Dictionary, DictError>,
) -> bool {
    let short = short_lines(all_terms(rules));
    let goal = dictionary_of(rules, exprs, whitelist, overrides);
    if short.len() > 0 {
        r matches Err(DictError::Short(lines)) && views(lines@) == short
    } else if fault is Some {
        r matches Err(DictError::Regex { id, fault: why }) && id@ == exprs[sound].id && why
            == fault->0
    } else if first_fault(goal) is Some {
        r matches Err(DictError::Automaton(why)) && Some(why@) == first_fault(goal)
    } else {
        r matches Ok(d) && d@ == goal
    }
}

/// What comes of compiling expressions one after another up to the first that
/// does not: those before it have sound syntax, and its own is at fault unless
/// it is too big once compiled.
pub open spec fn compiles_to(
    exprs: Seq<RegexRuleView>,
    sound: int,
    fault: Option<RegexFault>,
) -> bool {
    &&& 0 <= sound <= exprs.len()
    &&& sound_before(exprs, sound)
    &&& match fault {
        None => sound == exprs.len(),
        Some(RegexFault::Syntax(why)) => sound < exprs.len() && regex_fault(exprs[sound].pattern)
            == Some(why@),
        Some(RegexFault::TooBig(_)) => sound < exprs.len() && regex_fault(exprs[sound].pattern)
            is None,
    }
}

/// What comes of building a dictionary from tables. Whether an expression is
/// too big once compiled is not for the tables to say.
pub open spec fn built(
    rules: Seq<RuleView>,
    exprs: Seq<RegexRuleView>,
    whitelist: Seq<Seq<char>>,
    overrides: Seq<Seq<char>>,
    r: Result<Dictionary, DictError>,
) -> bool {
    exists|sound: int, fault: Option<RegexFault>|
        #[trigger] compiles_to(exprs, sound, fault) && assembled(
            rules,
            exprs,
            sound,
            fault,
            whitelist,
            overrides,
            r,
        )
}

/// The expressions compiled, up to the first that does not compile, and why it
/// does not.
fn compile_all(regexes: &Vec<RegexRule>) -> (r: (Vec<Regex>, Option<RegexFault>))
    ensures
        compiles_to(regex_rule_views(regexes@), r.0@.len() as int, r.1),
        forall|i: int|
            0 <= i < r.0@.len() ==> regex_source(#[trigger] r.0@[i]) == regexes@[i].pattern@,
{
    let ghost exprs = regex_rule_views(regexes@);
    let mut out: Vec<Regex> = Vec::new();
    let mut i: usize = 0;
    while i < regexes.len()
        invariant
            i <= regexes@.len(),
            exprs == regex_rule_views(regexes@),
            sound_before(exprs, i as int),
            out@.len() == i,
            forall|k: int|
                0 <= k < i ==> regex_source(#[trigger] out@[k]) == regexes@[k].pattern@,
        decreases regexes@.len() - i,
    {
        assert(exprs[i as int] == regexes@[i as int]@);
        match compile(regexes[i].pattern) {
            Ok(re) => {
                out.push(re);
            },
            Err(fault) => {
                return (out, Some(fault));
            },
        }
        i += 1;
    }
    (out, None)
}

/// A place as a spot.
pub open spec fn spot_of(p: Place) -> Spot {
    Spot { pattern: p.pattern as int, start: p.start as int, end: p.end as int }
}

pub open spec fn spots_of(v: Seq<Place>) -> Seq<Spot> {
    Seq::new(v.len(), |i: int| spot_of(v[i]))
}

/// Add what the regular expressions found, in the order of their rules.
pub fn add_found(ms: &mut Vec<Match>, rules: &Vec<RegexRule>, found: &Vec<Option<String>>)
    requires
        found@.len() == rules@.len(),
    ensures
        match_views(final(ms)@) == with_found(
            match_views(old(ms)@),
            regex_rule_views(rules@),
            opt_views(found@),
        ),
{
    let ghost words = match_views(ms@);
    let ghost exprs = regex_rule_views(rules@);
    let ghost texts = opt_views(found@);
    let mut j: usize = 0;
    assert(exprs.take(0) =~= Seq::<RegexRuleView>::empty());
    while j < rules.len()
        invariant
            j <= rules@.len(),
            found@.len() == rules@.len(),
            exprs == regex_rule_views(rules@),
            texts == opt_views(found@),
            match_views(ms@) == with_found(words, exprs.take(j as int), texts),
        decreases rules@.len() - j,
    {
        let rule: RegexRule = rules[j];
        assert(exprs.take(j + 1).drop_last() =~= exprs.take(j as int));
        assert(exprs.take(j + 1).last() == rule@);
        assert(texts[j as int] == opt_view(found@[j as int]));
        match &found[j] {
            Some(text) => {
                if !is_met(ms, rule.id, rule.id) {
                    let ghost was = match_views(ms@);
                    let m: Match = Match {
                        axis: rule.axis,
                        rule_id: rule.id.to_owned(),
                        term: rule.id.to_owned(),
                        weight: rule.weight,
                        layer: Layer::Regex,
                        surface: Some(clip(text.as_str())),
                    };
                    ms.push(m);
                    assert(match_views(ms@) =~= was.push(m@));
                }
            },
            None => {},
        }
        j += 1;
    }
    assert(exprs.take(j as int) =~= exprs);
}

impl Dictionary {
    #[verifier::type_invariant]
    spec fn wf(self) -> bool {
        &&& automaton_patterns(self.ac) == forms(term_views(self.terms@))
        &&& forall|i: int|
            0 <= i < self.terms@.len() ==> (#[trigger] self.terms@[i]).multiword == (word_count(
                self.terms@[i].term@,
            ) > 1)
        &&& forall|i: int|
            0 <= i < self.terms@.len() ==> !too_short((#[trigger] self.terms@[i]).model())
        &&& self.compiled@.len() == self.regexes@.len()
        &&& forall|i: int|
            0 <= i < self.compiled@.len() ==> regex_source(#[trigger] self.compiled@[i])
                == self.regexes@[i].pattern@
    }

    /// The dictionary of the given tables, their expressions compiled up to the
    /// first that does not compile, if there is one.
    pub fn assemble(
        rules: &Vec<Rule>,
        regexes: &Vec<RegexRule>,
        compiled: Vec<Regex>,
        fault: Option<RegexFault>,
        whitelist: &[&'static str],
        overrides: &[&'static str],
    ) -> (r: Result<Self, DictError>)
        requires
            fault is Some ==> compiled@.len() < regexes@.len(),
            fault is None ==> compiled@.len() == regexes@.len(),
            forall|i: int|
                0 <= i < compiled@.len() ==> regex_source(#[trigger] compiled@[i])
                    == regexes@[i].pattern@,
        ensures
            assembled(
                rule_views(rules@),
                regex_rule_views(regexes@),
                compiled@.len() as int,
                fault,
                str_views(whitelist@),
                str_views(overrides@),
                r,
            ),
    {
        let all: Vec<Term> = flatten(rules);
        let (terms, pats, short): (Vec<Term>, Vec<String>, Vec<String>) = sort_out(&all);
        assert(views(short@).len() == short@.len());
        if short.len() > 0 {
            return Err(DictError::Short(short));
        }
        if let Some(why) = fault {
            let rule: RegexRule = regexes[compiled.len()];
            return Err(DictError::Regex { id: rule.id.to_owned(), fault: why });
        }
        let safe: Vec<String> = normal_forms(whitelist);
        let unsafe_words: Vec<String> = normal_forms(overrides);
        let ac: AhoCorasick = match automaton(&pats) {
            Ok(ac) => ac,
            Err(why) => {
                return Err(DictError::Automaton(why));
            },
        };
        let protect: AhoCorasick = match automaton(&safe) {
            Ok(ac) => ac,
            Err(why) => {
                return Err(DictError::Automaton(why));
            },
        };
        let unprotect: AhoCorasick = match automaton(&unsafe_words) {
            Ok(ac) => ac,
            Err(why) => {
                return Err(DictError::Automaton(why));
            },
        };
        proof {
            lemma_distinct_long(all_terms(rule_views(rules@)));
            assert forall|i: int| 0 <= i < terms@.len() implies !too_short(
                (#[trigger] terms@[i]).model(),
            ) by {
                assert(term_views(terms@)[i] == terms@[i].model());
            }
        }
        let kept: Vec<RegexRule> = copy_rules(regexes);
        Ok(Dictionary { ac, terms, regexes: kept, compiled, protect, unprotect })
    }

    /// The dictionary of the given tables.
    pub fn with(
        rules: &Vec<Rule>,
        regexes: &Vec<RegexRule>,
        whitelist: &[&'static str],
        overrides: &[&'static str],
    ) -> (r: Result<Self, DictError>)
        ensures
            built(
                rule_views(rules@),
                regex_rule_views(regexes@),
                str_views(whitelist@),
                str_views(overrides@),
                r,
            ),
    {
        let (compiled, fault): (Vec<Regex>, Option<RegexFault>) = compile_all(regexes);
        Dictionary::assemble(rules, regexes, compiled, fault, whitelist, overrides)
    }

    /// The shipped dictionary.
    pub fn new() -> (r: Result<Self, DictError>)
        ensures
            built(
                shipped_rules(),
                shipped_regexes(),
                str_views(WHITELIST@),
                str_views(WHITELIST_OVERRIDE@),
                r,
            ),
    {
        Dictionary::with(&rules(), &regexes(), &WHITELIST, &WHITELIST_OVERRIDE)
    }

    /// How many terms the dictionary looks for.
    pub fn term_count(&self) -> (r: usize)
        ensures
            r == self@.terms.len(),
    {
        self.terms.len()
    }

    /// How many regular expressions the dictionary holds.
    pub fn regex_count(&self) -> (r: usize)
        ensures
            r == self@.regexes.len(),
    {
        self.regexes.len()
    }

    /// The matches of terms at the places they were found at, deduplicated by
    /// (rule_id, term): a repeated term must not multiply the weight.
    pub fn match_terms(&self, raw: &str, n: &Normalized, found: &Vec<Place>) -> (r: Vec<Match>)
        requires
            n@.wf(),
            forall|i: int|
                0 <= i < found@.len() ==> (#[trigger] found@[i]).pattern < self@.terms.len(),
        ensures
            match_views(r@) == keyword_matches(self@.terms, n@, raw@, spots_of(found@)),
    {
        proof {
            use_type_invariant(self);
        }
        let ghost terms = self@.terms;
        let ghost at = spots_of(found@);
        let mut out: Vec<Match> = Vec::new();
        let mut i: usize = 0;
        assert(at.take(0) =~= Seq::<Spot>::empty());
        assert(match_views(out@) =~= Seq::<MatchView>::empty());
        while i < found.len()
            invariant
                i <= found@.len(),
                n@.wf(),
                terms == term_views(self.terms@),
                forall|i: int|
                    0 <= i < found@.len() ==> (#[trigger] found@[i]).pattern < terms.len(),
                forall|k: int|
                    0 <= k < self.terms@.len() ==> (#[trigger] self.terms@[k]).multiword == (
                    word_count(self.terms@[k].term@) > 1),
                at == spots_of(found@),
                match_views(out@) == keyword_matches(terms, n@, raw@, at.take(i as int)),
            decreases found@.len() - i,
        {
            let f: Place = found[i];
            assert(f == found@[i as int]);
            let ghost s = at[i as int];
            assert(at.take(i + 1).drop_last() =~= at.take(i as int));
            assert(at.take(i + 1).last() == s);
            let t: &Term = &self.terms[f.pattern];
            assert(terms[s.pattern] == t.model());
            i += 1;
            if !n.at_word_start(f.start) {
                continue ;
            }
            // A four-letter stem matched across a space 264 times before this.
            if !t.multiword && !n.single_word_ok(f.start, f.end) {
                continue ;
            }
            if is_met(&out, t.rule_id, t.term) {
                continue ;
            }
            let surface: Option<String> = match n.surface(f.start, f.end) {
                Some((a, b)) => Some(cut(raw, a, b)),
                None => None,
            };
            let ghost was = match_views(out@);
            let m: Match = Match {
                axis: t.axis,
                rule_id: t.rule_id.to_owned(),
                term: t.term.to_owned(),
                weight: t.weight,
                layer: Layer::Keyword,
                surface,
            };
            out.push(m);
            assert(match_views(out@) =~= was.push(m@));
            assert(m@ == keyword_match(terms[s.pattern], n@, raw@, s));
        }
        assert(at.take(i as int) =~= at);
        out
    }

    /// What each expression finds in a message.
    fn search_all(&self, raw: &str) -> (r: Vec<Option<String>>)
        ensures
            opt_views(r@) == found_in(self@.regexes, raw@),
    {
        proof {
            use_type_invariant(self);
        }
        let ghost exprs = self@.regexes;
        let mut out: Vec<Option<String>> = Vec::new();
        let mut j: usize = 0;
        while j < self.compiled.len()
            invariant
                j <= self.compiled@.len(),
                self.compiled@.len() == self.regexes@.len(),
                exprs == regex_rule_views(self.regexes@),
                forall|k: int|
                    0 <= k < self.compiled@.len() ==> regex_source(#[trigger] self.compiled@[k])
                        == self.regexes@[k].pattern@,
                out@.len() == j,
                forall|k: int|
                    0 <= k < j ==> opt_view(#[trigger] out@[k]) == regex_match(
                        exprs[k].pattern,
                        raw@,
                    ),
            decreases self.compiled@.len() - j,
        {
            assert(exprs[j as int].pattern == self.regexes@[j as int].pattern@);
            out.push(first_match(&self.compiled[j], raw));
            j += 1;
        }
        assert(opt_views(out@) =~= found_in(exprs, raw@));
        out
    }

    /// Matches on one message, deduplicated by (rule_id, term): a repeated
    /// term must not multiply the weight.
    pub fn scan(&self, raw: &str, n: &Normalized) -> (r: Vec<Match>)
        requires
            n@.wf(),
        ensures
            match_views(r@) == matches_in(self@, raw@, n@),
    {
        proof {
            use_type_invariant(self);
            let ps = automaton_patterns(self.ac);
            assert forall|p: int| 0 <= p < ps.len() implies (#[trigger] ps[p]).len() > 0 by {
                assert(!too_short(self.terms@[p].model()));
            }
        }
        let found: Vec<Place> = find_all(&self.ac, n.letters());
        proof {
            let at = spots(forms(self@.terms), n@.text);
            lemma_spots(forms(self@.terms), n@.text);
            assert(spots_of(found@) =~= at);
            assert forall|i: int| 0 <= i < found@.len() implies (#[trigger] found@[i]).pattern
                < self@.terms.len() by {
                assert(at[i].pattern < forms(self@.terms).len());
            }
        }
        let mut out: Vec<Match> = self.match_terms(raw, n, &found);
        let texts: Vec<Option<String>> = self.search_all(raw);
        assert(opt_views(texts@).len() == texts@.len());
        add_found(&mut out, &self.regexes, &texts);
        out
    }

    /// Protected: a whitelisted term is present and nothing overrides it.
    pub fn is_protected(&self, n: &Normalized) -> (r: bool)
        ensures
            r == protects(self@, n@.text),
    {
        finds_any(&self.protect, n.letters()) && !finds_any(&self.unprotect, n.letters())
    }
}

// --- what scanning promises ----------------------------------------------

/// No rule and term is matched twice.
pub open spec fn met_once(ms: Seq<MatchView>) -> bool {
    forall|i: int, j: int|
        0 <= i < j < ms.len() ==> (#[trigger] ms[i]).rule_id != (#[trigger] ms[j]).rule_id
            || ms[i].term != ms[j].term
}

proof fn lemma_keywords_once(terms: Seq<TermView>, n: NormalizedView, raw: Seq<char>, at: Seq<Spot>)
    ensures
        met_once(keyword_matches(terms, n, raw, at)),
    decreases at.len(),
{
    if at.len() > 0 {
        lemma_keywords_once(terms, n, raw, at.drop_last());
    }
}

/// A repeated term does not multiply the weight: a message never holds two
/// matches of one rule and term.
pub proof fn law_matches_are_distinct(d: DictionaryView, raw: Seq<char>, n: NormalizedView)
    ensures
        met_once(matches_in(d, raw, n)),
{
    let at = spots(forms(d.terms), n.text);
    lemma_keywords_once(d.terms, n, raw, at);
    lemma_regexes_once(
        keyword_matches(d.terms, n, raw, at),
        d.regexes,
        found_in(d.regexes, raw),
    );
}

proof fn lemma_regexes_once(
    ms: Seq<MatchView>,
    regexes: Seq<RegexRuleView>,
    found: Seq<Option<Seq<char>>>,
)
    requires
        met_once(ms),
    ensures
        met_once(with_found(ms, regexes, found)),
    decreases regexes.len(),
{
    if regexes.len() > 0 {
        lemma_regexes_once(ms, regexes.drop_last(), found);
    }
}

/// Every keyword match is a term of the dictionary that fires somewhere in the
/// message: at the start of a word, and inside one word unless the term is
/// made of several.
pub proof fn law_keyword_matches_fire(
    d: DictionaryView,
    raw: Seq<char>,
    n: NormalizedView,
    at: Seq<Spot>,
    i: int,
)
    requires
        at == spots(forms(d.terms), n.text),
        0 <= i < keyword_matches(d.terms, n, raw, at).len(),
    ensures
        exists|k: int|
            0 <= k < at.len() && fires(d.terms[(#[trigger] at[k]).pattern], n, at[k])
                && keyword_matches(d.terms, n, raw, at)[i] == keyword_match(
                d.terms[at[k].pattern],
                n,
                raw,
                at[k],
            ),
{
    lemma_keyword_fires(d.terms, n, raw, at, i);
}

pub proof fn lemma_keyword_fires(
    terms: Seq<TermView>,
    n: NormalizedView,
    raw: Seq<char>,
    at: Seq<Spot>,
    i: int,
)
    requires
        0 <= i < keyword_matches(terms, n, raw, at).len(),
    ensures
        exists|k: int|
            0 <= k < at.len() && fires(terms[(#[trigger] at[k]).pattern], n, at[k])
                && keyword_matches(terms, n, raw, at)[i] == keyword_match(
                terms[at[k].pattern],
                n,
                raw,
                at[k],
            ),
    decreases at.len(),
{
    let init = at.drop_last();
    let was = keyword_matches(terms, n, raw, init);
    if i < was.len() {
        lemma_keyword_fires(terms, n, raw, init, i);
        let k = choose|k: int|
            0 <= k < init.len() && fires(terms[(#[trigger] init[k]).pattern], n, init[k])
                && was[i] == keyword_match(terms[init[k].pattern], n, raw, init[k]);
        assert(at[k] == init[k]);
    } else {
        assert(at[at.len() - 1] == at.last());
    }
}

} // verus!
