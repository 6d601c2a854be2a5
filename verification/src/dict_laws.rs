//! What the dictionary finds and keeps, told from its tables and the texts.

use crate::dict::{
    all_terms, clipped, dictionary_of, distinct, fires, forms, found_in, keyword_match,
    keyword_matches, lemma_keyword_fires, matches_in, met, protects, short_lines, stretch,
    terms_of, too_short, whitelisted, with_found, word_count, DictionaryView, MatchView,
    RegexRuleView, RuleView, TermView,
};
use crate::dict_data::{shipped_regexes, shipped_rules};
use crate::model::{Axis, Layer};
use crate::norm::{lemma_normal_places, normal, normal_text, normalized, NormalizedView};
use crate::norm_words::{
    law_one_word_has_no_blank_inside, law_word_starts_follow_no_letter, stands_between_blanks,
};
use crate::search::{law_every_occurrence_is_found, lemma_spots, regex_match, spots, Spot};
use crate::text::{occurs, occurs_at};
use crate::unicode::{alphanumeric, whitespace};
use vstd::prelude::*;

verus! {

// --- matching ------------------------------------------------------------------

/// The match from place `start` to place `end` of the normal form begins at a
/// letter or digit that has neither before it.
pub open spec fn begins_a_word(raw: Seq<char>, start: int) -> bool {
    let p = normalized(raw).map[start] as int;
    alphanumeric(raw[p]) && (p == 0 || !alphanumeric(raw[p - 1]))
}

/// Between its first and its last letter there is no blank, or nothing but
/// single characters between blanks.
pub open spec fn crosses_no_blank(raw: Seq<char>, start: int, end: int) -> bool {
    let a = normalized(raw).map[start] as int;
    let b = normalized(raw).map[end - 1] as int;
    ||| forall|i: int| a <= i <= b ==> !whitespace(#[trigger] raw[i])
    ||| forall|i: int|
        a <= i <= b && !whitespace(#[trigger] raw[i]) ==> stands_between_blanks(raw, i)
}

proof fn lemma_fires(t: TermView, raw: Seq<char>, s: Spot)
    requires
        raw.len() <= usize::MAX,
        0 <= s.start < s.end <= normalized(raw).text.len(),
    ensures
        fires(t, normalized(raw), s) <==> begins_a_word(raw, s.start) && (word_count(t.term) > 1
            || crosses_no_blank(raw, s.start, s.end)),
{
    law_word_starts_follow_no_letter(raw, s.start);
    law_one_word_has_no_blank_inside(raw, s.start, s.end);
}

proof fn lemma_met_stays(ms: Seq<MatchView>, more: Seq<MatchView>, rule: Seq<char>, term: Seq<char>)
    requires
        met(ms, rule, term),
        ms.len() <= more.len(),
        forall|k: int| 0 <= k < ms.len() ==> #[trigger] more[k] == ms[k],
    ensures
        met(more, rule, term),
{
    let k = choose|k: int|
        0 <= k < ms.len() && (#[trigger] ms[k]).rule_id == rule && ms[k].term == term;
    assert(more[k] == ms[k]);
}

proof fn lemma_keyword_met(
    terms: Seq<TermView>,
    n: NormalizedView,
    raw: Seq<char>,
    at: Seq<Spot>,
    k: int,
)
    requires
        0 <= k < at.len(),
        fires(terms[at[k].pattern], n, at[k]),
    ensures
        met(
            keyword_matches(terms, n, raw, at),
            terms[at[k].pattern].rule_id,
            terms[at[k].pattern].term,
        ),
    decreases at.len(),
{
    let init = at.drop_last();
    let was = keyword_matches(terms, n, raw, init);
    let now = keyword_matches(terms, n, raw, at);
    let t = terms[at[k].pattern];
    if k < init.len() {
        assert(init[k] == at[k]);
        lemma_keyword_met(terms, n, raw, init, k);
        lemma_met_stays(was, now, t.rule_id, t.term);
    } else if !met(was, t.rule_id, t.term) {
        assert(now[now.len() - 1].rule_id == t.rule_id);
    }
}

proof fn lemma_found_keeps(
    ms: Seq<MatchView>,
    regexes: Seq<RegexRuleView>,
    found: Seq<Option<Seq<char>>>,
)
    ensures
        ms.len() <= with_found(ms, regexes, found).len(),
        forall|k: int| 0 <= k < ms.len() ==> #[trigger] with_found(ms, regexes, found)[k] == ms[k],
    decreases regexes.len(),
{
    if regexes.len() > 0 {
        lemma_found_keeps(ms, regexes.drop_last(), found);
        let init = with_found(ms, regexes.drop_last(), found);
        assert forall|k: int| 0 <= k < ms.len() implies #[trigger] with_found(
            ms,
            regexes,
            found,
        )[k] == ms[k] by {
            assert(init[k] == ms[k]);
        }
    }
}

/// No term is overlooked: wherever its normal form stands in that of a message
/// at the start of a word, without crossing a blank unless it is of several
/// words, the message holds a match of its rule and term.
pub proof fn law_terms_are_found(d: DictionaryView, raw: Seq<char>, p: int, start: int)
    requires
        raw.len() <= usize::MAX,
        0 <= p < d.terms.len(),
        normal_text(d.terms[p].term).len() > 0,
        0 <= start,
        occurs_at(normal_text(raw), normal_text(d.terms[p].term), start),
        begins_a_word(raw, start),
        word_count(d.terms[p].term) > 1 || crosses_no_blank(
            raw,
            start,
            start + normal_text(d.terms[p].term).len(),
        ),
    ensures
        met(matches_in(d, raw, normalized(raw)), d.terms[p].rule_id, d.terms[p].term),
{
    let n = normalized(raw);
    let pats = forms(d.terms);
    assert(pats[p] == normal_text(d.terms[p].term));
    law_every_occurrence_is_found(pats, n.text, p, start);
    let at = spots(pats, n.text);
    let s = Spot { pattern: p, start, end: start + pats[p].len() };
    let k = choose|k: int| 0 <= k < at.len() && at[k] == s;
    lemma_fires(d.terms[p], raw, s);
    lemma_keyword_met(d.terms, n, raw, at, k);
    let words = keyword_matches(d.terms, n, raw, at);
    lemma_found_keeps(words, d.regexes, found_in(d.regexes, raw));
    lemma_met_stays(words, matches_in(d, raw, n), d.terms[p].rule_id, d.terms[p].term);
}

/// The match is that of a term that stands in the message, and shows the
/// stretch of the message it stands at.
pub open spec fn is_word_match(
    m: MatchView,
    d: DictionaryView,
    raw: Seq<char>,
    p: int,
    start: int,
) -> bool {
    let end = start + normal_text(d.terms[p].term).len();
    &&& 0 <= p < d.terms.len()
    &&& 0 <= start < end <= normal_text(raw).len()
    &&& occurs_at(normal_text(raw), normal_text(d.terms[p].term), start)
    &&& begins_a_word(raw, start)
    &&& word_count(d.terms[p].term) > 1 || crosses_no_blank(raw, start, end)
    &&& m.axis == d.terms[p].axis
    &&& m.rule_id == d.terms[p].rule_id
    &&& m.term == d.terms[p].term
    &&& m.weight == d.terms[p].weight
    &&& m.layer == Layer::Keyword
    &&& m.surface == Some(
        clipped(
            raw.subrange(
                normalized(raw).map[start] as int,
                normalized(raw).map[end - 1] as int + 1,
            ),
        ),
    )
}

/// The match is that of an expression, under the name of its rule, and shows
/// what the expression found.
pub open spec fn is_regex_match(m: MatchView, d: DictionaryView, raw: Seq<char>, i: int) -> bool {
    &&& 0 <= i < d.regexes.len()
    &&& regex_match(d.regexes[i].pattern, raw) is Some
    &&& m.axis == d.regexes[i].axis
    &&& m.rule_id == d.regexes[i].id
    &&& m.term == d.regexes[i].id
    &&& m.weight == d.regexes[i].weight
    &&& m.layer == Layer::Regex
    &&& m.surface == Some(clipped(regex_match(d.regexes[i].pattern, raw)->0))
}

proof fn lemma_from_words_or_regexes(
    d: DictionaryView,
    raw: Seq<char>,
    ms: Seq<MatchView>,
    count: int,
    j: int,
)
    requires
        0 <= count <= d.regexes.len(),
        0 <= j < with_found(ms, d.regexes.take(count), found_in(d.regexes, raw)).len(),
    ensures
        j < ms.len() ==> with_found(ms, d.regexes.take(count), found_in(d.regexes, raw))[j]
            == ms[j],
        j >= ms.len() ==> exists|i: int|
            #[trigger] is_regex_match(
                with_found(ms, d.regexes.take(count), found_in(d.regexes, raw))[j],
                d,
                raw,
                i,
            ),
    decreases count,
{
    let found = found_in(d.regexes, raw);
    let rs = d.regexes.take(count);
    if count == 0 {
        assert(rs =~= Seq::<RegexRuleView>::empty());
    } else {
        assert(rs.drop_last() =~= d.regexes.take(count - 1));
        let init = with_found(ms, rs.drop_last(), found);
        let now = with_found(ms, rs, found);
        lemma_found_keeps(ms, rs.drop_last(), found);
        lemma_found_keeps(ms, rs, found);
        if j < init.len() {
            lemma_from_words_or_regexes(d, raw, ms, count - 1, j);
            assert(now[j] == init[j]);
        } else {
            assert(rs.last() == d.regexes[count - 1]);
            assert(is_regex_match(now[j], d, raw, count - 1));
        }
    }
}

/// No match without cause: each comes from a term that stands in the message
/// as it must, or from an expression that found something, and says what its
/// table says.
pub proof fn law_matches_have_a_cause(d: DictionaryView, raw: Seq<char>, j: int)
    requires
        raw.len() <= usize::MAX,
        forall|p: int|
            0 <= p < d.terms.len() ==> normal_text((#[trigger] d.terms[p]).term).len() > 0,
        0 <= j < matches_in(d, raw, normalized(raw)).len(),
    ensures
        (exists|p: int, start: int|
            #[trigger] is_word_match(matches_in(d, raw, normalized(raw))[j], d, raw, p, start)) || (
        exists|i: int|
            #[trigger] is_regex_match(matches_in(d, raw, normalized(raw))[j], d, raw, i)),
{
    let n = normalized(raw);
    let pats = forms(d.terms);
    let at = spots(pats, n.text);
    let words = keyword_matches(d.terms, n, raw, at);
    assert(d.regexes.take(d.regexes.len() as int) =~= d.regexes);
    lemma_from_words_or_regexes(d, raw, words, d.regexes.len() as int, j);
    if j < words.len() {
        lemma_keyword_fires(d.terms, n, raw, at, j);
        let k = choose|k: int|
            0 <= k < at.len() && fires(d.terms[(#[trigger] at[k]).pattern], n, at[k]) && words[j]
                == keyword_match(d.terms[at[k].pattern], n, raw, at[k]);
        lemma_spots(pats, n.text);
        let s = at[k];
        let t = d.terms[s.pattern];
        assert(pats[s.pattern] == normal_text(t.term));
        lemma_fires(t, raw, s);
        lemma_normal_places(raw);
        let run = normal(raw);
        assert(n.map[s.start] == run[s.start].1 && n.map[s.end - 1] == run[s.end - 1].1);
        assert(run[s.start].1 <= run[s.end - 1].1 < raw.len());
        let (a, b) = (n.map[s.start] as int, n.map[s.end - 1] as int + 1);
        assert(stretch(raw, a, b) =~= raw.subrange(a, b));
        assert(is_word_match(words[j], d, raw, s.pattern, s.start));
    }
}

/// No expression is overlooked.
pub proof fn law_expressions_are_found(d: DictionaryView, raw: Seq<char>, i: int)
    requires
        0 <= i < d.regexes.len(),
        regex_match(d.regexes[i].pattern, raw) is Some,
    ensures
        met(matches_in(d, raw, normalized(raw)), d.regexes[i].id, d.regexes[i].id),
{
    let n = normalized(raw);
    let words = keyword_matches(d.terms, n, raw, spots(forms(d.terms), n.text));
    lemma_expression_met(words, d.regexes, found_in(d.regexes, raw), i);
}

proof fn lemma_expression_met(
    ms: Seq<MatchView>,
    regexes: Seq<RegexRuleView>,
    found: Seq<Option<Seq<char>>>,
    i: int,
)
    requires
        0 <= i < regexes.len(),
        found[i] is Some,
    ensures
        met(with_found(ms, regexes, found), regexes[i].id, regexes[i].id),
    decreases regexes.len(),
{
    let rest = regexes.drop_last();
    let init = with_found(ms, rest, found);
    let now = with_found(ms, regexes, found);
    let id = regexes[i].id;
    if i < rest.len() {
        assert(rest[i] == regexes[i]);
        lemma_expression_met(ms, rest, found, i);
        lemma_met_stays(init, now, id, id);
    } else if !met(init, id, id) {
        assert(now[now.len() - 1].rule_id == id && now[now.len() - 1].term == id);
    }
}

/// What is shown of a match is its beginning, at most eighty characters, and a
/// mark where there was more.
pub proof fn law_long_surfaces_are_clipped(s: Seq<char>)
    ensures
        s.len() <= 80 ==> clipped(s) == s,
        s.len() > 80 ==> clipped(s).len() == 81 && clipped(s).last() == '…' && clipped(
            s,
        ).drop_last() == s.take(80),
{
    if s.len() > 80 {
        assert(clipped(s).drop_last() =~= s.take(80));
    }
}

/// A stretch of a text is what lies between two places, as far as the text
/// goes.
pub proof fn law_stretches_stay_inside(s: Seq<char>, a: int, b: int)
    requires
        0 <= a,
    ensures
        a <= b <= s.len() ==> stretch(s, a, b) == s.subrange(a, b),
        a <= s.len() < b ==> stretch(s, a, b) == s.subrange(a, s.len() as int),
        a >= s.len() || b <= a ==> stretch(s, a, b).len() == 0,
{
    if a <= b <= s.len() {
        assert(stretch(s, a, b) =~= s.subrange(a, b));
    }
    if a <= s.len() < b {
        assert(stretch(s, a, b) =~= s.subrange(a, s.len() as int));
    }
}

/// A term is of several words exactly where a blank lies between two
/// characters that are none.
pub proof fn law_several_words_have_a_blank_between(s: Seq<char>)
    ensures
        word_count(s) > 1 <==> exists|i: int, j: int, k: int|
            0 <= i < j < k < s.len() && !whitespace(#[trigger] s[i]) && whitespace(#[trigger] s[j])
                && !whitespace(#[trigger] s[k]),
        word_count(s) == 0 <==> forall|i: int| 0 <= i < s.len() ==> whitespace(#[trigger] s[i]),
    decreases s.len(),
{
    if s.len() > 0 {
        let init = s.drop_last();
        law_several_words_have_a_blank_between(init);
        let top = s.len() - 1;
        assert(s.last() == s[top]);
        assert(forall|i: int| 0 <= i < init.len() ==> #[trigger] init[i] == s[i]);
        if word_count(init) > 1 {
            let (i, j, k) = choose|i: int, j: int, k: int|
                0 <= i < j < k < init.len() && !whitespace(#[trigger] init[i]) && whitespace(
                    #[trigger] init[j],
                ) && !whitespace(#[trigger] init[k]);
            assert(s[i] == init[i] && s[j] == init[j] && s[k] == init[k]);
        } else if word_count(s) > 1 {
            // The last character begins a further word.
            let i = choose|i: int| 0 <= i < init.len() && !whitespace(#[trigger] init[i]);
            assert(init.last() == s[top - 1]);
            assert(!whitespace(s[i]) && whitespace(s[top - 1]) && !whitespace(s[top]));
        }
        if exists|i: int, j: int, k: int|
            0 <= i < j < k < s.len() && !whitespace(#[trigger] s[i]) && whitespace(#[trigger] s[j])
                && !whitespace(#[trigger] s[k]) {
            let (i, j, k) = choose|i: int, j: int, k: int|
                0 <= i < j < k < s.len() && !whitespace(#[trigger] s[i]) && whitespace(
                    #[trigger] s[j],
                ) && !whitespace(#[trigger] s[k]);
            assert(init[i] == s[i] && init[j] == s[j]);
            if k < top {
                assert(init[k] == s[k]);
            } else if !whitespace(s[top - 1]) {
                assert(init[top - 1] == s[top - 1]);
                assert(j < top - 1);
            } else {
                assert(init.last() == s[top - 1]);
                assert(word_count(init) > 0);
            }
        }
        if word_count(s) == 0 {
            if !whitespace(s[top]) {
                assert(init.len() > 0);
                assert(init[top - 1] == init.last());
                assert(whitespace(init[top - 1]));
            }
            assert forall|i: int| 0 <= i < s.len() implies whitespace(#[trigger] s[i]) by {
                if i < top {
                    assert(init[i] == s[i]);
                }
            }
        }
        if forall|i: int| 0 <= i < s.len() ==> whitespace(#[trigger] s[i]) {
            assert forall|i: int| 0 <= i < init.len() implies whitespace(#[trigger] init[i]) by {
                assert(init[i] == s[i]);
            }
            assert(whitespace(s[top]));
        }
    }
}

// --- the whitelist -----------------------------------------------------------------

/// A message is protected exactly where a whitelisted word stands in it and no
/// word that overrides it does.
pub proof fn law_overrides_beat_the_whitelist(d: DictionaryView, text: Seq<char>)
    ensures
        protects(d, text) <==> (exists|p: int|
            0 <= p < d.protect.len() && occurs(text, #[trigger] d.protect[p])) && (forall|p: int|
            0 <= p < d.unprotect.len() ==> !occurs(text, #[trigger] d.unprotect[p])),
{
}

/// Every word of a whitelist is there by its normal form, unless it has none,
/// and nothing else is.
pub proof fn law_whitelists_hold_their_words(words: Seq<Seq<char>>)
    ensures
        forall|i: int|
            0 <= i < words.len() && normal_text(#[trigger] words[i]).len() > 0 ==> whitelisted(
                words,
            ).contains(normal_text(words[i])),
        forall|k: int|
            0 <= k < whitelisted(words).len() ==> (#[trigger] whitelisted(words)[k]).len() > 0
                && exists|i: int|
                0 <= i < words.len() && normal_text(#[trigger] words[i]) == whitelisted(words)[k],
    decreases words.len(),
{
    if words.len() > 0 {
        let init = words.drop_last();
        let was = whitelisted(init);
        let now = whitelisted(words);
        law_whitelists_hold_their_words(init);
        assert forall|i: int|
            0 <= i < words.len() && normal_text(#[trigger] words[i]).len()
                > 0 implies now.contains(normal_text(words[i])) by {
            if i < init.len() {
                assert(init[i] == words[i]);
                let k = choose|k: int| 0 <= k < was.len() && was[k] == normal_text(init[i]);
                assert(now[k] == was[k]);
            } else {
                assert(now[now.len() - 1] == normal_text(words[i]));
            }
        }
        assert forall|k: int| 0 <= k < now.len() implies (#[trigger] now[k]).len() > 0 && exists|
            i: int,
        |
            0 <= i < words.len() && normal_text(#[trigger] words[i]) == now[k] by {
            if k < was.len() {
                assert(now[k] == was[k]);
                let i = choose|i: int|
                    0 <= i < init.len() && normal_text(#[trigger] init[i]) == was[k];
                assert(words[i] == init[i]);
            } else {
                assert(normal_text(words[words.len() - 1]) == now[k]);
            }
        }
    }
}

// --- the tables ----------------------------------------------------------------------

/// Every term of every rule is there, with the axis, the name and the weight
/// of its rule, rule after rule and term after term.
pub proof fn law_rules_give_their_terms(rules: Seq<RuleView>, rule: RuleView, i: int)
    ensures
        all_terms(rules.push(rule)) == all_terms(rules) + terms_of(rule),
        all_terms(Seq::<RuleView>::empty()).len() == 0,
        terms_of(rule).len() == rule.terms.len(),
        0 <= i < rule.terms.len() ==> {
            let t = terms_of(rule)[i];
            &&& t.term == rule.terms[i]
            &&& t.axis == rule.axis
            &&& t.rule_id == rule.id
            &&& t.weight == rule.weight
        },
{
    assert(rules.push(rule).drop_last() =~= rules);
}

/// A term is too short where fewer than four letters are left of it; the list
/// of such terms is empty exactly where there are none, and then none is lost:
/// the normal form of every term is looked for, once, under the first term
/// that has it.
pub proof fn law_terms_are_kept_once(terms: Seq<TermView>, i: int)
    requires
        0 <= i < terms.len(),
    ensures
        too_short(terms[i]) <==> normal_text(terms[i].term).len() < 4,
        too_short(terms[i]) ==> short_lines(terms).len() > 0,
        !too_short(terms[i]) ==> forms(distinct(terms)).contains(normal_text(terms[i].term)),
        !too_short(terms[i]) && (forall|j: int|
            0 <= j < i ==> normal_text((#[trigger] terms[j]).term) != normal_text(terms[i].term))
            ==> distinct(terms).contains(terms[i]),
    decreases terms.len(),
{
    let init = terms.drop_last();
    let was = distinct(init);
    let now = distinct(terms);
    if i < init.len() {
        assert(init[i] == terms[i]);
        law_terms_are_kept_once(init, i);
        if !too_short(terms[i]) {
            let k = choose|k: int|
                0 <= k < forms(was).len() && forms(was)[k] == normal_text(terms[i].term);
            assert(forms(now)[k] == forms(was)[k]);
            if forall|j: int|
                0 <= j < i ==> normal_text((#[trigger] terms[j]).term) != normal_text(
                    terms[i].term,
                ) {
                assert forall|j: int| 0 <= j < i implies normal_text((#[trigger] init[j]).term)
                    != normal_text(init[i].term) by {
                    assert(init[j] == terms[j]);
                }
                let m = choose|m: int| 0 <= m < was.len() && was[m] == terms[i];
                assert(now[m] == terms[i]);
            }
        }
    } else if !too_short(terms[i]) {
        let f = normal_text(terms[i].term);
        if forms(was).contains(f) {
            let k = choose|k: int| 0 <= k < forms(was).len() && forms(was)[k] == f;
            assert(forms(now)[k] == f);
            let j = lemma_kept_from(init, k);
            assert(init[j] == terms[j]);
        } else {
            assert(now[now.len() - 1] == terms[i]);
            assert(forms(now)[now.len() - 1] == f);
        }
    }
}

proof fn lemma_kept_from(terms: Seq<TermView>, k: int) -> (j: int)
    requires
        0 <= k < distinct(terms).len(),
    ensures
        0 <= j < terms.len(),
        terms[j] == distinct(terms)[k],
    decreases terms.len(),
{
    let init = terms.drop_last();
    if k < distinct(init).len() {
        assert(distinct(terms)[k] == distinct(init)[k]);
        let j = lemma_kept_from(init, k);
        assert(init[j] == terms[j]);
        j
    } else {
        terms.len() - 1
    }
}

/// What is looked for comes from the tables, and where no term is too short
/// none is complained of.
pub proof fn law_nothing_is_looked_for_unasked(terms: Seq<TermView>, k: int)
    ensures
        0 <= k < distinct(terms).len() ==> terms.contains(distinct(terms)[k]),
        (forall|i: int|
            0 <= i < terms.len() ==> normal_text((#[trigger] terms[i]).term).len() >= 4)
            ==> short_lines(terms).len() == 0,
    decreases terms.len(),
{
    if 0 <= k < distinct(terms).len() {
        let j = lemma_kept_from(terms, k);
        assert(terms[j] == distinct(terms)[k]);
    }
    if terms.len() > 0 && (forall|i: int|
        0 <= i < terms.len() ==> normal_text((#[trigger] terms[i]).term).len() >= 4) {
        let init = terms.drop_last();
        assert forall|i: int| 0 <= i < init.len() implies normal_text(
            (#[trigger] init[i]).term,
        ).len() >= 4 by {
            assert(init[i] == terms[i]);
        }
        law_nothing_is_looked_for_unasked(init, -1);
        assert(normal_text(terms[terms.len() - 1].term).len() >= 4);
    }
}

/// A dictionary holds what its tables hold.
pub proof fn law_dictionaries_hold_their_tables(
    rules: Seq<RuleView>,
    regexes: Seq<RegexRuleView>,
    whitelist: Seq<Seq<char>>,
    overrides: Seq<Seq<char>>,
)
    ensures
        dictionary_of(rules, regexes, whitelist, overrides).terms == distinct(all_terms(rules)),
        dictionary_of(rules, regexes, whitelist, overrides).regexes == regexes,
        dictionary_of(rules, regexes, whitelist, overrides).protect == whitelisted(whitelist),
        dictionary_of(rules, regexes, whitelist, overrides).unprotect == whitelisted(overrides),
{
}

// --- the shipped tables ----------------------------------------------------

/// The rules of the shipped dictionary stand under their axes, and the
/// heaviest of each speak for themselves even in an old message.
pub proof fn law_shipped_rules_weigh()
    ensures
        shipped_rules().len() == 19,
        forall|i: int| 0 <= i <= 2 ==> (#[trigger] shipped_rules()[i]).axis == Axis::Crypto,
        forall|i: int| 3 <= i <= 6 ==> (#[trigger] shipped_rules()[i]).axis == Axis::Emigration,
        forall|i: int|
            7 <= i <= 11 ==> (#[trigger] shipped_rules()[i]).axis == Axis::ForeignFinance,
        shipped_rules()[12].axis == Axis::ForeignMedia,
        shipped_rules()[13].axis == Axis::Lgbt,
        forall|i: int| 14 <= i <= 18 ==> (#[trigger] shipped_rules()[i]).axis == Axis::Politics,
        forall|i: int|
            0 <= i < 19 ==> (#[trigger] shipped_rules()[i]).weight == (if i == 0 || i == 1 || i == 10 || i == 16 || i == 17 {
                2500u32
            } else if i == 2 || i == 3 || i == 7 || i == 9 || i == 12 || i == 14 || i == 15 {
                2000
            } else {
                1500
            }),
{
}

/// The expressions of the shipped dictionary stand under their axes. What a
/// machine wrote, an address, a seed phrase, a card or an account, weighs most.
pub proof fn law_shipped_expressions_weigh()
    ensures
        shipped_regexes().len() == 16,
        shipped_regexes()[0].axis == Axis::Crypto,
        forall|i: int| 1 <= i <= 6 ==> (#[trigger] shipped_regexes()[i]).axis == Axis::CryptoHard,
        shipped_regexes()[7].axis == Axis::Emigration,
        forall|i: int|
            8 <= i <= 11 ==> (#[trigger] shipped_regexes()[i]).axis == Axis::ForeignFinance,
        shipped_regexes()[12].axis == Axis::ForeignMedia,
        shipped_regexes()[13].axis == Axis::Lgbt,
        forall|i: int| 14 <= i <= 15 ==> (#[trigger] shipped_regexes()[i]).axis == Axis::Politics,
        forall|i: int|
            0 <= i < 16 ==> (#[trigger] shipped_regexes()[i]).weight == (if i == 1 || i == 2 || i == 3 || i == 4 || i == 6 || i == 8 || i == 10 {
                3000u32
            } else if i == 15 {
                2500
            } else if i == 0 || i == 5 || i == 7 || i == 9 || i == 11 || i == 14 {
                2000
            } else {
                1500
            }),
{
}

/// A single hit on a fresh message is enough for an anchor; on an old one only
/// the heaviest rules are.
pub proof fn law_one_fresh_hit_is_enough(i: int)
    ensures
        0 <= i < shipped_rules().len() ==> shipped_rules()[i].weight * 100 >= 100_000,
        0 <= i < shipped_regexes().len() ==> shipped_regexes()[i].weight * 100 >= 100_000,
        0 <= i < shipped_rules().len() ==> (shipped_rules()[i].weight * 45 >= 100_000
            <==> shipped_rules()[i].weight >= 2500),
        0 <= i < shipped_regexes().len() ==> (shipped_regexes()[i].weight * 45 >= 100_000
            <==> shipped_regexes()[i].weight >= 2500),
{
    law_shipped_rules_weigh();
    law_shipped_expressions_weigh();
}

} // verus!
