//! What is refused, when, and in which words.

use crate::dict::{
    all_terms, assembled, built, compiles_to, dictionary_of, fault_text, short_lines, DictError,
    Dictionary, RegexRuleView, RuleView,
};
use crate::export::ExportError;
use crate::llm::{clipped, next_move, reading, Answer, MoveView, Reached};
use crate::norm::normal_text;
use crate::search::{regex_fault, RegexFault};
use crate::select::{is_cutoff, Cutoff, CutoffError};
use crate::text::{dec, dec_int, joined, pieces, views};
use crate::window::names_in;
use vstd::prelude::*;

verus! {

// --- the dictionary --------------------------------------------------------

proof fn lemma_some_short(terms: Seq<crate::dict::TermView>)
    ensures
        short_lines(terms).len() > 0 <==> exists|i: int|
            0 <= i < terms.len() && normal_text((#[trigger] terms[i]).term).len() < 4,
    decreases terms.len(),
{
    if terms.len() > 0 {
        let init = terms.drop_last();
        lemma_some_short(init);
        if exists|i: int|
            0 <= i < terms.len() && normal_text((#[trigger] terms[i]).term).len() < 4 {
            let i = choose|i: int|
                0 <= i < terms.len() && normal_text((#[trigger] terms[i]).term).len() < 4;
            if i < init.len() {
                assert(init[i] == terms[i]);
                assert(normal_text(init[i].term).len() < 4);
            }
        }
        if short_lines(init).len() > 0 {
            let i = choose|i: int|
                0 <= i < init.len() && normal_text((#[trigger] init[i]).term).len() < 4;
            assert(terms[i] == init[i]);
        }
        assert(terms[terms.len() - 1] == terms.last());
    }
}

/// The terms that are too short are listed in order, each by its axis, its
/// rule, itself and what is left of it.
pub proof fn law_short_terms_are_listed(
    terms: Seq<crate::dict::TermView>,
    t: crate::dict::TermView,
)
    ensures
        short_lines(seq![]).len() == 0,
        normal_text(t.term).len() < 4 ==> short_lines(terms.push(t)) == short_lines(terms).push(
            t.axis.name() + ":"@ + t.rule_id + " `"@ + t.term + "` → `"@ + normal_text(t.term)
                + "`"@,
        ),
        normal_text(t.term).len() >= 4 ==> short_lines(terms.push(t)) == short_lines(terms),
{
    assert(terms.push(t).drop_last() =~= terms);
    assert(Seq::<char>::empty() + t.axis.name() =~= t.axis.name());
}

/// No dictionary is built with a term that is too short or an expression whose
/// syntax is at fault. Short terms are told before anything else; an
/// expression is blamed only if all before it are sound.
pub proof fn law_dictionaries_are_sound(
    rules: Seq<RuleView>,
    exprs: Seq<RegexRuleView>,
    whitelist: Seq<Seq<char>>,
    overrides: Seq<Seq<char>>,
    r: Result<Dictionary, DictError>,
)
    requires
        built(rules, exprs, whitelist, overrides, r),
    ensures
        ({
            let terms = all_terms(rules);
            let short = exists|i: int|
                0 <= i < terms.len() && normal_text((#[trigger] terms[i]).term).len() < 4;
            &&& short <==> (r is Err && r->Err_0 is Short)
            &&& short ==> views((r->Err_0)->Short_0@) == short_lines(terms)
            &&& r is Ok ==> forall|i: int|
                0 <= i < exprs.len() ==> regex_fault((#[trigger] exprs[i]).pattern) is None
            &&& r is Ok ==> (r->Ok_0)@ == dictionary_of(rules, exprs, whitelist, overrides)
            &&& r matches Err(DictError::Regex { id, fault: RegexFault::Syntax(why) }) ==> exists|
                i: int,
            |
                0 <= i < exprs.len() && (#[trigger] exprs[i]).id == id@ && regex_fault(
                    exprs[i].pattern,
                ) == Some(why@) && forall|j: int|
                    0 <= j < i ==> regex_fault((#[trigger] exprs[j]).pattern) is None
            &&& r matches Err(DictError::Automaton(_)) ==> forall|i: int|
                0 <= i < exprs.len() ==> regex_fault((#[trigger] exprs[i]).pattern) is None
        }),
{
    lemma_some_short(all_terms(rules));
    let (sound, fault) = choose|sound: int, fault: Option<RegexFault>|
        #[trigger] compiles_to(exprs, sound, fault) && assembled(
            rules,
            exprs,
            sound,
            fault,
            whitelist,
            overrides,
            r,
        );
    if let Err(DictError::Regex { id, fault: RegexFault::Syntax(why) }) = r {
        assert(exprs[sound].id == id@);
    }
}

/// The words for what keeps a dictionary from being built.
pub proof fn law_dictionary_errors_in_words(
    lines: Vec<String>,
    id: String,
    fault: RegexFault,
    why: String,
    limit: usize,
)
    ensures
        crate::dict::error_text(DictError::Short(lines)) == "terms shorter than "@ + dec(4)
            + " chars once normalized — they match across word boundaries:\n  "@ + joined(
            views(lines@),
            "\n  "@,
        ),
        crate::dict::error_text((DictError::Regex { id, fault })) == "bad regex `"@ + id@ + "`: "@
            + fault_text(fault),
        crate::dict::error_text(DictError::Automaton(why)) == why@,
        fault_text(RegexFault::Syntax(why)) == why@,
        fault_text(RegexFault::TooBig(limit)) == "Compiled regex exceeds size limit of "@ + dec(
            limit as nat,
        ) + " bytes."@,
{
    assert(Seq::<char>::empty() + "terms shorter than "@ =~= "terms shorter than "@);
    assert(Seq::<char>::empty() + "bad regex `"@ =~= "bad regex `"@);
    assert(Seq::<char>::empty() + "Compiled regex exceeds size limit of "@
        =~= "Compiled regex exceeds size limit of "@);
    assert(Seq::<char>::empty() + why@ =~= why@);
}

// --- the export and the selection ------------------------------------------

/// The words for an export that cannot be read.
pub proof fn law_export_errors_in_words(id: i32)
    ensures
        crate::export::error_text(ExportError::NotAnExport)
            == "neither `chats.list` nor a single chat in the file — is it a Telegram export?"@,
        crate::export::error_text(ExportError::NoDate(id)) == "message "@ + dec_int(id as int)
            + " has no parsable date"@,
{
}

/// New rules need a date; without either nothing is cut off; a date that can
/// be read gives the cutoff with its rules, and one that cannot is told.
pub proof fn law_cutoffs_need_a_date(
    since: Option<Result<i64, Seq<char>>>,
    new_rules: Seq<Seq<char>>,
    r: Result<Option<Cutoff>, CutoffError>,
)
    requires
        is_cutoff(since, new_rules, r),
    ensures
        since is None && new_rules.len() == 0 <==> r matches Ok(None),
        since is None && new_rules.len() > 0 <==> r matches Err(CutoffError::RulesWithoutDate),
        since matches Some(Ok(at)) ==> (r matches Ok(Some(c)) && c@.since == at && c@.new_rules
            == new_rules),
        since matches Some(Err(why)) ==> (r matches Err(CutoffError::BadDate(text)) && text@
            == why),
{
}

/// The words for a cutoff that is refused.
pub proof fn law_cutoff_errors_in_words(why: String)
    ensures
        crate::select::error_text(CutoffError::RulesWithoutDate)
            == "--new-rule only works together with --since"@,
        crate::select::error_text(CutoffError::BadDate(why))
            == "--since expects a date like 2026-08-10: "@ + why@,
{
}

/// A list written with commas names what stands between them.
pub proof fn law_names_stand_between_commas(list: &str, name: Seq<char>)
    ensures
        names_in(Some(list)).contains(name) <==> pieces(list@, ',').contains(name),
        !names_in(None).contains(name),
{
}

// --- the model ---------------------------------------------------------------

/// A failed call is told by its status and the head of what came back; after
/// the fifth attempt the last failure is told, whatever it was.
pub proof fn law_failures_are_told(
    attempt: u32,
    status: u16,
    words: String,
    text: String,
    parsed: Result<Answer, String>,
    why: String,
)
    requires
        1 <= attempt <= 5,
    ensures
        ({
            let given_up = "the model stayed unreachable after 5 attempts: "@;
            let refused = "HTTP "@ + words@ + ": "@ + clipped(text@);
            let m = next_move(attempt, (Reached::Response { status, words, text, parsed }));
            &&& next_move(5, Reached::Nothing(why)) == MoveView::GiveUp(given_up + why@)
            &&& attempt < 5 ==> (next_move(attempt, Reached::Nothing(why)) matches MoveView::Wait {
                why: told,
                ..
            } && told == why@)
            &&& 400 <= status < 500 && status != 429 ==> m == MoveView::GiveUp(refused)
            &&& (status == 429 || status < 200 || 300 <= status < 400 || status >= 500) ==> {
                &&& attempt == 5 ==> m == MoveView::GiveUp(given_up + refused)
                &&& attempt < 5 ==> (m matches MoveView::Wait { why: told, .. } && told == refused)
            }
            &&& 200 <= status < 300 && reading(text@, parsed) is Err ==> {
                let broken = reading(text@, parsed)->Err_0;
                &&& attempt == 5 ==> m == MoveView::GiveUp(given_up + broken)
                &&& attempt < 5 ==> (m matches MoveView::Wait { why: told, .. } && told == broken)
            }
        }),
{
}

} // verus!
