//! What the model is shown, what is made of its answers, and what it is told
//! to do.

use crate::clock::stamp_of;
use crate::llm::{blank, clipped, next_move, reading, wait_after, Answer, MoveView, Reached};
use crate::prompt::{
    en_words, policy_for, policy_id, profile_block, profile_lines, ru_words, with_line, words_of,
    Lang, Profile, TextView,
};
use crate::text::{dec_int, hex, joined, occurs_at, replaced};
use crate::text_laws::law_occurrences_are_replaced;
use crate::triage::{
    body_of, dates_of, line_text, lines_text, mark_of, next_step, rendered, step_counts, Heard,
    Line, Stats, StepView, Verdict,
};
use crate::window::{widened, Row, WindowView};
use vstd::prelude::*;

verus! {

// --- what the model is shown --------------------------------------------------------

proof fn lemma_breaks_replaced(s: Seq<char>, with: Seq<char>)
    requires
        !with.contains('\n'),
    ensures
        !replaced(s, seq!['\n'], with).contains('\n'),
        !s.contains('\n') ==> replaced(s, seq!['\n'], with) == s,
    decreases s.len(),
{
    let pat = seq!['\n'];
    if s.len() > 0 {
        let rest = s.drop_first();
        lemma_breaks_replaced(rest, with);
        assert(s.skip(1) =~= rest);
        let tail = replaced(rest, pat, with);
        if s[0] == '\n' {
            assert(s.contains(s[0]));
            assert(s.subrange(0, 1) =~= pat);
            assert(occurs_at(s, pat, 0));
            lemma_no_break(with, tail);
        } else {
            if occurs_at(s, pat, 0) {
                assert(s.subrange(0, 1)[0] == pat[0]);
            }
            assert(!seq![s[0]].contains('\n'));
            lemma_no_break(seq![s[0]], tail);
            if !s.contains('\n') {
                assert(!rest.contains('\n')) by {
                    if rest.contains('\n') {
                        let i = choose|i: int| 0 <= i < rest.len() && rest[i] == '\n';
                        assert(s[i + 1] == '\n');
                    }
                }
                assert(seq![s[0]] + rest =~= s);
            }
        }
    }
}

proof fn lemma_no_break(a: Seq<char>, b: Seq<char>)
    requires
        !a.contains('\n'),
        !b.contains('\n'),
    ensures
        !(a + b).contains('\n'),
{
    if (a + b).contains('\n') {
        let i = choose|i: int| 0 <= i < (a + b).len() && (a + b)[i] == '\n';
        if i < a.len() {
            assert(a[i] == '\n');
        } else {
            assert(b[i - a.len()] == '\n');
        }
    }
}

/// What a message says: its transcript where it has one, the kind of its media
/// where it has no text, and its text otherwise, on one line and unchanged but
/// for that.
pub proof fn law_messages_say_what_they_hold(l: Line, t: TextView)
    ensures
        l.transcript matches Some(x) ==> body_of(l, t) == seq!['['] + t.voice + seq![']', ' '] + x@,
        l.transcript is None && l.media_type is Some && l.text@.len() == 0 ==> body_of(l, t)
            == seq!['['] + (l.media_type->0)@ + seq![',', ' '] + t.no_text + seq![']'],
        l.transcript is None && (l.media_type is None || l.text@.len() > 0) ==> {
            &&& !body_of(l, t).contains('\n')
            &&& !l.text@.contains('\n') ==> body_of(l, t) == l.text@
            &&& body_of(l, t) == replaced(l.text@, seq!['\n'], seq![' ', '⏎', ' '])
        },
{
    reveal_strlit("[");
    reveal_strlit("] ");
    reveal_strlit(", ");
    reveal_strlit("]");
    reveal_strlit("\n");
    reveal_strlit(" ⏎ ");
    assert("["@ =~= seq!['[']);
    assert("] "@ =~= seq![']', ' ']);
    assert(", "@ =~= seq![',', ' ']);
    assert("]"@ =~= seq![']']);
    assert("\n"@ =~= seq!['\n']);
    assert(" ⏎ "@ =~= seq![' ', '⏎', ' ']);
    lemma_breaks_replaced(l.text@, seq![' ', '⏎', ' ']);
}

/// A line names its message by id, then its date and who wrote it; under it
/// stands that it is protected, or else what fired on it, or nothing.
pub proof fn law_lines_name_their_message(l: Line, date: Seq<char>, t: TextView)
    ensures
        line_text(l, date, t) == seq!['['] + dec_int(l.msg_id as int) + seq![']', ' '] + date
            + seq![' '] + (if l.outgoing {
            t.me
        } else {
            t.them
        }) + seq![':', ' '] + body_of(l, t) + seq!['\n'] + mark_of(l, t),
        l.protected ==> mark_of(l, t) == t.protected + seq!['\n'],
        !l.protected && l.marks is Some ==> mark_of(l, t) == t.fired + (l.marks->0)@ + seq!['\n'],
        !l.protected && l.marks is None ==> mark_of(l, t).len() == 0,
{
    reveal_strlit("[");
    reveal_strlit("] ");
    reveal_strlit(" ");
    reveal_strlit(": ");
    reveal_strlit("\n");
    assert("["@ =~= seq!['[']);
    assert("] "@ =~= seq![']', ' ']);
    assert(" "@ =~= seq![' ']);
    assert(": "@ =~= seq![':', ' ']);
    assert("\n"@ =~= seq!['\n']);
}

/// No message of a window is left out of what the model sees, and they come in
/// order.
pub proof fn law_every_message_is_shown(
    lines: Seq<Line>,
    dates: Seq<Seq<char>>,
    t: TextView,
    k: int,
)
    requires
        0 <= k < lines.len(),
        lines.len() <= dates.len(),
    ensures
        lines_text(lines, dates, t) == lines_text(lines.take(k), dates, t) + line_text(
            lines[k],
            dates[k],
            t,
        ) + lines_text(lines.skip(k + 1), dates.skip(k + 1), t),
        lines_text(Seq::<Line>::empty(), dates, t).len() == 0,
    decreases lines.len(),
{
    let init = lines.drop_last();
    let own = line_text(lines[k], dates[k], t);
    if k == lines.len() - 1 {
        assert(lines.take(k) =~= init);
        assert(lines.skip(k + 1) =~= Seq::<Line>::empty());
        assert(lines_text(lines, dates, t) =~= lines_text(init, dates, t) + own + Seq::<
            char,
        >::empty());
    } else {
        law_every_message_is_shown(init, dates, t, k);
        assert(init.take(k) =~= lines.take(k));
        assert(init[k] == lines[k]);
        let tail = lines.skip(k + 1);
        assert(tail.drop_last() =~= init.skip(k + 1));
        assert(tail.last() == lines.last());
        assert(dates.skip(k + 1)[tail.len() - 1] == dates[lines.len() - 1]);
        assert(lines_text(lines, dates, t) =~= lines_text(lines.take(k), dates, t) + own
            + lines_text(tail, dates.skip(k + 1), t));
    }
}

/// The window names its chat, its tier and its axes, then shows its messages,
/// then asks.
pub proof fn law_windows_are_labelled(
    t: TextView,
    title: Option<&str>,
    w: WindowView,
    lines: Seq<Line>,
    dates: Seq<Seq<char>>,
)
    ensures
        rendered(t, title, w, lines, dates) == t.chat + seq![':', ' '] + (match title {
            Some(s) => s@,
            None => t.untitled,
        }) + seq!['\n'] + t.tier + seq![':', ' '] + (match w.tier {
            crate::model::Tier::T0 => t.tiers[0],
            crate::model::Tier::T1 => t.tiers[1],
            crate::model::Tier::T2 => t.tiers[2],
        }) + seq!['\n'] + t.axes + seq![':', ' '] + joined(w.axes, seq![',', ' ']) + seq!['\n', '\n']
            + t.log + seq!['\n'] + lines_text(lines, dates, t) + t.ask,
        forall|i: int|
            0 <= i < lines.len() ==> #[trigger] dates_of(lines)[i] == (match stamp_of(
                lines[i].date,
                "%Y-%m-%d %H:%M"@,
            ) {
                Some(s) => s,
                None => seq![],
            }),
{
    reveal_strlit(": ");
    reveal_strlit("\n");
    reveal_strlit("\n\n");
    reveal_strlit(", ");
    assert(": "@ =~= seq![':', ' ']);
    assert("\n"@ =~= seq!['\n']);
    assert("\n\n"@ =~= seq!['\n', '\n']);
    assert(", "@ =~= seq![',', ' ']);
    assert(Seq::<char>::empty() + t.chat =~= t.chat);
}

// --- one step of a verdict ------------------------------------------------------------

/// The verdict asks for messages the window does not hold.
pub open spec fn asks_for_more(v: Verdict) -> bool {
    v.need_context is Some && ((v.need_context->0).before > 0 || (v.need_context->0).after > 0)
}

/// A verdict is stored with the window it is on, unless it asks for more of a
/// window that was not widened yet and can be; without a verdict nothing is.
pub proof fn law_steps_follow_the_answer(
    first: WindowView,
    cur: WindowView,
    heard: Heard,
    rows: Seq<Row>,
)
    ensures
        heard !is Judged ==> next_step(first, cur, heard, rows) is Skip,
        heard is Judged ==> next_step(first, cur, heard, rows) !is Skip,
        heard matches Heard::Judged(v) ==> (next_step(first, cur, heard, rows) is Ask <==> {
            &&& asks_for_more(v)
            &&& cur.from_id == first.from_id && cur.to_id == first.to_id
            &&& widened(
                rows,
                cur,
                (v.need_context->0).before,
                (v.need_context->0).after,
            ).total > cur.total
        }),
        heard matches Heard::Judged(v) ==> (next_step(first, cur, heard, rows) matches StepView::Ask(
            w,
        ) ==> w == widened(
            rows,
            cur,
            (v.need_context->0).before,
            (v.need_context->0).after,
        )),
        next_step(first, cur, heard, rows) matches StepView::Store {
            passes,
            seen_from,
            seen_to,
        } ==> seen_from == cur.from_id && seen_to == cur.to_id && (passes == 1 || passes == 2) && (
        passes == 2 ==> cur.total > first.total),
{
}

/// A stored verdict counts as one window with its ranges, a widening as one
/// widening, and a window without a verdict as failed unless nothing at all
/// came back; nothing else is counted.
pub proof fn law_steps_are_counted(step: StepView, heard: Heard)
    ensures
        ({
            let c = step_counts(step, heard);
            &&& c.prompt_tokens == 0 && c.completion_tokens == 0
            &&& c.windows == (if step is Store {
                1int
            } else {
                0
            })
            &&& c.expanded == (if step is Ask {
                1int
            } else {
                0
            })
            &&& step !is Store ==> c.ranges == 0
            &&& step is Store ==> (heard matches Heard::Judged(v) ==> (v.delete_ranges@.len()
                <= u64::MAX ==> c.ranges == v.delete_ranges@.len()))
            &&& step !is Skip ==> c.failed == 0
            &&& step is Skip && heard is Refused ==> c.failed == 1
            &&& step is Skip ==> (heard matches Heard::Garbled { blank } ==> c.failed == (if blank {
                0int
            } else {
                1
            }))
        }),
{
}

/// Shares of a run add up, count by count.
pub proof fn law_counts_add_up(a: Stats, b: Stats)
    requires
        a.has_room(b),
    ensures
        ({
            let c = a.plus(b);
            &&& c.windows == a.windows + b.windows
            &&& c.ranges == a.ranges + b.ranges
            &&& c.failed == a.failed + b.failed
            &&& c.expanded == a.expanded + b.expanded
            &&& c.prompt_tokens == a.prompt_tokens + b.prompt_tokens
            &&& c.completion_tokens == a.completion_tokens + b.completion_tokens
            &&& c == b.plus(a)
            &&& a.plus(Stats::none()) == a
        }),
{
}

// --- talking to the model ----------------------------------------------------------------

/// A reply is the first choice of an answer that reports no error and says
/// something, with what the call used up, or nothing where it does not say.
pub proof fn law_replies_are_the_first_choice(text: Seq<char>, a: Answer)
    ensures
        reading(text, Ok(a)) is Ok <==> a.error is None && a.choices@.len() > 0 && a.choices@[0]
            is Some && !blank((a.choices@[0]->0)@),
        reading(text, Ok(a)) matches Ok(r) ==> {
            &&& r.content == (a.choices@[0]->0)@
            &&& a.usage matches Some(u) ==> r.prompt_tokens == u.prompt_tokens
                && r.completion_tokens == u.completion_tokens && r.cost == u.cost
            &&& a.usage is None ==> r.prompt_tokens == 0 && r.completion_tokens == 0 && r.cost == 0
        },
        a.error matches Some(e) ==> reading(text, Ok(a)) == Err::<crate::llm::ReplyView, Seq<char>>(
            "OpenRouter: "@ + e.message@ + " "@ + e.code@,
        ),
{
}

/// What cannot be read is told with the beginning of it, at most four hundred
/// characters.
pub proof fn law_unreadable_answers_are_told(text: Seq<char>, why: String)
    ensures
        reading(text, Err(why)) == Err::<crate::llm::ReplyView, Seq<char>>(
            "unrecognized answer: "@ + (if text.len() <= 400 {
                text
            } else {
                text.take(400)
            }) + ": "@ + why@,
        ),
{
    assert(clipped(text) =~= (if text.len() <= 400 {
        text
    } else {
        text.take(400)
    }));
}

/// Which outcomes end the calls and which are tried again, and after how long:
/// a reply ends them; no response, an unusable answer, throttling and every
/// status outside the four hundreds are tried again, up to the fifth time.
pub proof fn law_what_is_tried_again(
    attempt: u32,
    status: u16,
    words: String,
    text: String,
    parsed: Result<Answer, String>,
    why: String,
)
    requires
        1 <= attempt <= 5,
    ensures
        next_move(attempt, Reached::Nothing(why)) is Wait <==> attempt < 5,
        next_move(attempt, Reached::Nothing(why)) !is Done,
        ({
            let m = next_move(attempt, (Reached::Response { status, words, text, parsed }));
            let usable = reading(text@, parsed) is Ok;
            &&& m is Done <==> 200 <= status < 300 && usable
            &&& m matches MoveView::Done(r) ==> reading(text@, parsed) == Ok::<
                crate::llm::ReplyView,
                Seq<char>,
            >(r)
            &&& m is Wait <==> attempt < 5 && !(200 <= status < 300 && usable) && !(400 <= status
                < 500 && status != 429)
            &&& m matches MoveView::Wait { seconds, .. } ==> seconds == (if attempt == 1 {
                2int
            } else if attempt == 2 {
                4
            } else if attempt == 3 {
                8
            } else {
                16
            })
        }),
{
    reveal_with_fuel(wait_after, 6);
}

// --- the policy ------------------------------------------------------------------------

/// A profile line stands for each field that is set, in order, with the value
/// in the place kept for it; a field that is not set leaves no trace.
pub proof fn law_profile_lines_are_filled(
    p: Profile,
    t: TextView,
    before: Seq<char>,
    after: Seq<char>,
    lines: Seq<Seq<char>>,
    value: &'static str,
)
    requires
        forall|k: int|
            0 <= k < before.len() ==> !#[trigger] occurs_at(
                before + "{}"@ + after,
                "{}"@,
                k,
            ),
    ensures
        with_line(lines, Some(value), before + "{}"@ + after) == lines.push(
            before + value@ + replaced(after, "{}"@, value@),
        ),
        with_line(lines, None, before) == lines,
        profile_lines(p, t).len() == (if p.occupation is Some {
            1int
        } else {
            0
        }) + (if p.account_country is Some {
            1int
        } else {
            0
        }) + (if p.travel_country is Some {
            1int
        } else {
            0
        }),
        p.occupation is Some ==> profile_lines(p, t)[0] == replaced(
            t.occupation,
            "{}"@,
            (p.occupation->0)@,
        ),
        p.travel_country is Some ==> profile_lines(p, t).last() == replaced(
            t.travel,
            "{}"@,
            (p.travel_country->0)@,
        ),
        p.account_country is Some ==> profile_lines(p, t).contains(
            replaced(t.account, "{}"@, (p.account_country->0)@),
        ),
{
    reveal_strlit("{}");
    law_occurrences_are_replaced(before, "{}"@, after, value@);
    if p.account_country is Some {
        let k = if p.occupation is Some {
            1int
        } else {
            0
        };
        assert(profile_lines(p, t)[k] == replaced(
            t.account,
            "{}"@,
            (p.account_country->0)@,
        ));
    }
}

/// The profile stands in the policy where its place is, under its heading; the
/// rest of the policy stays.
pub proof fn law_the_policy_holds_the_profile(
    p: Profile,
    t: TextView,
    before: Seq<char>,
    after: Seq<char>,
)
    requires
        t.policy == before + "{PROFILE}"@ + after,
        forall|k: int|
            0 <= k < before.len() ==> !#[trigger] occurs_at(t.policy, "{PROFILE}"@, k),
    ensures
        policy_for(p, t) == before + profile_block(p, t) + replaced(
            after,
            "{PROFILE}"@,
            profile_block(p, t),
        ),
        profile_lines(p, t).len() == 0 ==> profile_block(p, t).len() == 0,
        profile_lines(p, t).len() > 0 ==> profile_block(p, t) == t.profile_head + seq!['\n']
            + joined(profile_lines(p, t), seq!['\n']) + seq!['\n', '\n'],
{
    reveal_strlit("{PROFILE}");
    reveal_strlit("\n");
    reveal_strlit("\n\n");
    assert("\n"@ =~= seq!['\n']);
    assert("\n\n"@ =~= seq!['\n', '\n']);
    assert(Seq::<char>::empty() + t.profile_head =~= t.profile_head);
    law_occurrences_are_replaced(before, "{PROFILE}"@, after, profile_block(p, t));
}

/// A policy is named after its language and its text: eight digits of the hash
/// of its bytes.
pub proof fn law_policies_are_named_by_their_text(t: TextView, text: Seq<char>)
    ensures
        policy_id(t, text) == t.tag + seq!['-'] + hex(
            crate::fnv::fnv_of(vstd::utf8::encode_utf8(text)) as nat,
            8,
        ),
{
    reveal_strlit("-");
    assert("-"@ =~= seq!['-']);
    assert(Seq::<char>::empty() + t.tag =~= t.tag);
}

/// Each language has its own words, and the tiers are labelled from the
/// freshest on.
pub proof fn law_words_of_a_language(lang: Lang)
    ensures
        words_of(Lang::Ru) == ru_words(),
        words_of(Lang::En) == en_words(),
        ru_words().tag == "ru"@,
        en_words().tag == "en"@,
        ru_words().me == "Я"@,
        ru_words().them == "Собеседник"@,
        en_words().me == "Me"@,
        en_words().them == "Them"@,
        ru_words().protected == "      ^ [ЗАЩИЩЕНО] удалять нельзя"@,
        en_words().protected == "      ^ [PROTECTED] must not be deleted"@,
        ru_words().fired == "      ^ сработало: "@,
        en_words().fired == "      ^ fired: "@,
        ru_words().ask == "\nКакие диапазоны удалить?"@,
        en_words().ask == "\nWhich ranges do you delete?"@,
        ru_words().tiers == seq![
            "T0 — последние 6 месяцев, режем жёстко"@,
            "T1 — от 6 до 12 месяцев, режем"@,
            "T2 — старше года, ЛОЯЛЬНО: только явно острое"@,
        ],
        en_words().tiers == seq![
            "T0 — last 6 months, cut hard"@,
            "T1 — 6 to 12 months, cut"@,
            "T2 — older than a year, LENIENT: only the clearly sharp"@,
        ],
{
}

} // verus!
