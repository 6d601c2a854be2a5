//! Triage: window → model verdict → ranges to delete. The raw answer is
//! stored whole and the plan is a separate step — triage decides nothing for
//! good.

use crate::clock::{stamp, stamp_of, text_or_empty, MINUTE_FORMAT};
use crate::config::LANG;
use crate::prompt::{text, words_of, Text, TextView};
use crate::text::{dec_int, joined, push_int, push_joined, replace_all, replaced, views};
use crate::window::{
    by_id, chars_between, expand, widened, Row, Window, WindowView,
};
use crate::window_laws::{covers, law_a_grown_window_has_another_range};
use vstd::prelude::*;

verus! {

/// What a verdict has to look like, in the terms of JSON Schema.
pub const VERDICT_SCHEMA: &'static str = r#"{
  "type": "object",
  "additionalProperties": false,
  "required": ["delete_ranges", "protected", "need_context", "notes"],
  "properties": {
    "delete_ranges": {
      "type": "array",
      "items": {
        "type": "object",
        "additionalProperties": false,
        "required": ["from", "to", "axis", "confidence", "reason"],
        "properties": {
          "from": {"type": "integer"},
          "to": {"type": "integer"},
          "axis": {"type": "string"},
          "confidence": {"type": "number"},
          "reason": {"type": "string"}
        }
      }
    },
    "protected": {
      "type": "array",
      "items": {
        "type": "object",
        "additionalProperties": false,
        "required": ["from", "to", "reason"],
        "properties": {
          "from": {"type": "integer"},
          "to": {"type": "integer"},
          "reason": {"type": "string"}
        }
      }
    },
    "need_context": {
      "type": "object",
      "additionalProperties": false,
      "required": ["before", "after", "why"],
      "properties": {
        "before": {"type": "integer"},
        "after": {"type": "integer"},
        "why": {"type": "string"}
      }
    },
    "notes": {"type": "string"}
  }
}"#;

/// What the model answers to a window.
#[derive(Debug)]
pub struct Verdict {
    pub delete_ranges: Vec<Range>,
    pub protected: Vec<Range>,
    /// Request for more context: cheaper to show everyone a small window and
    /// widen it for those who ask than to show everyone a big one.
    pub need_context: Option<Need>,
    /// Free-form comment, read by a human while going over the plan.
    pub notes: String,
}

#[derive(Debug)]
pub struct Need {
    pub before: i64,
    pub after: i64,
    pub why: String,
}

#[derive(Debug)]
pub struct Range {
    /// i64, not i32: the model occasionally returns junk like 764667000000
    /// and the whole run used to die on parsing. Clamped to the window.
    pub from: i64,
    pub to: i64,
    pub axis: String,
    /// The bits of an IEEE 754 double.
    pub confidence: u64,
    pub reason: String,
}

// --- the window as the model sees it -------------------------------------

/// A message of a window with what is known of it.
#[derive(Debug)]
pub struct Line {
    pub msg_id: i32,
    pub date: i64,
    pub outgoing: bool,
    pub text: String,
    pub media_type: Option<String>,
    pub transcript: Option<String>,
    pub marks: Option<String>,
    pub protected: bool,
}

/// What a message says: the transcript of a voice message, the kind of media
/// without a text, or the text on one line.
pub open spec fn body_of(l: Line, t: TextView) -> Seq<char> {
    match l.transcript {
        Some(x) => "["@ + t.voice + "] "@ + x@,
        None => match l.media_type {
            Some(m) => if l.text@.len() == 0 {
                "["@ + m@ + ", "@ + t.no_text + "]"@
            } else {
                replaced(l.text@, "\n"@, " ⏎ "@)
            },
            None => replaced(l.text@, "\n"@, " ⏎ "@),
        },
    }
}

/// What stands under a message: that it is protected, or what fired on it.
pub open spec fn mark_of(l: Line, t: TextView) -> Seq<char> {
    if l.protected {
        t.protected + "\n"@
    } else {
        match l.marks {
            Some(m) => t.fired + m@ + "\n"@,
            None => seq![],
        }
    }
}

/// A message: id first, so that the answer comes back as ranges rather than a
/// retelling. `date` is its date as it is to be shown.
pub open spec fn line_text(l: Line, date: Seq<char>, t: TextView) -> Seq<char> {
    "["@ + dec_int(l.msg_id as int) + "] "@ + date + " "@ + (if l.outgoing {
        t.me
    } else {
        t.them
    }) + ": "@ + body_of(l, t) + "\n"@ + mark_of(l, t)
}

/// Messages, one after another.
pub open spec fn lines_text(lines: Seq<Line>, dates: Seq<Seq<char>>, t: TextView) -> Seq<char>
    decreases lines.len(),
{
    if lines.len() == 0 {
        seq![]
    } else {
        lines_text(lines.drop_last(), dates, t) + line_text(
            lines.last(),
            dates[lines.len() - 1],
            t,
        )
    }
}

/// The dates of messages, as they are shown; nothing where the calendar does
/// not reach.
pub open spec fn dates_of(lines: Seq<Line>) -> Seq<Seq<char>> {
    Seq::new(lines.len(), |i: int| text_or_empty(stamp_of(lines[i].date, MINUTE_FORMAT@)))
}

/// The name of a chat.
pub open spec fn title_of(title: Option<&str>, t: TextView) -> Seq<char> {
    match title {
        Some(s) => s@,
        None => t.untitled,
    }
}

/// The window as the model sees it.
pub open spec fn rendered(
    t: TextView,
    title: Option<&str>,
    w: WindowView,
    lines: Seq<Line>,
    dates: Seq<Seq<char>>,
) -> Seq<char> {
    Seq::<char>::empty() + t.chat + ": "@ + title_of(title, t) + "\n"@ + t.tier + ": "@
        + t.tiers[w.tier.rank()] + "\n"@ + t.axes + ": "@ + joined(w.axes, ", "@) + "\n\n"@ + t.log
        + "\n"@ + lines_text(lines, dates, t) + t.ask
}

fn one_line(s: &str) -> (r: String)
    ensures
        r@ == replaced(s@, "\n"@, " ⏎ "@),
{
    proof {
        reveal_strlit("\n");
    }
    replace_all(s, "\n", " ⏎ ")
}

fn body(l: &Line, t: &Text) -> (r: String)
    ensures
        r@ == body_of(*l, t@),
{
    match &l.transcript {
        Some(x) => {
            let mut out: String = "[".to_owned();
            out.append(t.voice);
            out.append("] ");
            out.append(x.as_str());
            out
        },
        None => {
            match &l.media_type {
                Some(m) => {
                    if l.text.as_str().unicode_len() == 0 {
                        let mut out: String = "[".to_owned();
                        out.append(m.as_str());
                        out.append(", ");
                        out.append(t.no_text);
                        out.append("]");
                        out
                    } else {
                        one_line(l.text.as_str())
                    }
                },
                None => one_line(l.text.as_str()),
            }
        },
    }
}

fn push_line(out: &mut String, l: &Line, date: &str, t: &Text)
    ensures
        final(out)@ == old(out)@ + line_text(*l, date@, t@),
{
    let said: String = body(l, t);
    out.append("[");
    push_int(out, l.msg_id as i64);
    out.append("] ");
    out.append(date);
    out.append(" ");
    out.append(
        if l.outgoing {
            t.me
        } else {
            t.them
        },
    );
    out.append(": ");
    out.append(said.as_str());
    out.append("\n");
    let ghost head = out@;
    if l.protected {
        out.append(t.protected);
        out.append("\n");
    } else if let Some(m) = &l.marks {
        out.append(t.fired);
        out.append(m.as_str());
        out.append("\n");
    }
    assert(out@ =~= head + mark_of(*l, t@));
    assert(out@ =~= old(out)@ + line_text(*l, date@, t@));
}

/// The window as the model sees it, in the given words and with the given
/// dates.
pub fn render_dated(
    t: &Text,
    title: Option<&str>,
    w: &Window,
    lines: &Vec<Line>,
    dates: &Vec<String>,
) -> (r: String)
    requires
        dates@.len() == lines@.len(),
    ensures
        r@ == rendered(t@, title, w@, lines@, views(dates@)),
{
    let ghost days = views(dates@);
    let mut out: String = String::new();
    out.append(t.chat);
    out.append(": ");
    out.append(
        match title {
            Some(s) => s,
            None => t.untitled,
        },
    );
    out.append("\n");
    out.append(t.tier);
    out.append(": ");
    let rank: usize = w.tier.order() as usize;
    out.append(t.tiers[rank]);
    out.append("\n");
    out.append(t.axes);
    out.append(": ");
    push_joined(&mut out, &w.axes, ", ");
    out.append("\n\n");
    out.append(t.log);
    out.append("\n");
    let ghost head = out@;
    let mut i: usize = 0;
    assert(lines@.take(0) =~= Seq::<Line>::empty());
    assert(out@ =~= head + lines_text(lines@.take(0), days, t@));
    while i < lines.len()
        invariant
            i <= lines@.len(),
            dates@.len() == lines@.len(),
            days == views(dates@),
            out@ == head + lines_text(lines@.take(i as int), days, t@),
        decreases lines@.len() - i,
    {
        assert(lines@.take(i + 1).drop_last() =~= lines@.take(i as int));
        push_line(&mut out, &lines[i], dates[i].as_str(), t);
        i += 1;
        assert(out@ =~= head + lines_text(lines@.take(i as int), days, t@));
    }
    assert(lines@.take(i as int) =~= lines@);
    out.append(t.ask);
    out
}

fn dates_for(lines: &Vec<Line>) -> (r: Vec<String>)
    ensures
        views(r@) == dates_of(lines@),
{
    let mut out: Vec<String> = Vec::new();
    let mut i: usize = 0;
    while i < lines.len()
        invariant
            i <= lines@.len(),
            out@.len() == i,
            forall|k: int| 0 <= k < i ==> (#[trigger] out@[k])@ == dates_of(lines@)[k],
        decreases lines@.len() - i,
    {
        let date: String = match stamp(lines[i].date, MINUTE_FORMAT) {
            Some(date) => date,
            None => String::new(),
        };
        assert(date@ =~= dates_of(lines@)[i as int]);
        out.push(date);
        i += 1;
    }
    assert(views(out@) =~= dates_of(lines@));
    out
}

/// The window as the model sees it, in the given words.
pub fn render_in(t: &Text, title: Option<&str>, w: &Window, lines: &Vec<Line>) -> (r: String)
    ensures
        r@ == rendered(t@, title, w@, lines@, dates_of(lines@)),
{
    let dates: Vec<String> = dates_for(lines);
    assert(views(dates@).len() == dates@.len());
    render_dated(t, title, w, lines, &dates)
}

/// The window as the model sees it: dense, id first, so that the answer
/// comes back as ranges rather than a retelling.
pub fn render(title: Option<&str>, w: &Window, lines: &Vec<Line>) -> (r: String)
    ensures
        r@ == rendered(words_of(LANG), title, w@, lines@, dates_of(lines@)),
{
    render_in(&text(), title, w, lines)
}

// --- one window ----------------------------------------------------------

/// What a run came to. The cost is kept by the caller.
#[derive(Debug, Default, Clone, Copy, PartialEq, Eq, Structural)]
pub struct Stats {
    pub windows: u64,
    pub ranges: u64,
    /// Windows no verdict could be got for. The run does not fail — they are
    /// picked up by running it again.
    pub failed: u64,
    /// How many windows the model asked to widen — a direct measure of
    /// whether the base window is big enough.
    pub expanded: u64,
    pub prompt_tokens: u64,
    pub completion_tokens: u64,
}

impl Stats {
    /// Room for the counts of another.
    pub open spec fn has_room(self, o: Stats) -> bool {
        &&& self.windows + o.windows <= u64::MAX
        &&& self.ranges + o.ranges <= u64::MAX
        &&& self.failed + o.failed <= u64::MAX
        &&& self.expanded + o.expanded <= u64::MAX
        &&& self.prompt_tokens + o.prompt_tokens <= u64::MAX
        &&& self.completion_tokens + o.completion_tokens <= u64::MAX
    }

    /// Both counted together.
    pub open spec fn plus(self, o: Stats) -> Stats {
        Stats {
            windows: (self.windows + o.windows) as u64,
            ranges: (self.ranges + o.ranges) as u64,
            failed: (self.failed + o.failed) as u64,
            expanded: (self.expanded + o.expanded) as u64,
            prompt_tokens: (self.prompt_tokens + o.prompt_tokens) as u64,
            completion_tokens: (self.completion_tokens + o.completion_tokens) as u64,
        }
    }

    /// Nothing counted.
    pub open spec fn none() -> Stats {
        Stats {
            windows: 0,
            ranges: 0,
            failed: 0,
            expanded: 0,
            prompt_tokens: 0,
            completion_tokens: 0,
        }
    }

    /// Nothing counted yet.
    pub fn start() -> (r: Stats)
        ensures
            r == Stats::none(),
    {
        Stats {
            windows: 0,
            ranges: 0,
            failed: 0,
            expanded: 0,
            prompt_tokens: 0,
            completion_tokens: 0,
        }
    }

    /// Count another in; `None` if a count would not fit.
    pub fn merge(&self, o: &Stats) -> (r: Option<Stats>)
        ensures
            r == (if self.has_room(*o) {
                Some(self.plus(*o))
            } else {
                None
            }),
    {
        match (
            self.windows.checked_add(o.windows),
            self.ranges.checked_add(o.ranges),
            self.failed.checked_add(o.failed),
            self.expanded.checked_add(o.expanded),
            self.prompt_tokens.checked_add(o.prompt_tokens),
            self.completion_tokens.checked_add(o.completion_tokens),
        ) {
            (
                Some(windows),
                Some(ranges),
                Some(failed),
                Some(expanded),
                Some(prompt_tokens),
                Some(completion_tokens),
            ) => Some(
                Stats { windows, ranges, failed, expanded, prompt_tokens, completion_tokens },
            ),
            _ => None,
        }
    }
}

/// What came back for a window.
#[derive(Debug)]
pub enum Heard {
    /// No answer at all: one refused window must not bring down a run of a
    /// thousand calls.
    Refused,
    /// An answer that is no verdict.
    Garbled { blank: bool },
    Judged(Verdict),
}

/// What to do about it.
#[derive(Debug)]
pub enum Step {
    /// No verdict; nothing is stored, so a repeat run gives this window an
    /// honest second try.
    Skip,
    /// Ask again, with this wider window.
    Ask(Window),
    /// Store the answer under the window that was started from: keyed by the
    /// widened one, runs of different models would drift apart. Beside the key
    /// goes the window the verdict is on.
    Store { passes: i64, seen_from: i32, seen_to: i32 },
}

/// A step as plain values.
pub enum StepView {
    Skip,
    Ask(WindowView),
    Store { passes: i64, seen_from: i32, seen_to: i32 },
}

impl View for Step {
    type V = StepView;

    open spec fn view(&self) -> StepView {
        match self {
            Step::Skip => StepView::Skip,
            Step::Ask(w) => StepView::Ask(w@),
            Step::Store { passes, seen_from, seen_to } => StepView::Store {
                passes: *passes,
                seen_from: *seen_from,
                seen_to: *seen_to,
            },
        }
    }
}

/// How much more context a verdict asks for, if it does.
pub open spec fn asked_for(v: Verdict) -> Option<(i64, i64)> {
    match v.need_context {
        Some(n) => if n.before > 0 || n.after > 0 {
            Some((n.before, n.after))
        } else {
            None
        },
        None => None,
    }
}

/// A verdict on a window, stored after so many passes.
pub open spec fn stored(cur: WindowView, passes: i64) -> StepView {
    StepView::Store { passes, seen_from: cur.from_id, seen_to: cur.to_id }
}

/// Two passes if the window was widened on the way, one otherwise.
pub open spec fn passes_on(first: WindowView, cur: WindowView) -> i64 {
    if cur.total > first.total {
        2
    } else {
        1
    }
}

/// Widened only if the model says the window is not enough, and once only: a
/// second widening costs more than a big window would have.
pub open spec fn next_step(
    first: WindowView,
    cur: WindowView,
    heard: Heard,
    rows: Seq<Row>,
) -> StepView {
    match heard {
        Heard::Refused => StepView::Skip,
        Heard::Garbled { .. } => StepView::Skip,
        Heard::Judged(v) => match asked_for(v) {
            Some((before, after)) => if cur.from_id == first.from_id && cur.to_id == first.to_id {
                let wider = widened(rows, cur, before, after);
                if wider.total > cur.total {
                    StepView::Ask(wider)
                } else {
                    stored(cur, 1)
                }
            } else {
                stored(cur, passes_on(first, cur))
            },
            None => stored(cur, passes_on(first, cur)),
        },
    }
}

/// What a step adds to the counts.
pub open spec fn step_counts(step: StepView, heard: Heard) -> Stats {
    match step {
        StepView::Skip => Stats {
            failed: if heard matches Heard::Garbled { blank } && blank {
                0
            } else {
                1
            },
            ..Stats::none()
        },
        StepView::Ask(_) => Stats { expanded: 1, ..Stats::none() },
        StepView::Store { .. } => Stats {
            windows: 1,
            ranges: (heard->Judged_0).delete_ranges@.len() as u64,
            ..Stats::none()
        },
    }
}

/// Whether a verdict on this window would be widened: only then the messages
/// of the dialog are needed for the next step.
pub fn would_widen(first: &Window, cur: &Window, v: &Verdict) -> (r: bool)
    ensures
        r == (asked_for(*v) is Some && cur.from_id == first.from_id && cur.to_id == first.to_id),
{
    let asked: bool = match &v.need_context {
        Some(n) => n.before > 0 || n.after > 0,
        None => false,
    };
    asked && cur.from_id == first.from_id && cur.to_id == first.to_id
}

/// One window: what to do after an answer, and what it adds to the counts.
/// `rows` are the messages of the window's dialog.
pub fn step(first: &Window, cur: &Window, heard: &Heard, rows: &Vec<Row>) -> (r: (Step, Stats))
    requires
        by_id(rows@),
        chars_between(rows@, 0, rows@.len() as int) <= usize::MAX,
    ensures
        r.0@ == next_step(first@, cur@, *heard, rows@),
        r.1 == step_counts(r.0@, *heard),
{
    let mut st: Stats = Stats::start();
    match heard {
        Heard::Refused => {
            st.failed = 1;
            (Step::Skip, st)
        },
        Heard::Garbled { blank } => {
            if !*blank {
                st.failed = 1;
            }
            (Step::Skip, st)
        },
        Heard::Judged(v) => {
            let mut passes: i64 = if cur.total > first.total {
                2
            } else {
                1
            };
            if let Some(n) = &v.need_context {
                if (n.before > 0 || n.after > 0) && cur.from_id == first.from_id && cur.to_id
                    == first.to_id {
                    let wider: Window = expand(rows, cur, n.before, n.after);
                    if wider.total > cur.total {
                        st.expanded = 1;
                        return (Step::Ask(wider), st);
                    }
                    passes = 1;
                }
            }
            let ranges: usize = v.delete_ranges.len();
            st.windows = 1;
            st.ranges = ranges as u64;
            (Step::Store { passes, seen_from: cur.from_id, seen_to: cur.to_id }, st)
        },
    }
}

/// A window goes to the model at most twice: once it was widened, no answer
/// has it asked about again.
pub proof fn law_widened_at_most_once(
    rows: Seq<Row>,
    first: WindowView,
    lo: int,
    hi: int,
    heard: Heard,
    again: Heard,
)
    requires
        by_id(rows),
        rows.len() <= usize::MAX,
        covers(first, rows, lo, hi),
        next_step(first, first, heard, rows) is Ask,
    ensures
        next_step(first, next_step(first, first, heard, rows)->Ask_0, again, rows) !is Ask,
{
    let v = heard->Judged_0;
    let (before, after) = asked_for(v)->0;
    law_a_grown_window_has_another_range(rows, first, lo, hi, before, after);
}

/// How often a window went to the model is told by its answer: two passes
/// after a widening, one otherwise. Stored beside it is the window that was
/// asked about last.
pub proof fn law_passes_tell_widening(
    rows: Seq<Row>,
    first: WindowView,
    heard: Heard,
    again: Heard,
)
    requires
        next_step(first, first, heard, rows) is Ask,
        again is Judged,
        next_step(first, next_step(first, first, heard, rows)->Ask_0, again, rows) is Store,
        next_step(first, first, heard, rows)->Ask_0.from_id != first.from_id || next_step(
            first,
            first,
            heard,
            rows,
        )->Ask_0.to_id != first.to_id,
    ensures
        next_step(first, next_step(first, first, heard, rows)->Ask_0, again, rows) == stored(
            next_step(first, first, heard, rows)->Ask_0,
            2,
        ),
        forall|other: Heard|
            (#[trigger] next_step(first, first, other, rows)) is Store ==> next_step(
                first,
                first,
                other,
                rows,
            ) == stored(first, 1),
{
}

} // verus!
