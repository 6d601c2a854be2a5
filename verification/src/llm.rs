//! Talking to the model: what an answer has to hold, and what is worth trying
//! again. The network itself is the caller's.

use crate::text::{head, head_of, opt_view};
use crate::unicode::whitespace;
use vstd::prelude::*;

verus! {

/// An answer that can be used.
#[derive(Debug)]
pub struct Reply {
    pub content: String,
    pub prompt_tokens: u64,
    pub completion_tokens: u64,
    /// Cost of the call in dollars, as OpenRouter counted it: the bits of an
    /// IEEE 754 double.
    pub cost: u64,
}

/// A reply as plain values.
pub struct ReplyView {
    pub content: Seq<char>,
    pub prompt_tokens: u64,
    pub completion_tokens: u64,
    pub cost: u64,
}

impl View for Reply {
    type V = ReplyView;

    open spec fn view(&self) -> ReplyView {
        ReplyView {
            content: self.content@,
            prompt_tokens: self.prompt_tokens,
            completion_tokens: self.completion_tokens,
            cost: self.cost,
        }
    }
}

/// What a call used up.
#[derive(Debug, Clone, Copy, PartialEq, Eq, Structural)]
pub struct Usage {
    pub prompt_tokens: u64,
    pub completion_tokens: u64,
    /// The bits of an IEEE 754 double.
    pub cost: u64,
}

/// An error the service reports. `code` is its code as it is to be shown.
#[derive(Debug)]
pub struct ServiceError {
    pub message: String,
    pub code: String,
}

/// The body of a successful response.
#[derive(Debug)]
pub struct Answer {
    pub error: Option<ServiceError>,
    /// What the choices say, each its content if it has one.
    pub choices: Vec<Option<String>>,
    pub usage: Option<Usage>,
}

/// At most four hundred characters of a text.
pub open spec fn clipped(s: Seq<char>) -> Seq<char> {
    head(s, 400)
}

fn clip(s: &str) -> (r: String)
    ensures
        r@ == clipped(s@),
{
    head_of(s, 400)
}

/// Nothing but whitespace.
pub open spec fn blank(s: Seq<char>) -> bool {
    forall|i: int| 0 <= i < s.len() ==> whitespace(#[trigger] s[i])
}

fn is_blank(s: &str) -> (r: bool)
    ensures
        r == blank(s@),
{
    let cs: Vec<char> = crate::text::chars_of(s);
    let mut i: usize = 0;
    while i < cs.len()
        invariant
            i <= cs@.len(),
            cs@ == s@,
            forall|k: int| 0 <= k < i ==> whitespace(#[trigger] cs@[k]),
        decreases cs@.len() - i,
    {
        if !cs[i].is_whitespace() {
            return false;
        }
        i += 1;
    }
    true
}

/// What the first choice says.
pub open spec fn first_choice(a: Answer) -> Option<Seq<char>> {
    if a.choices@.len() == 0 {
        None
    } else {
        opt_view(a.choices@[0])
    }
}

/// What an answer comes to: a reply, or why it is none. `empty` tells whether
/// what it says is nothing but whitespace.
pub open spec fn reading_if(
    text: Seq<char>,
    parsed: Result<Answer, String>,
    empty: bool,
) -> Result<ReplyView, Seq<char>> {
    match parsed {
        Err(why) => Err("unrecognized answer: "@ + clipped(text) + ": "@ + why@),
        Ok(a) => match a.error {
            Some(e) => Err("OpenRouter: "@ + e.message@ + " "@ + e.code@),
            None => if first_choice(a) is None || empty {
                Err("empty answer from the model"@)
            } else {
                let u = match a.usage {
                    Some(u) => u,
                    None => Usage { prompt_tokens: 0, completion_tokens: 0, cost: 0 },
                };
                Ok(
                    ReplyView {
                        content: first_choice(a)->0,
                        prompt_tokens: u.prompt_tokens,
                        completion_tokens: u.completion_tokens,
                        cost: u.cost,
                    },
                )
            },
        },
    }
}

/// Whether an answer says nothing but whitespace.
pub open spec fn says_nothing(parsed: Result<Answer, String>) -> bool {
    parsed matches Ok(a) && first_choice(a) is Some && blank(first_choice(a)->0)
}

/// What an answer comes to: a reply, or why it is none.
pub open spec fn reading(text: Seq<char>, parsed: Result<Answer, String>) -> Result<
    ReplyView,
    Seq<char>,
> {
    reading_if(text, parsed, says_nothing(parsed))
}

/// A result as plain values.
pub open spec fn result_view(r: Result<Reply, String>) -> Result<ReplyView, Seq<char>> {
    match r {
        Ok(reply) => Ok(reply@),
        Err(why) => Err(why@),
    }
}

/// Read a successful response: its text, and its body or why it has none.
/// `empty` tells whether what it says is nothing but whitespace.
pub fn read(text: &str, parsed: Result<Answer, String>, empty: bool) -> (r: Result<Reply, String>)
    ensures
        result_view(r) == reading_if(text@, parsed, empty),
{
    let a: Answer = match parsed {
        Ok(a) => a,
        Err(why) => {
            let mut out: String = "unrecognized answer: ".to_owned();
            let shown: String = clip(text);
            out.append(shown.as_str());
            out.append(": ");
            out.append(why.as_str());
            return Err(out);
        },
    };
    if let Some(e) = &a.error {
        let mut out: String = "OpenRouter: ".to_owned();
        out.append(e.message.as_str());
        out.append(" ");
        out.append(e.code.as_str());
        return Err(out);
    }
    if a.choices.len() > 0 && !empty {
        if let Some(content) = &a.choices[0] {
            let u: Usage = match a.usage {
                Some(u) => u,
                None => Usage { prompt_tokens: 0, completion_tokens: 0, cost: 0 },
            };
            return Ok(
                Reply {
                    content: content.clone(),
                    prompt_tokens: u.prompt_tokens,
                    completion_tokens: u.completion_tokens,
                    cost: u.cost,
                },
            );
        }
    }
    Err("empty answer from the model".to_owned())
}

/// Read a successful response: its text, and its body or why it has none.
/// Anything that fails here is retried.
pub fn parse(text: &str, parsed: Result<Answer, String>) -> (r: Result<Reply, String>)
    ensures
        result_view(r) == reading(text@, parsed),
{
    let mut empty: bool = false;
    if let Ok(a) = &parsed {
        if a.choices.len() > 0 {
            if let Some(content) = &a.choices[0] {
                empty = is_blank(content.as_str());
            }
        }
    }
    read(text, parsed, empty)
}

// --- trying again --------------------------------------------------------

/// How often the model is tried.
pub const ATTEMPTS: u32 = 5;

/// What came of one attempt.
#[derive(Debug)]
pub enum Reached {
    /// No response at all, and why.
    Nothing(String),
    /// A response: its status, the status in words, its text, and its body or
    /// why it has none.
    Response { status: u16, words: String, text: String, parsed: Result<Answer, String> },
}

/// What to do next.
#[derive(Debug)]
pub enum Move {
    Done(Reply),
    /// Wait that many seconds and try again.
    Wait { seconds: u64, why: String },
    GiveUp(String),
}

/// A move as plain values.
pub enum MoveView {
    Done(ReplyView),
    Wait { seconds: u64, why: Seq<char> },
    GiveUp(Seq<char>),
}

impl View for Move {
    type V = MoveView;

    open spec fn view(&self) -> MoveView {
        match self {
            Move::Done(r) => MoveView::Done(r@),
            Move::Wait { seconds, why } => MoveView::Wait { seconds: *seconds, why: why@ },
            Move::GiveUp(why) => MoveView::GiveUp(why@),
        }
    }
}

/// A status that says the call went through.
pub open spec fn succeeds(status: u16) -> bool {
    200 <= status < 300
}

/// A status that will not change on a retry: the call itself is at fault, and
/// it is not throttling.
pub open spec fn is_final(status: u16) -> bool {
    400 <= status < 500 && status != 429
}

/// How long to wait after an attempt: two seconds after the first, twice as
/// long after every other.
pub open spec fn wait_after(attempt: u32) -> u64
    decreases attempt,
{
    if attempt <= 1 {
        2
    } else {
        (2 * wait_after((attempt - 1) as u32)) as u64
    }
}

/// Try again if attempts are left.
pub open spec fn retry(attempt: u32, why: Seq<char>) -> MoveView {
    if attempt < ATTEMPTS {
        MoveView::Wait { seconds: wait_after(attempt), why }
    } else {
        MoveView::GiveUp("the model stayed unreachable after 5 attempts: "@ + why)
    }
}

/// What to do after an attempt. Retries only what is worth retrying:
/// throttling and 5xx, and answers that hold nothing: providers regularly
/// answer 200 with an empty or broken body — network hiccup, not a refusal.
pub open spec fn next_move(attempt: u32, reached: Reached) -> MoveView {
    match reached {
        Reached::Nothing(why) => retry(attempt, why@),
        Reached::Response { status, words, text, parsed } => if succeeds(status) {
            match reading(text@, parsed) {
                Ok(reply) => MoveView::Done(reply),
                Err(why) => retry(attempt, why),
            }
        } else {
            let why = "HTTP "@ + words@ + ": "@ + clipped(text@);
            if is_final(status) {
                MoveView::GiveUp(why)
            } else {
                retry(attempt, why)
            }
        },
    }
}

fn try_again(attempt: u32, why: String) -> (r: Move)
    requires
        1 <= attempt <= ATTEMPTS,
    ensures
        r@ == retry(attempt, why@),
{
    if attempt < ATTEMPTS {
        let mut seconds: u64 = 2;
        let mut i: u32 = 1;
        while i < attempt
            invariant
                1 <= i <= attempt < ATTEMPTS,
                seconds == wait_after(i),
                seconds <= 2 * 2 * 2 * 2,
                i == 1 ==> seconds <= 2,
                i == 2 ==> seconds <= 4,
                i == 3 ==> seconds <= 8,
            decreases attempt - i,
        {
            seconds = 2 * seconds;
            i += 1;
        }
        Move::Wait { seconds, why }
    } else {
        let mut out: String = "the model stayed unreachable after 5 attempts: ".to_owned();
        out.append(why.as_str());
        Move::GiveUp(out)
    }
}

/// What to do after an attempt; the first is number one.
pub fn react(attempt: u32, reached: Reached) -> (r: Move)
    requires
        1 <= attempt <= ATTEMPTS,
    ensures
        r@ == next_move(attempt, reached),
{
    match reached {
        Reached::Nothing(why) => try_again(attempt, why),
        Reached::Response { status, words, text, parsed } => {
            if 200 <= status && status < 300 {
                match parse(text.as_str(), parsed) {
                    Ok(reply) => Move::Done(reply),
                    Err(why) => try_again(attempt, why),
                }
            } else {
                let mut why: String = "HTTP ".to_owned();
                let shown: String = clip(text.as_str());
                why.append(words.as_str());
                why.append(": ");
                why.append(shown.as_str());
                if 400 <= status && status < 500 && status != 429 {
                    Move::GiveUp(why)
                } else {
                    try_again(attempt, why)
                }
            }
        },
    }
}

/// The model is tried no more than five times: the last attempt ends in a
/// reply or in giving up.
pub proof fn law_the_last_attempt_ends_it(reached: Reached)
    ensures
        next_move(ATTEMPTS, reached) !is Wait,
{
}

/// A call that is itself at fault is not repeated, however many attempts are
/// left; only throttling is.
pub proof fn law_refused_calls_are_not_repeated(
    attempt: u32,
    status: u16,
    words: String,
    text: String,
    parsed: Result<Answer, String>,
)
    requires
        attempt < ATTEMPTS,
        400 <= status < 500,
    ensures
        next_move(attempt, (Reached::Response { status, words, text, parsed })) is Wait <==> status
            == 429,
{
}

/// The waits double from attempt to attempt, starting at two seconds.
pub proof fn law_waits_double(attempt: u32)
    requires
        1 <= attempt,
        attempt + 1 < ATTEMPTS,
    ensures
        wait_after(1) == 2,
        wait_after((attempt + 1) as u32) == 2 * wait_after(attempt),
{
    reveal_with_fuel(wait_after, 5);
}

/// A reply always says something.
pub proof fn law_a_reply_is_never_blank(text: Seq<char>, parsed: Result<Answer, String>)
    ensures
        reading(text, parsed) matches Ok(reply) ==> !blank(reply.content),
{
}

} // verus!
