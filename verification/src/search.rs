//! Searching text: many patterns at once through an automaton, and regular
//! expressions.
//!
//! The automaton is aho-corasick's, the expressions are regex's. Positions
//! come out of the automaton in bytes and are turned into characters here.

use crate::text::{occurs, occurs_at, opt_view, views};
use aho_corasick::AhoCorasick;
use regex::Regex;
use vstd::prelude::*;
use vstd::utf8::encode_utf8;

verus! {

/// The automaton of aho-corasick.
#[verifier::external_type_specification]
#[verifier::external_body]
pub struct ExAhoCorasick(AhoCorasick);

/// A compiled regular expression of regex.
#[verifier::external_type_specification]
#[verifier::external_body]
pub struct ExRegex(Regex);

/// The patterns an automaton looks for, in the order they were given.
pub uninterp spec fn automaton_patterns(ac: AhoCorasick) -> Seq<Seq<char>>;

/// Why no automaton can be built for a list of patterns; none if it can.
pub uninterp spec fn automaton_fault(patterns: Seq<Seq<char>>) -> Option<Seq<char>>;

/// The expression a compiled regular expression was made from.
pub uninterp spec fn regex_source(re: Regex) -> Seq<char>;

/// What is wrong with the syntax of an expression; none if nothing is.
pub uninterp spec fn regex_fault(pattern: Seq<char>) -> Option<Seq<char>>;

/// The leftmost match of an expression in a text, if there is one.
pub uninterp spec fn regex_match(pattern: Seq<char>, text: Seq<char>) -> Option<Seq<char>>;

/// A pattern found: which one, and the bytes it starts and ends at.
#[derive(Debug, Clone, Copy, PartialEq, Eq, Structural)]
pub struct Found {
    pub pattern: usize,
    pub start: usize,
    pub end: usize,
}

/// A pattern found: which one, and the characters it starts and ends at.
pub struct Spot {
    pub pattern: int,
    pub start: int,
    pub end: int,
}

/// The patterns that stand between two places, in their own order.
pub open spec fn spots_between(
    patterns: Seq<Seq<char>>,
    text: Seq<char>,
    start: int,
    end: int,
) -> Seq<Spot>
    decreases patterns.len(),
{
    if patterns.len() == 0 {
        seq![]
    } else {
        let init = spots_between(patterns.drop_last(), text, start, end);
        let p = patterns.last();
        if start + p.len() == end && occurs_at(text, p, start) {
            init.push(Spot { pattern: patterns.len() - 1, start, end })
        } else {
            init
        }
    }
}

/// The patterns that end at a place and start before another, by start.
pub open spec fn spots_ending(
    patterns: Seq<Seq<char>>,
    text: Seq<char>,
    starts: int,
    end: int,
) -> Seq<Spot>
    decreases starts,
{
    if starts <= 0 {
        seq![]
    } else {
        spots_ending(patterns, text, starts - 1, end) + spots_between(
            patterns,
            text,
            starts - 1,
            end,
        )
    }
}

/// Every place a pattern occurs at, overlapping or not: by end, then by start,
/// then by pattern. Ends up to `ends` only.
pub open spec fn spots_upto(patterns: Seq<Seq<char>>, text: Seq<char>, ends: int) -> Seq<Spot>
    decreases ends,
{
    if ends <= 0 {
        seq![]
    } else {
        spots_upto(patterns, text, ends - 1) + spots_ending(patterns, text, ends, ends)
    }
}

/// Every place a pattern occurs at, overlapping or not: by end, then by start,
/// then by pattern.
pub open spec fn spots(patterns: Seq<Seq<char>>, text: Seq<char>) -> Seq<Spot> {
    spots_upto(patterns, text, text.len() as int)
}

/// The byte a character starts at.
pub open spec fn byte_of(text: Seq<char>, at: int) -> nat {
    encode_utf8(text.take(at)).len()
}

/// The same places in bytes.
pub open spec fn is_in_bytes(found: Seq<Found>, spots: Seq<Spot>, text: Seq<char>) -> bool {
    &&& found.len() == spots.len()
    &&& forall|i: int|
        0 <= i < spots.len() ==> (#[trigger] found[i]).pattern == spots[i].pattern
            && found[i].start == byte_of(text, spots[i].start) && found[i].end == byte_of(
            text,
            spots[i].end,
        )
}

/// `AhoCorasick::new` of aho-corasick, in its standard match semantics:
/// whether it can be built depends on the patterns alone, and what is built
/// looks for exactly these patterns.
#[verifier::external_body]
pub(crate) fn automaton(patterns: &Vec<String>) -> (r: Result<AhoCorasick, String>)
    ensures
        match r {
            Ok(ac) => automaton_fault(views(patterns@)) is None && automaton_patterns(ac) == views(
                patterns@,
            ),
            Err(why) => automaton_fault(views(patterns@)) == Some(why@),
        },
{
    AhoCorasick::new(patterns).map_err(|e| e.to_string())
}

/// `AhoCorasick::find_overlapping_iter` of aho-corasick: every occurrence of
/// every pattern, by the byte it ends at, the longer before the shorter, and
/// equal patterns in the order they were given. Occurrences of a non-empty
/// string in a string begin and end between characters.
#[verifier::external_body]
pub(crate) fn find_overlapping(ac: &AhoCorasick, text: &str) -> (r: Vec<Found>)
    requires
        forall|p: int|
            0 <= p < automaton_patterns(*ac).len() ==> (#[trigger] automaton_patterns(
                *ac,
            )[p]).len() > 0,
    ensures
        is_in_bytes(r@, spots(automaton_patterns(*ac), text@), text@),
{
    ac.find_overlapping_iter(text).map(
        |m| Found { pattern: m.pattern().as_usize(), start: m.start(), end: m.end() },
    ).collect()
}

/// Whether any of the patterns occurs in a text.
pub open spec fn any_occurs(patterns: Seq<Seq<char>>, text: Seq<char>) -> bool {
    exists|p: int| 0 <= p < patterns.len() && occurs(text, #[trigger] patterns[p])
}

/// `AhoCorasick::is_match` of aho-corasick: whether any pattern occurs.
#[verifier::external_body]
pub(crate) fn finds_any(ac: &AhoCorasick, text: &str) -> (r: bool)
    ensures
        r == any_occurs(automaton_patterns(*ac), text@),
{
    ac.is_match(text)
}

/// Why an expression would not compile.
#[derive(Debug)]
pub enum RegexFault {
    /// Its syntax is at fault, in the words of the parser.
    Syntax(String),
    /// Compiled it would take more bytes than allowed.
    TooBig(usize),
}

/// `Regex::new` of regex: whether the syntax is sound depends on the
/// expression alone, and a sound one is refused only for its compiled size,
/// which depends on the machine as well.
#[verifier::external_body]
pub(crate) fn compile(pattern: &str) -> (r: Result<Regex, RegexFault>)
    ensures
        match r {
            Ok(re) => regex_fault(pattern@) is None && regex_source(re) == pattern@,
            Err(RegexFault::Syntax(why)) => regex_fault(pattern@) == Some(why@),
            Err(RegexFault::TooBig(_)) => regex_fault(pattern@) is None,
        },
{
    Regex::new(pattern).map_err(
        |e|
            match e {
                regex::Error::CompiledTooBig(limit) => RegexFault::TooBig(limit),
                other => RegexFault::Syntax(other.to_string()),
            },
    )
}

/// `Regex::find` of regex: the text of the leftmost match, a function of the
/// expression and the text alone.
#[verifier::external_body]
pub(crate) fn first_match(re: &Regex, text: &str) -> (r: Option<String>)
    ensures
        opt_view(r) == regex_match(regex_source(*re), text@),
{
    re.find(text).map(|m| m.as_str().to_string())
}

// --- from bytes to characters --------------------------------------------

/// How many bytes a character takes.
pub open spec fn width_of(c: char) -> nat {
    vstd::utf8::encode_scalar(c as u32).len()
}

fn width(c: char) -> (r: usize)
    ensures
        r == width_of(c),
        1 <= r <= 4,
{
    let v: u32 = c as u32;
    if v <= 0x7f {
        1
    } else if v <= 0x7ff {
        2
    } else if v <= 0xffff {
        3
    } else {
        4
    }
}

proof fn lemma_encode_push(s: Seq<char>, c: char)
    ensures
        encode_utf8(s.push(c)) == encode_utf8(s) + vstd::utf8::encode_scalar(c as u32),
    decreases s.len(),
{
    if s.len() == 0 {
        let none = Seq::<char>::empty();
        assert(s.push(c).drop_first() =~= none);
        assert(encode_utf8(none) =~= Seq::<u8>::empty());
        assert(encode_utf8(s) =~= Seq::<u8>::empty());
        assert(s.push(c)[0] == c);
        assert(encode_utf8(s.push(c)) =~= encode_utf8(s) + vstd::utf8::encode_scalar(c as u32));
    } else {
        assert(s.push(c).drop_first() =~= s.drop_first().push(c));
        lemma_encode_push(s.drop_first(), c);
        assert(encode_utf8(s.push(c)) =~= encode_utf8(s) + vstd::utf8::encode_scalar(c as u32));
    }
}

proof fn lemma_byte_of_next(text: Seq<char>, at: int)
    requires
        0 <= at < text.len(),
    ensures
        byte_of(text, at + 1) == byte_of(text, at) + width_of(text[at]),
        1 <= width_of(text[at]) <= 4,
{
    assert(text.take(at + 1) =~= text.take(at).push(text[at]));
    lemma_encode_push(text.take(at), text[at]);
}

proof fn lemma_byte_of_ascends(text: Seq<char>, a: int, b: int)
    requires
        0 <= a < b <= text.len(),
    ensures
        byte_of(text, a) < byte_of(text, b),
    decreases b - a,
{
    lemma_byte_of_next(text, b - 1);
    if a < b - 1 {
        lemma_byte_of_ascends(text, a, b - 1);
    }
}

/// The character that starts at a byte.
fn char_at(chars: &Vec<char>, byte: usize, Ghost(at): Ghost<int>) -> (r: usize)
    requires
        0 <= at <= chars@.len(),
        byte == byte_of(chars@, at),
    ensures
        r == at,
{
    let mut i: usize = 0;
    let mut b: usize = 0;
    let count: usize = chars.len();
    assert(chars@.take(0) =~= Seq::<char>::empty());
    while b < byte
        invariant
            0 <= at <= count,
            count == chars@.len(),
            byte == byte_of(chars@, at),
            i <= at,
            b == byte_of(chars@, i as int),
            b <= byte,
        decreases at - i,
    {
        proof {
            if i == at {
                assert(false);
            }
            lemma_byte_of_next(chars@, i as int);
            if i + 1 < at {
                lemma_byte_of_ascends(chars@, i + 1, at);
            }
        }
        b = b + width(chars[i]);
        i += 1;
    }
    proof {
        if i < at {
            lemma_byte_of_ascends(chars@, i as int, at);
        }
    }
    i
}

/// A pattern found: which one, and the characters it starts and ends at.
#[derive(Debug, Clone, Copy, PartialEq, Eq, Structural)]
pub struct Place {
    pub pattern: usize,
    pub start: usize,
    pub end: usize,
}

/// The same places, as machine integers.
pub open spec fn is_in_chars(found: Seq<Place>, spots: Seq<Spot>) -> bool {
    &&& found.len() == spots.len()
    &&& forall|i: int|
        0 <= i < spots.len() ==> (#[trigger] found[i]).pattern == spots[i].pattern
            && found[i].start == spots[i].start && found[i].end == spots[i].end
}

/// What every spot keeps: it names a pattern, and lies in the text.
pub open spec fn sound_spots(spots: Seq<Spot>, patterns: Seq<Seq<char>>, text: Seq<char>) -> bool {
    forall|i: int|
        0 <= i < spots.len() ==> {
            let s = #[trigger] spots[i];
            &&& 0 <= s.pattern < patterns.len()
            &&& 0 <= s.start
            &&& s.end == s.start + patterns[s.pattern].len()
            &&& s.end <= text.len()
            &&& occurs_at(text, patterns[s.pattern], s.start)
        }
}

proof fn lemma_spots_between(patterns: Seq<Seq<char>>, text: Seq<char>, start: int, end: int)
    requires
        0 <= start,
    ensures
        sound_spots(spots_between(patterns, text, start, end), patterns, text),
    decreases patterns.len(),
{
    if patterns.len() > 0 {
        let init = patterns.drop_last();
        lemma_spots_between(init, text, start, end);
        let was = spots_between(init, text, start, end);
        let now = spots_between(patterns, text, start, end);
        assert forall|i: int| 0 <= i < now.len() implies {
            let s = #[trigger] now[i];
            &&& 0 <= s.pattern < patterns.len()
            &&& 0 <= s.start
            &&& s.end == s.start + patterns[s.pattern].len()
            &&& s.end <= text.len()
            &&& occurs_at(text, patterns[s.pattern], s.start)
        } by {
            if i < was.len() {
                assert(now[i] == was[i]);
                assert(init[was[i].pattern] == patterns[was[i].pattern]);
            }
        }
    }
}

proof fn lemma_sound_add(
    a: Seq<Spot>,
    b: Seq<Spot>,
    patterns: Seq<Seq<char>>,
    text: Seq<char>,
)
    requires
        sound_spots(a, patterns, text),
        sound_spots(b, patterns, text),
    ensures
        sound_spots(a + b, patterns, text),
{
    let c = a + b;
    assert forall|i: int| 0 <= i < c.len() implies {
        let s = #[trigger] c[i];
        &&& 0 <= s.pattern < patterns.len()
        &&& 0 <= s.start
        &&& s.end == s.start + patterns[s.pattern].len()
        &&& s.end <= text.len()
        &&& occurs_at(text, patterns[s.pattern], s.start)
    } by {
        if i < a.len() {
            assert(c[i] == a[i]);
        } else {
            assert(c[i] == b[i - a.len()]);
        }
    }
}

proof fn lemma_spots_ending(patterns: Seq<Seq<char>>, text: Seq<char>, starts: int, end: int)
    ensures
        sound_spots(spots_ending(patterns, text, starts, end), patterns, text),
    decreases starts,
{
    if starts > 0 {
        lemma_spots_ending(patterns, text, starts - 1, end);
        lemma_spots_between(patterns, text, starts - 1, end);
        lemma_sound_add(
            spots_ending(patterns, text, starts - 1, end),
            spots_between(patterns, text, starts - 1, end),
            patterns,
            text,
        );
    }
}

proof fn lemma_spots_upto(patterns: Seq<Seq<char>>, text: Seq<char>, ends: int)
    ensures
        sound_spots(spots_upto(patterns, text, ends), patterns, text),
    decreases ends,
{
    if ends > 0 {
        lemma_spots_upto(patterns, text, ends - 1);
        lemma_spots_ending(patterns, text, ends, ends);
        lemma_sound_add(
            spots_upto(patterns, text, ends - 1),
            spots_ending(patterns, text, ends, ends),
            patterns,
            text,
        );
    }
}

/// Every place found holds the pattern it names.
pub proof fn lemma_spots(patterns: Seq<Seq<char>>, text: Seq<char>)
    ensures
        sound_spots(spots(patterns, text), patterns, text),
{
    lemma_spots_upto(patterns, text, text.len() as int);
}

/// Nothing is missed: wherever a pattern occurs, it is among the places found.
pub proof fn law_every_occurrence_is_found(
    patterns: Seq<Seq<char>>,
    text: Seq<char>,
    p: int,
    start: int,
)
    requires
        0 <= p < patterns.len(),
        patterns[p].len() > 0,
        0 <= start,
        occurs_at(text, patterns[p], start),
    ensures
        spots(patterns, text).contains(
            (Spot { pattern: p, start, end: start + patterns[p].len() }),
        ),
{
    let end = start + patterns[p].len();
    let s = Spot { pattern: p, start, end };
    lemma_found_between(patterns, text, p, start);
    lemma_found_ending(patterns, text, s, end);
    lemma_found_upto(patterns, text, s, text.len() as int);
}

proof fn lemma_found_between(patterns: Seq<Seq<char>>, text: Seq<char>, p: int, start: int)
    requires
        0 <= p < patterns.len(),
        occurs_at(text, patterns[p], start),
    ensures
        spots_between(patterns, text, start, start + patterns[p].len()).contains(
            (Spot { pattern: p, start, end: start + patterns[p].len() }),
        ),
    decreases patterns.len(),
{
    let end = start + patterns[p].len();
    let s = Spot { pattern: p, start, end };
    let init = patterns.drop_last();
    let now = spots_between(patterns, text, start, end);
    let was = spots_between(init, text, start, end);
    if p < init.len() {
        assert(init[p] == patterns[p]);
        lemma_found_between(init, text, p, start);
        let k = choose|k: int| 0 <= k < was.len() && was[k] == s;
        assert(now[k] == s);
    } else {
        assert(now[now.len() - 1] == s);
    }
}

proof fn lemma_found_ending(patterns: Seq<Seq<char>>, text: Seq<char>, s: Spot, starts: int)
    requires
        0 <= s.start < starts,
        spots_between(patterns, text, s.start, s.end).contains(s),
    ensures
        spots_ending(patterns, text, starts, s.end).contains(s),
    decreases starts,
{
    let a = spots_ending(patterns, text, starts - 1, s.end);
    let b = spots_between(patterns, text, starts - 1, s.end);
    let now = spots_ending(patterns, text, starts, s.end);
    if s.start == starts - 1 {
        let k = choose|k: int| 0 <= k < b.len() && b[k] == s;
        assert(now[a.len() + k] == s);
    } else {
        lemma_found_ending(patterns, text, s, starts - 1);
        let k = choose|k: int| 0 <= k < a.len() && a[k] == s;
        assert(now[k] == s);
    }
}

proof fn lemma_found_upto(patterns: Seq<Seq<char>>, text: Seq<char>, s: Spot, ends: int)
    requires
        0 < s.end <= ends,
        spots_ending(patterns, text, s.end, s.end).contains(s),
    ensures
        spots_upto(patterns, text, ends).contains(s),
    decreases ends,
{
    let a = spots_upto(patterns, text, ends - 1);
    let b = spots_ending(patterns, text, ends, ends);
    let now = spots_upto(patterns, text, ends);
    if s.end == ends {
        let k = choose|k: int| 0 <= k < b.len() && b[k] == s;
        assert(now[a.len() + k] == s);
    } else {
        lemma_found_upto(patterns, text, s, ends - 1);
        let k = choose|k: int| 0 <= k < a.len() && a[k] == s;
        assert(now[k] == s);
    }
}

/// Every place a pattern of the automaton occurs at, in characters.
pub fn find_all(ac: &AhoCorasick, text: &str) -> (r: Vec<Place>)
    requires
        forall|p: int|
            0 <= p < automaton_patterns(*ac).len() ==> (#[trigger] automaton_patterns(
                *ac,
            )[p]).len() > 0,
    ensures
        is_in_chars(r@, spots(automaton_patterns(*ac), text@)),
{
    let found: Vec<Found> = find_overlapping(ac, text);
    let chars: Vec<char> = crate::text::chars_of(text);
    let ghost all = spots(automaton_patterns(*ac), text@);
    proof {
        lemma_spots(automaton_patterns(*ac), text@);
    }
    let mut out: Vec<Place> = Vec::new();
    let mut i: usize = 0;
    while i < found.len()
        invariant
            i <= found@.len(),
            chars@ == text@,
            all == spots(automaton_patterns(*ac), text@),
            sound_spots(all, automaton_patterns(*ac), text@),
            is_in_bytes(found@, all, text@),
            out@.len() == i,
            forall|k: int|
                0 <= k < i ==> (#[trigger] out@[k]).pattern == all[k].pattern && out@[k].start
                    == all[k].start && out@[k].end == all[k].end,
        decreases found@.len() - i,
    {
        let f: Found = found[i];
        assert(f == found@[i as int]);
        assert(all[i as int].end <= text@.len());
        let start: usize = char_at(&chars, f.start, Ghost(all[i as int].start));
        let end: usize = char_at(&chars, f.end, Ghost(all[i as int].end));
        out.push(Place { pattern: f.pattern, start, end });
        i += 1;
    }
    out
}

proof fn lemma_between_places(patterns: Seq<Seq<char>>, text: Seq<char>, start: int, end: int)
    ensures
        forall|i: int|
            0 <= i < spots_between(patterns, text, start, end).len() ==> (#[trigger] spots_between(
                patterns,
                text,
                start,
                end,
            )[i]).start == start && spots_between(patterns, text, start, end)[i].end == end,
    decreases patterns.len(),
{
    if patterns.len() > 0 {
        lemma_between_places(patterns.drop_last(), text, start, end);
        let init = spots_between(patterns.drop_last(), text, start, end);
        let all = spots_between(patterns, text, start, end);
        assert forall|i: int| 0 <= i < all.len() implies (#[trigger] all[i]).start == start
            && all[i].end == end by {
            if i < init.len() {
                assert(all[i] == init[i]);
            }
        }
    }
}

proof fn lemma_ending_places(patterns: Seq<Seq<char>>, text: Seq<char>, starts: int, end: int)
    ensures
        forall|i: int|
            0 <= i < spots_ending(patterns, text, starts, end).len() ==> (#[trigger] spots_ending(
                patterns,
                text,
                starts,
                end,
            )[i]).start < starts && spots_ending(patterns, text, starts, end)[i].end == end,
        forall|i: int, j: int|
            0 <= i < j < spots_ending(patterns, text, starts, end).len() ==> (
            #[trigger] spots_ending(patterns, text, starts, end)[i]).start <= (
            #[trigger] spots_ending(patterns, text, starts, end)[j]).start,
    decreases starts,
{
    if starts > 0 {
        lemma_ending_places(patterns, text, starts - 1, end);
        lemma_between_places(patterns, text, starts - 1, end);
        let (a, b) = (
            spots_ending(patterns, text, starts - 1, end),
            spots_between(patterns, text, starts - 1, end),
        );
        let all = spots_ending(patterns, text, starts, end);
        assert(all == a + b);
        assert forall|i: int| 0 <= i < all.len() implies (#[trigger] all[i]).start < starts
            && all[i].end == end by {
            if i < a.len() {
                assert(all[i] == a[i]);
            } else {
                assert(all[i] == b[i - a.len()]);
            }
        }
        assert forall|i: int, j: int| 0 <= i < j < all.len() implies (#[trigger] all[i]).start <= (
        #[trigger] all[j]).start by {
            if j < a.len() {
                assert(all[i] == a[i] && all[j] == a[j]);
            } else {
                assert(all[j] == b[j - a.len()]);
                if i < a.len() {
                    assert(all[i] == a[i]);
                } else {
                    assert(all[i] == b[i - a.len()]);
                }
            }
        }
    }
}

proof fn lemma_upto_places(patterns: Seq<Seq<char>>, text: Seq<char>, ends: int)
    ensures
        forall|i: int|
            0 <= i < spots_upto(patterns, text, ends).len() ==> (#[trigger] spots_upto(
                patterns,
                text,
                ends,
            )[i]).end <= ends,
        forall|i: int, j: int|
            0 <= i < j < spots_upto(patterns, text, ends).len() ==> comes_before(
                #[trigger] spots_upto(patterns, text, ends)[i],
                #[trigger] spots_upto(patterns, text, ends)[j],
            ),
    decreases ends,
{
    if ends > 0 {
        lemma_upto_places(patterns, text, ends - 1);
        lemma_ending_places(patterns, text, ends, ends);
        let (a, b) = (
            spots_upto(patterns, text, ends - 1),
            spots_ending(patterns, text, ends, ends),
        );
        let all = spots_upto(patterns, text, ends);
        assert(all == a + b);
        assert forall|i: int| 0 <= i < all.len() implies (#[trigger] all[i]).end <= ends by {
            if i < a.len() {
                assert(all[i] == a[i]);
            } else {
                assert(all[i] == b[i - a.len()]);
            }
        }
        assert forall|i: int, j: int| 0 <= i < j < all.len() implies comes_before(
            #[trigger] all[i],
            #[trigger] all[j],
        ) by {
            if j < a.len() {
                assert(all[i] == a[i] && all[j] == a[j]);
            } else {
                assert(all[j] == b[j - a.len()]);
                if i < a.len() {
                    assert(all[i] == a[i]);
                } else {
                    assert(all[i] == b[i - a.len()]);
                }
            }
        }
    }
}

/// The place ends sooner, or ends there too and begins no later.
pub open spec fn comes_before(a: Spot, b: Spot) -> bool {
    a.end < b.end || (a.end == b.end && a.start <= b.start)
}

/// Places come by where they end, and the longer first of those that end
/// together.
pub proof fn law_places_come_by_their_end(
    patterns: Seq<Seq<char>>,
    text: Seq<char>,
    i: int,
    j: int,
)
    requires
        0 <= i < j < spots(patterns, text).len(),
    ensures
        ({
            let (a, b) = (spots(patterns, text)[i], spots(patterns, text)[j]);
            a.end < b.end || (a.end == b.end && a.start <= b.start)
        }),
{
    lemma_upto_places(patterns, text, text.len() as int);
    assert(comes_before(spots(patterns, text)[i], spots(patterns, text)[j]));
}

} // verus!
