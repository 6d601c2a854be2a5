//! One representation for matching: letters only, no separators, homoglyphs,
//! leet and transliteration folded in, searched by substring. Morphology and
//! multi-word terms come free; word-boundary noise is the price.

use crate::text::chars_of;
use crate::unicode::{
    alphabetic, alphanumeric, lowercase, lowercase_of, nfkc, nfkc_of, skeleton, skeleton_of,
    whitespace,
};
use vstd::prelude::*;

verus! {

/// A normalized text and the way back from it to its source.
#[derive(Debug, Clone, Default)]
pub struct Normalized {
    /// Letters only, no separators.
    pub text: String,
    /// For every char of `text`, the index of the source char.
    pub map: Vec<usize>,
    /// Source chars a word starts at.
    pub starts: Vec<bool>,
    /// Length in chars of the word a source char belongs to; 0 for whitespace.
    pub word_len: Vec<u16>,
}

// --- folding one character -----------------------------------------------

/// A combining mark.
pub open spec fn combining(c: char) -> bool {
    let u = c as u32;
    ||| 0x0300 <= u <= 0x036F
    ||| 0x1AB0 <= u <= 0x1AFF
    ||| 0x1DC0 <= u <= 0x1DFF
    ||| 0x20D0 <= u <= 0x20F0
    ||| 0xFE20 <= u <= 0xFE2F
}

pub fn is_combining(c: char) -> (r: bool)
    ensures
        r == combining(c),
{
    let u: u32 = c as u32;
    (0x0300 <= u && u <= 0x036F) || (0x1AB0 <= u && u <= 0x1AFF) || (0x1DC0 <= u && u <= 0x1DFF)
        || (0x20D0 <= u && u <= 0x20F0) || (0xFE20 <= u && u <= 0xFE2F)
}

/// Combining marks dropped, the rest in lower case.
pub open spec fn lowered(s: Seq<char>) -> Seq<char>
    decreases s.len(),
{
    if s.len() == 0 {
        seq![]
    } else {
        lowered(s.drop_last()) + (if combining(s.last()) {
            seq![]
        } else {
            lowercase_of(s.last())
        })
    }
}

/// NFKC, then combining marks dropped, then lower case.
pub open spec fn folded(c: char) -> Seq<char> {
    lowered(nfkc_of(c))
}

/// NFKC → drop combining marks → lowercase. No skeleton: that comes last.
pub fn fold_char(c: char) -> (r: Vec<char>)
    ensures
        r@ == folded(c),
{
    let form: Vec<char> = nfkc(c);
    let mut out: Vec<char> = Vec::new();
    let mut i: usize = 0;
    while i < form.len()
        invariant
            i <= form@.len(),
            out@ == lowered(form@.take(i as int)),
        decreases form@.len() - i,
    {
        assert(form@.take(i + 1).drop_last() =~= form@.take(i as int));
        if !is_combining(form[i]) {
            let mut low: Vec<char> = lowercase(form[i]);
            out.append(&mut low);
        }
        i += 1;
        assert(out@ =~= lowered(form@.take(i as int)));
    }
    assert(form@.take(i as int) =~= form@);
    out
}

/// What a digit or symbol used in place of a letter stands for.
pub open spec fn leet_of(c: char) -> char {
    match c {
        '0' => 'o',
        '1' => 'i',
        '@' => 'a',
        '$' => 's',
        '3' => 'з',
        '4' => 'ч',
        '6' => 'б',
        '7' => 'т',
        '8' => 'в',
        _ => c,
    }
}

/// Digits and symbols used in place of letters. Which alphabet they land in
/// does not matter: skeleton folds Latin `o` and Cyrillic `о` at the end.
pub fn leet(c: char) -> (r: char)
    ensures
        r == leet_of(c),
{
    match c {
        '0' => 'o',
        '1' => 'i',
        '@' => 'a',
        '$' => 's',
        '3' => 'з',
        '4' => 'ч',
        '6' => 'б',
        '7' => 'т',
        '8' => 'в',
        _ => c,
    }
}

/// A letter of the Latin alphabet without diacritics.
pub open spec fn latin(c: char) -> bool {
    ('a' <= c && c <= 'z') || ('A' <= c && c <= 'Z')
}

fn is_latin(c: char) -> (r: bool)
    ensures
        r == latin(c),
{
    ('a' <= c && c <= 'z') || ('A' <= c && c <= 'Z')
}

/// Latin letters that look like Cyrillic ones (а с е о р х у). Only these
/// mean a look-alike substitution rather than transliteration.
pub open spec fn homoglyph(c: char) -> bool {
    c == 'a' || c == 'c' || c == 'e' || c == 'o' || c == 'p' || c == 'x' || c == 'y'
}

fn is_homoglyph(c: char) -> (r: bool)
    ensures
        r == homoglyph(c),
{
    c == 'a' || c == 'c' || c == 'e' || c == 'o' || c == 'p' || c == 'x' || c == 'y'
}

// --- transliteration -----------------------------------------------------

/// A combination of Latin letters at the head of a text that is read as one
/// sound: how many letters it takes, and its Cyrillic spelling. Longer
/// combinations come first.
pub open spec fn digraph(s: Seq<char>) -> Option<(int, Seq<char>)> {
    if s.len() >= 4 && s[0] == 's' && s[1] == 'h' && s[2] == 'c' && s[3] == 'h' {
        Some((4, seq!['щ']))
    } else if s.len() >= 3 && s[0] == 's' && s[1] == 'c' && s[2] == 'h' {
        Some((3, seq!['щ']))
    } else if s.len() < 2 {
        None
    } else {
        match (s[0], s[1]) {
            ('z', 'h') => Some((2, seq!['ж'])),
            ('k', 'h') => Some((2, seq!['х'])),
            ('c', 'h') => Some((2, seq!['ч'])),
            ('s', 'h') => Some((2, seq!['ш'])),
            ('t', 's') => Some((2, seq!['ц'])),
            ('y', 'u') => Some((2, seq!['ю'])),
            ('y', 'a') => Some((2, seq!['я'])),
            ('y', 'o') => Some((2, seq!['ё'])),
            ('y', 'e') => Some((2, seq!['е'])),
            ('i', 'y') => Some((2, seq!['и', 'й'])),
            ('a', 'y') => Some((2, seq!['а', 'й'])),
            ('o', 'y') => Some((2, seq!['о', 'й'])),
            ('e', 'y') => Some((2, seq!['е', 'й'])),
            _ => None,
        }
    }
}

/// The Cyrillic spelling of a single Latin letter; any other character stays.
pub open spec fn monograph(c: char) -> Seq<char> {
    match c {
        'a' => seq!['а'],
        'b' => seq!['б'],
        'c' => seq!['ц'],
        'd' => seq!['д'],
        'e' => seq!['е'],
        'f' => seq!['ф'],
        'g' => seq!['г'],
        'h' => seq!['х'],
        'i' => seq!['и'],
        'j' => seq!['ж'],
        'k' => seq!['к'],
        'l' => seq!['л'],
        'm' => seq!['м'],
        'n' => seq!['н'],
        'o' => seq!['о'],
        'p' => seq!['п'],
        'q' => seq!['к'],
        'r' => seq!['р'],
        's' => seq!['с'],
        't' => seq!['т'],
        'u' => seq!['у'],
        'v' => seq!['в'],
        'w' => seq!['в'],
        'x' => seq!['к', 'с'],
        'y' => seq!['ы'],
        'z' => seq!['з'],
        _ => seq![c],
    }
}

/// Latin → Cyrillic, greedy on the longer combinations.
pub open spec fn transliterated(s: Seq<char>) -> Seq<char>
    decreases s.len(),
{
    if s.len() == 0 {
        seq![]
    } else {
        match digraph(s) {
            Some((n, spelling)) => spelling + transliterated(s.skip(n)),
            None => monograph(s[0]) + transliterated(s.drop_first()),
        }
    }
}

/// The second letter of a combination, as the pair spells it.
fn push_pair(out: &mut Vec<char>, a: char, b: char) -> (hit: bool)
    requires
        !(a == 's' && b == 'c'),
    ensures
        hit == (digraph(seq![a, b]) is Some),
        hit ==> final(out)@ == old(out)@ + (digraph(seq![a, b])->0).1,
        !hit ==> final(out)@ == old(out)@,
{
    let (one, two): (char, Option<char>) = match (a, b) {
        ('z', 'h') => ('ж', None),
        ('k', 'h') => ('х', None),
        ('c', 'h') => ('ч', None),
        ('s', 'h') => ('ш', None),
        ('t', 's') => ('ц', None),
        ('y', 'u') => ('ю', None),
        ('y', 'a') => ('я', None),
        ('y', 'o') => ('ё', None),
        ('y', 'e') => ('е', None),
        ('i', 'y') => ('и', Some('й')),
        ('a', 'y') => ('а', Some('й')),
        ('o', 'y') => ('о', Some('й')),
        ('e', 'y') => ('е', Some('й')),
        _ => {
            return false;
        },
    };
    out.push(one);
    if let Some(c) = two {
        out.push(c);
    }
    assert(out@ =~= old(out)@ + (digraph(seq![a, b])->0).1);
    true
}

fn push_single(out: &mut Vec<char>, c: char)
    ensures
        final(out)@ == old(out)@ + monograph(c),
{
    let one: char = match c {
        'a' => 'а',
        'b' => 'б',
        'c' => 'ц',
        'd' => 'д',
        'e' => 'е',
        'f' => 'ф',
        'g' => 'г',
        'h' => 'х',
        'i' => 'и',
        'j' => 'ж',
        'k' => 'к',
        'l' => 'л',
        'm' => 'м',
        'n' => 'н',
        'o' => 'о',
        'p' => 'п',
        'q' => 'к',
        'r' => 'р',
        's' => 'с',
        't' => 'т',
        'u' => 'у',
        'v' => 'в',
        'w' => 'в',
        'x' => 'к',
        'y' => 'ы',
        'z' => 'з',
        _ => c,
    };
    out.push(one);
    if c == 'x' {
        out.push('с');
    }
    assert(out@ =~= old(out)@ + monograph(c));
}

/// Latin → Cyrillic, greedy on the longer digraphs. Lossy by design: the
/// goal is recall, not reversibility.
pub fn translit(cs: &[char]) -> (r: Vec<char>)
    ensures
        r@ == transliterated(cs@),
{
    let n: usize = cs.len();
    let mut out: Vec<char> = Vec::new();
    let mut i: usize = 0;
    assert(cs@.skip(0) =~= cs@);
    while i < n
        invariant
            n == cs@.len(),
            i <= n,
            transliterated(cs@) == out@ + transliterated(cs@.skip(i as int)),
        decreases n - i,
    {
        let ghost rest = cs@.skip(i as int);
        let ghost was = out@;
        let left: usize = n - i;
        let mut used: usize = 1;
        if left >= 4 && cs[i] == 's' && cs[i + 1] == 'h' && cs[i + 2] == 'c' && cs[i + 3] == 'h' {
            out.push('щ');
            used = 4;
            assert(digraph(rest) == Some((4int, seq!['щ'])));
        } else if left >= 3 && cs[i] == 's' && cs[i + 1] == 'c' && cs[i + 2] == 'h' {
            out.push('щ');
            used = 3;
            assert(digraph(rest) == Some((3int, seq!['щ'])));
        } else if left >= 2 && !(cs[i] == 's' && cs[i + 1] == 'c') && push_pair(
            &mut out,
            cs[i],
            cs[i + 1],
        ) {
            used = 2;
            assert(digraph(rest) == digraph(seq![rest[0], rest[1]]));
        } else {
            push_single(&mut out, cs[i]);
            assert(digraph(rest) is None);
            assert(rest.drop_first() =~= rest.skip(1));
        }
        proof {
            let spelled = match digraph(rest) {
                Some((k, spelling)) => spelling,
                None => monograph(rest[0]),
            };
            assert(out@ =~= was + spelled);
            assert(rest.skip(used as int) =~= cs@.skip(i + used));
            assert(was + transliterated(rest) =~= out@ + transliterated(cs@.skip(i + used)));
        }
        i += used;
    }
    assert(cs@.skip(i as int) =~= Seq::<char>::empty());
    assert(transliterated(cs@) =~= out@);
    out
}

// --- words of the source -------------------------------------------------

/// Where words start, told from which chars are letters or digits.
pub open spec fn starts_of(word: Seq<bool>) -> Seq<bool> {
    Seq::new(word.len(), |i: int| word[i] && (i == 0 || !word[i - 1]))
}

/// Where the blank-separated word around a position begins.
pub open spec fn word_from(blank: Seq<bool>, i: int) -> int
    decreases i,
{
    if i <= 0 || blank[i - 1] {
        i
    } else {
        word_from(blank, i - 1)
    }
}

/// Where the blank-separated word around a position ends.
pub open spec fn word_to(blank: Seq<bool>, i: int) -> int
    decreases blank.len() - i,
{
    if i >= blank.len() || blank[i] {
        i
    } else {
        word_to(blank, i + 1)
    }
}

/// Length of the blank-separated word each char belongs to, as far as sixteen
/// bits can tell; 0 for a blank.
pub open spec fn lens_of(blank: Seq<bool>) -> Seq<u16> {
    Seq::new(
        blank.len(),
        |i: int|
            if blank[i] {
                0u16
            } else if word_to(blank, i) - word_from(blank, i) > u16::MAX {
                u16::MAX
            } else {
                (word_to(blank, i) - word_from(blank, i)) as u16
            },
    )
}

/// Source chars a word starts at.
pub open spec fn word_starts(src: Seq<char>) -> Seq<bool> {
    starts_of(Seq::new(src.len(), |i: int| alphanumeric(src[i])))
}

/// Length of the whitespace-separated word each source char belongs to, as far
/// as sixteen bits can tell; 0 for whitespace.
pub open spec fn word_lens(src: Seq<char>) -> Seq<u16> {
    lens_of(Seq::new(src.len(), |i: int| whitespace(src[i])))
}

proof fn lemma_word_from(blank: Seq<bool>, from: int, i: int)
    requires
        0 <= from <= i < blank.len(),
        from == 0 || blank[from - 1],
        forall|k: int| from <= k < i ==> !(#[trigger] blank[k]),
    ensures
        word_from(blank, i) == from,
    decreases i - from,
{
    if i > from {
        assert(!blank[i - 1]);
        lemma_word_from(blank, from, i - 1);
    }
}

proof fn lemma_word_to(blank: Seq<bool>, i: int, to: int)
    requires
        0 <= i <= to <= blank.len(),
        to == blank.len() || blank[to],
        forall|k: int| i <= k < to ==> !(#[trigger] blank[k]),
    ensures
        word_to(blank, i) == to,
    decreases to - i,
{
    if i < to {
        lemma_word_to(blank, i + 1, to);
    }
}

/// Where words start, told from which chars are letters or digits.
pub fn mark_starts(word: &Vec<bool>) -> (r: Vec<bool>)
    ensures
        r@ == starts_of(word@),
{
    let mut out: Vec<bool> = Vec::new();
    let mut i: usize = 0;
    while i < word.len()
        invariant
            i <= word@.len(),
            out@ == starts_of(word@).take(i as int),
        decreases word@.len() - i,
    {
        let begins: bool = word[i] && (i == 0 || !word[i - 1]);
        out.push(begins);
        i += 1;
        assert(out@ =~= starts_of(word@).take(i as int));
    }
    assert(starts_of(word@).take(i as int) =~= starts_of(word@));
    out
}

/// Length of the blank-separated word each char belongs to: it tells
/// deliberate letter-spacing (all fragments one letter long) from an
/// accidental match glued across a space.
pub fn measure_words(blank: &Vec<bool>) -> (r: Vec<u16>)
    ensures
        r@ == lens_of(blank@),
{
    let mut out: Vec<u16> = Vec::new();
    let mut i: usize = 0;
    while i < blank.len()
        invariant
            i <= blank@.len(),
            i == 0 || i == blank@.len() || blank@[i as int] || blank@[i - 1],
            out@ == lens_of(blank@).take(i as int),
        decreases blank@.len() - i,
    {
        if blank[i] {
            out.push(0);
            i += 1;
            assert(out@ =~= lens_of(blank@).take(i as int));
            continue ;
        }
        let start: usize = i;
        while i < blank.len() && !blank[i]
            invariant
                start <= i <= blank@.len(),
                forall|k: int| start <= k < i ==> !(#[trigger] blank@[k]),
            decreases blank@.len() - i,
        {
            i += 1;
        }
        let len: u16 = if i - start > 65535 {
            65535
        } else {
            (i - start) as u16
        };
        let mut j: usize = start;
        while j < i
            invariant
                start <= j <= i <= blank@.len(),
                start == 0 || blank@[start - 1],
                i == blank@.len() || blank@[i as int],
                forall|k: int| start <= k < i ==> !(#[trigger] blank@[k]),
                len == (if i - start > 65535 {
                    65535
                } else {
                    i - start
                }),
                out@ == lens_of(blank@).take(j as int),
            decreases i - j,
        {
            proof {
                lemma_word_from(blank@, start as int, j as int);
                lemma_word_to(blank@, j as int, i as int);
            }
            out.push(len);
            j += 1;
            assert(out@ =~= lens_of(blank@).take(j as int));
        }
    }
    assert(lens_of(blank@).take(i as int) =~= lens_of(blank@));
    out
}

// --- the collapsed form --------------------------------------------------

/// A folded char: where in the source it comes from, and what it is.
#[derive(Debug, Clone, Copy, PartialEq, Eq, Structural)]
pub struct Glyph {
    pub c: char,
    /// The index of the source char.
    pub at: usize,
    /// A letter, a digit, or a symbol that stands for a letter.
    pub word: bool,
    /// A letter.
    pub letter: bool,
    /// A letter once leet is folded.
    pub reads: bool,
}

/// Part of a chain: a letter or a digit, or a symbol that stands for a letter.
pub open spec fn in_chain(c: char) -> bool {
    alphanumeric(c) || alphanumeric(leet_of(c))
}

/// A folded char from a place of the source.
pub open spec fn glyph_of(c: char, at: usize) -> Glyph {
    Glyph {
        c,
        at,
        word: in_chain(c),
        letter: alphabetic(c),
        reads: alphabetic(leet_of(c)),
    }
}

/// Folded chars that all come from one place of the source.
pub open spec fn glyphs_of(s: Seq<char>, at: usize) -> Seq<Glyph> {
    Seq::new(s.len(), |i: int| glyph_of(s[i], at))
}

/// Chars that all come from one place of the source.
pub open spec fn tagged(s: Seq<char>, at: usize) -> Seq<(char, usize)> {
    Seq::new(s.len(), |i: int| (s[i], at))
}

/// The chars of a run of placed chars.
pub open spec fn letters(run: Seq<(char, usize)>) -> Seq<char> {
    Seq::new(run.len(), |i: int| run[i].0)
}

/// The places of a run of placed chars.
pub open spec fn places(run: Seq<(char, usize)>) -> Seq<usize> {
    Seq::new(run.len(), |i: int| run[i].1)
}

/// A char with leet folded.
pub open spec fn shown(g: Glyph) -> char {
    leet_of(g.c)
}

/// The letters of a segment, the rest left out.
pub open spec fn only_letters(seg: Seq<Glyph>) -> Seq<(char, usize)>
    decreases seg.len(),
{
    if seg.len() == 0 {
        seq![]
    } else if seg.last().reads {
        only_letters(seg.drop_last()).push((shown(seg.last()), seg.last().at))
    } else {
        only_letters(seg.drop_last())
    }
}

/// The chars of a segment with leet folded.
pub open spec fn spelling(seg: Seq<Glyph>) -> Seq<char> {
    Seq::new(seg.len(), |i: int| shown(seg[i]))
}

/// A Latin segment transliterated. Transliteration changes the length, so the
/// source positions are spread over the output proportionally.
pub open spec fn respelled(seg: Seq<Glyph>) -> Seq<(char, usize)> {
    let out = transliterated(spelling(seg));
    Seq::new(out.len(), |k: int| (out[k], seg[k * (seg.len() as int) / (out.len() as int)].at))
}

/// One segment of a run, of one script throughout. Latin inside a word is two
/// different things: a look-alike (`пyтин`), which the skeleton folds and
/// transliteration would break, and real transliteration (`красikov`).
/// Homoglyphs are a closed set of seven letters; transliteration uses any.
pub open spec fn segment(seg: Seq<Glyph>) -> Seq<(char, usize)> {
    let foreign = latin(shown(seg[0])) && exists|i: int|
        0 <= i < seg.len() && !homoglyph(shown(#[trigger] seg[i]));
    if foreign {
        respelled(seg)
    } else {
        only_letters(seg)
    }
}

/// How far the script of the first char reaches.
pub open spec fn script_len(run: Seq<Glyph>) -> int
    decreases run.len(),
{
    if run.len() == 0 {
        0
    } else if run.len() == 1 || latin(shown(run[1])) != latin(shown(run[0])) {
        1
    } else {
        1 + script_len(run.drop_first())
    }
}

/// Each segment of one script on its own.
pub open spec fn segments(run: Seq<Glyph>) -> Seq<(char, usize)>
    decreases run.len(),
{
    if run.len() == 0 {
        seq![]
    } else {
        let n = script_len(run);
        if 0 < n <= run.len() {
            segment(run.take(n)) + segments(run.skip(n))
        } else {
            seq![]
        }
    }
}

/// A chain with no separator, collapsed: letters, digits, and symbols that
/// stand for letters. A chain with no letter at all is a number, and leaves
/// nothing.
pub open spec fn collapsed(run: Seq<Glyph>) -> Seq<(char, usize)> {
    if exists|i: int| 0 <= i < run.len() && (#[trigger] run[i]).letter {
        segments(run)
    } else {
        seq![]
    }
}

/// The chain a stream of chars ends in.
pub open spec fn pending(stream: Seq<Glyph>) -> Seq<Glyph>
    decreases stream.len(),
{
    if stream.len() == 0 || !stream.last().word {
        seq![]
    } else {
        pending(stream.drop_last()).push(stream.last())
    }
}

/// What the chains that a separator has ended come to.
pub open spec fn settled(stream: Seq<Glyph>) -> Seq<(char, usize)>
    decreases stream.len(),
{
    if stream.len() == 0 {
        seq![]
    } else if stream.last().word {
        settled(stream.drop_last())
    } else {
        settled(stream.drop_last()) + collapsed(pending(stream.drop_last()))
    }
}

/// The chains of a stream, collapsed one after another.
pub open spec fn chained(s: Seq<Glyph>) -> Seq<(char, usize)> {
    settled(s) + collapsed(pending(s))
}

/// The source folded char by char, each with its position.
pub open spec fn stream(src: Seq<char>) -> Seq<Glyph>
    decreases src.len(),
{
    if src.len() == 0 {
        seq![]
    } else {
        stream(src.drop_last()) + glyphs_of(folded(src.last()), (src.len() - 1) as usize)
    }
}

/// The ideograph that stands in for a char that is no letter: neither a mark
/// nor a digit may stay, and none may be lost.
pub open spec fn stand_in(x: char) -> char {
    (0x20000 + x as int % 0xa6e0) as char
}

/// A char of a skeleton as a letter.
pub open spec fn letter_for(x: char) -> char {
    if alphabetic(x) {
        x
    } else {
        stand_in(x)
    }
}

/// A skeleton in letters alone: its marks and digits have their stand-ins, so
/// what `й` and `ё` look like still begins with what `и` and `е` look like, and
/// still goes on.
pub open spec fn lettered(skeleton: Seq<char>) -> Seq<char>
    decreases skeleton.len(),
{
    if skeleton.len() == 0 {
        seq![]
    } else if alphabetic(letter_for(skeleton.last())) {
        lettered(skeleton.drop_last()).push(letter_for(skeleton.last()))
    } else {
        lettered(skeleton.drop_last())
    }
}

/// The letters a letter is matched by: its skeleton, in letters alone.
pub open spec fn shape_of(c: char) -> Seq<char> {
    lettered(skeleton_of(c))
}

/// The shapes of placed chars: text, leet and transliteration land in one
/// alphabet.
pub open spec fn skeletons(run: Seq<(char, usize)>) -> Seq<(char, usize)>
    decreases run.len(),
{
    if run.len() == 0 {
        seq![]
    } else {
        skeletons(run.drop_last()) + tagged(shape_of(run.last().0), run.last().1)
    }
}

/// The normal form of a text: its letters, each with the source position it
/// comes from.
pub open spec fn normal(src: Seq<char>) -> Seq<(char, usize)> {
    skeletons(chained(stream(src)))
}

/// The letters of the normal form.
pub open spec fn normal_text(src: Seq<char>) -> Seq<char> {
    letters(normal(src))
}

proof fn lemma_script_len(run: Seq<Glyph>, n: int)
    requires
        0 < n <= run.len(),
        forall|k: int| 0 <= k < n ==> latin(shown(#[trigger] run[k])) == latin(shown(run[0])),
        n == run.len() || latin(shown(run[n])) != latin(shown(run[0])),
    ensures
        script_len(run) == n,
    decreases n,
{
    if n > 1 {
        assert(latin(shown(run[1])) == latin(shown(run[0])));
        let rest = run.drop_first();
        assert forall|k: int| 0 <= k < n - 1 implies latin(shown(#[trigger] rest[k])) == latin(
            shown(rest[0]),
        ) by {
            assert(rest[k] == run[k + 1]);
        }
        lemma_script_len(rest, n - 1);
    }
}

/// One segment of a run.
fn push_segment(out: &mut Vec<(char, usize)>, run: &Vec<Glyph>, from: usize, to: usize)
    requires
        from < to <= run@.len(),
    ensures
        final(out)@ == old(out)@ + segment(run@.subrange(from as int, to as int)),
{
    let ghost seg = run@.subrange(from as int, to as int);
    let mut foreign: bool = false;
    let mut raw: Vec<char> = Vec::new();
    let mut i: usize = from;
    while i < to
        invariant
            from <= i <= to <= run@.len(),
            seg == run@.subrange(from as int, to as int),
            raw@ == spelling(seg).take(i - from),
            foreign == exists|k: int| 0 <= k < i - from && !homoglyph(shown(#[trigger] seg[k])),
        decreases to - i,
    {
        assert(seg[i - from] == run@[i as int]);
        let c: char = leet(run[i].c);
        if !is_homoglyph(c) {
            foreign = true;
            assert(!homoglyph(shown(seg[i - from])));
        }
        raw.push(c);
        i += 1;
        assert(raw@ =~= spelling(seg).take(i - from));
    }
    assert(spelling(seg).take(to - from) =~= spelling(seg));
    assert(seg[0] == run@[from as int]);
    if is_latin(leet(run[from].c)) && foreign {
        let spelled: Vec<char> = translit(raw.as_slice());
        let ghost goal = respelled(seg);
        let n: usize = to - from;
        let m: usize = spelled.len();
        let mut k: usize = 0;
        assert(old(out)@ + goal.take(0) =~= old(out)@);
        while k < m
            invariant
                k <= m,
                m == spelled@.len(),
                n == to - from,
                from < to <= run@.len(),
                seg == run@.subrange(from as int, to as int),
                spelled@ == transliterated(spelling(seg)),
                goal == respelled(seg),
                out@ == old(out)@ + goal.take(k as int),
            decreases m - k,
        {
            proof {
                assert(0 <= k * n / (m as int) < n) by (nonlinear_arith)
                    requires
                        0 <= k < m,
                        0 < n,
                ;
                assert(k * n <= 0xffff_ffff_ffff_ffff * 0xffff_ffff_ffff_ffff) by (nonlinear_arith)
                    requires
                        0 <= k <= 0xffff_ffff_ffff_ffff,
                        0 <= n <= 0xffff_ffff_ffff_ffff,
                ;
            }
            let place: usize = ((k as u128) * (n as u128) / (m as u128)) as usize;
            assert(goal[k as int] == (spelled@[k as int], seg[place as int].at));
            out.push((spelled[k], run[from + place].at));
            k += 1;
            assert(out@ =~= old(out)@ + goal.take(k as int));
        }
        assert(goal.take(k as int) =~= goal);
    } else {
        let mut i: usize = from;
        assert(seg.take(0) =~= Seq::<Glyph>::empty());
        assert(old(out)@ + only_letters(seg.take(0)) =~= old(out)@);
        while i < to
            invariant
                from <= i <= to <= run@.len(),
                seg == run@.subrange(from as int, to as int),
                out@ == old(out)@ + only_letters(seg.take(i - from)),
            decreases to - i,
        {
            let g: Glyph = run[i];
            proof {
                assert(seg.take(i - from + 1).drop_last() =~= seg.take(i - from));
                assert(seg.take(i - from + 1).last() == g);
            }
            if g.reads {
                out.push((leet(g.c), g.at));
            }
            i += 1;
            assert(out@ =~= old(out)@ + only_letters(seg.take(i - from)));
        }
        assert(seg.take(i - from) =~= seg);
    }
}

/// Collapse a chain and start a new one.
fn flush(out: &mut Vec<(char, usize)>, run: &mut Vec<Glyph>)
    ensures
        final(out)@ == old(out)@ + collapsed(old(run)@),
        final(run)@ == Seq::<Glyph>::empty(),
{
    let mut lettered: bool = false;
    let mut i: usize = 0;
    while i < run.len()
        invariant
            i <= run@.len(),
            run@ == old(run)@,
            lettered == exists|k: int| 0 <= k < i && (#[trigger] run@[k]).letter,
        decreases run@.len() - i,
    {
        if run[i].letter {
            lettered = true;
            assert(run@[i as int].letter);
        }
        i += 1;
    }
    // A run with no letter at all is a number («2024»): dropped, or leet
    // would turn it into letters and glue it to its neighbours.
    if !lettered {
        assert(old(out)@ + collapsed(old(run)@) =~= old(out)@);
        run.clear();
        return ;
    }
    let ghost goal = run@;
    let mut at: usize = 0;
    assert(goal.skip(0) =~= goal);
    // Each Latin segment is transliterated on its own: one Cyrillic
    // letter used to switch transliteration off for the whole word.
    while at < run.len()
        invariant
            at <= run@.len(),
            run@ == goal,
            old(out)@ + segments(goal) == out@ + segments(goal.skip(at as int)),
        decreases run@.len() - at,
    {
        let script: bool = is_latin(leet(run[at].c));
        let start: usize = at;
        while at < run.len() && is_latin(leet(run[at].c)) == script
            invariant
                start <= at <= run@.len(),
                start < run@.len(),
                script == latin(shown(run@[start as int])),
                forall|k: int| start <= k < at ==> latin(shown(#[trigger] run@[k])) == script,
            decreases run@.len() - at,
        {
            at += 1;
        }
        let ghost was = out@;
        push_segment(out, run, start, at);
        proof {
            let rest = goal.skip(start as int);
            let n = at - start;
            assert(at > start);
            assert forall|k: int| 0 <= k < n implies latin(shown(#[trigger] rest[k])) == latin(
                shown(rest[0]),
            ) by {
                assert(rest[k] == run@[start + k]);
            }
            lemma_script_len(rest, n);
            assert(rest.take(n) =~= goal.subrange(start as int, at as int));
            assert(rest.skip(n) =~= goal.skip(at as int));
            let piece = segment(rest.take(n));
            assert(was + (piece + segments(goal.skip(at as int))) =~= (was + piece) + segments(
                goal.skip(at as int),
            ));
        }
    }
    proof {
        assert(goal.skip(at as int) =~= Seq::<Glyph>::empty());
        assert(out@ + segments(goal.skip(at as int)) =~= out@);
    }
    run.clear();
}

/// The chains of a stream, collapsed one after another. A run is a chain of
/// letters and digits with no separator. Collapsing runs is what defeats
/// `в.о.й.н.а`.
pub fn chain(glyphs: &Vec<Glyph>) -> (r: Vec<(char, usize)>)
    ensures
        r@ == chained(glyphs@),
{
    let mut run: Vec<Glyph> = Vec::new();
    let mut out: Vec<(char, usize)> = Vec::new();
    let mut i: usize = 0;
    assert(glyphs@.take(0) =~= Seq::<Glyph>::empty());
    while i < glyphs.len()
        invariant
            i <= glyphs@.len(),
            run@ == pending(glyphs@.take(i as int)),
            out@ == settled(glyphs@.take(i as int)),
        decreases glyphs@.len() - i,
    {
        let g: Glyph = glyphs[i];
        assert(glyphs@.take(i + 1).drop_last() =~= glyphs@.take(i as int));
        assert(glyphs@.take(i + 1).last() == g);
        if g.word {
            run.push(g);
        } else {
            flush(&mut out, &mut run);
        }
        i += 1;
    }
    assert(glyphs@.take(i as int) =~= glyphs@);
    flush(&mut out, &mut run);
    out
}

/// A normal form as plain values.
#[verifier::ext_equal]
pub struct NormalizedView {
    pub text: Seq<char>,
    pub map: Seq<usize>,
    pub starts: Seq<bool>,
    pub word_len: Seq<u16>,
}

impl View for Normalized {
    type V = NormalizedView;

    open spec fn view(&self) -> NormalizedView {
        NormalizedView {
            text: self.text@,
            map: self.map@,
            starts: self.starts@,
            word_len: self.word_len@,
        }
    }
}

/// The normal form of a text, with the way back to it.
pub open spec fn normalized(src: Seq<char>) -> NormalizedView {
    NormalizedView {
        text: letters(normal(src)),
        map: places(normal(src)),
        starts: word_starts(src),
        word_len: word_lens(src),
    }
}

impl NormalizedView {
    /// Every letter comes from somewhere in the source.
    pub open spec fn wf(&self) -> bool {
        &&& self.text.len() == self.map.len()
        &&& self.starts.len() == self.word_len.len()
        &&& forall|k: int|
            0 <= k < self.map.len() ==> (#[trigger] self.map[k]) < self.word_len.len()
    }

    /// The letter comes from a source char a word starts at.
    pub open spec fn begins_word(&self, start: int) -> bool {
        &&& 0 <= start < self.map.len()
        &&& self.map[start] < self.starts.len()
        &&& self.starts[self.map[start] as int]
    }

    /// The letters from `start` up to `end` stay inside one word of the
    /// source, or every word they touch is one char long.
    pub open spec fn one_word(&self, start: int, end: int) -> bool {
        let last = if end == 0 {
            0
        } else {
            end - 1
        };
        &&& 0 <= start < self.map.len()
        &&& last < self.map.len()
        &&& {
            let a = self.map[start] as int;
            let b = self.map[last] as int;
            ||| forall|i: int| a <= i <= b ==> (#[trigger] self.word_len[i]) != 0
            ||| forall|i: int| a <= i <= b ==> (#[trigger] self.word_len[i]) <= 1
        }
    }

    /// From the source char of the first letter to just past that of the last.
    pub open spec fn source_range(&self, start: int, end: int) -> Option<(usize, usize)> {
        if 0 <= start < self.map.len() && 0 < end <= self.map.len() {
            Some((self.map[start], (self.map[end - 1] + 1) as usize))
        } else {
            None
        }
    }
}

/// A char of a skeleton as a letter.
fn as_letter(x: char) -> (r: char)
    ensures
        r == letter_for(x),
{
    if x.is_alphabetic() {
        x
    } else {
        let code: u32 = 0x20000 + x as u32 % 0xa6e0;
        match char::from_u32(code) {
            Some(c) => c,
            None => x,
        }
    }
}

/// A skeleton in letters alone.
pub fn to_letters(skeleton: &[char]) -> (r: Vec<char>)
    ensures
        r@ == lettered(skeleton@),
{
    let mut out: Vec<char> = Vec::new();
    let mut i: usize = 0;
    assert(skeleton@.take(0) =~= Seq::<char>::empty());
    while i < skeleton.len()
        invariant
            i <= skeleton@.len(),
            out@ == lettered(skeleton@.take(i as int)),
        decreases skeleton@.len() - i,
    {
        assert(skeleton@.take(i + 1).drop_last() =~= skeleton@.take(i as int));
        let c: char = as_letter(skeleton[i]);
        if c.is_alphabetic() {
            out.push(c);
        }
        i += 1;
    }
    assert(skeleton@.take(i as int) =~= skeleton@);
    out
}

/// The letters a letter is matched by.
fn shape(c: char) -> (r: Vec<char>)
    ensures
        r@ == shape_of(c),
{
    to_letters(skeleton(c).as_slice())
}

/// The source folded char by char.
fn fold_all(chars: &Vec<char>) -> (r: Vec<Glyph>)
    ensures
        r@ == stream(chars@),
{
    let mut out: Vec<Glyph> = Vec::new();
    let mut i: usize = 0;
    assert(chars@.take(0) =~= Seq::<char>::empty());
    while i < chars.len()
        invariant
            i <= chars@.len(),
            out@ == stream(chars@.take(i as int)),
        decreases chars@.len() - i,
    {
        let fcs: Vec<char> = fold_char(chars[i]);
        let ghost base = out@;
        let ghost these = glyphs_of(fcs@, i);
        let mut j: usize = 0;
        assert(base + these.take(0) =~= base);
        while j < fcs.len()
            invariant
                j <= fcs@.len(),
                these == glyphs_of(fcs@, i),
                out@ == base + these.take(j as int),
            decreases fcs@.len() - j,
        {
            let c: char = fcs[j];
            // leet runs per char and before splitting: the `1` of `put1n` must
            // become a letter before we decide where the Latin segment ends.
            out.push(
                Glyph {
                    c,
                    at: i,
                    word: c.is_alphanumeric() || leet(c).is_alphanumeric(),
                    letter: c.is_alphabetic(),
                    reads: leet(c).is_alphabetic(),
                },
            );
            j += 1;
            assert(out@ =~= base + these.take(j as int));
        }
        proof {
            assert(these.take(j as int) =~= these);
            assert(chars@.take(i + 1).drop_last() =~= chars@.take(i as int));
        }
        i += 1;
    }
    assert(chars@.take(i as int) =~= chars@);
    out
}

fn which_are_words(chars: &Vec<char>) -> (r: Vec<bool>)
    ensures
        r@ == Seq::new(chars@.len(), |i: int| alphanumeric(chars@[i])),
{
    let mut out: Vec<bool> = Vec::new();
    let mut i: usize = 0;
    while i < chars.len()
        invariant
            i <= chars@.len(),
            out@.len() == i,
            forall|k: int| 0 <= k < i ==> #[trigger] out@[k] == alphanumeric(chars@[k]),
        decreases chars@.len() - i,
    {
        out.push(chars[i].is_alphanumeric());
        i += 1;
    }
    out
}

fn which_are_blank(chars: &Vec<char>) -> (r: Vec<bool>)
    ensures
        r@ == Seq::new(chars@.len(), |i: int| whitespace(chars@[i])),
{
    let mut out: Vec<bool> = Vec::new();
    let mut i: usize = 0;
    while i < chars.len()
        invariant
            i <= chars@.len(),
            out@.len() == i,
            forall|k: int| 0 <= k < i ==> #[trigger] out@[k] == whitespace(chars@[k]),
        decreases chars@.len() - i,
    {
        out.push(chars[i].is_whitespace());
        i += 1;
    }
    out
}

impl Normalized {
    /// The text is made of these placed chars.
    pub open spec fn spells(&self, run: Seq<(char, usize)>) -> bool {
        self@.text == letters(run) && self@.map == places(run)
    }

    /// The shape of one char, all of it at one source position. The skeleton
    /// comes last, so that text, leet and transliteration land in one alphabet.
    /// Per char, to keep the position mapping.
    fn push(&mut self, c: char, at: usize, Ghost(sofar): Ghost<Seq<(char, usize)>>)
        requires
            old(self).spells(sofar),
        ensures
            final(self).spells(sofar + tagged(shape_of(c), at)),
            final(self)@.starts == old(self)@.starts,
            final(self)@.word_len == old(self)@.word_len,
    {
        let letters_of: Vec<char> = shape(c);
        let mut i: usize = 0;
        while i < letters_of.len()
            invariant
                i <= letters_of@.len(),
                letters_of@ == shape_of(c),
                self.spells(sofar + tagged(letters_of@.take(i as int), at)),
                self@.starts == old(self)@.starts,
                self@.word_len == old(self)@.word_len,
            decreases letters_of@.len() - i,
        {
            self.text.push(letters_of[i]);
            self.map.push(at);
            proof {
                let before = sofar + tagged(letters_of@.take(i as int), at);
                let after = sofar + tagged(letters_of@.take(i + 1), at);
                assert(after =~= before.push((letters_of@[i as int], at)));
                assert(letters(after) =~= letters(before).push(letters_of@[i as int]));
                assert(places(after) =~= places(before).push(at));
            }
            i += 1;
        }
        assert(letters_of@.take(i as int) =~= letters_of@);
    }

    /// The normal form of a text.
    pub fn build(src: &str) -> (r: Self)
        ensures
            r@ == normalized(src@),
            r@.wf(),
            r.text@ == normal_text(src@),
            r.map@ == places(normal(src@)),
            forall|i: int| 0 <= i < r@.text.len() ==> alphabetic(#[trigger] r@.text[i]),
    {
        let chars: Vec<char> = chars_of(src);
        // Word starts in the source text, so a term cannot match across the
        // seam of two collapsed words («быстро копится» → «окоп»).
        let mut out: Normalized = Normalized {
            text: String::new(),
            map: Vec::new(),
            starts: mark_starts(&which_are_words(&chars)),
            word_len: measure_words(&which_are_blank(&chars)),
        };
        let run: Vec<(char, usize)> = chain(&fold_all(&chars));
        proof {
            let empty = skeletons(run@.take(0));
            assert(letters(empty) =~= Seq::<char>::empty());
            assert(places(empty) =~= Seq::<usize>::empty());
        }
        let mut i: usize = 0;
        while i < run.len()
            invariant
                i <= run@.len(),
                out.spells(skeletons(run@.take(i as int))),
                out@.starts == word_starts(src@),
                out@.word_len == word_lens(src@),
            decreases run@.len() - i,
        {
            let (c, at): (char, usize) = run[i];
            assert(run@.take(i + 1).drop_last() =~= run@.take(i as int));
            out.push(c, at, Ghost(skeletons(run@.take(i as int))));
            i += 1;
        }
        assert(run@.take(i as int) =~= run@);
        proof {
            assert(chars.len() == src@.len());
            lemma_shapes_are_letters(chained(stream(src@)));
            lemma_normal_places(src@);
            let run = normal(src@);
            assert forall|k: int| 0 <= k < out.map@.len() implies (#[trigger] out.map@[k])
                < out@.word_len.len() by {
                assert(run[k].1 < src@.len());
            }
        }
        out
    }

    /// The letters of the normal form.
    pub fn letters(&self) -> (r: &str)
        ensures
            r@ == self@.text,
    {
        self.text.as_str()
    }

    /// Russian inflects by suffix, so a stem must match from the start of a
    /// word: `антивоен` in `антивоенные` yes, `окоп` in `быстрокопится` no.
    pub fn at_word_start(&self, start: usize) -> (r: bool)
        ensures
            r == self@.begins_word(start as int),
    {
        if start < self.map.len() {
            let at: usize = self.map[start];
            at < self.starts.len() && self.starts[at]
        } else {
            false
        }
    }

    /// A word start is not enough: the stem `наки` matched `на кино` —
    /// correct start, but crawling over the space. So a one-word term must
    /// not cross a space, unless every word it touches is one char long.
    pub fn single_word_ok(&self, start: usize, end: usize) -> (r: bool)
        requires
            self@.wf(),
        ensures
            r == self@.one_word(start as int, end as int),
    {
        let last: usize = if end == 0 {
            0
        } else {
            end - 1
        };
        if start >= self.map.len() || last >= self.map.len() {
            return false;
        }
        let a: usize = self.map[start];
        let b: usize = self.map[last];
        let mut crosses: bool = false;
        let mut long: bool = false;
        let mut i: usize = a;
        let total: usize = self.word_len.len();
        assert(self@.map[last as int] < total);
        while i <= b
            invariant
                a <= i,
                i <= b + 1 || i == a,
                b < total,
                total == self@.word_len.len(),
                total == self.word_len@.len(),
                crosses == exists|k: int| a <= k < i && (#[trigger] self@.word_len[k]) == 0,
                long == exists|k: int| a <= k < i && (#[trigger] self@.word_len[k]) > 1,
            decreases b + 1 - i,
        {
            let len: u16 = self.word_len[i];
            assert(len == self@.word_len[i as int]);
            if len == 0 {
                crosses = true;
            } else if len > 1 {
                long = true;
            }
            i += 1;
        }
        !crosses || !long
    }

    /// The half-open source range a match maps back to.
    pub fn surface(&self, start: usize, end: usize) -> (r: Option<(usize, usize)>)
        requires
            self@.wf(),
        ensures
            r == self@.source_range(start as int, end as int),
    {
        if start >= self.map.len() || end == 0 || end - 1 >= self.map.len() {
            return None;
        }
        let total: usize = self.word_len.len();
        assert(self@.map[end - 1] < total);
        Some((self.map[start], self.map[end - 1] + 1))
    }

}

// --- the way back to the source ------------------------------------------

/// Places that never go back and all lie in a range of the source.
pub open spec fn ordered_in(at: Seq<usize>, lo: int, hi: int) -> bool {
    &&& forall|i: int| 0 <= i < at.len() ==> lo <= (#[trigger] at[i]) <= hi
    &&& forall|i: int, j: int|
        0 <= i <= j < at.len() ==> (#[trigger] at[i]) <= (#[trigger] at[j])
}

/// The places of folded chars.
pub open spec fn glyph_places(s: Seq<Glyph>) -> Seq<usize> {
    Seq::new(s.len(), |i: int| s[i].at)
}

proof fn lemma_ordered_add(a: Seq<usize>, b: Seq<usize>, lo: int, mid: int, hi: int)
    requires
        ordered_in(a, lo, mid),
        ordered_in(b, mid, hi),
        lo <= mid <= hi,
    ensures
        ordered_in(a + b, lo, hi),
{
    let c = a + b;
    assert forall|i: int| 0 <= i < c.len() implies lo <= (#[trigger] c[i]) <= hi by {
        if i < a.len() {
            assert(c[i] == a[i]);
        } else {
            assert(c[i] == b[i - a.len()]);
        }
    }
    assert forall|i: int, j: int| 0 <= i <= j < c.len() implies (#[trigger] c[i]) <= (
    #[trigger] c[j]) by {
        if j < a.len() {
            assert(c[i] == a[i] && c[j] == a[j]);
        } else if i >= a.len() {
            assert(c[i] == b[i - a.len()] && c[j] == b[j - a.len()]);
        } else {
            assert(c[i] == a[i] && c[j] == b[j - a.len()]);
            assert(a[i] <= mid && mid <= b[j - a.len()]);
        }
    }
}

/// Ordered places up to the last, and the last one.
proof fn lemma_ordered_split(at: Seq<usize>, lo: int, hi: int)
    requires
        ordered_in(at, lo, hi),
        at.len() > 0,
    ensures
        lo <= at.last() <= hi,
        ordered_in(at.drop_last(), lo, at.last() as int),
{
    let init = at.drop_last();
    assert(at[at.len() - 1] == at.last());
    assert forall|i: int| 0 <= i < init.len() implies lo <= (#[trigger] init[i]) <= at.last() by {
        assert(init[i] == at[i]);
        assert(at[i] <= at[at.len() - 1]);
    }
    assert forall|i: int, j: int| 0 <= i <= j < init.len() implies (#[trigger] init[i]) <= (
    #[trigger] init[j]) by {
        assert(init[i] == at[i] && init[j] == at[j]);
    }
}

proof fn lemma_ordered_skeletons(run: Seq<(char, usize)>, lo: int, hi: int)
    requires
        ordered_in(places(run), lo, hi),
        lo <= hi,
    ensures
        ordered_in(places(skeletons(run)), lo, hi),
    decreases run.len(),
{
    if run.len() > 0 {
        let p = run.last();
        let init = run.drop_last();
        lemma_ordered_split(places(run), lo, hi);
        assert(places(run).last() == p.1);
        assert(places(init) =~= places(run).drop_last());
        lemma_ordered_skeletons(init, lo, p.1 as int);
        let t = tagged(shape_of(p.0), p.1);
        assert(ordered_in(places(t), p.1 as int, hi));
        lemma_ordered_add(places(skeletons(init)), places(t), lo, p.1 as int, hi);
        assert(places(skeletons(run)) =~= places(skeletons(init)) + places(t));
    }
}

proof fn lemma_ordered_letters(run: Seq<Glyph>, lo: int, hi: int)
    requires
        ordered_in(glyph_places(run), lo, hi),
        lo <= hi,
    ensures
        ordered_in(places(only_letters(run)), lo, hi),
    decreases run.len(),
{
    if run.len() > 0 {
        let g = run.last();
        let init = run.drop_last();
        lemma_ordered_split(glyph_places(run), lo, hi);
        assert(glyph_places(run).last() == g.at);
        assert(glyph_places(init) =~= glyph_places(run).drop_last());
        lemma_ordered_letters(init, lo, g.at as int);
        let one = seq![g.at];
        assert(ordered_in(one, g.at as int, hi));
        lemma_ordered_add(places(only_letters(init)), one, lo, g.at as int, hi);
        if g.reads {
            assert(places(only_letters(run)) =~= places(only_letters(init)) + one);
        } else {
            assert(ordered_in(places(only_letters(init)), lo, hi));
        }
    }
}

proof fn lemma_ordered_segment(seg: Seq<Glyph>, lo: int, hi: int)
    requires
        ordered_in(glyph_places(seg), lo, hi),
        lo <= hi,
        seg.len() > 0,
    ensures
        ordered_in(places(segment(seg)), lo, hi),
{
    let from = glyph_places(seg);
    let out = transliterated(spelling(seg));
    let goal = places(respelled(seg));
    let n = seg.len() as int;
    let m = out.len() as int;
    assert forall|k: int| 0 <= k < m implies 0 <= #[trigger] (k * n / m) < n by {
        assert(0 <= k * n / m < n) by (nonlinear_arith)
            requires
                0 <= k < m,
                0 < n,
        ;
    }
    assert forall|i: int| 0 <= i < goal.len() implies lo <= (#[trigger] goal[i]) <= hi by {
        assert(goal[i] == from[i * n / m]);
    }
    assert forall|i: int, j: int| 0 <= i <= j < goal.len() implies (#[trigger] goal[i]) <= (
    #[trigger] goal[j]) by {
        assert(i * n / m <= j * n / m) by (nonlinear_arith)
            requires
                0 <= i <= j,
                0 < n,
                0 < m,
        ;
        assert(goal[i] == from[i * n / m]);
        assert(goal[j] == from[j * n / m]);
    }
    lemma_ordered_letters(seg, lo, hi);
}

proof fn lemma_ordered_segments(run: Seq<Glyph>, lo: int, hi: int)
    requires
        ordered_in(glyph_places(run), lo, hi),
        lo <= hi,
    ensures
        ordered_in(places(segments(run)), lo, hi),
    decreases run.len(),
{
    if run.len() > 0 {
        let n = script_len(run);
        if 0 < n <= run.len() {
            let at = glyph_places(run);
            let seg = glyph_places(run.take(n));
            let rest = glyph_places(run.skip(n));
            let mid = at[n - 1] as int;
            assert forall|i: int| 0 <= i < seg.len() implies lo <= (#[trigger] seg[i]) <= mid by {
                assert(seg[i] == at[i]);
                assert(at[i] <= at[n - 1]);
            }
            assert forall|i: int, j: int| 0 <= i <= j < seg.len() implies (#[trigger] seg[i]) <= (
            #[trigger] seg[j]) by {
                assert(seg[i] == at[i] && seg[j] == at[j]);
            }
            assert forall|i: int| 0 <= i < rest.len() implies mid <= (#[trigger] rest[i]) <= hi by {
                assert(rest[i] == at[n + i]);
                assert(at[n - 1] <= at[n + i]);
            }
            assert forall|i: int, j: int| 0 <= i <= j < rest.len() implies (#[trigger] rest[i])
                <= (#[trigger] rest[j]) by {
                assert(rest[i] == at[n + i] && rest[j] == at[n + j]);
            }
            assert(lo <= mid <= hi);
            lemma_ordered_segment(run.take(n), lo, mid);
            lemma_ordered_segments(run.skip(n), mid, hi);
            let (a, b) = (segment(run.take(n)), segments(run.skip(n)));
            lemma_ordered_add(places(a), places(b), lo, mid, hi);
            assert(places(a + b) =~= places(a) + places(b));
        }
    }
}

/// The chain a stream ends in reaches back no further than what came before
/// it has been settled to.
proof fn lemma_ordered_chained(s: Seq<Glyph>, hi: int) -> (mid: int)
    requires
        ordered_in(glyph_places(s), 0, hi),
        0 <= hi,
    ensures
        0 <= mid <= hi,
        ordered_in(places(settled(s)), 0, mid),
        ordered_in(glyph_places(pending(s)), mid, hi),
    decreases s.len(),
{
    if s.len() == 0 {
        0
    } else {
        let g = s.last();
        let init = s.drop_last();
        lemma_ordered_split(glyph_places(s), 0, hi);
        assert(glyph_places(s).last() == g.at);
        assert(glyph_places(init) =~= glyph_places(s).drop_last());
        let mid = lemma_ordered_chained(init, g.at as int);
        if g.word {
            let one = seq![g.at];
            assert(ordered_in(one, g.at as int, hi));
            lemma_ordered_add(glyph_places(pending(init)), one, mid, g.at as int, hi);
            assert(glyph_places(pending(s)) =~= glyph_places(pending(init)) + one);
            mid
        } else {
            let (a, b) = (settled(init), collapsed(pending(init)));
            lemma_ordered_segments(pending(init), mid, g.at as int);
            lemma_ordered_add(places(a), places(b), 0, mid, g.at as int);
            assert(places(a + b) =~= places(a) + places(b));
            g.at as int
        }
    }
}

proof fn lemma_ordered_stream(src: Seq<char>)
    requires
        src.len() <= usize::MAX,
    ensures
        ordered_in(glyph_places(stream(src)), 0, src.len() - 1) || stream(src).len() == 0,
    decreases src.len(),
{
    if src.len() > 0 {
        let init = src.drop_last();
        let n = src.len() - 1;
        lemma_ordered_stream(init);
        let t = glyph_places(glyphs_of(folded(src.last()), n as usize));
        let s = glyph_places(stream(init));
        assert(ordered_in(t, n, n));
        assert(glyph_places(stream(src)) =~= s + t);
        assert(ordered_in(s, 0, n));
        lemma_ordered_add(s, t, 0, n, n);
    }
}

proof fn lemma_lettered(skeleton: Seq<char>)
    ensures
        forall|i: int|
            0 <= i < lettered(skeleton).len() ==> alphabetic(#[trigger] lettered(skeleton)[i]),
    decreases skeleton.len(),
{
    if skeleton.len() > 0 {
        let init = lettered(skeleton.drop_last());
        lemma_lettered(skeleton.drop_last());
        assert forall|i: int| 0 <= i < lettered(skeleton).len() implies alphabetic(
            #[trigger] lettered(skeleton)[i],
        ) by {
            if i < init.len() {
                assert(lettered(skeleton)[i] == init[i]);
            }
        }
    }
}

/// Nothing but letters is left of placed chars.
pub proof fn lemma_shapes_are_letters(run: Seq<(char, usize)>)
    ensures
        forall|i: int|
            0 <= i < skeletons(run).len() ==> alphabetic((#[trigger] skeletons(run)[i]).0),
    decreases run.len(),
{
    if run.len() > 0 {
        let init = skeletons(run.drop_last());
        let t = tagged(shape_of(run.last().0), run.last().1);
        lemma_shapes_are_letters(run.drop_last());
        lemma_lettered(skeleton_of(run.last().0));
        assert forall|i: int| 0 <= i < skeletons(run).len() implies alphabetic(
            (#[trigger] skeletons(run)[i]).0,
        ) by {
            if i < init.len() {
                assert(skeletons(run)[i] == init[i]);
            } else {
                assert(skeletons(run)[i] == t[i - init.len()]);
                assert(t[i - init.len()].0 == shape_of(run.last().0)[i - init.len()]);
            }
        }
    }
}

/// The way back to the source never goes backwards and never leaves it: every
/// letter of the normal form comes from a char of the source, and a letter
/// never comes from before the one it follows.
pub proof fn lemma_normal_places(src: Seq<char>)
    requires
        src.len() <= usize::MAX,
    ensures
        forall|i: int| 0 <= i < normal(src).len() ==> (#[trigger] normal(src)[i]).1 < src.len(),
        forall|i: int, j: int|
            0 <= i <= j < normal(src).len() ==> (#[trigger] normal(src)[i]).1
                <= (#[trigger] normal(src)[j]).1,
{
    lemma_ordered_stream(src);
    let s = stream(src);
    let run = normal(src);
    if s.len() > 0 {
        let hi = src.len() - 1;
        assert(glyph_places(s)[0] <= hi);
        let mid = lemma_ordered_chained(s, hi);
        let (a, b) = (settled(s), collapsed(pending(s)));
        lemma_ordered_segments(pending(s), mid, hi);
        lemma_ordered_add(places(a), places(b), 0, mid, hi);
        assert(places(a + b) =~= places(a) + places(b));
        lemma_ordered_skeletons(chained(s), 0, hi);
        let at = places(run);
        assert forall|i: int| 0 <= i < run.len() implies (#[trigger] run[i]).1 < src.len() by {
            assert(at[i] <= hi);
        }
        assert forall|i: int, j: int| 0 <= i <= j < run.len() implies (#[trigger] run[i]).1 <= (
        #[trigger] run[j]).1 by {
            assert(at[i] <= at[j]);
        }
    } else {
        assert(chained(s) =~= Seq::<(char, usize)>::empty());
        assert(run =~= Seq::<(char, usize)>::empty());
    }
}

} // verus!
