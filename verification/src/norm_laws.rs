//! What normalization promises of whole texts.

use crate::norm::{
    chained, collapsed, fold_char, folded, glyphs_of, in_chain, latin, leet, leet_of, lemma_normal_places,
    lemma_shapes_are_letters, letter_for, lettered, letters, normal, normal_text, normalized, only_letters, pending,
    places, respelled, script_len, segment, segments, settled, shape_of, shown, skeletons, spelling,
    stand_in, stream, tagged, transliterated, Glyph,
};
use crate::unicode::{alphabetic, alphanumeric, skeleton_of};
use vstd::prelude::*;

verus! {

/// A character that ends a chain: it folds to neither letters nor digits, nor
/// to symbols that stand for letters.
pub open spec fn separator(c: char) -> bool {
    &&& folded(c).len() > 0
    &&& forall|i: int| 0 <= i < folded(c).len() ==> !in_chain(#[trigger] folded(c)[i])
}

/// Whether a character ends a chain.
pub fn is_separator(c: char) -> (r: bool)
    ensures
        r == separator(c),
{
    let chars: Vec<char> = fold_char(c);
    let mut i: usize = 0;
    while i < chars.len()
        invariant
            i <= chars@.len(),
            chars@ == folded(c),
            forall|k: int| 0 <= k < i ==> !in_chain(#[trigger] folded(c)[k]),
        decreases chars@.len() - i,
    {
        if chars[i].is_alphanumeric() || leet(chars[i]).is_alphanumeric() {
            assert(in_chain(folded(c)[i as int]));
            return false;
        }
        i += 1;
    }
    chars.len() > 0
}

/// A character that folds to letters outside the Latin alphabet.
pub open spec fn native(c: char) -> bool {
    forall|i: int| 0 <= i < folded(c).len() ==> native_letter(#[trigger] folded(c)[i])
}

/// A letter that is neither Latin nor a stand-in for another.
pub open spec fn native_letter(x: char) -> bool {
    alphabetic(x) && alphanumeric(x) && !latin(x) && leet_of(x) == x
}

/// A text with a separator between every two characters.
pub open spec fn spaced(s: Seq<char>, sep: char) -> Seq<char>
    decreases s.len(),
{
    if s.len() <= 1 {
        s
    } else {
        spaced(s.drop_last(), sep).push(sep).push(s.last())
    }
}

// --- what moves with the places --------------------------------------------

/// The same chars, each place moved.
spec fn moved(s: Seq<Glyph>, f: spec_fn(usize) -> usize) -> Seq<Glyph> {
    Seq::new(s.len(), |i: int| Glyph { at: f(s[i].at), ..s[i] })
}

/// The same placed chars, each place moved.
spec fn carried(run: Seq<(char, usize)>, f: spec_fn(usize) -> usize) -> Seq<(char, usize)> {
    Seq::new(run.len(), |i: int| (run[i].0, f(run[i].1)))
}

/// Every place sent to the start: what is left is the chars alone.
spec fn to_the_start() -> spec_fn(usize) -> usize {
    |at: usize| 0usize
}

/// Every place sent so many places on.
spec fn further(n: nat) -> spec_fn(usize) -> usize {
    |at: usize| (at + n) as usize
}

/// Places sent so many places on.
pub open spec fn shifted(at: Seq<usize>, n: nat) -> Seq<usize> {
    Seq::new(at.len(), |i: int| (at[i] + n) as usize)
}

proof fn lemma_carried_add(
    a: Seq<(char, usize)>,
    b: Seq<(char, usize)>,
    f: spec_fn(usize) -> usize,
)
    ensures
        carried(a + b, f) == carried(a, f) + carried(b, f),
{
    assert(carried(a + b, f) =~= carried(a, f) + carried(b, f));
}

proof fn lemma_letters_add(a: Seq<(char, usize)>, b: Seq<(char, usize)>)
    ensures
        letters(a + b) == letters(a) + letters(b),
        places(a + b) == places(a) + places(b),
{
    assert(letters(a + b) =~= letters(a) + letters(b));
    assert(places(a + b) =~= places(a) + places(b));
}

proof fn lemma_only_letters_moved(s: Seq<Glyph>, f: spec_fn(usize) -> usize)
    ensures
        only_letters(moved(s, f)) == carried(only_letters(s), f),
    decreases s.len(),
{
    if s.len() > 0 {
        assert(moved(s, f).drop_last() =~= moved(s.drop_last(), f));
        lemma_only_letters_moved(s.drop_last(), f);
    }
    assert(only_letters(moved(s, f)) =~= carried(only_letters(s), f));
}

proof fn lemma_segment_moved(s: Seq<Glyph>, f: spec_fn(usize) -> usize)
    requires
        s.len() > 0,
    ensures
        segment(moved(s, f)) == carried(segment(s), f),
{
    let t = moved(s, f);
    assert forall|i: int| 0 <= i < s.len() implies shown(#[trigger] s[i]) == shown(t[i]) by {}
    assert forall|i: int| 0 <= i < t.len() implies shown(#[trigger] t[i]) == shown(s[i]) by {}
    assert(spelling(s) =~= spelling(t));
    let out = transliterated(spelling(s));
    assert forall|k: int| 0 <= k < out.len() implies #[trigger] respelled(t)[k] == carried(
        respelled(s),
        f,
    )[k] by {
        let n = s.len() as int;
        let m = out.len() as int;
        assert(0 <= k * n / m < n) by (nonlinear_arith)
            requires
                0 <= k < m,
                0 < n,
        ;
    }
    assert(respelled(t) =~= carried(respelled(s), f));
    lemma_only_letters_moved(s, f);
}

proof fn lemma_script_len_moved(s: Seq<Glyph>, f: spec_fn(usize) -> usize)
    ensures
        script_len(moved(s, f)) == script_len(s),
    decreases s.len(),
{
    if s.len() > 1 {
        assert(moved(s, f).drop_first() =~= moved(s.drop_first(), f));
        lemma_script_len_moved(s.drop_first(), f);
    }
}

proof fn lemma_segments_moved(s: Seq<Glyph>, f: spec_fn(usize) -> usize)
    ensures
        segments(moved(s, f)) == carried(segments(s), f),
    decreases s.len(),
{
    if s.len() > 0 {
        lemma_script_len_moved(s, f);
        let n = script_len(s);
        if 0 < n <= s.len() {
            assert(moved(s, f).take(n) =~= moved(s.take(n), f));
            assert(moved(s, f).skip(n) =~= moved(s.skip(n), f));
            lemma_segment_moved(s.take(n), f);
            lemma_segments_moved(s.skip(n), f);
            lemma_carried_add(segment(s.take(n)), segments(s.skip(n)), f);
        }
    }
    assert(segments(moved(s, f)) =~= carried(segments(s), f));
}

proof fn lemma_collapsed_moved(s: Seq<Glyph>, f: spec_fn(usize) -> usize)
    ensures
        collapsed(moved(s, f)) == carried(collapsed(s), f),
{
    let t = moved(s, f);
    assert forall|i: int| 0 <= i < s.len() implies (#[trigger] s[i]).letter == t[i].letter by {}
    assert forall|i: int| 0 <= i < t.len() implies (#[trigger] t[i]).letter == s[i].letter by {}
    lemma_segments_moved(s, f);
    assert(collapsed(t) =~= carried(collapsed(s), f));
}

/// Chains are told by their chars: a stream moved elsewhere collapses to the
/// same chars, moved along with it.
proof fn lemma_chained_moved(s: Seq<Glyph>, f: spec_fn(usize) -> usize)
    ensures
        pending(moved(s, f)) == moved(pending(s), f),
        settled(moved(s, f)) == carried(settled(s), f),
        chained(moved(s, f)) == carried(chained(s), f),
    decreases s.len(),
{
    if s.len() > 0 {
        let init = s.drop_last();
        assert(moved(s, f).drop_last() =~= moved(init, f));
        lemma_chained_moved(init, f);
        lemma_collapsed_moved(pending(init), f);
        lemma_carried_add(settled(init), collapsed(pending(init)), f);
    }
    assert(pending(moved(s, f)) =~= moved(pending(s), f));
    assert(settled(moved(s, f)) =~= carried(settled(s), f));
    lemma_collapsed_moved(pending(s), f);
    lemma_carried_add(settled(s), collapsed(pending(s)), f);
}

proof fn lemma_skeletons_carried(run: Seq<(char, usize)>, f: spec_fn(usize) -> usize)
    ensures
        skeletons(carried(run, f)) == carried(skeletons(run), f),
    decreases run.len(),
{
    if run.len() > 0 {
        assert(carried(run, f).drop_last() =~= carried(run.drop_last(), f));
        lemma_skeletons_carried(run.drop_last(), f);
        let t = tagged(shape_of(run.last().0), run.last().1);
        assert(carried(t, f) =~= tagged(shape_of(run.last().0), f(run.last().1)));
        lemma_carried_add(skeletons(run.drop_last()), t, f);
    }
    assert(skeletons(carried(run, f)) =~= carried(skeletons(run), f));
}

/// The letters of two runs that differ in their places alone.
proof fn lemma_same_letters(a: Seq<(char, usize)>, b: Seq<(char, usize)>)
    requires
        carried(a, to_the_start()) == carried(b, to_the_start()),
    ensures
        letters(skeletons(a)) == letters(skeletons(b)),
{
    let f = to_the_start();
    lemma_skeletons_carried(a, f);
    lemma_skeletons_carried(b, f);
    assert(letters(carried(skeletons(a), f)) =~= letters(skeletons(a)));
    assert(letters(carried(skeletons(b), f)) =~= letters(skeletons(b)));
}

proof fn lemma_skeletons_add(a: Seq<(char, usize)>, b: Seq<(char, usize)>)
    ensures
        skeletons(a + b) == skeletons(a) + skeletons(b),
    decreases b.len(),
{
    if b.len() == 0 {
        assert(a + b =~= a);
        assert(skeletons(a) + skeletons(b) =~= skeletons(a));
    } else {
        assert((a + b).drop_last() =~= a + b.drop_last());
        lemma_skeletons_add(a, b.drop_last());
        assert(skeletons(a + b) =~= skeletons(a) + skeletons(b));
    }
}

// --- streams put together ------------------------------------------------

/// The stream of a longer text starts with the stream of its beginning, and
/// goes on with the stream of its end, moved behind it.
proof fn lemma_stream_add(a: Seq<char>, b: Seq<char>) -> (rest: Seq<Glyph>)
    ensures
        stream(a + b) == stream(a) + rest,
        moved(rest, to_the_start()) == moved(stream(b), to_the_start()),
        a.len() + b.len() <= usize::MAX ==> rest == moved(stream(b), further(a.len())),
    decreases b.len(),
{
    if b.len() == 0 {
        let rest = Seq::<Glyph>::empty();
        assert(a + b =~= a);
        assert(stream(a) + rest =~= stream(a));
        assert(rest =~= moved(stream(b), further(a.len())));
        assert(rest =~= stream(b));
        rest
    } else {
        let init = lemma_stream_add(a, b.drop_last());
        assert((a + b).drop_last() =~= a + b.drop_last());
        let t = glyphs_of(folded(b.last()), ((a + b).len() - 1) as usize);
        let u = glyphs_of(folded(b.last()), (b.len() - 1) as usize);
        let rest = init + t;
        let start = to_the_start();
        let on = further(a.len());
        assert(stream(a + b) =~= stream(a) + rest);
        assert(moved(t, start) =~= moved(u, start));
        assert(moved(rest, start) =~= moved(init, start) + moved(t, start));
        assert(moved(stream(b), start) =~= moved(stream(b.drop_last()), start) + moved(u, start));
        if a.len() + b.len() <= usize::MAX {
            assert(t =~= moved(u, on));
            assert(moved(stream(b), on) =~= moved(stream(b.drop_last()), on) + moved(u, on));
        }
        rest
    }
}

/// After a separator the chains start anew.
proof fn lemma_chained_add(s: Seq<Glyph>, t: Seq<Glyph>)
    requires
        s.len() > 0,
        !s.last().word,
    ensures
        pending(s + t) == pending(t),
        settled(s + t) == settled(s) + settled(t),
    decreases t.len(),
{
    if t.len() == 0 {
        assert(s + t =~= s);
        assert(settled(s) + settled(t) =~= settled(s));
    } else {
        assert((s + t).drop_last() =~= s + t.drop_last());
        assert((s + t).last() == t.last());
        lemma_chained_add(s, t.drop_last());
        if !t.last().word {
            assert(settled(s + t) =~= settled(s) + settled(t));
        }
    }
}

/// A separator settles what came before it, and adds nothing of its own.
proof fn lemma_separated(s: Seq<Glyph>, t: Seq<Glyph>)
    requires
        t.len() > 0,
        forall|i: int| 0 <= i < t.len() ==> !(#[trigger] t[i]).word,
    ensures
        settled(s + t) == chained(s),
        pending(s + t) == Seq::<Glyph>::empty(),
    decreases t.len(),
{
    assert((s + t).drop_last() =~= s + t.drop_last());
    assert((s + t).last() == t[t.len() - 1]);
    let init = t.drop_last();
    if init.len() == 0 {
        assert(s + init =~= s);
    } else {
        assert forall|i: int| 0 <= i < init.len() implies !(#[trigger] init[i]).word by {
            assert(init[i] == t[i]);
        }
        lemma_separated(s, init);
        assert(collapsed(Seq::<Glyph>::empty()) =~= Seq::<(char, usize)>::empty());
        assert(settled(s + t) =~= chained(s));
    }
}

/// Words are normalized apart: what stands before a separator and what stands
/// after it do not touch each other. The way back is that of the one, followed
/// by that of the other behind it.
pub proof fn law_words_apart(a: Seq<char>, sep: char, b: Seq<char>)
    requires
        separator(sep),
    ensures
        normal_text(a.push(sep) + b) == normal_text(a) + normal_text(b),
        a.len() + 1 + b.len() <= usize::MAX ==> places(normal(a.push(sep) + b)) == places(
            normal(a),
        ) + shifted(places(normal(b)), a.len() + 1),
{
    let whole = a.push(sep);
    let rest = lemma_stream_add(whole, b);
    let t = glyphs_of(folded(sep), a.len() as usize);
    assert(whole.drop_last() =~= a);
    assert(stream(whole) =~= stream(a) + t);
    assert forall|i: int| 0 <= i < t.len() implies !(#[trigger] t[i]).word by {
        assert(t[i].c == folded(sep)[i]);
    }
    lemma_separated(stream(a), t);
    assert(stream(whole).last() == t[t.len() - 1]);
    lemma_chained_add(stream(whole), rest);
    assert(chained(stream(whole) + rest) =~= chained(stream(a)) + chained(rest));
    lemma_skeletons_add(chained(stream(a)), chained(rest));
    lemma_letters_add(normal(a), skeletons(chained(rest)));
    lemma_chained_moved(rest, to_the_start());
    lemma_chained_moved(stream(b), to_the_start());
    lemma_same_letters(chained(rest), chained(stream(b)));
    if whole.len() + b.len() <= usize::MAX {
        let on = further(whole.len());
        lemma_chained_moved(stream(b), on);
        lemma_skeletons_carried(chained(stream(b)), on);
        assert(places(carried(normal(b), on)) =~= shifted(places(normal(b)), whole.len()));
    }
}

/// Letters only, no separators: every character of a normal form is a letter.
pub proof fn law_normal_form_is_letters_only(src: Seq<char>)
    ensures
        forall|i: int| 0 <= i < normal_text(src).len() ==> alphabetic(#[trigger] normal_text(src)[i]),
{
    lemma_shapes_are_letters(chained(stream(src)));
    assert forall|i: int| 0 <= i < normal_text(src).len() implies alphabetic(
        #[trigger] normal_text(src)[i],
    ) by {
        assert(normal_text(src)[i] == normal(src)[i].0);
    }
}

/// A char that has a letter of its own.
pub open spec fn has_own_letter(x: char) -> bool {
    if alphabetic(x) {
        !(0x20000 <= x as int && (x as int) < 0x2a6e0)
    } else {
        (x as int) < 0xa6e0 && alphabetic(stand_in(x))
    }
}

/// Every char of the skeleton has a letter of its own.
pub open spec fn tellable(skeleton: Seq<char>) -> bool {
    forall|i: int| 0 <= i < skeleton.len() ==> has_own_letter(#[trigger] skeleton[i])
}

proof fn lemma_lettered_one_by_one(skeleton: Seq<char>)
    requires
        tellable(skeleton),
    ensures
        lettered(skeleton) == Seq::new(skeleton.len(), |i: int| letter_for(skeleton[i])),
    decreases skeleton.len(),
{
    if skeleton.len() > 0 {
        let init = skeleton.drop_last();
        assert(tellable(init)) by {
            assert forall|i: int| 0 <= i < init.len() implies has_own_letter(#[trigger] init[i]) by {
                assert(init[i] == skeleton[i]);
            }
        }
        lemma_lettered_one_by_one(init);
        assert(alphabetic(letter_for(skeleton[skeleton.len() - 1])));
    }
    assert(lettered(skeleton) =~= Seq::new(skeleton.len(), |i: int| letter_for(skeleton[i])));
}

proof fn lemma_own_letter(x: char, y: char)
    requires
        has_own_letter(x),
        has_own_letter(y),
        letter_for(x) == letter_for(y),
    ensures
        x == y,
{
    let (a, b) = (x as int, y as int);
    assert(stand_in(x) as int == 0x20000 + a % 0xa6e0);
    assert(stand_in(y) as int == 0x20000 + b % 0xa6e0);
    assert(a == b);
    assert(x == y);
}

/// Letters look alike exactly when their skeletons are the same: writing a
/// skeleton in letters alone takes nothing from it. A mark keeps `й` from
/// being read as `и`.
pub proof fn law_shapes_tell_letters_apart(c: char, d: char)
    requires
        tellable(skeleton_of(c)),
        tellable(skeleton_of(d)),
    ensures
        shape_of(c).len() == skeleton_of(c).len(),
        shape_of(c) == shape_of(d) <==> skeleton_of(c) == skeleton_of(d),
{
    let (s, t) = (skeleton_of(c), skeleton_of(d));
    lemma_lettered_one_by_one(s);
    lemma_lettered_one_by_one(t);
    assert(shape_of(c).len() == s.len() && shape_of(d).len() == t.len());
    if shape_of(c) == shape_of(d) {
        assert forall|i: int| 0 <= i < s.len() implies s[i] == t[i] by {
            assert(shape_of(c)[i] == letter_for(s[i]));
            assert(shape_of(d)[i] == letter_for(t[i]));
            lemma_own_letter(s[i], t[i]);
        }
        assert(s =~= t);
    }
}

/// A text without a single letter has an empty normal form.
pub proof fn law_numbers_vanish(s: Seq<char>)
    requires
        forall|i: int| 0 <= i < stream(s).len() ==> !(#[trigger] stream(s)[i]).letter,
    ensures
        normal_text(s) == Seq::<char>::empty(),
{
    lemma_nothing_chained(stream(s));
    assert(chained(stream(s)) =~= Seq::<(char, usize)>::empty());
    assert(normal_text(s) =~= Seq::<char>::empty());
}

proof fn lemma_nothing_chained(s: Seq<Glyph>)
    requires
        forall|i: int| 0 <= i < s.len() ==> !(#[trigger] s[i]).letter,
    ensures
        forall|i: int| 0 <= i < pending(s).len() ==> !(#[trigger] pending(s)[i]).letter,
        settled(s) == Seq::<(char, usize)>::empty(),
        collapsed(pending(s)) == Seq::<(char, usize)>::empty(),
    decreases s.len(),
{
    if s.len() > 0 {
        let init = s.drop_last();
        assert forall|i: int| 0 <= i < init.len() implies !(#[trigger] init[i]).letter by {
            assert(init[i] == s[i]);
        }
        lemma_nothing_chained(init);
        assert(s[s.len() - 1] == s.last());
        if !s.last().word {
            assert(settled(s) =~= Seq::<(char, usize)>::empty());
        }
    }
}

/// Nothing in the text folds to a letter.
pub open spec fn letterless(s: Seq<char>) -> bool {
    forall|i: int, j: int|
        0 <= i < s.len() && 0 <= j < folded(s[i]).len() ==> !alphabetic(
            #[trigger] folded(s[i])[j],
        )
}

proof fn lemma_letterless_stream(s: Seq<char>)
    requires
        letterless(s),
    ensures
        forall|i: int| 0 <= i < stream(s).len() ==> !(#[trigger] stream(s)[i]).letter,
    decreases s.len(),
{
    if s.len() > 0 {
        let init = s.drop_last();
        assert(letterless(init)) by {
            assert forall|i: int, j: int|
                0 <= i < init.len() && 0 <= j < folded(init[i]).len() implies !alphabetic(
                #[trigger] folded(init[i])[j],
            ) by {
                assert(init[i] == s[i]);
            }
        }
        lemma_letterless_stream(init);
        let t = glyphs_of(folded(s.last()), (s.len() - 1) as usize);
        let n = stream(init).len();
        assert forall|i: int| 0 <= i < stream(s).len() implies !(#[trigger] stream(s)[i]).letter by {
            if i < n {
                assert(stream(s)[i] == stream(init)[i]);
            } else {
                assert(stream(s)[i] == t[i - n]);
                assert(s[s.len() - 1] == s.last());
                assert(!alphabetic(folded(s[s.len() - 1])[i - n]));
            }
        }
    }
}

/// What folds to no letter has an empty normal form, whatever its digits or
/// symbols could stand for, and is dropped from between words.
pub proof fn law_letterless_is_dropped(
    a: Seq<char>,
    before: char,
    number: Seq<char>,
    after: char,
    b: Seq<char>,
)
    requires
        separator(before),
        separator(after),
        letterless(number),
    ensures
        normal_text(number) == Seq::<char>::empty(),
        normal_text(a.push(before) + (number.push(after) + b)) == normal_text(a) + normal_text(b),
{
    lemma_letterless_stream(number);
    law_numbers_vanish(number);
    law_standalone_number_is_dropped(a, before, number, after, b);
    law_words_apart(a, before, b);
}

/// A number standing alone between two words is dropped: the text normalizes
/// as if it had never been there.
pub proof fn law_standalone_number_is_dropped(
    a: Seq<char>,
    before: char,
    number: Seq<char>,
    after: char,
    b: Seq<char>,
)
    requires
        separator(before),
        separator(after),
        forall|i: int| 0 <= i < stream(number).len() ==> !(#[trigger] stream(number)[i]).letter,
    ensures
        normal_text(a.push(before) + (number.push(after) + b)) == normal_text(a.push(before) + b),
{
    law_words_apart(a, before, number.push(after) + b);
    law_words_apart(number, after, b);
    law_words_apart(a, before, b);
    law_numbers_vanish(number);
    assert(Seq::<char>::empty() + normal_text(b) =~= normal_text(b));
}

// --- words of native letters ---------------------------------------------

/// Nothing but native letters.
spec fn all_native(s: Seq<Glyph>) -> bool {
    forall|i: int|
        0 <= i < s.len() ==> {
            let g = #[trigger] s[i];
            g.word && g.letter && g.reads && !latin(g.c) && shown(g) == g.c
        }
}

/// Folded chars, each in its place.
spec fn as_they_are(s: Seq<Glyph>) -> Seq<(char, usize)> {
    Seq::new(s.len(), |i: int| (s[i].c, s[i].at))
}

proof fn lemma_native_stream(s: Seq<char>)
    requires
        forall|i: int| 0 <= i < s.len() ==> native(#[trigger] s[i]),
    ensures
        all_native(stream(s)),
    decreases s.len(),
{
    if s.len() > 0 {
        let init = s.drop_last();
        assert forall|i: int| 0 <= i < init.len() implies native(#[trigger] init[i]) by {
            assert(init[i] == s[i]);
        }
        lemma_native_stream(init);
        assert(native(s[s.len() - 1]));
        let t = glyphs_of(folded(s.last()), (s.len() - 1) as usize);
        let whole = stream(s);
        assert forall|i: int| 0 <= i < whole.len() implies {
            let g = #[trigger] whole[i];
            g.word && g.letter && g.reads && !latin(g.c) && shown(g) == g.c
        } by {
            let n = stream(init).len();
            if i < n {
                assert(whole[i] == stream(init)[i]);
            } else {
                assert(whole[i] == t[i - n]);
                assert(native_letter(folded(s.last())[i - n]));
            }
        }
    }
}

proof fn lemma_native_pending(s: Seq<Glyph>)
    requires
        all_native(s),
    ensures
        pending(s) == s,
        settled(s) == Seq::<(char, usize)>::empty(),
    decreases s.len(),
{
    if s.len() > 0 {
        let init = s.drop_last();
        assert(all_native(init)) by {
            assert forall|i: int| 0 <= i < init.len() implies {
                let g = #[trigger] init[i];
                g.word && g.letter && g.reads && !latin(g.c) && shown(g) == g.c
            } by {
                assert(init[i] == s[i]);
            }
        }
        lemma_native_pending(init);
        assert(s[s.len() - 1].word);
        assert(pending(s) =~= s);
    }
}

proof fn lemma_native_script(s: Seq<Glyph>)
    requires
        all_native(s),
    ensures
        script_len(s) == s.len(),
    decreases s.len(),
{
    if s.len() > 1 {
        assert(!latin(s[0].c) && !latin(s[1].c));
        let rest = s.drop_first();
        assert(all_native(rest)) by {
            assert forall|i: int| 0 <= i < rest.len() implies {
                let g = #[trigger] rest[i];
                g.word && g.letter && g.reads && !latin(g.c) && shown(g) == g.c
            } by {
                assert(rest[i] == s[i + 1]);
            }
        }
        lemma_native_script(rest);
    }
}

proof fn lemma_native_kept(s: Seq<Glyph>)
    requires
        all_native(s),
    ensures
        only_letters(s) == as_they_are(s),
    decreases s.len(),
{
    if s.len() == 0 {
        assert(only_letters(s) =~= as_they_are(s));
    } else {
        let init = s.drop_last();
        assert(all_native(init)) by {
            assert forall|i: int| 0 <= i < init.len() implies {
                let g = #[trigger] init[i];
                g.word && g.letter && g.reads && !latin(g.c) && shown(g) == g.c
            } by {
                assert(init[i] == s[i]);
            }
        }
        lemma_native_kept(init);
        assert(s[s.len() - 1].reads && shown(s[s.len() - 1]) == s[s.len() - 1].c);
        assert(only_letters(s) =~= as_they_are(s));
    }
}

/// A word of native letters is only folded and skeletonized.
proof fn lemma_native_normal(s: Seq<char>)
    requires
        forall|i: int| 0 <= i < s.len() ==> native(#[trigger] s[i]),
    ensures
        chained(stream(s)) == as_they_are(stream(s)),
{
    lemma_native_stream(s);
    let t = stream(s);
    lemma_native_pending(t);
    assert(chained(t) =~= collapsed(t));
    if t.len() == 0 {
        assert(collapsed(t) =~= as_they_are(t));
    } else {
        assert(t[0].letter && !latin(t[0].c));
        lemma_native_script(t);
        lemma_native_kept(t);
        let n = script_len(t);
        assert(t.take(n) =~= t);
        assert(t.skip(n) =~= Seq::<Glyph>::empty());
        assert(segments(t.skip(n)) =~= Seq::<(char, usize)>::empty());
        assert(segments(t) =~= segment(t));
    }
}

proof fn lemma_native_push(s: Seq<char>, c: char)
    requires
        forall|i: int| 0 <= i < s.len() ==> native(#[trigger] s[i]),
        native(c),
    ensures
        normal_text(s.push(c)) == normal_text(s) + normal_text(seq![c]),
{
    lemma_native_normal(s);
    lemma_native_normal(seq![c]);
    lemma_native_normal(s.push(c));
    assert(s.push(c) =~= s + seq![c]);
    let rest = lemma_stream_add(s, seq![c]);
    let one = stream(seq![c]);
    assert(as_they_are(stream(s) + rest) =~= as_they_are(stream(s)) + as_they_are(rest));
    lemma_skeletons_add(as_they_are(stream(s)), as_they_are(rest));
    let start = to_the_start();
    assert(carried(as_they_are(rest), start) =~= as_they_are(moved(rest, start)));
    assert(carried(as_they_are(one), start) =~= as_they_are(moved(one, start)));
    lemma_same_letters(as_they_are(rest), as_they_are(one));
    lemma_letters_add(skeletons(as_they_are(stream(s))), skeletons(as_they_are(rest)));
}

/// Separators inside a word collapse: a word of native letters spaced out
/// letter by letter normalizes as the word itself.
pub proof fn law_spaced_word_collapses(s: Seq<char>, sep: char)
    requires
        separator(sep),
        forall|i: int| 0 <= i < s.len() ==> native(#[trigger] s[i]),
    ensures
        normal_text(spaced(s, sep)) == normal_text(s),
    decreases s.len(),
{
    if s.len() > 1 {
        let init = s.drop_last();
        let c = s.last();
        assert forall|i: int| 0 <= i < init.len() implies native(#[trigger] init[i]) by {
            assert(init[i] == s[i]);
        }
        assert(native(s[s.len() - 1]));
        law_spaced_word_collapses(init, sep);
        law_words_apart(spaced(init, sep), sep, seq![c]);
        assert(spaced(init, sep).push(sep).push(c) =~= spaced(init, sep).push(sep) + seq![c]);
        lemma_native_push(init, c);
        assert(s =~= init.push(c));
    }
}

// --- words of two scripts --------------------------------------------------

/// One chain of letters.
pub open spec fn one_chain(s: Seq<Glyph>) -> bool {
    forall|i: int| 0 <= i < s.len() ==> (#[trigger] s[i]).word && s[i].letter
}

proof fn lemma_chain_of_letters(s: Seq<Glyph>)
    requires
        one_chain(s),
    ensures
        pending(s) == s,
        settled(s) == Seq::<(char, usize)>::empty(),
        chained(s) == segments(s),
    decreases s.len(),
{
    if s.len() > 0 {
        let init = s.drop_last();
        assert(one_chain(init)) by {
            assert forall|i: int| 0 <= i < init.len() implies (#[trigger] init[i]).word
                && init[i].letter by {
                assert(init[i] == s[i]);
            }
        }
        lemma_chain_of_letters(init);
        assert(s[s.len() - 1].word && s[s.len() - 1].letter);
        assert(pending(s) =~= s);
    }
    assert(chained(s) =~= segments(s));
}

proof fn lemma_script_ends(s: Seq<Glyph>, t: Seq<Glyph>)
    requires
        s.len() > 0,
        t.len() > 0,
        latin(shown(s.last())) != latin(shown(t[0])),
    ensures
        script_len(s + t) == script_len(s),
        0 < script_len(s) <= s.len(),
    decreases s.len(),
{
    let whole = s + t;
    if s.len() > 1 {
        assert(whole.drop_first() =~= s.drop_first() + t);
        assert(s.drop_first().last() == s.last());
        lemma_script_ends(s.drop_first(), t);
        assert(whole[0] == s[0] && whole[1] == s[1]);
    } else {
        assert(whole[0] == s[0] && whole[1] == t[0] && s[0] == s.last());
    }
}

proof fn lemma_segments_add(s: Seq<Glyph>, t: Seq<Glyph>)
    requires
        t.len() > 0,
        s.len() > 0 ==> latin(shown(s.last())) != latin(shown(t[0])),
    ensures
        segments(s + t) == segments(s) + segments(t),
    decreases s.len(),
{
    if s.len() == 0 {
        assert(s + t =~= t);
        assert(segments(s) + segments(t) =~= segments(t));
    } else {
        lemma_script_ends(s, t);
        let n = script_len(s);
        assert((s + t).take(n) =~= s.take(n));
        assert((s + t).skip(n) =~= s.skip(n) + t);
        assert(s.skip(n).len() > 0 ==> s.skip(n).last() == s.last());
        lemma_segments_add(s.skip(n), t);
        assert(segments(s + t) =~= segments(s) + segments(t));
    }
}

/// Inside a word each script is read on its own: where Latin letters meet
/// others, what stands on one side has no say in how the other is read.
pub proof fn law_scripts_are_read_apart(a: Seq<char>, b: Seq<char>)
    requires
        one_chain(stream(a)),
        one_chain(stream(b)),
        stream(a).len() > 0,
        stream(b).len() > 0,
        latin(leet_of(stream(a).last().c)) != latin(leet_of(stream(b)[0].c)),
    ensures
        normal_text(a + b) == normal_text(a) + normal_text(b),
{
    let rest = lemma_stream_add(a, b);
    let (s, t) = (stream(a), stream(b));
    let start = to_the_start();
    assert(moved(rest, start).len() == rest.len() && moved(t, start).len() == t.len());
    assert forall|i: int| 0 <= i < rest.len() implies (#[trigger] rest[i]).word && rest[i].letter
        && rest[i].c == t[i].c by {
        assert(moved(rest, start)[i] == moved(t, start)[i]);
        assert(t[i].word && t[i].letter);
    }
    assert(one_chain(s + rest)) by {
        assert forall|i: int| 0 <= i < (s + rest).len() implies (#[trigger] (s + rest)[i]).word
            && (s + rest)[i].letter by {
            if i < s.len() {
                assert((s + rest)[i] == s[i]);
            } else {
                assert((s + rest)[i] == rest[i - s.len()]);
            }
        }
    }
    lemma_chain_of_letters(s);
    lemma_chain_of_letters(t);
    lemma_chain_of_letters(rest);
    lemma_chain_of_letters(s + rest);
    lemma_segments_add(s, rest);
    lemma_skeletons_add(segments(s), segments(rest));
    lemma_letters_add(skeletons(segments(s)), skeletons(segments(rest)));
    lemma_chained_moved(rest, start);
    lemma_chained_moved(t, start);
    lemma_same_letters(chained(rest), chained(t));
}

/// A match maps back to a non-empty range of the source.
pub proof fn law_surface_is_a_source_range(src: Seq<char>, start: int, end: int)
    requires
        src.len() <= usize::MAX,
        0 <= start < end <= normalized(src).text.len(),
    ensures
        normalized(src).source_range(start, end) matches Some((a, b)) && a < b <= src.len(),
{
    lemma_normal_places(src);
    let run = normal(src);
    let n = normalized(src);
    assert(n.map[start] == run[start].1);
    assert(n.map[end - 1] == run[end - 1].1);
    assert(run[start].1 <= run[end - 1].1);
    assert(run[end - 1].1 < src.len());
}

} // verus!
