//! What normalization makes of whole words, and where in the source it says
//! they stand.

use crate::norm::{
    chained, folded, glyph_of, glyphs_of, homoglyph, latin, leet_of, lemma_normal_places, lens_of,
    lettered, letters, normal, normal_text, normalized, only_letters, pending, respelled,
    script_len, segment, segments, settled, shape_of, shown, skeletons, spelling, stream, tagged,
    transliterated, word_from, word_to, Glyph,
};
use crate::unicode::{alphabetic, alphanumeric, skeleton_of, whitespace};
use vstd::prelude::*;

verus! {

// --- words of one kind of letters -------------------------------------------

/// A letter in lower case that folding and leet leave as it is.
pub open spec fn plain(c: char) -> bool {
    folded(c) == seq![c] && alphabetic(c) && alphanumeric(c) && leet_of(c) == c
}

/// The shapes of the letters of a word, one after another.
pub open spec fn shapes(s: Seq<char>) -> Seq<char>
    decreases s.len(),
{
    if s.len() == 0 {
        seq![]
    } else {
        shapes(s.drop_last()) + shape_of(s.last())
    }
}

/// Chars, each in its own place.
spec fn in_place(s: Seq<char>) -> Seq<(char, usize)> {
    Seq::new(s.len(), |i: int| (s[i], i as usize))
}

spec fn glyphs(s: Seq<char>) -> Seq<Glyph> {
    Seq::new(s.len(), |i: int| glyph_of(s[i], i as usize))
}

spec fn all_plain(s: Seq<char>) -> bool {
    forall|i: int| 0 <= i < s.len() ==> plain(#[trigger] s[i])
}

proof fn lemma_plain_stream(s: Seq<char>)
    requires
        all_plain(s),
    ensures
        stream(s) == glyphs(s),
    decreases s.len(),
{
    if s.len() > 0 {
        let init = s.drop_last();
        assert(all_plain(init)) by {
            assert forall|i: int| 0 <= i < init.len() implies plain(#[trigger] init[i]) by {
                assert(init[i] == s[i]);
            }
        }
        lemma_plain_stream(init);
        assert(plain(s[s.len() - 1]));
        assert(glyphs_of(folded(s.last()), (s.len() - 1) as usize) =~= seq![
            glyph_of(s.last(), (s.len() - 1) as usize),
        ]);
    }
    assert(stream(s) =~= glyphs(s));
}

proof fn lemma_plain_chain(g: Seq<Glyph>)
    requires
        forall|i: int| 0 <= i < g.len() ==> (#[trigger] g[i]).word && g[i].letter,
    ensures
        pending(g) == g,
        settled(g) == Seq::<(char, usize)>::empty(),
        chained(g) == segments(g),
    decreases g.len(),
{
    if g.len() > 0 {
        let init = g.drop_last();
        assert forall|i: int| 0 <= i < init.len() implies (#[trigger] init[i]).word
            && init[i].letter by {
            assert(init[i] == g[i]);
        }
        lemma_plain_chain(init);
        assert(g[g.len() - 1].word && g[g.len() - 1].letter);
        assert(pending(g) =~= g);
    }
    assert(chained(g) =~= segments(g));
}

proof fn lemma_only_letters(g: Seq<Glyph>)
    requires
        forall|i: int| 0 <= i < g.len() ==> (#[trigger] g[i]).reads && shown(g[i]) == g[i].c,
    ensures
        only_letters(g) == Seq::new(g.len(), |i: int| (g[i].c, g[i].at)),
    decreases g.len(),
{
    if g.len() > 0 {
        let init = g.drop_last();
        assert forall|i: int| 0 <= i < init.len() implies (#[trigger] init[i]).reads && shown(
            init[i],
        ) == init[i].c by {
            assert(init[i] == g[i]);
        }
        lemma_only_letters(init);
        assert(g[g.len() - 1].reads);
    }
    assert(only_letters(g) =~= Seq::new(g.len(), |i: int| (g[i].c, g[i].at)));
}

proof fn lemma_script(g: Seq<Glyph>)
    requires
        g.len() > 0,
    ensures
        0 < script_len(g) <= g.len(),
        forall|k: int|
            0 <= k < script_len(g) ==> latin(shown(#[trigger] g[k])) == latin(shown(g[0])),
    decreases g.len(),
{
    if g.len() > 1 && latin(shown(g[1])) == latin(shown(g[0])) {
        let rest = g.drop_first();
        lemma_script(rest);
        assert forall|k: int| 0 <= k < script_len(g) implies latin(shown(#[trigger] g[k])) == latin(
            shown(g[0]),
        ) by {
            if k > 0 {
                assert(g[k] == rest[k - 1]);
                assert(rest[0] == g[1]);
            }
        }
    }
}

/// Only look-alikes of Latin are there.
spec fn all_lookalikes(g: Seq<Glyph>) -> bool {
    forall|i: int|
        0 <= i < g.len() ==> {
            &&& (#[trigger] g[i]).reads
            &&& shown(g[i]) == g[i].c
            &&& latin(g[i].c) ==> homoglyph(g[i].c)
        }
}

proof fn lemma_lookalike_segments(g: Seq<Glyph>)
    requires
        all_lookalikes(g),
    ensures
        segments(g) == Seq::new(g.len(), |i: int| (g[i].c, g[i].at)),
    decreases g.len(),
{
    if g.len() > 0 {
        lemma_script(g);
        let n = script_len(g);
        let (head, tail) = (g.take(n), g.skip(n));
        assert(all_lookalikes(tail)) by {
            assert forall|i: int| 0 <= i < tail.len() implies (#[trigger] tail[i]).reads && shown(
                tail[i],
            ) == tail[i].c && (latin(tail[i].c) ==> homoglyph(tail[i].c)) by {
                assert(tail[i] == g[i + n]);
            }
        }
        assert forall|i: int| 0 <= i < head.len() implies (#[trigger] head[i]).reads && shown(
            head[i],
        ) == head[i].c by {
            assert(head[i] == g[i]);
        }
        assert(segment(head) == only_letters(head)) by {
            assert(head[0] == g[0]);
            if latin(shown(head[0])) {
                assert forall|i: int| 0 <= i < head.len() implies homoglyph(
                    shown(#[trigger] head[i]),
                ) by {
                    assert(head[i] == g[i]);
                    assert(latin(shown(g[i])) == latin(shown(g[0])));
                }
            }
        }
        lemma_only_letters(head);
        lemma_lookalike_segments(tail);
    }
    assert(segments(g) =~= Seq::new(g.len(), |i: int| (g[i].c, g[i].at)));
}

proof fn lemma_shapes(run: Seq<(char, usize)>)
    ensures
        letters(skeletons(run)) == shapes(letters(run)),
    decreases run.len(),
{
    if run.len() > 0 {
        let t = tagged(shape_of(run.last().0), run.last().1);
        lemma_shapes(run.drop_last());
        assert(letters(run).drop_last() =~= letters(run.drop_last()));
        assert(letters(t) =~= shape_of(run.last().0));
        assert(letters(skeletons(run.drop_last()) + t) =~= letters(skeletons(run.drop_last()))
            + letters(t));
    }
    assert(letters(skeletons(run)) =~= shapes(letters(run)));
}

/// A letter is read where it stands: a word of letters, whose Latin ones are
/// all look-alikes, keeps each of them, by its shape and in its place.
pub proof fn law_look_alikes_are_kept(s: Seq<char>)
    requires
        forall|i: int|
            0 <= i < s.len() ==> plain(#[trigger] s[i]) && (latin(s[i]) ==> homoglyph(s[i])),
    ensures
        normal_text(s) == shapes(s),
        chained(stream(s)).len() == s.len(),
        forall|i: int|
            0 <= i < s.len() ==> (#[trigger] chained(stream(s))[i]) == (s[i], i as usize),
{
    assert(all_plain(s));
    lemma_plain_stream(s);
    let g = glyphs(s);
    lemma_plain_chain(g);
    assert(all_lookalikes(g)) by {
        assert forall|i: int| 0 <= i < g.len() implies (#[trigger] g[i]).reads && shown(g[i])
            == g[i].c && (latin(g[i].c) ==> homoglyph(g[i].c)) by {
            assert(plain(s[i]));
        }
    }
    lemma_lookalike_segments(g);
    lemma_shapes(chained(stream(s)));
    assert(chained(stream(s)) =~= in_place(s));
    assert(letters(chained(stream(s))) =~= s);
}

proof fn lemma_latin_script(g: Seq<Glyph>)
    requires
        forall|i: int| 0 <= i < g.len() ==> latin(shown(#[trigger] g[i])),
    ensures
        script_len(g) == g.len(),
    decreases g.len(),
{
    if g.len() > 1 {
        let rest = g.drop_first();
        assert(latin(shown(g[0])) && latin(shown(g[1])));
        assert forall|i: int| 0 <= i < rest.len() implies latin(shown(#[trigger] rest[i])) by {
            assert(rest[i] == g[i + 1]);
        }
        lemma_latin_script(rest);
    }
}

/// A word written in Latin letters, not all of them look-alikes, normalizes as
/// its Cyrillic spelling does.
pub proof fn law_latin_word_reads_as_its_spelling(s: Seq<char>, k: int)
    requires
        forall|i: int| 0 <= i < s.len() ==> plain(#[trigger] s[i]) && latin(s[i]),
        0 <= k < s.len(),
        !homoglyph(s[k]),
        forall|i: int|
            0 <= i < transliterated(s).len() ==> plain(#[trigger] transliterated(s)[i]) && !latin(
                transliterated(s)[i],
            ),
    ensures
        normal_text(s) == shapes(transliterated(s)),
        normal_text(s) == normal_text(transliterated(s)),
{
    assert(all_plain(s));
    lemma_plain_stream(s);
    let g = glyphs(s);
    lemma_plain_chain(g);
    assert forall|i: int| 0 <= i < g.len() implies latin(shown(#[trigger] g[i])) by {
        assert(plain(s[i]));
    }
    lemma_latin_script(g);
    assert(g.take(script_len(g)) =~= g);
    assert(g.skip(script_len(g)) =~= Seq::<Glyph>::empty());
    assert(segments(g.skip(script_len(g))) =~= Seq::<(char, usize)>::empty());
    assert(latin(shown(g[0])));
    assert(plain(s[k]));
    assert(!homoglyph(shown(g[k])));
    assert(segments(g) =~= respelled(g));
    assert(spelling(g) =~= s) by {
        assert forall|i: int| 0 <= i < s.len() implies spelling(g)[i] == s[i] by {
            assert(plain(s[i]));
        }
    }
    assert(letters(respelled(g)) =~= transliterated(s));
    lemma_shapes(chained(stream(s)));
    law_look_alikes_are_kept(transliterated(s));
}

/// Chars that read alike, in the same places.
spec fn read_alike(g: Seq<Glyph>, h: Seq<Glyph>) -> bool {
    &&& g.len() == h.len()
    &&& forall|i: int|
        0 <= i < g.len() ==> {
            &&& shown(#[trigger] g[i]) == shown(h[i])
            &&& g[i].reads == h[i].reads
            &&& g[i].at == h[i].at
        }
}

proof fn lemma_read_alike_parts(g: Seq<Glyph>, h: Seq<Glyph>, from: int, to: int)
    requires
        read_alike(g, h),
        0 <= from <= to <= g.len(),
    ensures
        read_alike(g.subrange(from, to), h.subrange(from, to)),
{
    let (x, y) = (g.subrange(from, to), h.subrange(from, to));
    assert forall|i: int| 0 <= i < x.len() implies shown(#[trigger] x[i]) == shown(y[i])
        && x[i].reads == y[i].reads && x[i].at == y[i].at by {
        assert(x[i] == g[i + from] && y[i] == h[i + from]);
    }
}

proof fn lemma_read_alike_letters(g: Seq<Glyph>, h: Seq<Glyph>)
    requires
        read_alike(g, h),
    ensures
        only_letters(g) == only_letters(h),
    decreases g.len(),
{
    if g.len() > 0 {
        lemma_read_alike_parts(g, h, 0, g.len() - 1);
        assert(g.drop_last() =~= g.subrange(0, g.len() - 1));
        assert(h.drop_last() =~= h.subrange(0, h.len() - 1));
        lemma_read_alike_letters(g.drop_last(), h.drop_last());
        assert(shown(g[g.len() - 1]) == shown(h[h.len() - 1]));
    }
}

proof fn lemma_read_alike_script(g: Seq<Glyph>, h: Seq<Glyph>)
    requires
        read_alike(g, h),
    ensures
        script_len(g) == script_len(h),
    decreases g.len(),
{
    if g.len() > 1 {
        lemma_read_alike_parts(g, h, 1, g.len() as int);
        assert(g.drop_first() =~= g.subrange(1, g.len() as int));
        assert(h.drop_first() =~= h.subrange(1, h.len() as int));
        lemma_read_alike_script(g.drop_first(), h.drop_first());
        assert(shown(g[0]) == shown(h[0]) && shown(g[1]) == shown(h[1]));
    }
}

proof fn lemma_read_alike_segments(g: Seq<Glyph>, h: Seq<Glyph>)
    requires
        read_alike(g, h),
    ensures
        segments(g) == segments(h),
    decreases g.len(),
{
    if g.len() > 0 {
        lemma_read_alike_script(g, h);
        lemma_script(g);
        let n = script_len(g);
        lemma_read_alike_parts(g, h, 0, n);
        lemma_read_alike_parts(g, h, n, g.len() as int);
        assert(g.take(n) =~= g.subrange(0, n) && h.take(n) =~= h.subrange(0, n));
        assert(g.skip(n) =~= g.subrange(n, g.len() as int));
        assert(h.skip(n) =~= h.subrange(n, h.len() as int));
        lemma_read_alike_segments(g.skip(n), h.skip(n));
        let (x, y) = (g.take(n), h.take(n));
        assert(shown(x[0]) == shown(y[0]));
        assert forall|i: int| 0 <= i < x.len() implies shown(#[trigger] x[i]) == shown(y[i]) by {}
        assert forall|i: int| 0 <= i < y.len() implies shown(#[trigger] y[i]) == shown(x[i]) by {
            assert(shown(x[i]) == shown(y[i]));
        }
        lemma_read_alike_letters(x, y);
        assert(spelling(x) =~= spelling(y));
        assert(respelled(x) =~= respelled(y)) by {
            let m = respelled(x).len() as int;
            assert forall|k: int| 0 <= k < m implies respelled(x)[k] == respelled(y)[k] by {
                assert(0 <= k * n / m < n) by (nonlinear_arith)
                    requires
                        0 <= k < m,
                        0 < n,
                ;
                assert(x[k * n / m].at == y[k * n / m].at);
            }
        }
        assert(segment(x) == segment(y));
    }
}

/// A digit or symbol in place of a letter.
pub open spec fn reads_as_letter(c: char) -> bool {
    folded(c) == seq![c] && plain(leet_of(c))
}

/// Leet inside a word is read as the letters it stands for: one letter in the
/// word is enough.
pub proof fn law_leet_reads_as_letters(s: Seq<char>, t: Seq<char>, k: int)
    requires
        s.len() == t.len(),
        forall|i: int|
            0 <= i < s.len() ==> reads_as_letter(#[trigger] s[i]) && t[i] == leet_of(s[i]),
        0 <= k < s.len(),
        alphabetic(s[k]),
    ensures
        normal_text(s) == normal_text(t),
        normal(s) == normal(t),
{
    assert(all_plain(t)) by {
        assert forall|i: int| 0 <= i < t.len() implies plain(#[trigger] t[i]) by {
            assert(reads_as_letter(s[i]));
        }
    }
    lemma_plain_stream(t);
    lemma_single_stream(s);
    let (g, h) = (glyphs(s), glyphs(t));
    lemma_plain_chain(h);
    assert forall|i: int| 0 <= i < g.len() implies (#[trigger] g[i]).word by {
        assert(reads_as_letter(s[i]));
    }
    lemma_one_chain(g);
    assert(g[k].letter);
    assert(chained(g) =~= segments(g));
    assert(read_alike(g, h)) by {
        assert forall|i: int| 0 <= i < g.len() implies shown(#[trigger] g[i]) == shown(h[i])
            && g[i].reads == h[i].reads && g[i].at == h[i].at by {
            assert(reads_as_letter(s[i]));
        }
    }
    lemma_read_alike_segments(g, h);
}

proof fn lemma_single_stream(s: Seq<char>)
    requires
        forall|i: int| 0 <= i < s.len() ==> reads_as_letter(#[trigger] s[i]),
    ensures
        stream(s) == glyphs(s),
    decreases s.len(),
{
    if s.len() > 0 {
        let init = s.drop_last();
        assert forall|i: int| 0 <= i < init.len() implies reads_as_letter(#[trigger] init[i]) by {
            assert(init[i] == s[i]);
        }
        lemma_single_stream(init);
        assert(reads_as_letter(s[s.len() - 1]));
        assert(glyphs_of(folded(s.last()), (s.len() - 1) as usize) =~= seq![
            glyph_of(s.last(), (s.len() - 1) as usize),
        ]);
    }
    assert(stream(s) =~= glyphs(s));
}

proof fn lemma_one_chain(g: Seq<Glyph>)
    requires
        forall|i: int| 0 <= i < g.len() ==> (#[trigger] g[i]).word,
    ensures
        pending(g) == g,
        settled(g) == Seq::<(char, usize)>::empty(),
    decreases g.len(),
{
    if g.len() > 0 {
        let init = g.drop_last();
        assert forall|i: int| 0 <= i < init.len() implies (#[trigger] init[i]).word by {
            assert(init[i] == g[i]);
        }
        lemma_one_chain(init);
        assert(g[g.len() - 1].word);
        assert(pending(g) =~= g);
    }
}

/// A respelled segment points back into itself: it begins where the segment
/// begins, never leaves it, and where nothing was joined or split every letter
/// points to its own.
pub proof fn law_respelling_points_back(seg: Seq<Glyph>, k: int)
    requires
        0 <= k < respelled(seg).len(),
        seg.len() > 0,
    ensures
        letters(respelled(seg)) == transliterated(spelling(seg)),
        respelled(seg)[0].1 == seg[0].at,
        exists|i: int| 0 <= i < seg.len() && (#[trigger] seg[i]).at == respelled(seg)[k].1,
        respelled(seg).len() == seg.len() ==> respelled(seg)[k].1 == seg[k].at,
{
    let n = seg.len() as int;
    let m = respelled(seg).len() as int;
    assert(letters(respelled(seg)) =~= transliterated(spelling(seg)));
    assert(0 <= k * n / m < n) by (nonlinear_arith)
        requires
            0 <= k < m,
            0 < n,
    ;
    assert(0 * n / m == 0) by (nonlinear_arith)
        requires
            0 < m,
    ;
    assert(seg[k * n / m].at == respelled(seg)[k].1);
    if m == n {
        assert(k * n / n == k) by (nonlinear_arith)
            requires
                0 < n,
        ;
    }
}

/// A skeleton of letters alone is taken as it is.
pub proof fn law_letters_of_a_skeleton_stay(c: char)
    requires
        forall|i: int| 0 <= i < skeleton_of(c).len() ==> alphabetic(#[trigger] skeleton_of(c)[i]),
    ensures
        shape_of(c) == skeleton_of(c),
{
    lemma_letters_stay(skeleton_of(c));
}

proof fn lemma_letters_stay(s: Seq<char>)
    requires
        forall|i: int| 0 <= i < s.len() ==> alphabetic(#[trigger] s[i]),
    ensures
        lettered(s) == s,
    decreases s.len(),
{
    if s.len() > 0 {
        let init = s.drop_last();
        assert forall|i: int| 0 <= i < init.len() implies alphabetic(#[trigger] init[i]) by {
            assert(init[i] == s[i]);
        }
        lemma_letters_stay(init);
        assert(alphabetic(s[s.len() - 1]));
    }
    assert(lettered(s) =~= s);
}

// --- places in the source -----------------------------------------------------

/// A match starts a word exactly where its first letter comes from a letter or
/// digit with neither before it.
pub proof fn law_word_starts_follow_no_letter(src: Seq<char>, start: int)
    requires
        src.len() <= usize::MAX,
        0 <= start < normalized(src).text.len(),
    ensures
        normalized(src).begins_word(start) <==> {
            let p = normalized(src).map[start] as int;
            alphanumeric(src[p]) && (p == 0 || !alphanumeric(src[p - 1]))
        },
{
    lemma_normal_places(src);
    let run = normal(src);
    assert(normalized(src).map[start] == run[start].1);
    assert(run[start].1 < src.len());
}

proof fn lemma_word_bounds(blank: Seq<bool>, i: int)
    requires
        0 <= i < blank.len(),
        !blank[i],
    ensures
        word_from(blank, i) <= i < word_to(blank, i),
        word_from(blank, i) == i <==> i == 0 || blank[i - 1],
        word_to(blank, i) == i + 1 <==> i + 1 == blank.len() || blank[i + 1],
{
    lemma_from_le(blank, i);
    if i > 0 {
        lemma_from_le(blank, i - 1);
    }
    lemma_to_ge(blank, i + 1);
    if i + 1 < blank.len() {
        lemma_to_ge(blank, i + 2);
    }
}

proof fn lemma_from_le(blank: Seq<bool>, i: int)
    requires
        0 <= i,
    ensures
        word_from(blank, i) <= i,
    decreases i,
{
    if !(i <= 0 || blank[i - 1]) {
        lemma_from_le(blank, i - 1);
    }
}

proof fn lemma_to_ge(blank: Seq<bool>, i: int)
    ensures
        word_to(blank, i) >= i,
    decreases blank.len() - i,
{
    if !(i >= blank.len() || blank[i]) {
        lemma_to_ge(blank, i + 1);
    }
}

/// The length of a word is the distance between the blanks, or ends of the
/// text, around it.
pub proof fn law_words_reach_from_blank_to_blank(blank: Seq<bool>, from: int, i: int, to: int)
    requires
        0 <= from <= i < to <= blank.len(),
        forall|k: int| from <= k < to ==> !(#[trigger] blank[k]),
        from == 0 || blank[from - 1],
        to == blank.len() || blank[to],
    ensures
        to - from <= u16::MAX ==> lens_of(blank)[i] == to - from,
        to - from > u16::MAX ==> lens_of(blank)[i] == u16::MAX,
{
    lemma_reach_back(blank, from, i);
    lemma_reach_on(blank, i, to);
    assert(!blank[i]);
}

proof fn lemma_reach_back(blank: Seq<bool>, from: int, i: int)
    requires
        0 <= from <= i <= blank.len(),
        forall|k: int| from <= k < i ==> !(#[trigger] blank[k]),
        from == 0 || blank[from - 1],
    ensures
        word_from(blank, i) == from,
    decreases i,
{
    if i > from {
        assert(!blank[i - 1]);
        lemma_reach_back(blank, from, i - 1);
    }
}

proof fn lemma_reach_on(blank: Seq<bool>, i: int, to: int)
    requires
        0 <= i <= to <= blank.len(),
        forall|k: int| i <= k < to ==> !(#[trigger] blank[k]),
        to == blank.len() || blank[to],
    ensures
        word_to(blank, i) == to,
    decreases to - i,
{
    if i < to {
        assert(!blank[i]);
        lemma_reach_on(blank, i + 1, to);
    }
}

/// No blank on either side.
pub open spec fn stands_between_blanks(src: Seq<char>, i: int) -> bool {
    (i == 0 || whitespace(src[i - 1])) && (i + 1 == src.len() || whitespace(src[i + 1]))
}

/// A match is of one word exactly where no blank lies between the places of
/// its first and last letters, or all there is between the blanks is single
/// characters.
pub proof fn law_one_word_has_no_blank_inside(src: Seq<char>, start: int, end: int)
    requires
        src.len() <= usize::MAX,
        0 <= start < end <= normalized(src).text.len(),
    ensures
        normalized(src).one_word(start, end) <==> {
            let a = normalized(src).map[start] as int;
            let b = normalized(src).map[end - 1] as int;
            ||| forall|i: int| a <= i <= b ==> !whitespace(#[trigger] src[i])
            ||| forall|i: int|
                a <= i <= b && !whitespace(#[trigger] src[i]) ==> stands_between_blanks(src, i)
        },
{
    lemma_normal_places(src);
    let run = normal(src);
    let n = normalized(src);
    let a = n.map[start] as int;
    let b = n.map[end - 1] as int;
    assert(n.map[start] == run[start].1 && n.map[end - 1] == run[end - 1].1);
    assert(run[start].1 < src.len() && run[end - 1].1 < src.len());
    let blank = Seq::new(src.len(), |i: int| whitespace(src[i]));
    assert forall|i: int| 0 <= i < src.len() implies {
        &&& (#[trigger] n.word_len[i]) == 0 <==> whitespace(src[i])
        &&& !whitespace(src[i]) ==> (n.word_len[i] <= 1 <==> stands_between_blanks(src, i))
    } by {
        if !blank[i] {
            lemma_word_bounds(blank, i);
        }
    }
    if n.one_word(start, end) {
        if forall|i: int| a <= i <= b ==> (#[trigger] n.word_len[i]) != 0 {
            assert forall|i: int| a <= i <= b implies !whitespace(#[trigger] src[i]) by {
                assert(n.word_len[i] != 0);
            }
        } else {
            assert forall|i: int|
                a <= i <= b && !whitespace(#[trigger] src[i]) implies stands_between_blanks(
                src,
                i,
            ) by {
                assert(n.word_len[i] <= 1);
            }
        }
    } else {
        let x = choose|i: int| a <= i <= b && (#[trigger] n.word_len[i]) == 0;
        let y = choose|i: int| a <= i <= b && (#[trigger] n.word_len[i]) > 1;
        assert(whitespace(src[x]));
        assert(!whitespace(src[y]));
        assert(!stands_between_blanks(src, y));
    }
}

/// The source range of a match holds the places of all its letters, and begins
/// and ends with one of them.
pub proof fn law_surface_holds_the_match(src: Seq<char>, start: int, end: int, k: int)
    requires
        src.len() <= usize::MAX,
        0 <= start <= k < end <= normalized(src).text.len(),
    ensures
        normalized(src).source_range(start, end) matches Some((a, b)) && {
            &&& a <= normalized(src).map[k] < b
            &&& exists|i: int|
                start <= i < end && (#[trigger] normalized(src).map[i]) == a
            &&& exists|i: int|
                start <= i < end && (#[trigger] normalized(src).map[i]) == b - 1
        },
{
    lemma_normal_places(src);
    let run = normal(src);
    let n = normalized(src);
    assert(n.map[start] == run[start].1 && n.map[end - 1] == run[end - 1].1 && n.map[k]
        == run[k].1);
    assert(run[start].1 <= run[k].1 <= run[end - 1].1);
    assert(run[end - 1].1 < src.len());
}

/// Outside the normal form there is no match to map back.
pub proof fn law_no_surface_outside(src: Seq<char>, start: int, end: int)
    requires
        start < 0 || start >= normalized(src).text.len() || end <= 0 || end
            > normalized(src).text.len(),
    ensures
        normalized(src).source_range(start, end) is None,
{
}

} // verus!
