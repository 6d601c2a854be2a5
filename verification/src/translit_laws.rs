//! How Latin letters are read: the table of transliteration and of leet, and
//! what they make of whole words.

use crate::norm::{
    combining, digraph, homoglyph, latin, leet_of, lowered, monograph, transliterated,
};
use crate::unicode::lowercase_of;
use vstd::prelude::*;

verus! {

/// The letter begins no combination with what follows it.
pub open spec fn stands_alone(c: char, rest: Seq<char>) -> bool {
    rest.len() == 0 || {
        let next = rest[0];
        &&& next != 'h' && next != 's' && next != 'c'
        &&& next != 'u' && next != 'a' && next != 'o' && next != 'e' && next != 'y'
    }
}

/// Every Latin letter has its spelling wherever it stands alone, and what
/// follows it is read on its own.
pub proof fn law_latin_letters_are_spelled(c: char, rest: Seq<char>)
    requires
        stands_alone(c, rest),
    ensures
        c == 'a' ==> transliterated(seq![c] + rest) == seq!['а'] + transliterated(rest),
        c == 'b' ==> transliterated(seq![c] + rest) == seq!['б'] + transliterated(rest),
        c == 'c' ==> transliterated(seq![c] + rest) == seq!['ц'] + transliterated(rest),
        c == 'd' ==> transliterated(seq![c] + rest) == seq!['д'] + transliterated(rest),
        c == 'e' ==> transliterated(seq![c] + rest) == seq!['е'] + transliterated(rest),
        c == 'f' ==> transliterated(seq![c] + rest) == seq!['ф'] + transliterated(rest),
        c == 'g' ==> transliterated(seq![c] + rest) == seq!['г'] + transliterated(rest),
        c == 'h' ==> transliterated(seq![c] + rest) == seq!['х'] + transliterated(rest),
        c == 'i' ==> transliterated(seq![c] + rest) == seq!['и'] + transliterated(rest),
        c == 'j' ==> transliterated(seq![c] + rest) == seq!['ж'] + transliterated(rest),
        c == 'k' ==> transliterated(seq![c] + rest) == seq!['к'] + transliterated(rest),
        c == 'l' ==> transliterated(seq![c] + rest) == seq!['л'] + transliterated(rest),
        c == 'm' ==> transliterated(seq![c] + rest) == seq!['м'] + transliterated(rest),
        c == 'n' ==> transliterated(seq![c] + rest) == seq!['н'] + transliterated(rest),
        c == 'o' ==> transliterated(seq![c] + rest) == seq!['о'] + transliterated(rest),
        c == 'p' ==> transliterated(seq![c] + rest) == seq!['п'] + transliterated(rest),
        c == 'q' ==> transliterated(seq![c] + rest) == seq!['к'] + transliterated(rest),
        c == 'r' ==> transliterated(seq![c] + rest) == seq!['р'] + transliterated(rest),
        c == 's' ==> transliterated(seq![c] + rest) == seq!['с'] + transliterated(rest),
        c == 't' ==> transliterated(seq![c] + rest) == seq!['т'] + transliterated(rest),
        c == 'u' ==> transliterated(seq![c] + rest) == seq!['у'] + transliterated(rest),
        c == 'v' ==> transliterated(seq![c] + rest) == seq!['в'] + transliterated(rest),
        c == 'w' ==> transliterated(seq![c] + rest) == seq!['в'] + transliterated(rest),
        c == 'x' ==> transliterated(seq![c] + rest) == seq!['к', 'с'] + transliterated(rest),
        c == 'y' ==> transliterated(seq![c] + rest) == seq!['ы'] + transliterated(rest),
        c == 'z' ==> transliterated(seq![c] + rest) == seq!['з'] + transliterated(rest),
        !('a' <= c && c <= 'z') ==> transliterated(seq![c] + rest) == seq![c] + transliterated(
            rest,
        ),
{
    let whole = seq![c] + rest;
    assert(whole[0] == c);
    assert(rest.len() > 0 ==> whole[1] == rest[0]);
    assert(whole.drop_first() =~= rest);
    assert(digraph(whole) is None);
    assert(transliterated(whole) == monograph(c) + transliterated(rest));
}

/// A letter that begins no combination is spelled alone whatever follows.
pub proof fn law_most_letters_never_combine(c: char, rest: Seq<char>)
    requires
        c != 'z' && c != 'k' && c != 'c' && c != 's' && c != 't' && c != 'y',
        c != 'i' && c != 'a' && c != 'o' && c != 'e',
    ensures
        transliterated(seq![c] + rest) == transliterated(seq![c]) + transliterated(rest),
{
    let whole = seq![c] + rest;
    assert(whole[0] == c);
    assert(whole.drop_first() =~= rest);
    assert(digraph(whole) is None);
    assert(digraph(seq![c]) is None);
    assert(seq![c].drop_first() =~= Seq::<char>::empty());
    assert(transliterated(Seq::<char>::empty()) =~= Seq::<char>::empty());
    assert(transliterated(seq![c]) =~= monograph(c));
}

/// Every combination of Latin letters is read as one sound, before its first
/// letter alone, and what follows is read on its own. The longer ones win.
pub proof fn law_combinations_are_spelled(rest: Seq<char>)
    ensures
        transliterated(seq!['s', 'h', 'c', 'h'] + rest) == seq!['щ'] + transliterated(rest),
        transliterated(seq!['s', 'c', 'h'] + rest) == seq!['щ'] + transliterated(rest),
        transliterated(seq!['z', 'h'] + rest) == seq!['ж'] + transliterated(rest),
        transliterated(seq!['k', 'h'] + rest) == seq!['х'] + transliterated(rest),
        transliterated(seq!['c', 'h'] + rest) == seq!['ч'] + transliterated(rest),
        !(rest.len() >= 2 && rest[0] == 'c' && rest[1] == 'h') ==> transliterated(
            seq!['s', 'h'] + rest,
        ) == seq!['ш'] + transliterated(rest),
        transliterated(seq!['t', 's'] + rest) == seq!['ц'] + transliterated(rest),
        transliterated(seq!['y', 'u'] + rest) == seq!['ю'] + transliterated(rest),
        transliterated(seq!['y', 'a'] + rest) == seq!['я'] + transliterated(rest),
        transliterated(seq!['y', 'o'] + rest) == seq!['ё'] + transliterated(rest),
        transliterated(seq!['y', 'e'] + rest) == seq!['е'] + transliterated(rest),
        transliterated(seq!['i', 'y'] + rest) == seq!['и', 'й'] + transliterated(rest),
        transliterated(seq!['a', 'y'] + rest) == seq!['а', 'й'] + transliterated(rest),
        transliterated(seq!['o', 'y'] + rest) == seq!['о', 'й'] + transliterated(rest),
        transliterated(seq!['e', 'y'] + rest) == seq!['е', 'й'] + transliterated(rest),
{
    assert((seq!['s', 'h', 'c', 'h'] + rest).skip(4) =~= rest);
    assert((seq!['s', 'c', 'h'] + rest).skip(3) =~= rest);
    assert((seq!['z', 'h'] + rest).skip(2) =~= rest);
    assert((seq!['k', 'h'] + rest).skip(2) =~= rest);
    assert((seq!['c', 'h'] + rest).skip(2) =~= rest);
    let sh = seq!['s', 'h'] + rest;
    assert(sh.skip(2) =~= rest);
    assert(rest.len() >= 2 ==> sh[2] == rest[0] && sh[3] == rest[1]);
    assert((seq!['t', 's'] + rest).skip(2) =~= rest);
    assert((seq!['y', 'u'] + rest).skip(2) =~= rest);
    assert((seq!['y', 'a'] + rest).skip(2) =~= rest);
    assert((seq!['y', 'o'] + rest).skip(2) =~= rest);
    assert((seq!['y', 'e'] + rest).skip(2) =~= rest);
    assert((seq!['i', 'y'] + rest).skip(2) =~= rest);
    assert((seq!['a', 'y'] + rest).skip(2) =~= rest);
    assert((seq!['o', 'y'] + rest).skip(2) =~= rest);
    assert((seq!['e', 'y'] + rest).skip(2) =~= rest);
}

/// A letter that could begin a combination is spelled alone where the pair is
/// none.
pub proof fn law_other_pairs_are_spelled_apart(a: char, b: char, rest: Seq<char>)
    requires
        !(b == 'h' && (a == 'z' || a == 'k' || a == 'c' || a == 's')),
        !(a == 't' && b == 's'),
        !(a == 's' && b == 'c'),
        !(a == 'y' && (b == 'u' || b == 'a' || b == 'o' || b == 'e')),
        !(b == 'y' && (a == 'i' || a == 'a' || a == 'o' || a == 'e')),
    ensures
        transliterated(seq![a, b] + rest) == transliterated(seq![a]) + transliterated(
            seq![b] + rest,
        ),
{
    let whole = seq![a, b] + rest;
    assert(whole[0] == a && whole[1] == b);
    assert(whole.drop_first() =~= seq![b] + rest);
    assert(digraph(whole) is None);
    assert(digraph(seq![a]) is None);
    assert(seq![a].drop_first() =~= Seq::<char>::empty());
    assert(transliterated(Seq::<char>::empty()) =~= Seq::<char>::empty());
    assert(transliterated(seq![a]) =~= monograph(a));
}

/// The digits and symbols that are used in place of letters, and nothing else.
pub proof fn law_leet_stands_for_letters(c: char)
    ensures
        c == '0' ==> leet_of(c) == 'o',
        c == '1' ==> leet_of(c) == 'i',
        c == '@' ==> leet_of(c) == 'a',
        c == '$' ==> leet_of(c) == 's',
        c == '3' ==> leet_of(c) == 'з',
        c == '4' ==> leet_of(c) == 'ч',
        c == '6' ==> leet_of(c) == 'б',
        c == '7' ==> leet_of(c) == 'т',
        c == '8' ==> leet_of(c) == 'в',
        leet_of(c) != c ==> ('0' <= c && c <= '8' && c != '2' && c != '5') || c == '@' || c == '$',
        leet_of(leet_of(c)) == leet_of(c),
{
}

/// Which letters are Latin, and which of them pass for Cyrillic ones.
pub proof fn law_look_alikes_are_latin(c: char)
    ensures
        latin(c) <==> (97 <= c as int && c as int <= 122) || (65 <= c as int && c as int <= 90),
        homoglyph(c) <==> seq!['a', 'c', 'e', 'o', 'p', 'x', 'y'].contains(c),
        homoglyph(c) ==> latin(c),
{
    let s = seq!['a', 'c', 'e', 'o', 'p', 'x', 'y'];
    if homoglyph(c) {
        assert(s[0] == 'a' && s[1] == 'c' && s[2] == 'e' && s[3] == 'o' && s[4] == 'p' && s[5]
            == 'x' && s[6] == 'y');
        if c == 'a' {
            assert(s.contains(s[0]));
        } else if c == 'c' {
            assert(s.contains(s[1]));
        } else if c == 'e' {
            assert(s.contains(s[2]));
        } else if c == 'o' {
            assert(s.contains(s[3]));
        } else if c == 'p' {
            assert(s.contains(s[4]));
        } else if c == 'x' {
            assert(s.contains(s[5]));
        } else {
            assert(s.contains(s[6]));
        }
    }
}

/// Marks are dropped wherever they stand, and nothing else is.
pub proof fn law_marks_are_dropped(a: Seq<char>, c: char, b: Seq<char>)
    ensures
        lowered(a + b) == lowered(a) + lowered(b),
        (0x300 <= c as int && c as int <= 0x36f) || (0x1ab0 <= c as int && c as int <= 0x1aff) || (
        0x1dc0 <= c as int && c as int <= 0x1dff) || (0x20d0 <= c as int && c as int <= 0x20f0) || (
        0xfe20 <= c as int && c as int <= 0xfe2f) ==> lowered(a.push(c) + b) == lowered(a + b),
        !((0x300 <= c as int && c as int <= 0x36f) || (0x1ab0 <= c as int && c as int <= 0x1aff)
            || (0x1dc0 <= c as int && c as int <= 0x1dff) || (0x20d0 <= c as int && c as int
            <= 0x20f0) || (0xfe20 <= c as int && c as int <= 0xfe2f)) ==> lowered(a.push(c) + b)
            == lowered(a) + lowercase_of(c) + lowered(b),
    decreases b.len(),
{
    assert(a.push(c).drop_last() =~= a);
    if b.len() == 0 {
        assert(a + b =~= a);
        assert(a.push(c) + b =~= a.push(c));
        assert(lowered(b) =~= Seq::<char>::empty());
        assert(lowered(a) + lowered(b) =~= lowered(a));
        assert(lowered(a.push(c)) =~= lowered(a) + (if combining(c) {
            seq![]
        } else {
            lowercase_of(c)
        }));
        assert(lowered(a) + lowercase_of(c) + lowered(b) =~= lowered(a) + lowercase_of(c));
    } else {
        let init = b.drop_last();
        law_marks_are_dropped(a, c, init);
        assert((a + b).drop_last() =~= a + init);
        assert((a.push(c) + b).drop_last() =~= a.push(c) + init);
        let own = if combining(b.last()) {
            Seq::<char>::empty()
        } else {
            lowercase_of(b.last())
        };
        assert(lowered(b) == lowered(init) + own);
        assert(lowered(a + b) == lowered(a + init) + own);
        assert(lowered(a.push(c) + b) == lowered(a.push(c) + init) + own);
        assert(lowered(a) + (lowered(init) + own) =~= (lowered(a) + lowered(init)) + own);
        assert(lowered(a) + lowercase_of(c) + (lowered(init) + own) =~= (lowered(a) + lowercase_of(
            c,
        ) + lowered(init)) + own);
    }
}

} // verus!
