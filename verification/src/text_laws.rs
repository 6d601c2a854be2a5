//! What numbers, names and layout in text promise.

use crate::text::{
    dec, dec_int, digit, digits_value, head, hex, hex_digit, i64_of_text, joined, left,
    lemma_pieces_nonempty, occurs, occurs_at, pieces, replaced, right, text_lt,
};
use vstd::prelude::*;

verus! {

// --- numbers -----------------------------------------------------------------

/// Decimal notation: digits only, the last one the units, what stands before
/// it the tens, and no zero in front.
pub proof fn law_decimal_notation(n: nat)
    ensures
        dec(n).len() > 0,
        forall|i: int| 0 <= i < dec(n).len() ==> '0' <= (#[trigger] dec(n)[i]) && dec(n)[i] <= '9',
        dec(n).last() as int == 48 + n % 10,
        n >= 10 ==> dec(n).drop_last() == dec(n / 10),
        n < 10 ==> dec(n).len() == 1,
        n > 0 ==> dec(n)[0] != '0',
        digits_value(dec(n)) == Some(n),
    decreases n,
{
    assert(digit(n % 10) as int == 48 + n % 10);
    if n >= 10 {
        law_decimal_notation(n / 10);
        let init = dec(n / 10);
        assert(dec(n).drop_last() =~= init);
        assert(dec(n)[0] == init[0]);
        assert forall|i: int| 0 <= i < dec(n).len() implies '0' <= (#[trigger] dec(n)[i])
            && dec(n)[i] <= '9' by {
            if i < init.len() {
                assert(dec(n)[i] == init[i]);
            }
        }
    }
}

/// A number written down is read back.
pub proof fn law_numbers_round_trip(n: i64)
    ensures
        i64_of_text(dec_int(n as int)) == Some(n),
        n < 0 <==> dec_int(n as int)[0] == '-',
{
    if n < 0 {
        law_decimal_notation((-n) as nat);
        assert(dec_int(n as int).drop_first() =~= dec((-n) as nat));
    } else {
        law_decimal_notation(n as nat);
        assert('0' <= dec(n as nat)[0]);
    }
}

/// What is read as a number is a run of digits after at most one sign.
pub proof fn law_only_digits_are_numbers(s: Seq<char>, k: int)
    requires
        0 <= k < s.len(),
        !('0' <= s[k] && s[k] <= '9'),
        k > 0 || (s[0] != '-' && s[0] != '+'),
    ensures
        i64_of_text(s) is None,
{
    if s[0] == '-' || s[0] == '+' {
        let t = s.drop_first();
        assert(t[k - 1] == s[k]);
        lemma_no_digits(t, k - 1);
    } else {
        lemma_no_digits(s, k);
    }
}

proof fn lemma_no_digits(s: Seq<char>, k: int)
    requires
        0 <= k < s.len(),
        !('0' <= s[k] && s[k] <= '9'),
    ensures
        digits_value(s) is None,
    decreases s.len(),
{
    if k < s.len() - 1 {
        assert(s.drop_last()[k] == s[k]);
        lemma_no_digits(s.drop_last(), k);
    }
}

/// An empty text is no number, and neither is a sign alone.
pub proof fn law_no_number_without_digits(s: Seq<char>)
    requires
        s.len() == 0 || (s.len() == 1 && (s[0] == '-' || s[0] == '+')),
    ensures
        i64_of_text(s) is None,
{
    if s.len() == 1 {
        assert(s.drop_first().len() == 0);
    }
}

/// The value of a number in hexadecimal digits.
pub open spec fn hex_value(s: Seq<char>) -> nat
    decreases s.len(),
{
    if s.len() == 0 {
        0
    } else {
        let c = s.last() as int;
        let d = if c < 58 {
            c - 48
        } else {
            c - 87
        };
        (hex_value(s.drop_last()) * 16 + d) as nat
    }
}

/// Sixteen to a power.
pub open spec fn pow16(k: nat) -> nat
    decreases k,
{
    if k == 0 {
        1
    } else {
        16 * pow16((k - 1) as nat)
    }
}

/// Hexadecimal digits give the number back, as far as they reach.
pub proof fn law_hexadecimal_notation(n: nat, width: nat)
    ensures
        hex(n, width).len() == width,
        n < pow16(width) ==> hex_value(hex(n, width)) == n,
    decreases width,
{
    if width > 0 {
        let less = (width - 1) as nat;
        law_hexadecimal_notation(n / 16, less);
        assert(hex(n, width).drop_last() =~= hex(n / 16, less));
        let d = n % 16;
        assert(hex(n, width).last() == hex_digit(d));
        if d < 10 {
            assert(hex_digit(d) as int == 48 + d);
        } else {
            assert(hex_digit(d) as int == 87 + d);
        }
        if n < pow16(width) {
            assert(n / 16 < pow16(less));
        }
    }
}

// --- layout ------------------------------------------------------------------

/// A column is as wide as it was set, unless the text is wider; the text
/// stands at its edge whole, and the rest is blanks.
pub proof fn law_columns_hold_their_text(s: Seq<char>, width: nat, i: int)
    ensures
        left(s, width).len() == (if s.len() < width {
            width
        } else {
            s.len()
        }),
        right(s, width).len() == left(s, width).len(),
        left(s, width).take(s.len() as int) == s,
        right(s, width).skip(right(s, width).len() - s.len()) == s,
        s.len() <= i < left(s, width).len() ==> left(s, width)[i] == ' ',
        0 <= i < right(s, width).len() - s.len() ==> right(s, width)[i] == ' ',
{
    assert(left(s, width).take(s.len() as int) =~= s);
    assert(right(s, width).skip(right(s, width).len() - s.len()) =~= s);
}

/// The head of a text: it begins the text, and is as long as asked for or as
/// there is.
pub proof fn law_head_begins_the_text(s: Seq<char>, n: nat, i: int)
    ensures
        head(s, n).len() == (if s.len() < n {
            s.len()
        } else {
            n
        }),
        0 <= i < head(s, n).len() ==> head(s, n)[i] == s[i],
{
}

// --- joining and splitting ---------------------------------------------------

/// Pieces joined again with the separator are the text, and none holds it.
pub proof fn law_split_and_join(s: Seq<char>, sep: char)
    ensures
        joined(pieces(s, sep), seq![sep]) == s,
        forall|k: int|
            0 <= k < pieces(s, sep).len() ==> !(#[trigger] pieces(s, sep)[k]).contains(sep),
    decreases s.len(),
{
    if s.len() == 0 {
        assert(joined(pieces(s, sep), seq![sep]) =~= s);
        assert(!Seq::<char>::empty().contains(sep));
    } else {
        let init = s.drop_last();
        let was = pieces(init, sep);
        let now = pieces(s, sep);
        law_split_and_join(init, sep);
        lemma_pieces_nonempty(init, sep);
        if s.last() == sep {
            assert(now.drop_last() =~= was);
            assert(joined(now, seq![sep]) =~= joined(was, seq![sep]) + seq![sep] + seq![]);
            assert(joined(now, seq![sep]) =~= s);
        } else {
            assert(now.drop_last() =~= was.drop_last());
            if was.len() == 1 {
                assert(now[0] =~= s);
            } else {
                assert(joined(now, seq![sep]) =~= joined(was, seq![sep]).push(s.last()));
                assert(joined(now, seq![sep]) =~= s);
            }
        }
        assert forall|k: int| 0 <= k < now.len() implies !(#[trigger] now[k]).contains(sep) by {
            if s.last() == sep {
                if k < was.len() {
                    assert(now[k] == was[k]);
                }
            } else if k < was.len() - 1 {
                assert(now[k] == was[k]);
            } else {
                let p = was.last();
                assert(!was[was.len() - 1].contains(sep));
                if now[k].contains(sep) {
                    let j = choose|j: int| 0 <= j < now[k].len() && now[k][j] == sep;
                    if j < p.len() {
                        assert(p[j] == sep);
                        assert(p.contains(sep));
                    }
                }
            }
        }
    }
}

/// Joining two lists puts the separator between them too.
pub proof fn law_join_is_in_order(a: Seq<Seq<char>>, b: Seq<Seq<char>>, sep: Seq<char>)
    ensures
        a.len() > 0 && b.len() > 0 ==> joined(a + b, sep) == joined(a, sep) + sep + joined(b, sep),
        a.len() == 0 ==> joined(a + b, sep) == joined(b, sep),
        a.len() == 1 ==> joined(a, sep) == a[0],
        a.len() == 0 ==> joined(a, sep) == Seq::<char>::empty(),
    decreases b.len(),
{
    if a.len() == 0 {
        assert(a + b =~= b);
    } else if b.len() > 0 {
        let whole = a + b;
        assert(whole.drop_last() =~= a + b.drop_last());
        assert(whole.last() == b.last());
        if b.len() == 1 {
            assert(a + b.drop_last() =~= a);
            assert(joined(whole, sep) =~= joined(a, sep) + sep + joined(b, sep));
        } else {
            law_join_is_in_order(a, b.drop_last(), sep);
            assert(joined(whole, sep) =~= joined(a, sep) + sep + joined(b, sep));
        }
    }
}

// --- replacing ---------------------------------------------------------------

proof fn lemma_occurs_later(s: Seq<char>, pat: Seq<char>, k: int)
    requires
        s.len() > 0,
        k >= 0,
    ensures
        occurs_at(s.drop_first(), pat, k) == occurs_at(s, pat, k + 1),
{
    if k + 1 + pat.len() <= s.len() {
        assert(s.drop_first().subrange(k, k + pat.len()) =~= s.subrange(k + 1, k + 1 + pat.len()));
    }
}

/// The first occurrence is replaced, what stands before it stays, and what
/// follows is taken on its own.
pub proof fn law_occurrences_are_replaced(
    a: Seq<char>,
    pat: Seq<char>,
    b: Seq<char>,
    with: Seq<char>,
)
    requires
        pat.len() > 0,
        forall|k: int| 0 <= k < a.len() ==> !#[trigger] occurs_at(a + pat + b, pat, k),
    ensures
        replaced(a + pat + b, pat, with) == a + with + replaced(b, pat, with),
    decreases a.len(),
{
    let s = a + pat + b;
    if a.len() == 0 {
        assert(s =~= pat + b);
        assert(s.subrange(0, pat.len() as int) =~= pat);
        assert(s.skip(pat.len() as int) =~= b);
        assert(a + with + replaced(b, pat, with) =~= with + replaced(b, pat, with));
    } else {
        assert(!occurs_at(s, pat, 0));
        let rest = a.drop_first();
        assert(s.drop_first() =~= rest + pat + b);
        assert forall|k: int| 0 <= k < rest.len() implies !#[trigger] occurs_at(
            rest + pat + b,
            pat,
            k,
        ) by {
            lemma_occurs_later(s, pat, k);
            assert(!occurs_at(s, pat, k + 1));
        }
        law_occurrences_are_replaced(rest, pat, b, with);
        assert(seq![s[0]] + (rest + with + replaced(b, pat, with)) =~= a + with + replaced(
            b,
            pat,
            with,
        ));
    }
}

/// Where the pattern does not occur nothing changes.
pub proof fn law_nothing_to_replace(s: Seq<char>, pat: Seq<char>, with: Seq<char>)
    requires
        !occurs(s, pat),
    ensures
        replaced(s, pat, with) == s,
    decreases s.len(),
{
    if pat.len() > 0 && s.len() >= pat.len() {
        assert(!occurs_at(s, pat, 0));
        assert forall|k: int| !#[trigger] occurs_at(s.drop_first(), pat, k) by {
            if k >= 0 {
                lemma_occurs_later(s, pat, k);
                assert(!occurs_at(s, pat, k + 1));
            }
        }
        law_nothing_to_replace(s.drop_first(), pat, with);
        assert(seq![s[0]] + s.drop_first() =~= s);
    }
}

// --- the order of names --------------------------------------------------------

/// Texts are ordered by the first character in which they differ; a text comes
/// before its continuations.
pub proof fn law_first_difference_decides(a: Seq<char>, b: Seq<char>, k: int)
    requires
        0 <= k <= a.len(),
        k < b.len(),
        a.take(k) == b.take(k),
        k == a.len() || a[k] < b[k],
    ensures
        text_lt(a, b),
        !text_lt(b, a),
    decreases k,
{
    if k > 0 {
        assert(a.take(k)[0] == a[0] && b.take(k)[0] == b[0]);
        let (x, y) = (a.drop_first(), b.drop_first());
        assert(x.take(k - 1) =~= a.take(k).drop_first());
        assert(y.take(k - 1) =~= b.take(k).drop_first());
        if k < a.len() {
            assert(x[k - 1] == a[k]);
        }
        assert(y[k - 1] == b[k]);
        law_first_difference_decides(x, y, k - 1);
    }
}

} // verus!
