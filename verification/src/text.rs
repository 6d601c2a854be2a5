//! Text primitives: characters in and out of strings, decimal numbers,
//! padding, search, replacement and the lexicographic order of names.
//!
//! Every contract speaks of a string as the sequence of its characters.

use vstd::prelude::*;

verus! {

/// `String::push` of the standard library appends one character.
pub assume_specification[ String::push ](s: &mut String, c: char)
    ensures
        final(s)@ == old(s)@.push(c),
;

/// `char::from_u32` of the standard library: the char with that code, if the
/// number is one.
pub assume_specification[ char::from_u32 ](i: u32) -> (r: Option<char>)
    ensures
        match r {
            Some(c) => c as int == i,
            None => 0xd800 <= i < 0xe000 || i > 0x10ffff,
        },
;

/// The characters of every string of a list.
pub open spec fn views(v: Seq<String>) -> Seq<Seq<char>> {
    Seq::new(v.len(), |i: int| v[i]@)
}

/// The characters of every string slice of a list.
pub open spec fn str_views(v: Seq<&str>) -> Seq<Seq<char>> {
    Seq::new(v.len(), |i: int| v[i]@)
}

/// The characters of an optional string.
pub open spec fn opt_view(s: Option<String>) -> Option<Seq<char>> {
    match s {
        Some(s) => Some(s@),
        None => None,
    }
}

pub open spec fn opt_views(v: Seq<Option<String>>) -> Seq<Option<Seq<char>>> {
    Seq::new(v.len(), |i: int| opt_view(v[i]))
}

/// The characters of a string, in order.
pub fn chars_of(s: &str) -> (r: Vec<char>)
    ensures
        r@ == s@,
{
    let mut out: Vec<char> = Vec::new();
    for c in it: s.chars()
        invariant
            it.seq() == s@,
            out@ == s@.take(it.index() as int),
    {
        out.push(c);
        assert(out@ == s@.take(it.index() as int + 1));
    }
    assert(s@.take(s@.len() as int) == s@);
    out
}

/// Append a run of characters to a string.
pub fn push_chars(out: &mut String, cs: &[char])
    ensures
        final(out)@ == old(out)@ + cs@,
{
    let mut i: usize = 0;
    while i < cs.len()
        invariant
            i <= cs@.len(),
            out@ == old(out)@ + cs@.take(i as int),
        decreases cs@.len() - i,
    {
        out.push(cs[i]);
        assert(cs@.take(i + 1) == cs@.take(i as int).push(cs@[i as int]));
        i += 1;
    }
    assert(cs@.take(i as int) == cs@);
}

/// The string made of these characters.
pub fn string_of(cs: &[char]) -> (r: String)
    ensures
        r@ == cs@,
{
    let mut out: String = String::new();
    push_chars(&mut out, cs);
    assert(out@ == cs@);
    out
}

/// Equality of two strings, character by character.
pub fn same(a: &str, b: &str) -> (r: bool)
    ensures
        r == (a@ == b@),
{
    let x: Vec<char> = chars_of(a);
    let y: Vec<char> = chars_of(b);
    if x.len() != y.len() {
        return false;
    }
    let mut i: usize = 0;
    while i < x.len()
        invariant
            i <= x@.len(),
            x@.len() == y@.len(),
            x@ == a@,
            y@ == b@,
            forall|k: int| 0 <= k < i ==> x@[k] == y@[k],
        decreases x@.len() - i,
    {
        if x[i] != y[i] {
            assert(a@[i as int] != b@[i as int]);
            return false;
        }
        i += 1;
    }
    assert(a@ =~= b@);
    true
}

// --- order ---------------------------------------------------------------

/// The lexicographic order by code point, which is also the order of the
/// UTF-8 bytes.
pub open spec fn text_lt(a: Seq<char>, b: Seq<char>) -> bool
    decreases a.len(),
{
    if b.len() == 0 {
        false
    } else if a.len() == 0 {
        true
    } else if a[0] != b[0] {
        a[0] < b[0]
    } else {
        text_lt(a.drop_first(), b.drop_first())
    }
}

/// Of two different texts exactly one comes first, and a text never comes
/// before itself.
pub proof fn lemma_text_lt_total(a: Seq<char>, b: Seq<char>)
    ensures
        text_lt(a, b) ==> !text_lt(b, a),
        a != b ==> text_lt(a, b) || text_lt(b, a),
        text_lt(a, b) ==> a != b,
    decreases a.len(),
{
    if a.len() > 0 && b.len() > 0 {
        lemma_text_lt_total(a.drop_first(), b.drop_first());
        if a[0] == b[0] && a.drop_first() == b.drop_first() {
            assert(a =~= seq![a[0]] + a.drop_first());
            assert(b =~= seq![b[0]] + b.drop_first());
        }
    } else if a.len() == 0 && b.len() == 0 {
        assert(a =~= b);
    }
}

pub proof fn lemma_text_lt_trans(a: Seq<char>, b: Seq<char>, c: Seq<char>)
    requires
        text_lt(a, b),
        text_lt(b, c),
    ensures
        text_lt(a, c),
    decreases a.len(),
{
    if a.len() > 0 && b.len() > 0 && c.len() > 0 && a[0] == b[0] && b[0] == c[0] {
        lemma_text_lt_trans(a.drop_first(), b.drop_first(), c.drop_first());
    }
}

/// Whether one string comes before another.
pub fn before(a: &str, b: &str) -> (r: bool)
    ensures
        r == text_lt(a@, b@),
{
    let x: Vec<char> = chars_of(a);
    let y: Vec<char> = chars_of(b);
    let mut i: usize = 0;
    assert(a@.skip(0) == a@);
    assert(b@.skip(0) == b@);
    while i < x.len() && i < y.len() && x[i] == y[i]
        invariant
            i <= x@.len(),
            i <= y@.len(),
            x@ == a@,
            y@ == b@,
            text_lt(a@, b@) == text_lt(a@.skip(i as int), b@.skip(i as int)),
        decreases x@.len() - i,
    {
        assert(a@.skip(i as int).drop_first() == a@.skip(i + 1));
        assert(b@.skip(i as int).drop_first() == b@.skip(i + 1));
        i += 1;
    }
    if i >= y.len() {
        false
    } else if i >= x.len() {
        true
    } else {
        x[i] < y[i]
    }
}

/// Names in strictly ascending order: a set, written out.
pub open spec fn strictly_sorted(s: Seq<Seq<char>>) -> bool {
    forall|i: int, j: int| 0 <= i < j < s.len() ==> text_lt(#[trigger] s[i], #[trigger] s[j])
}

/// Add a name to a list kept in strictly ascending order.
pub fn insert_name(set: &mut Vec<String>, name: &str)
    requires
        strictly_sorted(views(old(set)@)),
    ensures
        strictly_sorted(views(final(set)@)),
        views(final(set)@).to_set() == views(old(set)@).to_set().insert(name@),
{
    let ghost was = views(set@);
    let mut i: usize = 0;
    while i < set.len() && before(set[i].as_str(), name)
        invariant
            i <= set@.len(),
            was == views(set@),
            set@ == old(set)@,
            strictly_sorted(was),
            forall|k: int| 0 <= k < i ==> text_lt(#[trigger] was[k], name@),
        decreases set@.len() - i,
    {
        assert(was[i as int] == set@[i as int]@);
        i += 1;
    }
    if i < set.len() && same(set[i].as_str(), name) {
        assert(was[i as int] == name@);
        assert(was.contains(name@));
        assert(was.to_set().insert(name@) =~= was.to_set());
        return ;
    }
    proof {
        assert forall|k: int| i <= k < was.len() implies text_lt(name@, #[trigger] was[k]) by {
            assert(was[i as int] == set@[i as int]@);
            lemma_text_lt_total(was[i as int], name@);
            if k > i {
                lemma_text_lt_trans(name@, was[i as int], was[k]);
            }
        }
    }
    set.insert(i, name.to_owned());
    proof {
        let now = views(set@);
        assert(now =~= was.insert(i as int, name@));
        assert forall|x: Seq<char>| now.to_set().contains(x) <==> #[trigger] was.to_set().insert(
            name@,
        ).contains(x) by {
            if now.to_set().contains(x) {
                let k = choose|k: int| 0 <= k < now.len() && now[k] == x;
                if k < i {
                    assert(was[k] == x);
                } else if k > i {
                    assert(was[k - 1] == x);
                }
            }
            if was.to_set().contains(x) {
                let k = choose|k: int| 0 <= k < was.len() && was[k] == x;
                if k < i {
                    assert(now[k] == x);
                } else {
                    assert(now[k + 1] == x);
                }
            }
            assert(now[i as int] == name@);
        }
        assert(now.to_set() =~= was.to_set().insert(name@));
    }
}

/// Two lists in strictly ascending order that hold the same names are the
/// same list.
pub proof fn lemma_sorted_set_unique(a: Seq<Seq<char>>, b: Seq<Seq<char>>)
    requires
        strictly_sorted(a),
        strictly_sorted(b),
        a.to_set() == b.to_set(),
    ensures
        a == b,
    decreases a.len(),
{
    if a.len() == 0 || b.len() == 0 {
        if b.len() > 0 {
            assert(b.to_set().contains(b[0]));
            assert(a.contains(b[0]));
        }
        if a.len() > 0 {
            assert(a.to_set().contains(a[0]));
            assert(b.contains(a[0]));
        }
        assert(a =~= b);
    } else {
        let x = a.last();
        let y = b.last();
        assert(a.to_set().contains(x));
        assert(b.to_set().contains(y));
        let i = choose|i: int| 0 <= i < b.len() && b[i] == x;
        let j = choose|j: int| 0 <= j < a.len() && a[j] == y;
        lemma_text_lt_total(x, y);
        assert(x == y) by {
            if i < b.len() - 1 {
                assert(text_lt(b[i], b[b.len() - 1]));
            }
            if j < a.len() - 1 {
                assert(text_lt(a[j], a[a.len() - 1]));
            }
        }
        let a1 = a.drop_last();
        let b1 = b.drop_last();
        assert forall|z: Seq<char>| a1.to_set().contains(z) <==> #[trigger] b1.to_set().contains(
            z,
        ) by {
            lemma_text_lt_total(z, x);
            if a1.to_set().contains(z) {
                let k = choose|k: int| 0 <= k < a1.len() && a1[k] == z;
                assert(a[k] == z && text_lt(a[k], a[a.len() - 1]));
                assert(a.to_set().contains(z));
                let m = choose|m: int| 0 <= m < b.len() && b[m] == z;
                assert(b1[m] == z);
            }
            if b1.to_set().contains(z) {
                let k = choose|k: int| 0 <= k < b1.len() && b1[k] == z;
                assert(b[k] == z && text_lt(b[k], b[b.len() - 1]));
                assert(b.to_set().contains(z));
                let m = choose|m: int| 0 <= m < a.len() && a[m] == z;
                assert(a1[m] == z);
            }
        }
        assert(a1.to_set() =~= b1.to_set());
        lemma_sorted_set_unique(a1, b1);
        assert(a =~= a1.push(x));
        assert(b =~= b1.push(y));
    }
}

/// Add every name of a list to a list kept in ascending order.
pub fn insert_names(set: &mut Vec<String>, names: &Vec<String>)
    requires
        strictly_sorted(views(old(set)@)),
    ensures
        strictly_sorted(views(final(set)@)),
        views(final(set)@).to_set() == views(old(set)@).to_set().union(views(names@).to_set()),
{
    let ghost was = views(set@).to_set();
    let ghost all = views(names@);
    let mut i: usize = 0;
    assert(was.union(all.take(0).to_set()) =~= was);
    while i < names.len()
        invariant
            i <= names@.len(),
            all == views(names@),
            strictly_sorted(views(set@)),
            views(set@).to_set() == was.union(all.take(i as int).to_set()),
        decreases names@.len() - i,
    {
        insert_name(set, names[i].as_str());
        proof {
            let before = all.take(i as int);
            let now = all.take(i + 1);
            assert(now =~= before.push(all[i as int]));
            assert forall|x: Seq<char>| #[trigger] now.to_set().contains(x) <==> before.to_set().insert(
                all[i as int],
            ).contains(x) by {
                if now.contains(x) {
                    let k = choose|k: int| 0 <= k < now.len() && now[k] == x;
                    if k < i {
                        assert(before[k] == x);
                    }
                }
                if before.contains(x) {
                    let k = choose|k: int| 0 <= k < before.len() && before[k] == x;
                    assert(now[k] == x);
                }
                assert(now[i as int] == all[i as int]);
            }
            assert(now.to_set() =~= before.to_set().insert(all[i as int]));
            assert(was.union(before.to_set()).insert(all[i as int]) =~= was.union(now.to_set()));
        }
        i += 1;
    }
    assert(all.take(i as int) =~= all);
}

/// The names of a set in strictly ascending order.
pub open spec fn listed(names: Set<Seq<char>>) -> Seq<Seq<char>> {
    choose|s: Seq<Seq<char>>| strictly_sorted(s) && #[trigger] s.to_set() == names
}

/// A list in strictly ascending order is the list of its names.
pub proof fn lemma_listed(s: Seq<Seq<char>>)
    requires
        strictly_sorted(s),
    ensures
        listed(s.to_set()) == s,
{
    lemma_sorted_set_unique(listed(s.to_set()), s);
}

/// The names of any list can be put in strictly ascending order.
pub proof fn lemma_can_list(names: Seq<Seq<char>>) -> (s: Seq<Seq<char>>)
    ensures
        strictly_sorted(s),
        s.to_set() == names.to_set(),
    decreases names.len(),
{
    if names.len() == 0 {
        let s = Seq::<Seq<char>>::empty();
        assert(s.to_set() =~= names.to_set());
        s
    } else {
        let x = names.last();
        let t = lemma_can_list(names.drop_last());
        let s = lemma_can_insert(t, x);
        assert forall|y: Seq<char>| s.to_set().contains(y) <==> #[trigger] names.to_set().contains(
            y,
        ) by {
            let init = names.drop_last();
            if names.contains(y) {
                let k = choose|k: int| 0 <= k < names.len() && names[k] == y;
                if k < init.len() {
                    assert(init[k] == y);
                    assert(init.to_set().contains(y));
                }
            }
            if init.to_set().contains(y) {
                let k = choose|k: int| 0 <= k < init.len() && init[k] == y;
                assert(names[k] == y);
            }
            assert(names[names.len() - 1] == x);
        }
        assert(s.to_set() =~= names.to_set());
        s
    }
}

proof fn lemma_can_insert(t: Seq<Seq<char>>, x: Seq<char>) -> (s: Seq<Seq<char>>)
    requires
        strictly_sorted(t),
    ensures
        strictly_sorted(s),
        s.to_set() == t.to_set().insert(x),
        forall|i: int| 0 <= i < s.len() ==> #[trigger] s[i] == x || t.contains(s[i]),
    decreases t.len(),
{
    if t.len() == 0 {
        let s = seq![x];
        assert(s[0] == x);
        assert(s.to_set() =~= t.to_set().insert(x));
        s
    } else {
        let y = t.last();
        let init = t.drop_last();
        lemma_text_lt_total(y, x);
        assert forall|z: Seq<char>| #[trigger] t.to_set().contains(z) <==> init.to_set().insert(
            y,
        ).contains(z) by {
            if t.contains(z) {
                let k = choose|k: int| 0 <= k < t.len() && t[k] == z;
                if k < init.len() {
                    assert(init[k] == z);
                }
            }
            if init.contains(z) {
                let k = choose|k: int| 0 <= k < init.len() && init[k] == z;
                assert(t[k] == z);
            }
            assert(t[t.len() - 1] == y);
        }
        assert(t.to_set() =~= init.to_set().insert(y));
        if x == y {
            assert(t[t.len() - 1] == x);
            assert(t.to_set() =~= t.to_set().insert(x));
            t
        } else if text_lt(y, x) {
            let s = t.push(x);
            assert forall|i: int, j: int| 0 <= i < j < s.len() implies text_lt(
                #[trigger] s[i],
                #[trigger] s[j],
            ) by {
                if j == t.len() && i < t.len() - 1 {
                    lemma_text_lt_trans(t[i], t[t.len() - 1], x);
                }
            }
            assert forall|z: Seq<char>| #[trigger] s.to_set().contains(z) <==> t.to_set().insert(
                x,
            ).contains(z) by {
                if s.contains(z) {
                    let k = choose|k: int| 0 <= k < s.len() && s[k] == z;
                    if k < t.len() {
                        assert(t[k] == z);
                    }
                }
                if t.contains(z) {
                    let k = choose|k: int| 0 <= k < t.len() && t[k] == z;
                    assert(s[k] == z);
                }
                assert(s[t.len() as int] == x);
            }
            assert(s.to_set() =~= t.to_set().insert(x));
            s
        } else {
            let u = lemma_can_insert(init, x);
            let s = u.push(y);
            assert forall|i: int, j: int| 0 <= i < j < s.len() implies text_lt(
                #[trigger] s[i],
                #[trigger] s[j],
            ) by {
                if j == u.len() {
                    if u[i] != x {
                        let k = choose|k: int| 0 <= k < init.len() && init[k] == u[i];
                        assert(t[k] == u[i] && text_lt(t[k], t[t.len() - 1]));
                    }
                }
            }
            assert forall|z: Seq<char>| #[trigger] s.to_set().contains(z) <==> u.to_set().insert(
                y,
            ).contains(z) by {
                if s.contains(z) {
                    let k = choose|k: int| 0 <= k < s.len() && s[k] == z;
                    if k < u.len() {
                        assert(u[k] == z);
                    }
                }
                if u.contains(z) {
                    let k = choose|k: int| 0 <= k < u.len() && u[k] == z;
                    assert(s[k] == z);
                }
                assert(s[u.len() as int] == y);
            }
            assert(s.to_set() =~= u.to_set().insert(y));
            assert(s.to_set() =~= t.to_set().insert(x));
            assert forall|i: int| 0 <= i < s.len() implies #[trigger] s[i] == x || t.contains(
                s[i],
            ) by {
                if i < u.len() {
                    if u[i] != x {
                        let k = choose|k: int| 0 <= k < init.len() && init[k] == u[i];
                        assert(t[k] == s[i]);
                    }
                } else {
                    assert(t[t.len() - 1] == s[i]);
                }
            }
            s
        }
    }
}

/// A copy of a list of names.
pub fn copy_names(names: &Vec<String>) -> (r: Vec<String>)
    ensures
        views(r@) == views(names@),
{
    let mut out: Vec<String> = Vec::new();
    let mut i: usize = 0;
    while i < names.len()
        invariant
            i <= names@.len(),
            views(out@) == views(names@).take(i as int),
        decreases names@.len() - i,
    {
        let ghost was = views(out@);
        out.push(names[i].clone());
        assert(views(out@) =~= was.push(names@[i as int]@));
        i += 1;
        assert(views(out@) =~= views(names@).take(i as int));
    }
    assert(views(names@).take(i as int) =~= views(names@));
    out
}

/// Whether a list of names holds a name.
pub fn has_name(names: &Vec<String>, name: &str) -> (r: bool)
    ensures
        r == views(names@).contains(name@),
{
    let mut i: usize = 0;
    while i < names.len()
        invariant
            i <= names@.len(),
            forall|k: int| 0 <= k < i ==> #[trigger] names@[k]@ != name@,
        decreases names@.len() - i,
    {
        if same(names[i].as_str(), name) {
            assert(views(names@)[i as int] == name@);
            return true;
        }
        i += 1;
    }
    proof {
        if views(names@).contains(name@) {
            let k = choose|k: int| 0 <= k < names@.len() && views(names@)[k] == name@;
            assert(names@[k]@ == name@);
        }
    }
    false
}

// --- numbers -------------------------------------------------------------

/// The character of a decimal digit.
pub open spec fn digit(d: nat) -> char {
    (48 + d) as u8 as char
}

/// Decimal notation, without a sign and without leading zeros.
pub open spec fn dec(n: nat) -> Seq<char>
    decreases n,
{
    if n < 10 {
        seq![digit(n)]
    } else {
        dec(n / 10).push(digit(n % 10))
    }
}

/// Decimal notation of an integer, with `-` before a negative one.
pub open spec fn dec_int(n: int) -> Seq<char> {
    if n < 0 {
        seq!['-'] + dec((-n) as nat)
    } else {
        dec(n as nat)
    }
}

/// Append a number in decimal notation.
pub fn push_dec(out: &mut String, n: u128)
    ensures
        final(out)@ == old(out)@ + dec(n as nat),
    decreases n,
{
    if n >= 10 {
        push_dec(out, n / 10);
    }
    let d: u8 = (n % 10) as u8;
    out.push((48 + d) as char);
    assert(out@ == old(out)@ + dec(n as nat));
}

/// Append a signed number in decimal notation.
pub fn push_int(out: &mut String, n: i64)
    ensures
        final(out)@ == old(out)@ + dec_int(n as int),
{
    if n < 0 {
        out.push('-');
        push_dec(out, (-(n as i128)) as u128);
        assert(out@ == old(out)@ + dec_int(n as int));
    } else {
        push_dec(out, n as u128);
    }
}

/// The decimal notation of a number, as a string of its own.
pub fn dec_string(n: u128) -> (r: String)
    ensures
        r@ == dec(n as nat),
{
    let mut out: String = String::new();
    push_dec(&mut out, n);
    assert(out@ == dec(n as nat));
    out
}

/// A number with its sign, as a string.
pub fn int_string(n: i64) -> (r: String)
    ensures
        r@ == dec_int(n as int),
{
    let mut out: String = String::new();
    push_int(&mut out, n);
    assert(out@ =~= dec_int(n as int));
    out
}

/// The character of a hexadecimal digit, in lower case.
pub open spec fn hex_digit(d: nat) -> char {
    if d < 10 {
        digit(d)
    } else {
        (87 + d) as u8 as char
    }
}

/// The last `width` hexadecimal digits of a number, leading zeros kept.
pub open spec fn hex(n: nat, width: nat) -> Seq<char>
    decreases width,
{
    if width == 0 {
        seq![]
    } else {
        hex(n / 16, (width - 1) as nat).push(hex_digit(n % 16))
    }
}

/// Append the last `width` hexadecimal digits of a number.
pub fn push_hex(out: &mut String, n: u32, width: usize)
    ensures
        final(out)@ == old(out)@ + hex(n as nat, width as nat),
    decreases width,
{
    if width > 0 {
        push_hex(out, n / 16, width - 1);
        let d: u8 = (n % 16) as u8;
        if d < 10 {
            out.push((48 + d) as char);
        } else {
            out.push((87 + d) as char);
        }
    }
    assert(out@ == old(out)@ + hex(n as nat, width as nat));
}

/// The value of a run of decimal digits; nothing if it is empty or holds
/// anything else.
pub open spec fn digits_value(s: Seq<char>) -> Option<nat>
    decreases s.len(),
{
    if s.len() == 0 || !('0' <= s.last() && s.last() <= '9') {
        None
    } else if s.len() == 1 {
        Some((s[0] as nat - 48) as nat)
    } else {
        match digits_value(s.drop_last()) {
            Some(v) => Some((v * 10 + (s.last() as nat - 48)) as nat),
            None => None,
        }
    }
}

/// The integer a text denotes: decimal digits after at most one sign.
pub open spec fn int_of_text(s: Seq<char>) -> Option<int> {
    if s.len() > 0 && s[0] == '-' {
        match digits_value(s.drop_first()) {
            Some(v) => Some(-(v as int)),
            None => None,
        }
    } else if s.len() > 0 && s[0] == '+' {
        match digits_value(s.drop_first()) {
            Some(v) => Some(v as int),
            None => None,
        }
    } else {
        match digits_value(s) {
            Some(v) => Some(v as int),
            None => None,
        }
    }
}

/// The `i64` a text denotes; nothing if it denotes no integer of that range.
pub open spec fn i64_of_text(s: Seq<char>) -> Option<i64> {
    match int_of_text(s) {
        Some(v) => if i64::MIN <= v <= i64::MAX {
            Some(v as i64)
        } else {
            None
        },
        None => None,
    }
}

proof fn lemma_digits_prefix(s: Seq<char>, k: int)
    requires
        0 < k <= s.len(),
        digits_value(s) is Some,
    ensures
        digits_value(s.take(k)) is Some,
        digits_value(s.take(k))->0 <= digits_value(s)->0,
    decreases s.len(),
{
    if k == s.len() {
        assert(s.take(k) == s);
    } else {
        lemma_digits_prefix(s.drop_last(), k);
        assert(s.drop_last().take(k) == s.take(k));
    }
}

/// The value of a run of digits, as far as it stays under the bound.
fn parse_digits(cs: &[char], from: usize) -> (r: Option<u64>)
    requires
        from <= cs@.len(),
    ensures
        r == (match digits_value(cs@.skip(from as int)) {
            Some(v) => if v <= 0x8000_0000_0000_0000 {
                Some(v as u64)
            } else {
                None
            },
            None => None,
        }),
{
    let ghost s = cs@.skip(from as int);
    if from == cs.len() {
        return None;
    }
    let mut i: usize = from;
    let mut v: u64 = 0;
    while i < cs.len()
        invariant
            from <= i <= cs@.len(),
            from < cs@.len(),
            s == cs@.skip(from as int),
            i > from ==> digits_value(s.take(i - from)) == Some(v as nat),
            i == from ==> v == 0,
            v <= 0x8000_0000_0000_0000,
        decreases cs@.len() - i,
    {
        let c: char = cs[i];
        let ghost k = i + 1 - from;
        assert(s.take(k).last() == c);
        assert(s.take(k).drop_last() == s.take(k - 1));
        if !('0' <= c && c <= '9') {
            proof {
                if digits_value(s) is Some {
                    lemma_digits_prefix(s, k);
                }
            }
            return None;
        }
        let d: u64 = c as u64 - 48;
        let wide: u128 = v as u128 * 10 + d as u128;
        assert(digits_value(s.take(k)) == Some(wide as nat));
        if wide > 0x8000_0000_0000_0000 {
            proof {
                if digits_value(s) is Some {
                    lemma_digits_prefix(s, k);
                }
            }
            return None;
        }
        v = wide as u64;
        i += 1;
    }
    assert(s.take(i - from) == s);
    Some(v)
}

/// Read an `i64`: an optional sign, then decimal digits and nothing else.
pub fn parse_i64(s: &[char]) -> (r: Option<i64>)
    ensures
        r == i64_of_text(s@),
{
    if s.len() > 0 && s[0] == '-' {
        assert(s@.skip(1) == s@.drop_first());
        match parse_digits(s, 1) {
            Some(v) => Some((-(v as i128)) as i64),
            None => None,
        }
    } else if s.len() > 0 && s[0] == '+' {
        assert(s@.skip(1) == s@.drop_first());
        match parse_digits(s, 1) {
            Some(v) => if v <= i64::MAX as u64 {
                Some(v as i64)
            } else {
                None
            },
            None => None,
        }
    } else {
        assert(s@.skip(0) == s@);
        match parse_digits(s, 0) {
            Some(v) => if v <= i64::MAX as u64 {
                Some(v as i64)
            } else {
                None
            },
            None => None,
        }
    }
}

// --- layout --------------------------------------------------------------

/// A run of `n` blanks.
pub open spec fn blanks(n: int) -> Seq<char> {
    Seq::new((if n > 0 { n } else { 0 }) as nat, |i: int| ' ')
}

/// A text set to the left of a column: blanks follow up to the width.
pub open spec fn left(s: Seq<char>, width: nat) -> Seq<char> {
    s + blanks(width - s.len())
}

/// A text set to the right of a column: blanks precede up to the width.
pub open spec fn right(s: Seq<char>, width: nat) -> Seq<char> {
    blanks(width - s.len()) + s
}

fn push_blanks(out: &mut String, n: usize)
    ensures
        final(out)@ == old(out)@ + blanks(n as int),
{
    let mut i: usize = 0;
    while i < n
        invariant
            i <= n,
            out@ == old(out)@ + blanks(i as int),
        decreases n - i,
    {
        out.push(' ');
        i += 1;
        assert(out@ =~= old(out)@ + blanks(i as int));
    }
}

/// Append a text set to the left of a column.
pub fn push_left(out: &mut String, s: &str, width: usize)
    ensures
        final(out)@ == old(out)@ + left(s@, width as nat),
{
    let n: usize = s.unicode_len();
    out.append(s);
    push_blanks(out, width.saturating_sub(n));
    assert(out@ =~= old(out)@ + left(s@, width as nat));
}

/// Append a text set to the right of a column.
pub fn push_right(out: &mut String, s: &str, width: usize)
    ensures
        final(out)@ == old(out)@ + right(s@, width as nat),
{
    let n: usize = s.unicode_len();
    push_blanks(out, width.saturating_sub(n));
    out.append(s);
    assert(out@ =~= old(out)@ + right(s@, width as nat));
}

/// Append a number set to the left of a column.
pub fn push_dec_left(out: &mut String, n: u128, width: usize)
    ensures
        final(out)@ == old(out)@ + left(dec(n as nat), width as nat),
{
    let s: String = dec_string(n);
    push_left(out, s.as_str(), width);
}

/// Append a number set to the right of a column.
pub fn push_dec_right(out: &mut String, n: u128, width: usize)
    ensures
        final(out)@ == old(out)@ + right(dec(n as nat), width as nat),
{
    let s: String = dec_string(n);
    push_right(out, s.as_str(), width);
}

/// The first `n` characters of a text, or all of it.
pub open spec fn head(s: Seq<char>, n: nat) -> Seq<char> {
    if s.len() <= n {
        s
    } else {
        s.take(n as int)
    }
}

/// The first `n` characters of a text, or all of it.
pub fn head_of(s: &str, n: usize) -> (r: String)
    ensures
        r@ == head(s@, n as nat),
{
    let cs: Vec<char> = chars_of(s);
    if cs.len() <= n {
        s.to_owned()
    } else {
        string_of(vstd::slice::slice_subrange(cs.as_slice(), 0, n))
    }
}

/// Texts joined with a separator between each two.
pub open spec fn joined(parts: Seq<Seq<char>>, sep: Seq<char>) -> Seq<char>
    decreases parts.len(),
{
    if parts.len() == 0 {
        seq![]
    } else if parts.len() == 1 {
        parts[0]
    } else {
        joined(parts.drop_last(), sep) + sep + parts.last()
    }
}

/// Append texts joined with a separator.
pub fn push_joined(out: &mut String, parts: &Vec<String>, sep: &str)
    ensures
        final(out)@ == old(out)@ + joined(views(parts@), sep@),
{
    let ghost all = views(parts@);
    let mut i: usize = 0;
    while i < parts.len()
        invariant
            i <= parts@.len(),
            all == views(parts@),
            out@ == old(out)@ + joined(all.take(i as int), sep@),
        decreases parts@.len() - i,
    {
        if i > 0 {
            out.append(sep);
        }
        out.append(parts[i].as_str());
        proof {
            let next = all.take(i + 1);
            assert(next.drop_last() =~= all.take(i as int));
            assert(next.last() == parts@[i as int]@);
            assert(out@ =~= old(out)@ + joined(next, sep@));
        }
        i += 1;
    }
    assert(all.take(i as int) =~= all);
}

// --- search --------------------------------------------------------------

/// The pattern stands in the text at position `k`.
pub open spec fn occurs_at(s: Seq<char>, pat: Seq<char>, k: int) -> bool {
    0 <= k && k + pat.len() <= s.len() && s.subrange(k, k + pat.len()) == pat
}

/// The pattern stands somewhere in the text.
pub open spec fn occurs(s: Seq<char>, pat: Seq<char>) -> bool {
    exists|k: int| #[trigger] occurs_at(s, pat, k)
}

/// Whether the pattern stands in the text at position `k`.
pub fn stands_at(s: &[char], pat: &[char], k: usize) -> (r: bool)
    ensures
        r == occurs_at(s@, pat@, k as int),
{
    if k > s.len() || pat.len() > s.len() - k {
        return false;
    }
    let n: usize = s.len();
    let mut i: usize = 0;
    while i < pat.len()
        invariant
            n == s@.len(),
            k + pat@.len() <= n,
            i <= pat@.len(),
            forall|m: int| 0 <= m < i ==> s@[k + m] == #[trigger] pat@[m],
        decreases pat@.len() - i,
    {
        if s[k + i] != pat[i] {
            assert(s@.subrange(k as int, k + pat@.len())[i as int] != pat@[i as int]);
            return false;
        }
        i += 1;
    }
    assert(s@.subrange(k as int, k + pat@.len()) =~= pat@);
    true
}

/// Whether a text holds a pattern anywhere.
pub fn holds(s: &str, pat: &str) -> (r: bool)
    ensures
        r == occurs(s@, pat@),
{
    let cs: Vec<char> = chars_of(s);
    let ps: Vec<char> = chars_of(pat);
    if ps.len() > cs.len() {
        return false;
    }
    let last: usize = cs.len() - ps.len();
    let mut k: usize = 0;
    while k < last
        invariant
            cs@ == s@,
            ps@ == pat@,
            last == cs@.len() - ps@.len(),
            k <= last,
            forall|m: int| 0 <= m < k ==> !#[trigger] occurs_at(s@, pat@, m),
        decreases last - k,
    {
        if stands_at(cs.as_slice(), ps.as_slice(), k) {
            assert(occurs_at(s@, pat@, k as int));
            return true;
        }
        k += 1;
    }
    stands_at(cs.as_slice(), ps.as_slice(), last)
}

/// Every occurrence of the pattern, from the left and without overlap,
/// replaced.
pub open spec fn replaced(s: Seq<char>, pat: Seq<char>, with: Seq<char>) -> Seq<char>
    decreases s.len(),
{
    if pat.len() == 0 || s.len() < pat.len() {
        s
    } else if occurs_at(s, pat, 0) {
        with + replaced(s.skip(pat.len() as int), pat, with)
    } else {
        seq![s[0]] + replaced(s.drop_first(), pat, with)
    }
}

/// Replace every occurrence of a pattern.
pub fn replace_all(s: &str, pat: &str, with: &str) -> (r: String)
    requires
        pat@.len() > 0,
    ensures
        r@ == replaced(s@, pat@, with@),
{
    let cs: Vec<char> = chars_of(s);
    let ps: Vec<char> = chars_of(pat);
    let mut out: String = String::new();
    let mut i: usize = 0;
    assert(s@.skip(0) == s@);
    while i < cs.len() && cs.len() - i >= ps.len()
        invariant
            i <= cs@.len(),
            cs@ == s@,
            ps@ == pat@,
            pat@.len() > 0,
            replaced(s@, pat@, with@) == out@ + replaced(s@.skip(i as int), pat@, with@),
        decreases cs@.len() - i,
    {
        let ghost rest = s@.skip(i as int);
        let ghost was = out@;
        if stands_at(cs.as_slice(), ps.as_slice(), i) {
            assert(rest.subrange(0, pat@.len() as int) =~= s@.subrange(i as int, i + pat@.len()));
            assert(rest.skip(pat@.len() as int) =~= s@.skip(i + pat@.len()));
            out.append(with);
            i += ps.len();
            assert(out@ + replaced(s@.skip(i as int), pat@, with@) =~= was + (with@ + replaced(
                s@.skip(i as int),
                pat@,
                with@,
            )));
        } else {
            assert(rest.subrange(0, pat@.len() as int) =~= s@.subrange(i as int, i + pat@.len()));
            assert(rest.drop_first() =~= s@.skip(i + 1));
            out.push(cs[i]);
            i += 1;
            assert(out@ + replaced(s@.skip(i as int), pat@, with@) =~= was + (seq![rest[0]]
                + replaced(s@.skip(i as int), pat@, with@)));
        }
    }
    let tail: &[char] = vstd::slice::slice_subrange(cs.as_slice(), i, cs.len());
    assert(tail@ =~= s@.skip(i as int));
    push_chars(&mut out, tail);
    out
}

/// The pieces of a text between the separators.
pub open spec fn pieces(s: Seq<char>, sep: char) -> Seq<Seq<char>>
    decreases s.len(),
{
    if s.len() == 0 {
        seq![seq![]]
    } else {
        let rest = pieces(s.drop_last(), sep);
        if s.last() == sep {
            rest.push(seq![])
        } else {
            rest.drop_last().push(rest.last().push(s.last()))
        }
    }
}

pub proof fn lemma_pieces_nonempty(s: Seq<char>, sep: char)
    ensures
        pieces(s, sep).len() > 0,
    decreases s.len(),
{
    if s.len() > 0 {
        lemma_pieces_nonempty(s.drop_last(), sep);
    }
}

/// The pieces of a text between the separators.
pub fn split(s: &str, sep: char) -> (r: Vec<String>)
    ensures
        views(r@) == pieces(s@, sep),
{
    let cs: Vec<char> = chars_of(s);
    let mut out: Vec<String> = Vec::new();
    let mut cur: String = String::new();
    let mut i: usize = 0;
    assert(s@.take(0) =~= Seq::<char>::empty());
    assert(views(out@).push(cur@) =~= pieces(s@.take(0), sep));
    while i < cs.len()
        invariant
            i <= cs@.len(),
            cs@ == s@,
            views(out@).push(cur@) == pieces(s@.take(i as int), sep),
        decreases cs@.len() - i,
    {
        let ghost now = s@.take(i + 1);
        let ghost was = pieces(s@.take(i as int), sep);
        assert(now.drop_last() =~= s@.take(i as int));
        assert(was.last() == cur@);
        assert(was.drop_last() =~= views(out@));
        let ghost was_out = views(out@);
        if cs[i] == sep {
            let ghost piece = cur@;
            out.push(cur);
            cur = String::new();
            assert(views(out@) =~= was_out.push(piece));
            assert(views(out@).push(cur@) =~= was.push(seq![]));
        } else {
            cur.push(cs[i]);
            assert(views(out@).push(cur@) =~= was.drop_last().push(was.last().push(now.last())));
        }
        i += 1;
    }
    assert(s@.take(i as int) =~= s@);
    let ghost was_out = views(out@);
    let ghost piece = cur@;
    out.push(cur);
    assert(views(out@) =~= was_out.push(piece));
    out
}

} // verus!
