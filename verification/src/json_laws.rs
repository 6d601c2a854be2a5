//! How values are written, told character by character.

use crate::json::{compact, compact_fields, compact_items, escaped, escaped_all, quoted_of, Json};
use vstd::prelude::*;

verus! {

/// A quote and a backslash stand behind a backslash; line breaks and tabs have
/// their letter; the other control characters have their number, as two
/// hexadecimal digits behind two zeros; every other character stands for
/// itself.
pub proof fn law_characters_are_escaped(c: char)
    ensures
        escaped('"') == seq!['\\', '"'],
        escaped('\\') == seq!['\\', '\\'],
        escaped('\n') == seq!['\\', 'n'],
        escaped('\r') == seq!['\\', 'r'],
        escaped('\t') == seq!['\\', 't'],
        escaped('\u{8}') == seq!['\\', 'b'],
        escaped('\u{c}') == seq!['\\', 'f'],
        c >= ' ' && c != '"' && c != '\\' ==> escaped(c) == seq![c],
        ' ' > c && c != '\n' && c != '\r' && c != '\t' && c != '\u{8}' && c != '\u{c}' ==> {
            let e = escaped(c);
            &&& e.len() == 6
            &&& e[0] == '\\' && e[1] == 'u' && e[2] == '0' && e[3] == '0'
            &&& e[4] == if '\u{10}' > c {
                '0'
            } else {
                '1'
            }
            &&& '0' <= e[5] <= '9' || 'a' <= e[5] <= 'f'
            &&& '0' <= e[5] <= '9' ==> c as int % 16 == e[5] as int - '0' as int
            &&& 'a' <= e[5] <= 'f' ==> c as int % 16 == e[5] as int - 'a' as int + 10
        },
{
    if ' ' > c {
        assert(c as int / 16 == 0 || c as int / 16 == 1);
        assert(('0' as int + 0) as char == '0');
        assert(('0' as int + 1) as char == '1');
    }
}

/// A text stands between quotes, its characters escaped one by one.
pub proof fn law_texts_are_quoted(s: Seq<char>, c: char)
    ensures
        quoted_of(seq![]) == seq!['"', '"'],
        escaped_all(s.push(c)) == escaped_all(s) + escaped(c),
        quoted_of(s).len() == escaped_all(s).len() + 2,
        quoted_of(s)[0] == '"',
        quoted_of(s).last() == '"',
        quoted_of(s).subrange(1, quoted_of(s).len() - 1) == escaped_all(s),
{
    assert(s.push(c).drop_last() =~= s);
    assert(quoted_of(seq![]) =~= seq!['"', '"']);
    assert(quoted_of(s).subrange(1, quoted_of(s).len() - 1) =~= escaped_all(s));
}

/// A plain text, without quotes, backslashes and control characters, is
/// written as it is.
pub proof fn law_plain_texts_are_kept(s: Seq<char>)
    requires
        forall|i: int|
            0 <= i < s.len() ==> (#[trigger] s[i]) >= ' ' && s[i] != '"' && s[i] != '\\',
    ensures
        escaped_all(s) == s,
        quoted_of(s) == seq!['"'] + s + seq!['"'],
    decreases s.len(),
{
    if s.len() > 0 {
        let init = s.drop_last();
        assert forall|i: int| 0 <= i < init.len() implies (#[trigger] init[i]) >= ' ' && init[i]
            != '"' && init[i] != '\\' by {
            assert(init[i] == s[i]);
        }
        law_plain_texts_are_kept(init);
        law_characters_are_escaped(s[s.len() - 1]);
        assert(init + seq![s.last()] =~= s);
    } else {
        assert(escaped_all(s) =~= s);
    }
}

/// Nothing, truth and numbers are written by their words; a text is quoted.
pub proof fn law_plain_values_are_written(n: String, s: String)
    ensures
        compact(Json::Null) == "null"@,
        compact(Json::Bool(true)) == "true"@,
        compact(Json::Bool(false)) == "false"@,
        compact(Json::Number(n)) == n@,
        compact(Json::Str(s)) == quoted_of(s@),
{
}

/// The items of a list stand in order between square brackets, with commas
/// between them and nothing else.
pub proof fn law_lists_are_written(items: Seq<Json>, v: Json, list: Vec<Json>)
    ensures
        compact(Json::Array(list)) == "["@ + compact_items(list@) + "]"@,
        compact_items(seq![]).len() == 0,
        items.len() == 0 ==> compact_items(items.push(v)) == compact(v),
        items.len() > 0 ==> compact_items(items.push(v)) == compact_items(items) + ","@ + compact(
            v,
        ),
{
    let all = items.push(v);
    assert(all.subrange(0, all.len() - 1) =~= items);
}

/// The fields of an object stand in order between curly brackets, with commas
/// between them, each its name, a colon and its value.
pub proof fn law_objects_are_written(
    fields: Seq<(String, Json)>,
    f: (String, Json),
    list: Vec<(String, Json)>,
)
    ensures
        compact(Json::Object(list)) == "{"@ + compact_fields(list@) + "}"@,
        compact_fields(seq![]).len() == 0,
        fields.len() == 0 ==> compact_fields(fields.push(f)) == quoted_of(f.0@) + ":"@ + compact(
            f.1,
        ),
        fields.len() > 0 ==> compact_fields(fields.push(f)) == compact_fields(fields) + ","@ + (
        quoted_of(f.0@) + ":"@ + compact(f.1)),
{
    let all = fields.push(f);
    assert(all.subrange(0, all.len() - 1) =~= fields);
}

} // verus!
