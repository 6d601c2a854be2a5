//! JSON values, as far as the export needs them.

use vstd::prelude::*;

verus! {

/// A JSON value. Numbers stay in the notation they are written in; an object
/// holds each key once.
#[derive(Debug)]
pub enum Json {
    Null,
    Bool(bool),
    Number(String),
    Str(String),
    Array(Vec<Json>),
    Object(Vec<(String, Json)>),
}

/// A hexadecimal digit, in lower case.
pub open spec fn hex_digit(n: int) -> char {
    if n < 10 {
        ('0' as int + n) as char
    } else {
        ('a' as int + n - 10) as char
    }
}

/// A char inside a string in JSON notation: the quote, the backslash and the
/// control chars are escaped, the rest stand for themselves.
pub open spec fn escaped(c: char) -> Seq<char> {
    if c == '"' || c == '\\' {
        seq!['\\', c]
    } else if c == '\u{8}' {
        seq!['\\', 'b']
    } else if c == '\t' {
        seq!['\\', 't']
    } else if c == '\n' {
        seq!['\\', 'n']
    } else if c == '\u{c}' {
        seq!['\\', 'f']
    } else if c == '\r' {
        seq!['\\', 'r']
    } else if (c as int) < 0x20 {
        seq!['\\', 'u', '0', '0', hex_digit(c as int / 16), hex_digit(c as int % 16)]
    } else {
        seq![c]
    }
}

/// The chars of a string, escaped.
pub open spec fn escaped_all(s: Seq<char>) -> Seq<char>
    decreases s.len(),
{
    if s.len() == 0 {
        seq![]
    } else {
        escaped_all(s.drop_last()) + escaped(s.last())
    }
}

/// A string in JSON notation, with its quotes and escapes.
pub open spec fn quoted_of(s: Seq<char>) -> Seq<char> {
    seq!['"'] + escaped_all(s) + seq!['"']
}

/// `Value::to_string` of serde_json on a string value: its JSON notation. A
/// quote opens and closes it, and each char between is escaped on its own.
#[verifier::external_body]
pub(crate) fn quoted(s: &str) -> (r: String)
    ensures
        r@ == quoted_of(s@),
{
    serde_json::Value::String(s.to_string()).to_string()
}

/// A value in JSON notation, without blanks.
pub open spec fn compact(v: Json) -> Seq<char>
    decreases v,
{
    match v {
        Json::Null => "null"@,
        Json::Bool(b) => if b {
            "true"@
        } else {
            "false"@
        },
        Json::Number(n) => n@,
        Json::Str(s) => quoted_of(s@),
        Json::Array(items) => "["@ + compact_items(items@) + "]"@,
        Json::Object(fields) => "{"@ + compact_fields(fields@) + "}"@,
    }
}

/// The items of an array, separated by commas.
pub open spec fn compact_items(items: Seq<Json>) -> Seq<char>
    decreases items,
{
    if items.len() == 0 {
        seq![]
    } else if items.len() == 1 {
        compact(items[0])
    } else {
        compact_items(items.subrange(0, items.len() - 1)) + ","@ + compact(items[items.len() - 1])
    }
}

/// The fields of an object, separated by commas.
pub open spec fn compact_fields(fields: Seq<(String, Json)>) -> Seq<char>
    decreases fields,
{
    if fields.len() == 0 {
        seq![]
    } else {
        let last = fields[fields.len() - 1];
        let own = quoted_of(last.0@) + ":"@ + compact(last.1);
        if fields.len() == 1 {
            own
        } else {
            compact_fields(fields.subrange(0, fields.len() - 1)) + ","@ + own
        }
    }
}

/// Append a value in JSON notation, without blanks.
pub fn push_compact(out: &mut String, v: &Json)
    ensures
        final(out)@ == old(out)@ + compact(*v),
    decreases v,
{
    match v {
        Json::Null => {
            out.append("null");
        },
        Json::Bool(b) => {
            if *b {
                out.append("true");
            } else {
                out.append("false");
            }
        },
        Json::Number(n) => {
            out.append(n.as_str());
        },
        Json::Str(s) => {
            let q: String = quoted(s.as_str());
            out.append(q.as_str());
        },
        Json::Array(items) => {
            out.append("[");
            push_items(out, items);
            out.append("]");
            assert(out@ =~= old(out)@ + compact(*v));
        },
        Json::Object(fields) => {
            out.append("{");
            push_fields(out, fields);
            out.append("}");
            assert(out@ =~= old(out)@ + compact(*v));
        },
    }
}

fn push_items(out: &mut String, items: &Vec<Json>)
    ensures
        final(out)@ == old(out)@ + compact_items(items@),
    decreases items@,
{
    let mut i: usize = 0;
    assert(items@.take(0) =~= Seq::<Json>::empty());
    assert(out@ =~= old(out)@ + compact_items(items@.take(0)));
    while i < items.len()
        invariant
            i <= items@.len(),
            out@ == old(out)@ + compact_items(items@.take(i as int)),
        decreases items@.len() - i,
    {
        let ghost now = items@.take(i + 1);
        proof {
            assert(now.subrange(0, now.len() - 1) =~= items@.take(i as int));
            assert(now[now.len() - 1] == items@[i as int]);
            assert(decreases_to!(items@ => items@[i as int]));
        }
        if i > 0 {
            out.append(",");
        }
        push_compact(out, &items[i]);
        i += 1;
        assert(out@ =~= old(out)@ + compact_items(now));
    }
    assert(items@.take(i as int) =~= items@);
}

fn push_fields(out: &mut String, fields: &Vec<(String, Json)>)
    ensures
        final(out)@ == old(out)@ + compact_fields(fields@),
    decreases fields@,
{
    let mut i: usize = 0;
    assert(fields@.take(0) =~= Seq::<(String, Json)>::empty());
    assert(out@ =~= old(out)@ + compact_fields(fields@.take(0)));
    while i < fields.len()
        invariant
            i <= fields@.len(),
            out@ == old(out)@ + compact_fields(fields@.take(i as int)),
        decreases fields@.len() - i,
    {
        let ghost now = fields@.take(i + 1);
        proof {
            assert(now.subrange(0, now.len() - 1) =~= fields@.take(i as int));
            assert(now[now.len() - 1] == fields@[i as int]);
            assert(decreases_to!(fields@ => fields@[i as int]));
        }
        if i > 0 {
            out.append(",");
        }
        let q: String = quoted(fields[i].0.as_str());
        out.append(q.as_str());
        out.append(":");
        push_compact(out, &fields[i].1);
        i += 1;
        assert(out@ =~= old(out)@ + compact_fields(now));
    }
    assert(fields@.take(i as int) =~= fields@);
}

/// The value of a field; the first of that name.
pub open spec fn field_of(fields: Seq<(String, Json)>, key: Seq<char>) -> Option<Json>
    decreases fields.len(),
{
    if fields.len() == 0 {
        None
    } else if fields[0].0@ == key {
        Some(fields[0].1)
    } else {
        field_of(fields.drop_first(), key)
    }
}

/// The value of a field, if the object has it.
pub fn field<'a>(fields: &'a Vec<(String, Json)>, key: &str) -> (r: Option<&'a Json>)
    ensures
        match r {
            Some(v) => field_of(fields@, key@) == Some(*v),
            None => field_of(fields@, key@) is None,
        },
{
    let mut i: usize = 0;
    assert(fields@.skip(0) =~= fields@);
    while i < fields.len()
        invariant
            i <= fields@.len(),
            field_of(fields@, key@) == field_of(fields@.skip(i as int), key@),
        decreases fields@.len() - i,
    {
        assert(fields@.skip(i as int)[0] == fields@[i as int]);
        assert(fields@.skip(i as int).drop_first() =~= fields@.skip(i + 1));
        if crate::text::same(fields[i].0.as_str(), key) {
            return Some(&fields[i].1);
        }
        i += 1;
    }
    None
}

} // verus!
