//! CSV output of a benchmark matrix: how one field is written.
use crate::text::{chars_of, push_str, string_from_chars};
use vstd::prelude::*;

verus! {

broadcast use vstd::string::group_string_axioms;

/// Whether a CSV field needs quotes: it holds a comma, a quote or a line break.
pub open spec fn needs_quotes(s: Seq<char>) -> bool {
    exists|i: int| 0 <= i < s.len() && (s[i] == ',' || s[i] == '"' || s[i] == '\n' || s[i] == '\r')
}

/// `"` doubled.
pub open spec fn quotes_doubled(s: Seq<char>) -> Seq<char>
    decreases s.len(),
{
    if s.len() == 0 {
        Seq::empty()
    } else {
        quotes_doubled(s.drop_last()) + if s.last() == '"' {
            "\"\""@
        } else {
            seq![s.last()]
        }
    }
}

/// A field as RFC 4180 writes it: quoted, with quotes doubled, when needed.
pub fn csv_field(value: &str) -> (f: String)
    ensures
        f@ == if needs_quotes(value@) {
            "\""@ + quotes_doubled(value@) + "\""@
        } else {
            value@
        },
{
    proof {
        reveal_strlit("\"");
        reveal_strlit("\"\"");
    }
    let v = chars_of(value);
    let mut special = false;
    let mut body: Vec<char> = Vec::new();
    let mut i: usize = 0;
    while i < v.len()
        invariant
            i <= v.len(),
            v@ == value@,
            body@ == quotes_doubled(v@.take(i as int)),
            special == exists|j: int|
                0 <= j < i && (v@[j] == ',' || v@[j] == '"' || v@[j] == '\n' || v@[j] == '\r'),
        decreases v.len() - i,
    {
        let c = v[i];
        if c == ',' || c == '"' || c == '\n' || c == '\r' {
            special = true;
        }
        if c == '"' {
            push_str(&mut body, "\"\"");
        } else {
            body.push(c);
        }
        assert(v@.take(i + 1).drop_last() =~= v@.take(i as int));
        i = i + 1;
    }
    assert(v@.take(i as int) =~= v@);
    if special {
        let mut out = chars_of("\"");
        crate::text::push_all(&mut out, &body);
        push_str(&mut out, "\"");
        string_from_chars(out.as_slice())
    } else {
        string_from_chars(v.as_slice())
    }
}

} // verus!
