//! The `.gctf` document model: a file is a run of sections, each opened by a
//! `--- NAME [options] ---` header line and optionally preceded by `#[...]`
//! attribute lines. A section's text runs up to the next section (its
//! attributes included in that next section).
use crate::sort::{flatten, item_view, items_view, sort_items, sort_items_exec, SortItem};
use crate::text::{
    chars_blank, chars_end_with, chars_of, chars_start_with, ends_with, is_blank, is_ws, join,
    join_lines, lines, push_all, push_str, slice_chars, split_lines, starts_with, string_from_chars,
    trim, trim_chars, views,
};
use vstd::prelude::*;

verus! {

broadcast use vstd::string::group_string_axioms;

#[derive(Clone, Copy, PartialEq, Eq, Debug, Structural)]
pub enum SectionType {
    Meta,
    Bench,
    Dataset,
    Address,
    Endpoint,
    Tls,
    Proto,
    Options,
    RequestHeaders,
    Request,
    Response,
    Error,
    Asserts,
    Extract,
}

/// What a section's body is, as far as formatting cares.
#[derive(Clone, Copy, PartialEq, Eq, Debug)]
pub enum SectionContent {
    Empty,
    Json,
    KeyValues,
    Extract,
    Text,
}

pub open spec fn section_type_of(name: Seq<char>) -> Option<SectionType> {
    if name == "META"@ {
        Some(SectionType::Meta)
    } else if name == "BENCH"@ {
        Some(SectionType::Bench)
    } else if name == "DATASET"@ {
        Some(SectionType::Dataset)
    } else if name == "ADDRESS"@ {
        Some(SectionType::Address)
    } else if name == "ENDPOINT"@ {
        Some(SectionType::Endpoint)
    } else if name == "TLS"@ {
        Some(SectionType::Tls)
    } else if name == "PROTO"@ {
        Some(SectionType::Proto)
    } else if name == "OPTIONS"@ {
        Some(SectionType::Options)
    } else if name == "REQUEST_HEADERS"@ {
        Some(SectionType::RequestHeaders)
    } else if name == "REQUEST"@ {
        Some(SectionType::Request)
    } else if name == "RESPONSE"@ {
        Some(SectionType::Response)
    } else if name == "ERROR"@ {
        Some(SectionType::Error)
    } else if name == "ASSERTS"@ {
        Some(SectionType::Asserts)
    } else if name == "EXTRACT"@ {
        Some(SectionType::Extract)
    } else {
        None
    }
}

pub open spec fn section_name(t: SectionType) -> Seq<char> {
    match t {
        SectionType::Meta => "META"@,
        SectionType::Bench => "BENCH"@,
        SectionType::Dataset => "DATASET"@,
        SectionType::Address => "ADDRESS"@,
        SectionType::Endpoint => "ENDPOINT"@,
        SectionType::Tls => "TLS"@,
        SectionType::Proto => "PROTO"@,
        SectionType::Options => "OPTIONS"@,
        SectionType::RequestHeaders => "REQUEST_HEADERS"@,
        SectionType::Request => "REQUEST"@,
        SectionType::Response => "RESPONSE"@,
        SectionType::Error => "ERROR"@,
        SectionType::Asserts => "ASSERTS"@,
        SectionType::Extract => "EXTRACT"@,
    }
}

/// Canonical place of a preamble section (META → BENCH → DATASET → ADDRESS →
/// ENDPOINT → TLS → PROTO → OPTIONS); body sections have none.
pub open spec fn preamble_rank_of(t: SectionType) -> Option<nat> {
    match t {
        SectionType::Meta => Some(0),
        SectionType::Bench => Some(1),
        SectionType::Dataset => Some(2),
        SectionType::Address => Some(3),
        SectionType::Endpoint => Some(4),
        SectionType::Tls => Some(5),
        SectionType::Proto => Some(6),
        SectionType::Options => Some(7),
        _ => None,
    }
}

impl SectionType {
    pub fn name(&self) -> (s: &'static str)
        ensures
            s@ == section_name(*self),
    {
        match self {
            SectionType::Meta => "META",
            SectionType::Bench => "BENCH",
            SectionType::Dataset => "DATASET",
            SectionType::Address => "ADDRESS",
            SectionType::Endpoint => "ENDPOINT",
            SectionType::Tls => "TLS",
            SectionType::Proto => "PROTO",
            SectionType::Options => "OPTIONS",
            SectionType::RequestHeaders => "REQUEST_HEADERS",
            SectionType::Request => "REQUEST",
            SectionType::Response => "RESPONSE",
            SectionType::Error => "ERROR",
            SectionType::Asserts => "ASSERTS",
            SectionType::Extract => "EXTRACT",
        }
    }

    pub fn preamble_rank(&self) -> (r: Option<usize>)
        ensures
            match r {
                Some(n) => preamble_rank_of(*self) == Some(n as nat),
                None => preamble_rank_of(*self) is None,
            },
    {
        match self {
            SectionType::Meta => Some(0),
            SectionType::Bench => Some(1),
            SectionType::Dataset => Some(2),
            SectionType::Address => Some(3),
            SectionType::Endpoint => Some(4),
            SectionType::Tls => Some(5),
            SectionType::Proto => Some(6),
            SectionType::Options => Some(7),
            _ => None,
        }
    }
}

fn is_name(name: &Vec<char>, lit: &str) -> (b: bool)
    ensures
        b == (name@ == lit@),
{
    let l = chars_of(lit);
    crate::text::chars_eq(name, &l)
}

fn section_type_from(name: &Vec<char>) -> (t: Option<SectionType>)
    ensures
        t == section_type_of(name@),
{
    if is_name(name, "META") {
        Some(SectionType::Meta)
    } else if is_name(name, "BENCH") {
        Some(SectionType::Bench)
    } else if is_name(name, "DATASET") {
        Some(SectionType::Dataset)
    } else if is_name(name, "ADDRESS") {
        Some(SectionType::Address)
    } else if is_name(name, "ENDPOINT") {
        Some(SectionType::Endpoint)
    } else if is_name(name, "TLS") {
        Some(SectionType::Tls)
    } else if is_name(name, "PROTO") {
        Some(SectionType::Proto)
    } else if is_name(name, "OPTIONS") {
        Some(SectionType::Options)
    } else if is_name(name, "REQUEST_HEADERS") {
        Some(SectionType::RequestHeaders)
    } else if is_name(name, "REQUEST") {
        Some(SectionType::Request)
    } else if is_name(name, "RESPONSE") {
        Some(SectionType::Response)
    } else if is_name(name, "ERROR") {
        Some(SectionType::Error)
    } else if is_name(name, "ASSERTS") {
        Some(SectionType::Asserts)
    } else if is_name(name, "EXTRACT") {
        Some(SectionType::Extract)
    } else {
        None
    }
}

} // verus!

verus! {

// ---------------------------------------------------------------------------
// Lines of a document

/// Index of the first whitespace character of `s`, or `s.len()`.
pub open spec fn first_ws(s: Seq<char>) -> nat
    decreases s.len(),
{
    if s.len() == 0 || is_ws(s[0]) {
        0
    } else {
        1 + first_ws(s.drop_first())
    }
}

/// Index of the first `c` in `s`, or `s.len()`.
pub open spec fn find_char(s: Seq<char>, c: char) -> nat
    decreases s.len(),
{
    if s.len() == 0 || s[0] == c {
        0
    } else {
        1 + find_char(s.drop_first(), c)
    }
}

proof fn lemma_first_ws_is(s: Seq<char>, k: int)
    requires
        0 <= k <= s.len(),
        forall|i: int| 0 <= i < k ==> !is_ws(#[trigger] s[i]),
        k < s.len() ==> is_ws(s[k]),
    ensures
        first_ws(s) == k,
    decreases s.len(),
{
    if k > 0 {
        assert(!is_ws(s[0]));
        assert forall|i: int| 0 <= i < k - 1 implies !is_ws(#[trigger] s.drop_first()[i]) by {
            assert(s.drop_first()[i] == s[i + 1]);
        }
        if k - 1 < s.drop_first().len() {
            assert(s.drop_first()[k - 1] == s[k]);
        }
        lemma_first_ws_is(s.drop_first(), k - 1);
    }
}

pub proof fn lemma_find_char_is(s: Seq<char>, c: char, k: int)
    requires
        0 <= k <= s.len(),
        forall|i: int| 0 <= i < k ==> #[trigger] s[i] != c,
        k < s.len() ==> s[k] == c,
    ensures
        find_char(s, c) == k,
    decreases s.len(),
{
    if k > 0 {
        assert(s[0] != c);
        assert forall|i: int| 0 <= i < k - 1 implies #[trigger] s.drop_first()[i] != c by {
            assert(s.drop_first()[i] == s[i + 1]);
        }
        if k - 1 < s.drop_first().len() {
            assert(s.drop_first()[k - 1] == s[k]);
        }
        lemma_find_char_is(s.drop_first(), c, k - 1);
    }
}

pub fn first_ws_exec(s: &Vec<char>) -> (k: usize)
    ensures
        k == first_ws(s@),
        k <= s.len(),
{
    let mut k: usize = 0;
    while k < s.len() && !crate::text::is_whitespace(s[k])
        invariant
            k <= s.len(),
            forall|i: int| 0 <= i < k ==> !is_ws(#[trigger] s@[i]),
        decreases s.len() - k,
    {
        k = k + 1;
    }
    proof {
        lemma_first_ws_is(s@, k as int);
    }
    k
}

pub fn find_char_exec(s: &Vec<char>, c: char) -> (k: usize)
    ensures
        k == find_char(s@, c),
        k <= s.len(),
{
    let mut k: usize = 0;
    while k < s.len() && s[k] != c
        invariant
            k <= s.len(),
            forall|i: int| 0 <= i < k ==> #[trigger] s@[i] != c,
        decreases s.len() - k,
    {
        k = k + 1;
    }
    proof {
        lemma_find_char_is(s@, c, k as int);
    }
    k
}

/// A section header: `--- NAME [options] ---`, surrounding whitespace allowed.
pub open spec fn is_header(l: Seq<char>) -> bool {
    let t = trim(l);
    t.len() >= 6 && starts_with(t, "---"@) && ends_with(t, "---"@)
}

/// What a header holds between its dashes.
pub open spec fn header_body(l: Seq<char>) -> Seq<char> {
    let t = trim(l);
    trim(t.subrange(3, t.len() - 3))
}

pub open spec fn header_name(l: Seq<char>) -> Seq<char> {
    let b = header_body(l);
    b.take(first_ws(b) as int)
}

pub open spec fn header_options(l: Seq<char>) -> Seq<char> {
    let b = header_body(l);
    trim(b.skip(first_ws(b) as int))
}

/// An attribute line: `#[...]`.
pub open spec fn is_attr(l: Seq<char>) -> bool {
    let t = trim(l);
    starts_with(t, "#["@) && ends_with(t, "]"@)
}

/// The header name and option text of `line`, when it is a header.
pub fn header_parts(line: &Vec<char>) -> (r: Option<(Vec<char>, Vec<char>)>)
    ensures
        r is Some == is_header(line@),
        r matches Some((n, o)) ==> n@ == header_name(line@) && o@ == header_options(line@),
{
    let t = trim_chars(line);
    if !(t.len() >= 6 && chars_start_with(&t, "---") && chars_end_with(&t, "---")) {
        proof {
            reveal_strlit("---");
        }
        return None;
    }
    proof {
        reveal_strlit("---");
    }
    let inner = slice_chars(&t, 3, t.len() - 3);
    let body = trim_chars(&inner);
    let k = first_ws_exec(&body);
    let name = slice_chars(&body, 0, k);
    let after = slice_chars(&body, k, body.len());
    let opts = trim_chars(&after);
    assert(name@ =~= header_name(line@));
    assert(after@ =~= header_body(line@).skip(k as int));
    Some((name, opts))
}

pub fn attr_line(line: &Vec<char>) -> (b: bool)
    ensures
        b == is_attr(line@),
{
    let t = trim_chars(line);
    chars_start_with(&t, "#[") && chars_end_with(&t, "]")
}

// ---------------------------------------------------------------------------
// Inline options

/// Split `s` at whitespace outside `[...]`: the option tokens of a header.
pub open spec fn tokens_from(
    s: Seq<char>,
    i: int,
    depth: int,
    cur: Seq<char>,
    acc: Seq<Seq<char>>,
) -> Seq<Seq<char>>
    decreases s.len() - i,
{
    if i < 0 || i >= s.len() {
        if cur.len() > 0 {
            acc.push(cur)
        } else {
            acc
        }
    } else if is_ws(s[i]) && depth <= 0 {
        tokens_from(s, i + 1, depth, Seq::empty(), if cur.len() > 0 {
            acc.push(cur)
        } else {
            acc
        })
    } else {
        let c = s[i];
        tokens_from(s, i + 1, if c == '[' {
            depth + 1
        } else if c == ']' {
            depth - 1
        } else {
            depth
        }, cur.push(c), acc)
    }
}

pub open spec fn option_tokens(s: Seq<char>) -> Seq<Seq<char>> {
    tokens_from(s, 0, 0, Seq::empty(), Seq::empty())
}

pub fn option_tokens_exec(s: &Vec<char>) -> (out: Vec<Vec<char>>)
    ensures
        views(out@) == option_tokens(s@),
{
    let mut out: Vec<Vec<char>> = Vec::new();
    let mut cur: Vec<char> = Vec::new();
    let mut depth: i128 = 0;
    let mut i: usize = 0;
    assert(views(out@) =~= Seq::<Seq<char>>::empty());
    while i < s.len()
        invariant
            i <= s.len(),
            -(i as int) <= depth <= i,
            tokens_from(s@, i as int, depth as int, cur@, views(out@)) == option_tokens(s@),
        decreases s.len() - i,
    {
        let c = s[i];
        if crate::text::is_whitespace(c) && depth <= 0 {
            if cur.len() > 0 {
                let ghost o0 = out@;
                out.push(cur);
                assert(views(out@) =~= views(o0).push(cur@));
            }
            cur = Vec::new();
        } else {
            if c == '[' {
                depth = depth + 1;
            } else if c == ']' {
                depth = depth - 1;
            }
            cur.push(c);
        }
        i = i + 1;
    }
    if cur.len() > 0 {
        let ghost o0 = out@;
        out.push(cur);
        assert(views(out@) =~= views(o0).push(cur@));
    }
    out
}

/// `s` split at every `c` (`str::split`): always at least one piece.
pub open spec fn split_on(s: Seq<char>, c: char) -> Seq<Seq<char>>
    decreases s.len(),
{
    let k = find_char(s, c);
    if k >= s.len() {
        seq![s]
    } else {
        seq![s.take(k as int)] + split_on(s.skip(k as int + 1), c)
    }
}

pub proof fn lemma_find_char_bound(s: Seq<char>, c: char)
    ensures
        find_char(s, c) <= s.len(),
        find_char(s, c) < s.len() ==> s[find_char(s, c) as int] == c,
        forall|i: int| 0 <= i < find_char(s, c) ==> #[trigger] s[i] != c,
    decreases s.len(),
{
    if s.len() > 0 && s[0] != c {
        lemma_find_char_bound(s.drop_first(), c);
        assert forall|i: int| 0 <= i < find_char(s, c) implies #[trigger] s[i] != c by {
            if i > 0 {
                assert(s[i] == s.drop_first()[i - 1]);
            }
        }
    }
}

pub fn split_on_exec(s: &Vec<char>, c: char) -> (out: Vec<Vec<char>>)
    ensures
        views(out@) == split_on(s@, c),
{
    let mut out: Vec<Vec<char>> = Vec::new();
    let mut pos: usize = 0;
    assert(s@.skip(0) =~= s@);
    loop
        invariant
            pos <= s.len(),
            views(out@) + split_on(s@.skip(pos as int), c) == split_on(s@, c),
        decreases s.len() - pos,
    {
        let ghost t = s@.skip(pos as int);
        let mut k = pos;
        while k < s.len() && s[k] != c
            invariant
                pos <= k <= s.len(),
                forall|i: int| pos <= i < k ==> s@[i] != c,
            decreases s.len() - k,
        {
            k = k + 1;
        }
        proof {
            assert forall|i: int| 0 <= i < k - pos implies #[trigger] t[i] != c by {
                assert(t[i] == s@[pos + i]);
            }
            lemma_find_char_is(t, c, k - pos);
        }
        let piece = slice_chars(s, pos, k);
        let ghost o0 = out@;
        out.push(piece);
        if k >= s.len() {
            proof {
                assert(piece@ =~= t);
                assert(views(out@) =~= views(o0) + seq![t]);
            }
            return out;
        }
        proof {
            assert(piece@ =~= t.take(k - pos));
            assert(t.skip(k - pos + 1) =~= s@.skip(k + 1));
            assert(views(out@) =~= views(o0) + seq![piece@]);
        }
        pos = k + 1;
    }
}

/// The strings of `ss` in code-point order (stable).
pub open spec fn sort_strs(ss: Seq<Seq<char>>) -> Seq<Seq<char>> {
    sort_items(ss.map_values(|s: Seq<char>| (0nat, s, Seq::<Seq<char>>::empty()))).map_values(
        |i: (nat, Seq<char>, Seq<Seq<char>>)| i.1,
    )
}

pub fn sort_strs_exec(ss: Vec<Vec<char>>) -> (out: Vec<Vec<char>>)
    ensures
        views(out@) == sort_strs(views(ss@)),
{
    let mut items: Vec<SortItem> = Vec::new();
    let mut rest = ss;
    let ghost all = views(rest@);
    let n0 = rest.len();
    let mut k: usize = 0;
    while rest.len() > 0
        invariant
            k <= all.len(),
            all.len() == n0,
            views(rest@) == all.skip(k as int),
            items_view(items@) == all.take(k as int).map_values(
                |s: Seq<char>| (0nat, s, Seq::<Seq<char>>::empty()),
            ),
        decreases rest.len(),
    {
        let ghost r0 = rest@;
        let x = rest.remove(0);
        proof {
            assert(views(r0).len() == r0.len());
            assert(all.skip(k as int).len() == all.len() - k);
            assert(rest@ =~= r0.subrange(1, r0.len() as int));
            assert(views(rest@) =~= views(r0).subrange(1, r0.len() as int));
            assert(all.skip(k as int).subrange(1, r0.len() as int) =~= all.skip(k + 1));
            assert(views(r0)[0] == x@);
            assert(all.skip(k as int)[0] == all[k as int]);
        }
        let ghost i0 = items@;
        let no_lines: Vec<Vec<char>> = Vec::new();
        assert(views(no_lines@) =~= Seq::<Seq<char>>::empty());
        items.push(SortItem { rank: 0, key: x, lines: no_lines });
        proof {
            assert(items_view(items@) =~= items_view(i0).push(item_view(items@.last())));
            assert(all.take(k + 1) =~= all.take(k as int).push(all[k as int]));
            assert(items_view(items@) =~= all.take(k + 1).map_values(
                |s: Seq<char>| (0nat, s, Seq::<Seq<char>>::empty()),
            ));
        }
        k = k + 1;
    }
    assert(all.take(k as int) =~= all);
    let sorted = sort_items_exec(items);
    let ghost sv = items_view(sorted@);
    let mut out: Vec<Vec<char>> = Vec::new();
    let mut rest2 = sorted;
    let m0 = rest2.len();
    let mut j: usize = 0;
    while rest2.len() > 0
        invariant
            j <= sv.len(),
            sv.len() == m0,
            items_view(rest2@) == sv.skip(j as int),
            views(out@) == sv.take(j as int).map_values(|i: (nat, Seq<char>, Seq<Seq<char>>)| i.1),
        decreases rest2.len(),
    {
        let ghost r0 = rest2@;
        let x = rest2.remove(0);
        proof {
            assert(items_view(r0).len() == r0.len());
            assert(sv.skip(j as int).len() == sv.len() - j);
            assert(rest2@ =~= r0.subrange(1, r0.len() as int));
            assert(items_view(rest2@) =~= items_view(r0).subrange(1, r0.len() as int));
            assert(sv.skip(j as int).subrange(1, r0.len() as int) =~= sv.skip(j + 1));
            assert(items_view(r0)[0] == item_view(x));
            assert(sv.skip(j as int)[0] == sv[j as int]);
        }
        let ghost o0 = out@;
        out.push(x.key);
        proof {
            assert(views(out@) =~= views(o0).push(sv[j as int].1));
            assert(sv.take(j + 1) =~= sv.take(j as int).push(sv[j as int]));
            assert(views(out@) =~= sv.take(j + 1).map_values(
                |i: (nat, Seq<char>, Seq<Seq<char>>)| i.1,
            ));
        }
        j = j + 1;
    }
    assert(sv.take(j as int) =~= sv);
    out
}

} // verus!

verus! {

/// Trim every string of `ss`.
pub open spec fn trim_all(ss: Seq<Seq<char>>) -> Seq<Seq<char>> {
    ss.map_values(|s: Seq<char>| trim(s))
}

/// An inline option in canonical form: `key=true` is just `key`, a list value
/// is written with its items in order, anything else as written.
pub open spec fn canonical_option(tok: Seq<char>) -> Seq<char> {
    let e = find_char(tok, '=');
    if e >= tok.len() {
        tok
    } else {
        let key = tok.take(e as int);
        let val = tok.skip(e as int + 1);
        if val == "true"@ {
            key
        } else if val.len() >= 2 && val[0] == '[' && val.last() == ']' {
            key + "=["@ + join(
                sort_strs(trim_all(split_on(val.subrange(1, val.len() - 1), ','))),
                ","@,
            ) + "]"@
        } else {
            tok
        }
    }
}

/// The header line of a section: its name, then its options in canonical form
/// and order.
pub open spec fn header_text(t: SectionType, options: Seq<Seq<char>>) -> Seq<char> {
    "--- "@ + section_name(t) + (if options.len() > 0 {
        " "@ + join(sort_strs(options.map_values(|o: Seq<char>| canonical_option(o))), " "@)
    } else {
        Seq::empty()
    }) + " ---"@
}

fn trim_all_exec(v: Vec<Vec<char>>) -> (out: Vec<Vec<char>>)
    ensures
        views(out@) == trim_all(views(v@)),
{
    let mut out: Vec<Vec<char>> = Vec::new();
    let mut i: usize = 0;
    while i < v.len()
        invariant
            i <= v.len(),
            views(out@) == trim_all(views(v@).take(i as int)),
        decreases v.len() - i,
    {
        let t = trim_chars(&v[i]);
        let ghost o0 = out@;
        out.push(t);
        proof {
            assert(views(out@) =~= views(o0).push(t@));
            assert(views(v@).take(i + 1) =~= views(v@).take(i as int).push(v@[i as int]@));
            assert(views(out@) =~= trim_all(views(v@).take(i + 1)));
        }
        i = i + 1;
    }
    assert(views(v@).take(i as int) =~= views(v@));
    out
}

pub fn canonical_option_exec(tok: &Vec<char>) -> (out: Vec<char>)
    ensures
        out@ == canonical_option(tok@),
{
    let e = find_char_exec(tok, '=');
    if e >= tok.len() {
        return tok.clone();
    }
    let key = slice_chars(tok, 0, e);
    let val = slice_chars(tok, e + 1, tok.len());
    assert(val@ =~= tok@.skip(e + 1));
    let t = chars_of("true");
    if crate::text::chars_eq(&val, &t) {
        return key;
    }
    if val.len() >= 2 && val[0] == '[' && val[val.len() - 1] == ']' {
        let inner = slice_chars(&val, 1, val.len() - 1);
        let items = split_on_exec(&inner, ',');
        let trimmed = trim_all_exec(items);
        let sorted = sort_strs_exec(trimmed);
        let mut out = key;
        push_str(&mut out, "=[");
        let joined = join_lines(&sorted, ",");
        push_all(&mut out, &joined);
        push_str(&mut out, "]");
        return out;
    }
    tok.clone()
}

fn map_canonical(opts: &Vec<Vec<char>>) -> (out: Vec<Vec<char>>)
    ensures
        views(out@) == views(opts@).map_values(|o: Seq<char>| canonical_option(o)),
{
    let mut out: Vec<Vec<char>> = Vec::new();
    let mut i: usize = 0;
    while i < opts.len()
        invariant
            i <= opts.len(),
            views(out@) == views(opts@).take(i as int).map_values(
                |o: Seq<char>| canonical_option(o),
            ),
        decreases opts.len() - i,
    {
        let c = canonical_option_exec(&opts[i]);
        let ghost o0 = out@;
        out.push(c);
        proof {
            assert(views(out@) =~= views(o0).push(c@));
            assert(views(opts@).take(i + 1) =~= views(opts@).take(i as int).push(opts@[i as int]@));
            assert(views(out@) =~= views(opts@).take(i + 1).map_values(
                |o: Seq<char>| canonical_option(o),
            ));
        }
        i = i + 1;
    }
    assert(views(opts@).take(i as int) =~= views(opts@));
    out
}

pub fn header_text_exec(t: SectionType, options: &Vec<Vec<char>>) -> (out: Vec<char>)
    ensures
        out@ == header_text(t, views(options@)),
{
    let mut out: Vec<char> = Vec::new();
    push_str(&mut out, "--- ");
    push_str(&mut out, t.name());
    if options.len() > 0 {
        push_str(&mut out, " ");
        let canon = map_canonical(options);
        let sorted = sort_strs_exec(canon);
        let joined = join_lines(&sorted, " ");
        push_all(&mut out, &joined);
    }
    push_str(&mut out, " ---");
    assert(out@ =~= header_text(t, views(options@)));
    out
}

} // verus!

verus! {

// ---------------------------------------------------------------------------
// Documents

pub struct Section {
    pub section_type: SectionType,
    pub content: SectionContent,
    /// Inline options as written in the header, one token each.
    pub inline_options: Vec<String>,
    /// The section's text after its header line, up to the next section.
    pub raw_content: String,
    /// Index of the header line.
    pub start_line: usize,
    /// Index of the first line after the section's text.
    pub end_line: usize,
    /// The `#[...]` attribute lines directly above the header, trimmed.
    pub attributes: Vec<String>,
}

pub struct GctfDocument {
    pub file_path: String,
    pub sections: Vec<Section>,
}

#[derive(Clone, PartialEq, Eq, Debug)]
pub enum ParseError {
    /// The text has no section header at all.
    NoSections,
    /// A header names no known section; `line` is 1-based.
    UnknownSection { line: usize, name: String },
}

pub open spec fn strs(v: Seq<String>) -> Seq<Seq<char>> {
    v.map_values(|s: String| s@)
}

/// Indices of the header lines of `ls`, in order.
pub open spec fn header_positions(ls: Seq<Seq<char>>) -> Seq<int>
    decreases ls.len(),
{
    if ls.len() == 0 {
        Seq::empty()
    } else {
        header_positions(ls.drop_last()) + (if is_header(ls.last()) {
            seq![ls.len() - 1]
        } else {
            Seq::empty()
        })
    }
}

/// Number of attribute lines directly above line `h`, not reaching `floor`.
pub open spec fn attr_run(ls: Seq<Seq<char>>, h: int, floor: int) -> nat
    decreases h - floor,
{
    if h - 1 > floor && 0 <= h - 1 < ls.len() && is_attr(ls[h - 1]) {
        1 + attr_run(ls, h - 1, floor)
    } else {
        0
    }
}

/// First line of section `k`: its attributes, then its header.
pub open spec fn sec_start(ls: Seq<Seq<char>>, hp: Seq<int>, k: int) -> int {
    hp[k] - attr_run(ls, hp[k], if k == 0 {
        -1
    } else {
        hp[k - 1]
    })
}

/// First line after section `k`'s text.
pub open spec fn sec_end(ls: Seq<Seq<char>>, hp: Seq<int>, k: int) -> int {
    if k + 1 < hp.len() {
        sec_start(ls, hp, k + 1)
    } else {
        ls.len() as int
    }
}

pub open spec fn all_blank(body: Seq<Seq<char>>) -> bool {
    forall|i: int| 0 <= i < body.len() ==> is_blank(#[trigger] body[i])
}

/// How a section's body is read: JSON for payloads, key-value lines for the
/// configuration sections, extraction lines for EXTRACT, text otherwise.
pub open spec fn content_kind(t: SectionType, body: Seq<Seq<char>>) -> SectionContent {
    match t {
        SectionType::Request | SectionType::Response | SectionType::Error => if all_blank(body) {
            SectionContent::Empty
        } else {
            SectionContent::Json
        },
        SectionType::RequestHeaders | SectionType::Options | SectionType::Tls | SectionType::Proto
        | SectionType::Bench => SectionContent::KeyValues,
        SectionType::Extract => SectionContent::Extract,
        _ => SectionContent::Text,
    }
}

/// What a section is, as the formatter reads it.
pub struct SectionView {
    pub section_type: SectionType,
    pub content: SectionContent,
    pub options: Seq<Seq<char>>,
    pub raw: Seq<char>,
    pub start_line: int,
    pub end_line: int,
    pub attributes: Seq<Seq<char>>,
}

pub open spec fn section_view(s: Section) -> SectionView {
    SectionView {
        section_type: s.section_type,
        content: s.content,
        options: strs(s.inline_options@),
        raw: s.raw_content@,
        start_line: s.start_line as int,
        end_line: s.end_line as int,
        attributes: strs(s.attributes@),
    }
}

/// Section `k` of the lines `ls`, whose header lines are at `hp`.
pub open spec fn spec_section(ls: Seq<Seq<char>>, hp: Seq<int>, k: int) -> SectionView {
    let h = hp[k];
    let st = sec_start(ls, hp, k);
    let en = sec_end(ls, hp, k);
    let t = section_type_of(header_name(ls[h]))->0;
    SectionView {
        section_type: t,
        content: content_kind(t, ls.subrange(h + 1, en)),
        options: option_tokens(header_options(ls[h])),
        raw: join(ls.subrange(h + 1, en), "\n"@),
        start_line: h,
        end_line: en,
        attributes: trim_all(ls.subrange(st, h)),
    }
}

/// Section `s` is section `k` of the lines `ls`.
pub open spec fn section_ok(s: Section, ls: Seq<Seq<char>>, hp: Seq<int>, k: int) -> bool {
    &&& section_type_of(header_name(ls[hp[k]])) is Some
    &&& section_view(s) == spec_section(ls, hp, k)
}

/// Whether `source` parses: it has a header, and every header names a known section.
pub open spec fn parses(source: Seq<char>) -> bool {
    let ls = lines(source);
    let hp = header_positions(ls);
    hp.len() > 0 && forall|k: int| 0 <= k < hp.len() ==> known_header(ls, hp, k)
}

/// The sections of `source`, in order.
pub open spec fn doc_views(source: Seq<char>) -> Seq<SectionView> {
    let ls = lines(source);
    let hp = header_positions(ls);
    Seq::new(hp.len(), |k: int| spec_section(ls, hp, k))
}

/// The views of a document's sections.
pub open spec fn sections_view(s: Seq<Section>) -> Seq<SectionView> {
    s.map_values(|x: Section| section_view(x))
}

/// `e` is what `source` is refused with: no header at all, or the first
/// header that names no known section, with its 1-based line and its name.
pub open spec fn parse_error(source: Seq<char>, e: ParseError) -> bool {
    let ls = lines(source);
    let hp = header_positions(ls);
    match e {
        ParseError::NoSections => hp.len() == 0,
        ParseError::UnknownSection { line, name } => {
            exists|k: int|
                0 <= k < hp.len() && !known_header(ls, hp, k) && (forall|j: int|
                    0 <= j < k ==> known_header(ls, hp, j)) && line == hp[k] + 1 && name@
                    == header_name(ls[hp[k]])
        },
    }
}

/// Whether header `k` names a known section.
pub open spec fn known_header(ls: Seq<Seq<char>>, hp: Seq<int>, k: int) -> bool {
    section_type_of(header_name(ls[hp[k]])) is Some
}

proof fn lemma_header_positions(ls: Seq<Seq<char>>)
    ensures
        forall|k: int| 0 <= k < header_positions(ls).len() ==> 0 <= #[trigger] header_positions(ls)[k]
            < ls.len() && is_header(ls[header_positions(ls)[k]]),
        forall|a: int, b: int|
            0 <= a < b < header_positions(ls).len() ==> #[trigger] header_positions(ls)[a]
                < #[trigger] header_positions(ls)[b],
    decreases ls.len(),
{
    if ls.len() > 0 {
        lemma_header_positions(ls.drop_last());
        let p = header_positions(ls.drop_last());
        assert forall|k: int| 0 <= k < p.len() implies #[trigger] ls.drop_last()[p[k]] == ls[p[k]] by {}
    }
}

fn attr_run_exec(ls: &Vec<Vec<char>>, h: usize, floor: Option<usize>) -> (a: usize)
    requires
        h <= ls.len(),
        match floor {
            Some(f) => f < h,
            None => true,
        },
    ensures
        a == attr_run(views(ls@), h as int, match floor {
            Some(f) => f as int,
            None => -1,
        }),
        a <= h,
        match floor {
            Some(f) => a < h - f,
            None => true,
        },
{
    let ghost fl: int = match floor {
        Some(f) => f as int,
        None => -1,
    };
    let mut a: usize = 0;
    loop
        invariant
            a <= h,
            h - a > fl,
            fl == match floor {
                Some(f) => f as int,
                None => -1,
            },
            h <= ls.len(),
            attr_run(views(ls@), h as int - a, fl) + a == attr_run(views(ls@), h as int, fl),
        decreases h - a,
    {
        let above_floor = match floor {
            Some(f) => h - a - 1 > f,
            None => h - a >= 1,
        };
        if !(above_floor && attr_line(&ls[h - a - 1])) {
            return a;
        }
        a = a + 1;
    }
}

} // verus!

verus! {

fn strings_from(v: &Vec<Vec<char>>) -> (out: Vec<String>)
    ensures
        strs(out@) == views(v@),
{
    let mut out: Vec<String> = Vec::new();
    let mut i: usize = 0;
    while i < v.len()
        invariant
            i <= v.len(),
            strs(out@) == views(v@).take(i as int),
        decreases v.len() - i,
    {
        let s = string_from_chars(v[i].as_slice());
        let ghost o0 = out@;
        out.push(s);
        proof {
            assert(strs(out@) =~= strs(o0).push(s@));
            assert(views(v@).take(i + 1) =~= views(v@).take(i as int).push(v@[i as int]@));
        }
        i = i + 1;
    }
    assert(views(v@).take(i as int) =~= views(v@));
    out
}

/// `ls[a..b]`, each line trimmed.
fn trimmed_range(ls: &Vec<Vec<char>>, a: usize, b: usize) -> (out: Vec<Vec<char>>)
    requires
        a <= b <= ls.len(),
    ensures
        views(out@) == trim_all(views(ls@).subrange(a as int, b as int)),
{
    let mut out: Vec<Vec<char>> = Vec::new();
    let mut i = a;
    while i < b
        invariant
            a <= i <= b <= ls.len(),
            views(out@) == trim_all(views(ls@).subrange(a as int, i as int)),
        decreases b - i,
    {
        let t = trim_chars(&ls[i]);
        let ghost o0 = out@;
        out.push(t);
        proof {
            assert(views(out@) =~= views(o0).push(t@));
            assert(views(ls@).subrange(a as int, i + 1) =~= views(ls@).subrange(a as int, i as int).push(
                ls@[i as int]@,
            ));
            assert(views(out@) =~= trim_all(views(ls@).subrange(a as int, i + 1)));
        }
        i = i + 1;
    }
    out
}

/// `ls[a..b]` as owned lines.
pub fn line_range(ls: &Vec<Vec<char>>, a: usize, b: usize) -> (out: Vec<Vec<char>>)
    requires
        a <= b <= ls.len(),
    ensures
        views(out@) == views(ls@).subrange(a as int, b as int),
{
    let mut out: Vec<Vec<char>> = Vec::new();
    let mut i = a;
    while i < b
        invariant
            a <= i <= b <= ls.len(),
            views(out@) == views(ls@).subrange(a as int, i as int),
        decreases b - i,
    {
        let l = slice_chars(&ls[i], 0, ls[i].len());
        assert(l@ =~= ls@[i as int]@);
        let ghost o0 = out@;
        out.push(l);
        proof {
            assert(views(out@) =~= views(o0).push(l@));
            assert(views(ls@).subrange(a as int, i + 1) =~= views(ls@).subrange(a as int, i as int).push(
                ls@[i as int]@,
            ));
        }
        i = i + 1;
    }
    out
}

fn all_blank_exec(body: &Vec<Vec<char>>) -> (b: bool)
    ensures
        b == all_blank(views(body@)),
{
    let mut i: usize = 0;
    while i < body.len()
        invariant
            i <= body.len(),
            forall|j: int| 0 <= j < i ==> is_blank(#[trigger] views(body@)[j]),
        decreases body.len() - i,
    {
        if !chars_blank(&body[i]) {
            assert(!is_blank(views(body@)[i as int]));
            return false;
        }
        i = i + 1;
    }
    true
}

fn content_kind_exec(t: SectionType, body: &Vec<Vec<char>>) -> (c: SectionContent)
    ensures
        c == content_kind(t, views(body@)),
{
    match t {
        SectionType::Request | SectionType::Response | SectionType::Error => {
            if all_blank_exec(body) {
                SectionContent::Empty
            } else {
                SectionContent::Json
            }
        },
        SectionType::RequestHeaders | SectionType::Options | SectionType::Tls | SectionType::Proto
        | SectionType::Bench => SectionContent::KeyValues,
        SectionType::Extract => SectionContent::Extract,
        _ => SectionContent::Text,
    }
}

/// Parse the sections of a `.gctf` text.
pub fn parse_gctf_from_str(source: &str, file_name: &str) -> (res: Result<GctfDocument, ParseError>)
    ensures
        ({
            let ls = lines(source@);
            let hp = header_positions(ls);
            match res {
                Err(e) => parse_error(source@, e),
                Ok(doc) => {
                    &&& hp.len() > 0
                    &&& forall|k: int| 0 <= k < hp.len() ==> known_header(ls, hp, k)
                    &&& doc.file_path@ == file_name@
                    &&& doc.sections@.len() == hp.len()
                    &&& forall|k: int|
                        0 <= k < hp.len() ==> section_ok(#[trigger] doc.sections@[k], ls, hp, k)
                },
            }
        }),
        res is Ok <==> parses(source@),
        res matches Ok(doc) ==> sections_view(doc.sections@) == doc_views(source@),
{
    let src = chars_of(source);
    let ls = split_lines(&src);
    let ghost lsv = views(ls@);
    assert(lsv == lines(source@));
    // Header lines, with their names and options.
    let mut hp: Vec<usize> = Vec::new();
    let mut names: Vec<Vec<char>> = Vec::new();
    let mut opts: Vec<Vec<char>> = Vec::new();
    let mut i: usize = 0;
    while i < ls.len()
        invariant
            i <= ls.len(),
            lsv == views(ls@),
            hp@.len() == names@.len() == opts@.len(),
            hp@.map_values(|x: usize| x as int) == header_positions(lsv.take(i as int)),
            forall|k: int| 0 <= k < hp@.len() ==> #[trigger] hp@[k] < i,
            forall|k: int|
                0 <= k < hp@.len() ==> names@[k]@ == header_name(#[trigger] lsv[hp@[k] as int])
                    && opts@[k]@ == header_options(lsv[hp@[k] as int]),
        decreases ls.len() - i,
    {
        let parts = header_parts(&ls[i]);
        let ghost h0 = hp@;
        proof {
            assert(lsv.take(i + 1).drop_last() =~= lsv.take(i as int));
            assert(lsv.take(i + 1).last() == lsv[i as int]);
        }
        match parts {
            Some((n, o)) => {
                hp.push(i);
                names.push(n);
                opts.push(o);
                assert(hp@.map_values(|x: usize| x as int) =~= h0.map_values(|x: usize| x as int).push(
                    i as int,
                ));
            },
            None => {},
        }
        i = i + 1;
    }
    assert(lsv.take(ls.len() as int) =~= lsv);
    let ghost hpv = header_positions(lsv);
    assert(hpv.len() == hp@.len());
    assert(forall|k: int| 0 <= k < hp@.len() ==> hpv[k] == #[trigger] hp@[k] as int);
    let nl = ls.len();
    if hp.len() == 0 {
        return Err(ParseError::NoSections);
    }
    // Every header must name a known section.
    let mut types: Vec<SectionType> = Vec::new();
    let mut k: usize = 0;
    while k < hp.len()
        invariant
            lsv == lines(source@),
            hpv == header_positions(lsv),
            k <= hp.len(),
            hp@.len() == names@.len(),
            hpv.len() == hp@.len(),
            forall|j: int| 0 <= j < hp@.len() ==> hpv[j] == #[trigger] hp@[j] as int,
            forall|j: int|
                0 <= j < hp@.len() ==> names@[j]@ == header_name(#[trigger] lsv[hp@[j] as int]),
            types@.len() == k,
            nl == ls@.len(),
            forall|j: int| 0 <= j < hp@.len() ==> #[trigger] hp@[j] < nl,
            forall|j: int|
                0 <= j < k ==> Some(#[trigger] types@[j]) == section_type_of(
                    header_name(lsv[hpv[j]]),
                ),
        decreases hp.len() - k,
    {
        match section_type_from(&names[k]) {
            Some(t) => {
                proof {
                    assert(names@[k as int]@ == header_name(lsv[hp@[k as int] as int]));
                    assert(hpv[k as int] == hp@[k as int] as int);
                }
                types.push(t);
            },
            None => {
                let name = string_from_chars(names[k].as_slice());
                proof {
                    assert(names@[k as int]@ == header_name(lsv[hp@[k as int] as int]));
                    assert(hpv[k as int] == hp@[k as int] as int);
                    assert(!known_header(lsv, hpv, k as int));
                    assert forall|j: int| 0 <= j < k implies known_header(lsv, hpv, j) by {
                        assert(Some(types@[j]) == section_type_of(header_name(lsv[hpv[j]])));
                    }
                }
                let line = hp[k] + 1;
                proof {
                    let kk = k as int;
                    assert(0 <= kk < hpv.len() && !known_header(lsv, hpv, kk) && (forall|j: int|
                        0 <= j < kk ==> known_header(lsv, hpv, j)) && line == hpv[kk] + 1 && name@
                        == header_name(lsv[hpv[kk]]));
                }
                return Err(ParseError::UnknownSection { line, name });
            },
        }
        k = k + 1;
    }
    proof {
        lemma_header_positions(lsv);
    }
    // Where each section starts: its attribute lines, then its header.
    let n = hp.len();
    let mut starts: Vec<usize> = Vec::new();
    let mut k: usize = 0;
    while k < n
        invariant
            n == hp@.len() == hpv.len(),
            k <= n,
            ls@.len() == lsv.len(),
            lsv == views(ls@),
            forall|j: int| 0 <= j < n ==> hpv[j] == #[trigger] hp@[j] as int,
            forall|j: int| 0 <= j < n ==> 0 <= #[trigger] hpv[j] < lsv.len(),
            forall|a: int, b: int| 0 <= a < b < n ==> #[trigger] hpv[a] < #[trigger] hpv[b],
            starts@.len() == k,
            forall|j: int| 0 <= j < k ==> #[trigger] starts@[j] as int == sec_start(lsv, hpv, j),
            forall|j: int| 0 <= j < k ==> #[trigger] starts@[j] <= hp@[j],
            forall|j: int| 0 < j < k ==> hp@[j - 1] < #[trigger] starts@[j],
        decreases n - k,
    {
        let floor = if k == 0 {
            None
        } else {
            Some(hp[k - 1])
        };
        assert(k > 0 ==> hpv[k - 1] < hpv[k as int]);
        let a = attr_run_exec(&ls, hp[k], floor);
        starts.push(hp[k] - a);
        k = k + 1;
    }
    let mut sections: Vec<Section> = Vec::new();
    let mut k: usize = 0;
    while k < n
        invariant
            n == hp@.len() == hpv.len() == starts@.len() == types@.len() == opts@.len(),
            k <= n,
            ls@.len() == lsv.len(),
            lsv == views(ls@),
            forall|j: int| 0 <= j < n ==> hpv[j] == #[trigger] hp@[j] as int,
            forall|j: int| 0 <= j < n ==> 0 <= #[trigger] hpv[j] < lsv.len(),
            forall|j: int| 0 <= j < n ==> #[trigger] starts@[j] as int == sec_start(lsv, hpv, j),
            forall|j: int| 0 <= j < n ==> #[trigger] starts@[j] <= hp@[j],
            forall|j: int| 0 < j < n ==> hp@[j - 1] < #[trigger] starts@[j],
            forall|j: int|
                0 <= j < n ==> Some(#[trigger] types@[j]) == section_type_of(
                    header_name(lsv[hpv[j]]),
                ),
            forall|j: int|
                0 <= j < n ==> opts@[j]@ == header_options(#[trigger] lsv[hp@[j] as int]),
            sections@.len() == k,
            forall|j: int| 0 <= j < k ==> section_ok(#[trigger] sections@[j], lsv, hpv, j),
        decreases n - k,
    {
        let h = hp[k];
        let st = starts[k];
        let en = if k + 1 < n {
            starts[k + 1]
        } else {
            ls.len()
        };
        let body = line_range(&ls, h + 1, en);
        let raw = join_lines(&body, "\n");
        let attrs = trimmed_range(&ls, st, h);
        let toks = option_tokens_exec(&opts[k]);
        let t = types[k];
        let content = content_kind_exec(t, &body);
        let section = Section {
            section_type: t,
            content,
            inline_options: strings_from(&toks),
            raw_content: string_from_chars(raw.as_slice()),
            start_line: h,
            end_line: en,
            attributes: strings_from(&attrs),
        };
        sections.push(section);
        proof {
            assert(section_view(sections@[k as int]) =~= spec_section(lsv, hpv, k as int));
            assert(section_ok(sections@[k as int], lsv, hpv, k as int));
        }
        k = k + 1;
    }
    let ghost hh = hpv;
    assert forall|k: int| 0 <= k < hh.len() implies known_header(lsv, hh, k) by {
        assert(Some(types@[k]) == section_type_of(header_name(lsv[hh[k]])));
    }
    assert(sections_view(sections@) =~= doc_views(source@)) by {
        assert forall|k: int| 0 <= k < sections@.len() implies #[trigger] sections_view(sections@)[k]
            == doc_views(source@)[k] by {
            assert(section_ok(sections@[k], lsv, hpv, k));
        }
    }
    Ok(GctfDocument { file_path: string_from_chars(chars_of(file_name).as_slice()), sections })
}

} // verus!
