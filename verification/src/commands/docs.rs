//! The pieces of the generated Markdown documentation that decide something:
//! page names, groups, call shapes, placeholder names and the escaping that
//! keeps a value from breaking the Markdown it is written into.
use crate::commands::docs_render::{
    first_in, index_text, page_of, page_text, render_index, render_service_page, MethodFlow,
};
use crate::commands::fmt::{lead_char, lead_char_count};
use crate::text::{
    chars_of, decimal, decimal_chars, push_all, push_str, slice_chars, string_from_chars, trim,
    trim_chars, trim_start, trim_start_chars,
};
use vstd::prelude::*;

verus! {

broadcast use vstd::string::group_string_axioms;

/// One generated Markdown page.
pub struct DocPage {
    pub name: String,
    pub markdown: String,
}

/// `package.Service`, or the bare service without a package.
pub fn service_key(package: &str, service: &str) -> (s: String)
    ensures
        s@ == if package@.len() == 0 {
            service@
        } else {
            package@ + "."@ + service@
        },
{
    let mut out = chars_of(package);
    if out.len() > 0 {
        push_str(&mut out, ".");
    }
    push_all(&mut out, &chars_of(service));
    string_from_chars(out.as_slice())
}

/// The tool a command line runs: its first word, `sh` for a blank line.
pub fn tool_of(line: &str) -> (t: String)
    ensures
        t@ == if trim_start(line@).len() == 0 {
            "sh"@
        } else {
            trim_start(line@).take(crate::parser::first_ws(trim_start(line@)) as int)
        },
{
    let l = chars_of(line);
    let t = trim_start_chars(&l);
    if t.len() == 0 {
        return string_from_chars(chars_of("sh").as_slice());
    }
    let k = crate::parser::first_ws_exec(&t);
    string_from_chars(slice_chars(&t, 0, k).as_slice())
}

pub open spec fn shape_of(requests: nat, responses: nat, has_error: bool) -> Option<Seq<char>> {
    let base = if requests > 1 && responses > 1 {
        "bidirectional streaming"@
    } else if requests > 1 {
        "client streaming"@
    } else if responses > 1 {
        "server streaming"@
    } else {
        "unary"@
    };
    if requests <= 1 && responses == 0 && !has_error {
        None
    } else if has_error {
        Some(base + ", expects an error"@)
    } else {
        Some(base)
    }
}

/// The call's shape by the messages a run sends and expects: streaming on a
/// side that carries more than one, unary otherwise; nothing to say of a
/// single request that expects neither a message nor an error.
pub fn call_shape(requests: usize, responses: usize, has_error: bool) -> (s: Option<String>)
    ensures
        match s {
            Some(x) => shape_of(requests as nat, responses as nat, has_error) == Some(x@),
            None => shape_of(requests as nat, responses as nat, has_error) is None,
        },
{
    let base = if requests > 1 && responses > 1 {
        "bidirectional streaming"
    } else if requests > 1 {
        "client streaming"
    } else if responses > 1 {
        "server streaming"
    } else if responses == 0 && !has_error {
        return None;
    } else {
        "unary"
    };
    let mut out = chars_of(base);
    if has_error {
        push_str(&mut out, ", expects an error");
    }
    Some(string_from_chars(out.as_slice()))
}

/// Each `\n` and `\r` replaced by a space.
pub open spec fn flat(s: Seq<char>) -> Seq<char> {
    s.map_values(|c: char| if c == '\n' || c == '\r' {
        ' '
    } else {
        c
    })
}

fn flat_chars(s: &Vec<char>) -> (out: Vec<char>)
    ensures
        out@ == flat(s@),
{
    let mut out: Vec<char> = Vec::new();
    let mut i: usize = 0;
    while i < s.len()
        invariant
            i <= s.len(),
            out@ == flat(s@.take(i as int)),
        decreases s.len() - i,
    {
        let c = s[i];
        out.push(
            if c == '\n' || c == '\r' {
                ' '
            } else {
                c
            },
        );
        assert(out@ =~= flat(s@.take(i + 1)));
        i = i + 1;
    }
    assert(s@.take(i as int) =~= s@);
    out
}

/// A value on one line: line breaks become spaces, the ends are trimmed.
pub fn one_line(value: &str) -> (s: String)
    ensures
        s@ == trim(flat(value@)),
{
    let f = flat_chars(&chars_of(value));
    string_from_chars(trim_chars(&f).as_slice())
}

/// A table cell: `\` and `|` escaped with a backslash, line breaks as spaces.
pub open spec fn cell_text(s: Seq<char>) -> Seq<char>
    decreases s.len(),
{
    if s.len() == 0 {
        Seq::empty()
    } else {
        cell_text(s.drop_last()) + if s.last() == '\\' {
            "\\\\"@
        } else if s.last() == '|' {
            "\\|"@
        } else if s.last() == '\n' || s.last() == '\r' {
            " "@
        } else {
            seq![s.last()]
        }
    }
}

/// A table cell stays on its row: it holds no line break, and every `|` in it
/// is escaped by the backslash before it.
pub proof fn lemma_cell_stays_on_its_row(s: Seq<char>)
    ensures
        forall|i: int|
            0 <= i < cell_text(s).len() ==> #[trigger] cell_text(s)[i] != '\n' && cell_text(s)[i]
                != '\r',
        forall|i: int|
            0 <= i < cell_text(s).len() && #[trigger] cell_text(s)[i] == '|' ==> i > 0 && cell_text(
                s,
            )[i - 1] == '\\',
    decreases s.len(),
{
    reveal_strlit("\\\\");
    reveal_strlit("\\|");
    reveal_strlit(" ");
    if s.len() > 0 {
        lemma_cell_stays_on_its_row(s.drop_last());
        let p = cell_text(s.drop_last());
        let t = if s.last() == '\\' {
            "\\\\"@
        } else if s.last() == '|' {
            "\\|"@
        } else if s.last() == '\n' || s.last() == '\r' {
            " "@
        } else {
            seq![s.last()]
        };
        assert(cell_text(s) == p + t);
        assert forall|i: int| 0 <= i < cell_text(s).len() && #[trigger] cell_text(s)[i] == '|' implies i
            > 0 && cell_text(s)[i - 1] == '\\' by {
            if i >= p.len() {
                assert(t[i - p.len()] == '|');
            }
        }
    }
}

pub fn md_cell(value: &str) -> (s: String)
    ensures
        s@ == cell_text(value@),
{
    proof {
        reveal_strlit("\\\\");
        reveal_strlit("\\|");
        reveal_strlit(" ");
    }
    let v = chars_of(value);
    let mut out: Vec<char> = Vec::new();
    let mut i: usize = 0;
    while i < v.len()
        invariant
            i <= v.len(),
            v@ == value@,
            out@ == cell_text(v@.take(i as int)),
        decreases v.len() - i,
    {
        let c = v[i];
        if c == '\\' {
            push_str(&mut out, "\\\\");
        } else if c == '|' {
            push_str(&mut out, "\\|");
        } else if c == '\n' || c == '\r' {
            push_str(&mut out, " ");
        } else {
            out.push(c);
        }
        assert(v@.take(i + 1).drop_last() =~= v@.take(i as int));
        i = i + 1;
    }
    assert(v@.take(i as int) =~= v@);
    string_from_chars(out.as_slice())
}

/// Length of the run of backticks that ends `s`.
pub open spec fn tick_tail(s: Seq<char>) -> nat
    decreases s.len(),
{
    if s.len() > 0 && s.last() == '`' {
        1 + tick_tail(s.drop_last())
    } else {
        0
    }
}

/// Length of the longest run of backticks in `s`.
pub open spec fn longest_ticks(s: Seq<char>) -> nat
    decreases s.len(),
{
    if s.len() == 0 {
        0
    } else if longest_ticks(s.drop_last()) < tick_tail(s) {
        tick_tail(s)
    } else {
        longest_ticks(s.drop_last())
    }
}

proof fn lemma_tick_tail_covers_run(s: Seq<char>, i: int, j: int)
    requires
        0 <= i <= j <= s.len(),
        forall|k: int| i <= k < j ==> s[k] == '`',
    ensures
        tick_tail(s.take(j)) >= j - i,
    decreases j - i,
{
    if j > i {
        lemma_tick_tail_covers_run(s, i, j - 1);
        assert(s.take(j).drop_last() =~= s.take(j - 1));
        assert(s.take(j).last() == s[j - 1]);
    }
}

proof fn lemma_longest_covers_prefix(s: Seq<char>, j: int)
    requires
        0 <= j <= s.len(),
    ensures
        longest_ticks(s) >= tick_tail(s.take(j)),
    decreases s.len() - j,
{
    if j == s.len() {
        assert(s.take(j) =~= s);
    } else {
        lemma_longest_covers_prefix(s.drop_last(), j);
        assert(s.drop_last().take(j) =~= s.take(j));
    }
}

/// No run of backticks inside a value is as long as the fence of its code
/// span, so the value cannot close the span early.
pub proof fn lemma_code_span_fence_outlasts_runs(value: Seq<char>, i: int, j: int)
    requires
        0 <= i <= j <= value.len(),
        forall|k: int| i <= k < j ==> value[k] == '`',
    ensures
        j - i < ticks(longest_ticks(value) + 1).len(),
{
    lemma_tick_tail_covers_run(value, i, j);
    lemma_longest_covers_prefix(value, j);
}

/// `n` backticks.
pub open spec fn ticks(n: nat) -> Seq<char> {
    Seq::new(n, |i: int| '`')
}

/// Inline code that `value` cannot close early: a fence one backtick longer
/// than any run inside it, padded with a space where the value itself starts
/// or ends with a backtick.
pub open spec fn code_span(value: Seq<char>) -> Seq<char> {
    let fence = ticks(longest_ticks(value) + 1);
    let pad = if value.len() > 0 && (value[0] == '`' || value.last() == '`') {
        " "@
    } else {
        Seq::empty()
    };
    fence + pad + value + pad + fence
}

pub fn md_code(value: &str) -> (s: String)
    ensures
        s@ == code_span(value@),
{
    let v = chars_of(value);
    let mut cur: usize = 0;
    let mut best: usize = 0;
    let mut i: usize = 0;
    while i < v.len()
        invariant
            i <= v.len(),
            v@ == value@,
            cur == tick_tail(v@.take(i as int)),
            best == longest_ticks(v@.take(i as int)),
            cur <= i,
            best <= i,
        decreases v.len() - i,
    {
        assert(v@.take(i + 1).drop_last() =~= v@.take(i as int));
        if v[i] == '`' {
            cur = cur + 1;
        } else {
            cur = 0;
        }
        if best < cur {
            best = cur;
        }
        i = i + 1;
    }
    assert(v@.take(i as int) =~= v@);
    let mut fence: Vec<char> = Vec::new();
    let mut k: usize = 0;
    while k < best
        invariant
            k <= best,
            fence@ == ticks(k as nat),
        decreases best - k,
    {
        fence.push('`');
        assert(fence@ =~= ticks((k + 1) as nat));
        k = k + 1;
    }
    fence.push('`');
    assert(fence@ =~= ticks((best + 1) as nat));
    let padded = v.len() > 0 && (v[0] == '`' || v[v.len() - 1] == '`');
    let mut out: Vec<char> = Vec::new();
    push_all(&mut out, &fence);
    if padded {
        out.push(' ');
    }
    push_all(&mut out, &v);
    if padded {
        out.push(' ');
    }
    push_all(&mut out, &fence);
    proof {
        reveal_strlit(" ");
    }
    assert(out@ =~= code_span(value@));
    string_from_chars(out.as_slice())
}

} // verus!

verus! {

// ---------------------------------------------------------------------------
// Searching text

/// Index of the first occurrence of `p` in `s` at or after `i`, or `s.len()`.
pub open spec fn find_sub(s: Seq<char>, p: Seq<char>, i: int) -> int
    decreases s.len() - i,
{
    if i < 0 || i + p.len() > s.len() {
        s.len() as int
    } else if p.len() == 0 || s.subrange(i, i + p.len()) == p {
        i
    } else {
        find_sub(s, p, i + 1)
    }
}

pub proof fn lemma_find_sub_bounds(s: Seq<char>, p: Seq<char>, i: int)
    requires
        0 <= i <= s.len(),
    ensures
        i <= find_sub(s, p, i) <= s.len(),
        find_sub(s, p, i) < s.len() ==> find_sub(s, p, i) + p.len() <= s.len(),
    decreases s.len() - i,
{
    if i + p.len() <= s.len() && p.len() > 0 && s.subrange(i, i + p.len()) != p {
        lemma_find_sub_bounds(s, p, i + 1);
    }
}

pub fn find_sub_exec(s: &Vec<char>, p: &str, from: usize) -> (k: usize)
    requires
        from <= s.len(),
    ensures
        k as int == find_sub(s@, p@, from as int),
{
    let pc = chars_of(p);
    let mut i = from;
    while pc.len() <= s.len() - i
        invariant
            from <= i <= s.len(),
            pc@ == p@,
            find_sub(s@, p@, i as int) == find_sub(s@, p@, from as int),
        decreases s.len() - i,
    {
        let window = slice_chars(s, i, i + pc.len());
        if crate::text::chars_eq(&window, &pc) {
            return i;
        }
        assert(pc.len() > 0) by {
            if pc.len() == 0 {
                assert(window@ =~= pc@);
            }
        }
        i = i + 1;
    }
    s.len()
}

// ---------------------------------------------------------------------------
// Page names

/// Index of the first `/`, `?` or `#` in `s`, or `s.len()`.
pub open spec fn first_sep(s: Seq<char>) -> nat
    decreases s.len(),
{
    if s.len() == 0 || s[0] == '/' || s[0] == '?' || s[0] == '#' {
        0
    } else {
        1 + first_sep(s.drop_first())
    }
}

fn first_sep_exec(s: &Vec<char>) -> (k: usize)
    ensures
        k == first_sep(s@),
        k <= s.len(),
{
    let mut k: usize = 0;
    assert(s@.skip(0) =~= s@);
    while k < s.len() && s[k] != '/' && s[k] != '?' && s[k] != '#'
        invariant
            k <= s.len(),
            first_sep(s@) == k + first_sep(s@.skip(k as int)),
        decreases s.len() - k,
    {
        assert(s@.skip(k as int).drop_first() =~= s@.skip(k + 1));
        k = k + 1;
    }
    k
}

/// The group an HTTP path is filed under: `/` and its first segment, after
/// any `scheme://host` and before any query or fragment; `/` for the root.
pub open spec fn path_group_of(path: Seq<char>) -> Seq<char> {
    let p = trim(path);
    let k = find_sub(p, "://"@, 0);
    let q = if k < p.len() {
        let rest = p.skip(k + 3);
        let j = crate::parser::find_char(rest, '/');
        if j < rest.len() {
            rest.skip(j as int + 1)
        } else {
            Seq::empty()
        }
    } else {
        p
    };
    let r = q.skip(lead_char(q, '/') as int);
    let first = r.take(first_sep(r) as int);
    if first.len() == 0 {
        "/"@
    } else {
        "/"@ + first
    }
}

pub fn path_group(path: &str) -> (g: String)
    ensures
        g@ == path_group_of(path@),
{
    proof {
        reveal_strlit("://");
    }
    let p = trim_chars(&chars_of(path));
    let k = find_sub_exec(&p, "://", 0);
    proof {
        lemma_find_sub_bounds(p@, "://"@, 0);
    }
    let q = if k < p.len() {
        let rest = slice_chars(&p, k + 3, p.len());
        assert(rest@ =~= p@.skip(k + 3));
        let j = crate::parser::find_char_exec(&rest, '/');
        if j < rest.len() {
            let t = slice_chars(&rest, j + 1, rest.len());
            assert(t@ =~= rest@.skip(j + 1));
            t
        } else {
            Vec::new()
        }
    } else {
        p
    };
    let lead = lead_char_count(&q, '/');
    let r = slice_chars(&q, lead, q.len());
    assert(r@ =~= q@.skip(lead as int));
    let n = first_sep_exec(&r);
    let first = slice_chars(&r, 0, n);
    let mut out = chars_of("/");
    push_all(&mut out, &first);
    proof {
        reveal_strlit("/");
    }
    string_from_chars(out.as_slice())
}

pub open spec fn is_ascii_alnum(c: char) -> bool {
    ('0' <= c && c <= '9') || ('a' <= c && c <= 'z') || ('A' <= c && c <= 'Z')
}

/// A character a page's file name keeps; anything else becomes `-`.
pub open spec fn page_char(c: char) -> char {
    if is_ascii_alnum(c) || c == '.' || c == '_' || c == '-' {
        c
    } else {
        '-'
    }
}

/// Number of trailing `c` characters of `s`.
pub open spec fn trail_char(s: Seq<char>, c: char) -> nat
    decreases s.len(),
{
    if s.len() > 0 && s.last() == c {
        1 + trail_char(s.drop_last(), c)
    } else {
        0
    }
}

/// The file a group's page is written to: the group without leading `/`,
/// characters outside `[A-Za-z0-9._-]` as `-`, outer `-` trimmed, `.md`
/// appended; `root.md` when nothing is left.
pub open spec fn page_file_of(group: Seq<char>) -> Seq<char> {
    let g = group.skip(lead_char(group, '/') as int);
    let m = g.map_values(|c: char| page_char(c));
    let t = m.skip(lead_char(m, '-') as int);
    let name = t.take(t.len() - trail_char(t, '-'));
    if name.len() == 0 {
        "root.md"@
    } else {
        name + ".md"@
    }
}

proof fn lemma_trail_char_bound(s: Seq<char>, c: char)
    ensures
        trail_char(s, c) <= s.len(),
    decreases s.len(),
{
    if s.len() > 0 && s.last() == c {
        lemma_trail_char_bound(s.drop_last(), c);
    }
}

pub fn page_file(group: &str) -> (f: String)
    ensures
        f@ == page_file_of(group@),
{
    let gs = chars_of(group);
    let lead = lead_char_count(&gs, '/');
    let g = slice_chars(&gs, lead, gs.len());
    assert(g@ =~= gs@.skip(lead as int));
    let mut m: Vec<char> = Vec::new();
    let mut i: usize = 0;
    while i < g.len()
        invariant
            i <= g.len(),
            m@ == g@.take(i as int).map_values(|c: char| page_char(c)),
        decreases g.len() - i,
    {
        let c = g[i];
        let keep = ('0' <= c && c <= '9') || ('a' <= c && c <= 'z') || ('A' <= c && c <= 'Z')
            || c == '.' || c == '_' || c == '-';
        m.push(
            if keep {
                c
            } else {
                '-'
            },
        );
        assert(m@ =~= g@.take(i + 1).map_values(|c: char| page_char(c)));
        i = i + 1;
    }
    assert(g@.take(i as int) =~= g@);
    let a = lead_char_count(&m, '-');
    let t = slice_chars(&m, a, m.len());
    assert(t@ =~= m@.skip(a as int));
    let mut e = t.len();
    assert(t@.take(e as int) =~= t@);
    while e > 0 && t[e - 1] == '-'
        invariant
            e <= t.len(),
            trail_char(t@, '-') == (t.len() - e) + trail_char(t@.take(e as int), '-'),
        decreases e,
    {
        assert(t@.take(e as int).drop_last() =~= t@.take(e - 1));
        e = e - 1;
    }
    let name = slice_chars(&t, 0, e);
    proof {
        reveal_strlit("root.md");
        reveal_strlit(".md");
    }
    if name.len() == 0 {
        string_from_chars(chars_of("root.md").as_slice())
    } else {
        let mut out = name;
        push_str(&mut out, ".md");
        string_from_chars(out.as_slice())
    }
}

} // verus!

verus! {

// ---------------------------------------------------------------------------
// Placeholders a page still names

/// The trimmed names inside `{{ .. }}` pairs of `l` from position `pos` on; an
/// opening `{{` without a closing `}}` ends the line.
pub open spec fn names_from(l: Seq<char>, pos: int) -> Seq<Seq<char>>
    decreases l.len() - pos,
{
    if pos < 0 || pos > l.len() {
        Seq::empty()
    } else {
        let open = find_sub(l, "{{"@, pos);
        if open + 2 > l.len() {
            Seq::empty()
        } else {
            let close = find_sub(l, "}}"@, open + 2);
            if close + 2 > l.len() {
                Seq::empty()
            } else {
                proof {
                    lemma_find_sub_bounds(l, "{{"@, pos);
                    lemma_find_sub_bounds(l, "}}"@, open + 2);
                }
                seq![trim(l.subrange(open + 2, close))] + names_from(l, close + 2)
            }
        }
    }
}

/// `names` added to `out` in order, skipping empty names and names already there.
pub open spec fn add_names(out: Seq<Seq<char>>, names: Seq<Seq<char>>) -> Seq<Seq<char>>
    decreases names.len(),
{
    if names.len() == 0 {
        out
    } else {
        let o = add_names(out, names.drop_last());
        let n = names.last();
        if n.len() > 0 && !o.contains(n) {
            o.push(n)
        } else {
            o
        }
    }
}

/// The placeholder names of `lines`, each once, in the order they first appear.
pub open spec fn unresolved_of(lines: Seq<Seq<char>>) -> Seq<Seq<char>>
    decreases lines.len(),
{
    if lines.len() == 0 {
        Seq::empty()
    } else {
        add_names(unresolved_of(lines.drop_last()), names_from(lines.last(), 0))
    }
}

fn contains_str(v: &Vec<String>, x: &Vec<char>) -> (b: bool)
    ensures
        b == crate::parser::strs(v@).contains(x@),
{
    let mut i: usize = 0;
    while i < v.len()
        invariant
            i <= v.len(),
            forall|j: int| 0 <= j < i ==> v@[j]@ != x@,
        decreases v.len() - i,
    {
        if crate::text::chars_eq(&chars_of(v[i].as_str()), x) {
            assert(crate::parser::strs(v@)[i as int] == x@);
            return true;
        }
        i = i + 1;
    }
    assert(!crate::parser::strs(v@).contains(x@)) by {
        if crate::parser::strs(v@).contains(x@) {
            let j = choose|j: int| 0 <= j < crate::parser::strs(v@).len() && crate::parser::strs(v@)[j] == x@;
            assert(v@[j]@ == x@);
        }
    }
    false
}

pub fn unresolved_names(lines: &[&str]) -> (out: Vec<String>)
    ensures
        crate::parser::strs(out@) == unresolved_of(lines@.map_values(|l: &str| l@)),
{
    proof {
        reveal_strlit("{{");
        reveal_strlit("}}");
    }
    let ghost lv = lines@.map_values(|l: &str| l@);
    let mut out: Vec<String> = Vec::new();
    let mut i: usize = 0;
    while i < lines.len()
        invariant
            i <= lines@.len(),
            lv == lines@.map_values(|l: &str| l@),
            crate::parser::strs(out@) == unresolved_of(lv.take(i as int)),
        decreases lines@.len() - i,
    {
        let l = chars_of(lines[i]);
        let ghost o0 = crate::parser::strs(out@);
        let mut pos: usize = 0;
        let ghost names0 = names_from(l@, 0);
        // names found so far on this line, and those still to come
        let ghost mut seen: Seq<Seq<char>> = Seq::empty();
        loop
            invariant
                pos <= l.len(),
                names0 == names_from(l@, 0),
                names0 == seen + names_from(l@, pos as int),
                crate::parser::strs(out@) == add_names(o0, seen),
            ensures
                names0 =~= seen,
                crate::parser::strs(out@) == add_names(o0, seen),
            decreases l.len() - pos,
        {
            let open = find_sub_exec(&l, "{{", pos);
            proof {
                lemma_find_sub_bounds(l@, "{{"@, pos as int);
            }
            if open >= l.len() || l.len() - open < 2 {
                assert(names_from(l@, pos as int) =~= Seq::<Seq<char>>::empty());
                break;
            }
            let close = find_sub_exec(&l, "}}", open + 2);
            proof {
                lemma_find_sub_bounds(l@, "}}"@, open + 2);
            }
            if close >= l.len() || l.len() - close < 2 {
                assert(names_from(l@, pos as int) =~= Seq::<Seq<char>>::empty());
                break;
            }
            let name = trim_chars(&slice_chars(&l, open + 2, close));
            proof {
                assert(names_from(l@, pos as int) =~= seq![name@] + names_from(l@, close + 2));
                assert(seen.push(name@) + names_from(l@, close + 2) =~= seen + names_from(
                    l@,
                    pos as int,
                ));
                assert(seen.push(name@).drop_last() =~= seen);
            }
            if name.len() > 0 && !contains_str(&out, &name) {
                let ghost before = out@;
                out.push(string_from_chars(name.as_slice()));
                assert(crate::parser::strs(out@) =~= crate::parser::strs(before).push(name@));
            }
            proof {
                seen = seen.push(name@);
            }
            pos = close + 2;
        }
        proof {
            assert(seen =~= names0);
            assert(lv.take(i + 1).drop_last() =~= lv.take(i as int));
            assert(lv[i as int] == l@);
        }
        i = i + 1;
    }
    assert(lv.take(i as int) =~= lv);
    out
}

} // verus!

verus! {

// ---------------------------------------------------------------------------
// One file per page

/// `s` without any trailing `.md` (`str::trim_end_matches(".md")`).
pub open spec fn md_stem(s: Seq<char>) -> Seq<char>
    decreases s.len(),
{
    if s.len() >= 3 && crate::text::ends_with(s, ".md"@) {
        md_stem(s.take(s.len() - 3))
    } else {
        s
    }
}

/// The `k`-th name tried for a page that wants `wanted`: `wanted` itself,
/// then `stem-2.md`, `stem-3.md`, ...
pub open spec fn candidate(wanted: Seq<char>, k: nat) -> Seq<char> {
    if k < 2 {
        wanted
    } else {
        md_stem(wanted) + "-"@ + decimal(k) + ".md"@
    }
}

/// The first candidate from the `k`-th on that `taken` does not hold,
/// looking at most `fuel` candidates further.
pub open spec fn free_from(wanted: Seq<char>, taken: Seq<Seq<char>>, k: nat, fuel: nat) -> Seq<
    char,
>
    decreases fuel,
{
    if fuel == 0 || !taken.contains(candidate(wanted, k)) {
        candidate(wanted, k)
    } else {
        free_from(wanted, taken, k + 1, (fuel - 1) as nat)
    }
}

/// The name a page that wants `wanted` gets when `taken` are already used.
pub open spec fn free_name(wanted: Seq<char>, taken: Seq<Seq<char>>) -> Seq<char> {
    free_from(wanted, taken, 1, taken.len() + 1)
}

proof fn lemma_md_stem_prefix(s: Seq<char>)
    ensures
        md_stem(s).len() <= s.len(),
        md_stem(s) == s.take(md_stem(s).len() as int),
        md_stem(s).len() < s.len() ==> s[md_stem(s).len() as int] == '.',
    decreases s.len(),
{
    reveal_strlit(".md");
    if s.len() >= 3 && crate::text::ends_with(s, ".md"@) {
        let t = s.take(s.len() - 3);
        lemma_md_stem_prefix(t);
        assert(t.take(md_stem(t).len() as int) =~= s.take(md_stem(t).len() as int));
        if md_stem(t).len() < t.len() {
            assert(t[md_stem(t).len() as int] == s[md_stem(t).len() as int]);
        } else {
            assert(s.skip(s.len() - 3)[0] == '.');
        }
    }
}

proof fn lemma_decimal_len(n: nat)
    ensures
        decimal(n).len() >= 1,
        n >= 10 ==> decimal(n).len() >= 2,
    decreases n,
{
    if n >= 10 {
        lemma_decimal_len(n / 10);
    }
}

proof fn lemma_digit_char_injective(a: nat, b: nat)
    requires
        a < 10,
        b < 10,
        crate::text::digit_char(a) == crate::text::digit_char(b),
    ensures
        a == b,
{
}

/// Different numbers have different decimal digits.
pub proof fn lemma_decimal_injective(a: nat, b: nat)
    requires
        decimal(a) == decimal(b),
    ensures
        a == b,
    decreases a + b,
{
    lemma_decimal_len(a);
    lemma_decimal_len(b);
    if a < 10 && b < 10 {
        let x = crate::text::digit_char(a);
        let y = crate::text::digit_char(b);
        assert(decimal(a) =~= seq![x]);
        assert(decimal(b) =~= seq![y]);
        assert(seq![x][0] == x && seq![y][0] == y);
        assert(x == y);
        lemma_digit_char_injective(a, b);
    } else if a < 10 {
        assert(decimal(a).len() == 1);
    } else if b < 10 {
        assert(decimal(b).len() == 1);
    } else {
        let da = decimal(a / 10);
        let db = decimal(b / 10);
        let x = crate::text::digit_char(a % 10);
        let y = crate::text::digit_char(b % 10);
        assert(decimal(a) =~= da + seq![x]);
        assert(decimal(b) =~= db + seq![y]);
        assert((da + seq![x]).last() == x && (db + seq![y]).last() == y);
        assert(x == y);
        assert(decimal(a).drop_last() =~= da);
        assert(decimal(b).drop_last() =~= db);
        lemma_decimal_injective(a / 10, b / 10);
        lemma_digit_char_injective(a % 10, b % 10);
    }
}

/// No two candidates are the same name.
proof fn lemma_candidates_differ(wanted: Seq<char>, a: nat, b: nat)
    requires
        1 <= a < b,
    ensures
        candidate(wanted, a) != candidate(wanted, b),
{
    reveal_strlit("-");
    reveal_strlit(".md");
    let st = md_stem(wanted);
    lemma_md_stem_prefix(wanted);
    let cb = candidate(wanted, b);
    lemma_decimal_len(b);
    assert(cb[st.len() as int] == '-');
    if a < 2 {
        if wanted.len() > st.len() {
            assert(wanted[st.len() as int] == '.');
        } else {
            assert(cb.len() > wanted.len());
        }
    } else {
        let ca = candidate(wanted, a);
        if ca == cb {
            lemma_decimal_len(a);
            let m = st.len() + 1;
            assert(ca.len() == cb.len());
            assert(decimal(a) =~= ca.subrange(m as int, ca.len() - 3));
            assert(decimal(b) =~= cb.subrange(m as int, cb.len() - 3));
            lemma_decimal_injective(a, b);
        }
    }
}

/// The first `m` candidates, as a set.
pub open spec fn candidate_set(wanted: Seq<char>, m: nat) -> Set<Seq<char>>
    decreases m,
{
    if m == 0 {
        Set::empty()
    } else {
        candidate_set(wanted, (m - 1) as nat).insert(candidate(wanted, m))
    }
}

proof fn lemma_candidate_set(wanted: Seq<char>, m: nat)
    ensures
        candidate_set(wanted, m).finite(),
        candidate_set(wanted, m).len() == m,
        forall|x: Seq<char>|
            #[trigger] candidate_set(wanted, m).contains(x) ==> exists|k: nat|
                1 <= k <= m && x == candidate(wanted, k),
    decreases m,
{
    if m > 0 {
        lemma_candidate_set(wanted, (m - 1) as nat);
        let s = candidate_set(wanted, (m - 1) as nat);
        if s.contains(candidate(wanted, m)) {
            let k = choose|k: nat| 1 <= k <= m - 1 && candidate(wanted, m) == candidate(wanted, k);
            lemma_candidates_differ(wanted, k, m);
        }
        assert forall|x: Seq<char>| #[trigger] candidate_set(wanted, m).contains(x) implies exists|
            k: nat,
        | 1 <= k <= m && x == candidate(wanted, k) by {
            if x != candidate(wanted, m) {
                assert(s.contains(x));
            }
        }
    }
}

/// When the first `m` candidates are all taken, there are at least `m` taken names.
proof fn lemma_taken_candidates_bound(wanted: Seq<char>, taken: Seq<Seq<char>>, m: nat)
    requires
        forall|k: nat| 1 <= k <= m ==> taken.contains(#[trigger] candidate(wanted, k)),
    ensures
        m <= taken.len(),
{
    lemma_candidate_set(wanted, m);
    taken.lemma_cardinality_of_set();
    assert(candidate_set(wanted, m).subset_of(taken.to_set())) by {
        assert forall|x: Seq<char>| #[trigger] candidate_set(wanted, m).contains(x) implies taken.to_set().contains(x) by {
            let k = choose|k: nat| 1 <= k <= m && x == candidate(wanted, k);
            assert(taken.contains(candidate(wanted, k)));
        }
    }
    vstd::set_lib::lemma_len_subset(candidate_set(wanted, m), taken.to_set());
}

} // verus!

verus! {

/// `out` with `group`'s page set to `name`: replaced where `group` already
/// has one, appended otherwise.
pub open spec fn set_page(out: Seq<(Seq<char>, Seq<char>)>, group: Seq<char>, name: Seq<char>) -> Seq<
    (Seq<char>, Seq<char>),
> {
    if exists|i: int| 0 <= i < out.len() && (#[trigger] out[i]).0 == group {
        let i = choose|i: int| 0 <= i < out.len() && (#[trigger] out[i]).0 == group;
        out.update(i, (group, name))
    } else {
        out.push((group, name))
    }
}

/// The names used so far and each group's page, after naming the pages of
/// `groups` in order, each by `page_file_of` made unique with a number.
pub open spec fn page_files_of(groups: Seq<Seq<char>>) -> (Seq<Seq<char>>, Seq<(Seq<char>, Seq<char>)>)
    decreases groups.len(),
{
    if groups.len() == 0 {
        (Seq::empty(), Seq::empty())
    } else {
        let (taken, out) = page_files_of(groups.drop_last());
        let name = free_name(page_file_of(groups.last()), taken);
        (taken.push(name), set_page(out, groups.last(), name))
    }
}

pub open spec fn files_view(v: Seq<(String, String)>) -> Seq<(Seq<char>, Seq<char>)> {
    v.map_values(|p: (String, String)| (p.0@, p.1@))
}

fn md_stem_exec(s: &Vec<char>) -> (out: Vec<char>)
    ensures
        out@ == md_stem(s@),
{
    let mut e = s.len();
    assert(s@.take(e as int) =~= s@);
    loop
        invariant
            e <= s.len(),
            md_stem(s@.take(e as int)) == md_stem(s@),
        decreases e,
    {
        let cur = slice_chars(s, 0, e);
        assert(cur@ =~= s@.take(e as int));
        if e >= 3 && crate::text::chars_end_with(&cur, ".md") {
            assert(s@.take(e as int).take(e - 3) =~= s@.take(e - 3));
            e = e - 3;
        } else {
            return cur;
        }
    }
}

fn taken_contains(taken: &Vec<Vec<char>>, name: &Vec<char>) -> (b: bool)
    ensures
        b == crate::text::views(taken@).contains(name@),
{
    let mut i: usize = 0;
    while i < taken.len()
        invariant
            i <= taken.len(),
            forall|j: int| 0 <= j < i ==> taken@[j]@ != name@,
        decreases taken.len() - i,
    {
        if crate::text::chars_eq(&taken[i], name) {
            assert(crate::text::views(taken@)[i as int] == name@);
            return true;
        }
        i = i + 1;
    }
    assert(!crate::text::views(taken@).contains(name@)) by {
        if crate::text::views(taken@).contains(name@) {
            let j = choose|j: int|
                0 <= j < crate::text::views(taken@).len() && crate::text::views(taken@)[j] == name@;
            assert(taken@[j]@ == name@);
        }
    }
    false
}

/// The name a page that wants `wanted` gets, `taken` being in use.
fn free_name_exec(wanted: &Vec<char>, taken: &Vec<Vec<char>>) -> (name: Vec<char>)
    requires
        taken@.len() + 2 <= usize::MAX,
    ensures
        name@ == free_name(wanted@, crate::text::views(taken@)),
        !crate::text::views(taken@).contains(name@),
{
    proof {
        reveal_strlit("-");
        reveal_strlit(".md");
    }
    let ghost tv = crate::text::views(taken@);
    let stem = md_stem_exec(wanted);
    let mut name = slice_chars(wanted, 0, wanted.len());
    assert(name@ =~= wanted@);
    let mut n: usize = 2;
    while taken_contains(taken, &name)
        invariant
            2 <= n <= tv.len() + 2,
            tv.len() + 2 <= usize::MAX,
            tv == crate::text::views(taken@),
            stem@ == md_stem(wanted@),
            name@ == candidate(wanted@, (n - 1) as nat),
            forall|k: nat| 1 <= k < n - 1 ==> tv.contains(#[trigger] candidate(wanted@, k)),
            free_name(wanted@, tv) == free_from(
                wanted@,
                tv,
                (n - 1) as nat,
                (tv.len() + 2 - (n - 1)) as nat,
            ),
        decreases tv.len() + 2 - n,
    {
        proof {
            assert(forall|k: nat| 1 <= k <= n - 1 ==> tv.contains(#[trigger] candidate(wanted@, k)));
            lemma_taken_candidates_bound(wanted@, tv, (n - 1) as nat);
        }
        let mut next = slice_chars(&stem, 0, stem.len());
        push_str(&mut next, "-");
        push_all(&mut next, &decimal_chars(n as u64));
        push_str(&mut next, ".md");
        assert(next@ =~= candidate(wanted@, n as nat));
        name = next;
        n = n + 1;
    }
    name
}

/// The page file of each group: `page_file`, numbered `-2`, `-3`, ... when an
/// earlier group already has that name, so that no two pages share a file.
pub fn page_files(groups: &Vec<String>) -> (files: Vec<(String, String)>)
    requires
        groups@.len() < usize::MAX,
    ensures
        files_view(files@) == page_files_of(crate::parser::strs(groups@)).1,
        crate::keyed::keys_distinct(files@),
        forall|i: int, j: int|
            0 <= i < j < files@.len() ==> #[trigger] files@[i].1@ != #[trigger] files@[j].1@,
        forall|g: int|
            0 <= g < groups@.len() ==> crate::keyed::value_in(files@, #[trigger] groups@[g]@) is Some,
{
    let ghost gv = crate::parser::strs(groups@);
    let mut taken: Vec<Vec<char>> = Vec::new();
    let mut out: Vec<(String, String)> = Vec::new();
    let mut i: usize = 0;
    while i < groups.len()
        invariant
            i <= groups@.len(),
            groups@.len() < usize::MAX,
            gv == crate::parser::strs(groups@),
            taken@.len() == i,
            crate::text::views(taken@) == page_files_of(gv.take(i as int)).0,
            files_view(out@) == page_files_of(gv.take(i as int)).1,
            crate::keyed::keys_distinct(out@),
            forall|a: int, b: int| 0 <= a < b < out@.len() ==> #[trigger] out@[a].1@ != #[trigger] out@[b].1@,
            forall|a: int| 0 <= a < out@.len() ==> crate::text::views(taken@).contains(#[trigger] out@[a].1@),
            forall|g: int| 0 <= g < i ==> crate::keyed::value_in(out@, #[trigger] groups@[g]@) is Some,
        decreases groups@.len() - i,
    {
        let g = &groups[i];
        let wanted = chars_of(page_file(g.as_str()).as_str());
        let name = free_name_exec(&wanted, &taken);
        let ghost tv0 = crate::text::views(taken@);
        let ghost o0 = out@;
        proof {
            assert(gv.take(i + 1).drop_last() =~= gv.take(i as int));
            assert(gv.take(i + 1).last() == g@);
        }
        let name_s = string_from_chars(name.as_slice());
        match crate::keyed::find_key(&out, g.as_str()) {
            Some(j) => {
                proof {
                    crate::keyed::lemma_value_at(o0, j as int);
                }
                let key = out[j].0.clone();
                out.set(j, (key, name_s));
                proof {
                    let fv0 = files_view(o0);
                    assert(exists|k: int| 0 <= k < fv0.len() && (#[trigger] fv0[k]).0 == g@) by {
                        assert(fv0[j as int].0 == g@);
                    }
                    let k = choose|k: int| 0 <= k < fv0.len() && (#[trigger] fv0[k]).0 == g@;
                    if k != j {
                        assert(o0[k].0@ == o0[j as int].0@);
                    }
                    assert(files_view(out@) =~= set_page(fv0, g@, name@));
                    assert forall|k: Seq<char>| #![trigger crate::keyed::value_in(out@, k)]
                        crate::keyed::value_in(out@, k) is Some <==> crate::keyed::value_in(o0, k) is Some by {
                        crate::keyed::lemma_value_update(o0, j as int, (key, name_s), k);
                    }
                    crate::keyed::lemma_value_update(o0, j as int, (key, name_s), g@);
                    assert forall|a: int, b: int| 0 <= a < b < out@.len() implies #[trigger] out@[a].1@
                        != #[trigger] out@[b].1@ by {
                        if a == j {
                            assert(tv0.contains(o0[b].1@));
                        } else if b == j {
                            assert(tv0.contains(o0[a].1@));
                        }
                    }
                }
            },
            None => {
                proof {
                    crate::keyed::lemma_value_absent(o0, g@);
                }
                let key = g.clone();
                out.push((key, name_s));
                proof {
                    let fv0 = files_view(o0);
                    assert(!exists|k: int| 0 <= k < fv0.len() && (#[trigger] fv0[k]).0 == g@) by {
                        if exists|k: int| 0 <= k < fv0.len() && (#[trigger] fv0[k]).0 == g@ {
                            let k = choose|k: int| 0 <= k < fv0.len() && (#[trigger] fv0[k]).0 == g@;
                            assert(o0[k].0@ == g@);
                        }
                    }
                    assert(files_view(out@) =~= set_page(fv0, g@, name@));
                    assert(out@.drop_last() =~= o0);
                    assert forall|a: int, b: int| 0 <= a < b < out@.len() implies #[trigger] out@[a].0@
                        != #[trigger] out@[b].0@ by {
                        if b == o0.len() {
                            assert(o0[a].0@ != g@);
                        } else {
                            assert(o0[a].0@ != o0[b].0@);
                        }
                    }
                    assert forall|a: int, b: int| 0 <= a < b < out@.len() implies #[trigger] out@[a].1@
                        != #[trigger] out@[b].1@ by {
                        if b == o0.len() {
                            assert(tv0.contains(o0[a].1@));
                        }
                    }
                    assert forall|k: Seq<char>| crate::keyed::value_in(o0, k) is Some implies #[trigger] crate::keyed::value_in(out@, k) is Some by {
                        if k != g@ {
                            assert(crate::keyed::value_in(out@, k) == crate::keyed::value_in(o0, k));
                        }
                    }
                }
            },
        }
        taken.push(name);
        proof {
            assert(crate::text::views(taken@) =~= tv0.push(name@));
            assert forall|a: int| 0 <= a < out@.len() implies crate::text::views(taken@).contains(
                #[trigger] out@[a].1@,
            ) by {
                if out@[a].1@ == name@ {
                    assert(crate::text::views(taken@)[tv0.len() as int] == name@);
                } else {
                    let fv0 = files_view(o0);
                    if a < o0.len() && o0[a] == out@[a] {
                        assert(tv0.contains(o0[a].1@));
                        let q = choose|q: int| 0 <= q < tv0.len() && tv0[q] == o0[a].1@;
                        assert(crate::text::views(taken@)[q] == tv0[q]);
                    }
                }
            }
        }
        i = i + 1;
    }
    assert(gv.take(i as int) =~= gv);
    out
}

} // verus!

verus! {

/// The names of the groups, in order.
pub open spec fn group_names(groups: Seq<(String, Vec<MethodFlow>)>) -> Seq<Seq<char>> {
    Seq::new(groups.len(), |i: int| groups[i].0@)
}

/// The documentation of a set of test files, grouped by the service (or HTTP
/// path group) they call: an index page, then one page per group under the
/// file name `page_files` gives it. Nothing at all when no group was found
/// and no file failed to read. `overall` is the index's coverage line and
/// `coverage` each group's, where a report was given; `unread` pairs each
/// file that could not be read with the reason.
pub fn render_pages(
    groups: &Vec<(String, Vec<MethodFlow>)>,
    overall: Option<&str>,
    coverage: &Vec<(String, String)>,
    unread: &Vec<(String, String)>,
) -> (pages: Vec<DocPage>)
    requires
        groups@.len() < usize::MAX,
    ensures
        groups@.len() == 0 && unread@.len() == 0 ==> pages@.len() == 0,
        groups@.len() > 0 || unread@.len() > 0 ==> {
            let files = page_files_of(group_names(groups@)).1;
            &&& pages@.len() == groups@.len() + 1
            &&& pages@[0].name@ == "index.md"@
            &&& pages@[0].markdown@ == index_text(
                groups@,
                match overall {
                    Some(c) => Some(c@),
                    None => None,
                },
                unread@,
                files,
            )
            &&& forall|k: int|
                0 <= k < groups@.len() ==> {
                    &&& (#[trigger] pages@[k + 1]).name@ == page_of(files, groups@[k].0@)
                    &&& pages@[k + 1].markdown@ == page_text(
                        groups@[k].0@,
                        groups@[k].1@,
                        first_in(files_view(coverage@), groups@[k].0@),
                        files,
                    )
                }
        },
{
    if groups.len() == 0 && unread.len() == 0 {
        return Vec::new();
    }
    let mut names: Vec<String> = Vec::new();
    let mut i: usize = 0;
    while i < groups.len()
        invariant
            i <= groups.len(),
            crate::parser::strs(names@) == group_names(groups@).take(i as int),
        decreases groups.len() - i,
    {
        let ghost n0 = crate::parser::strs(names@);
        names.push(string_from_chars(chars_of(groups[i].0.as_str()).as_slice()));
        assert(crate::parser::strs(names@) =~= n0.push(groups@[i as int].0@));
        assert(group_names(groups@).take(i + 1) =~= group_names(groups@).take(i as int).push(
            groups@[i as int].0@,
        ));
        i = i + 1;
    }
    assert(group_names(groups@).take(i as int) =~= group_names(groups@));
    let files = page_files(&names);
    let ghost fv = files_view(files@);
    let mut pages: Vec<DocPage> = Vec::new();
    let index = render_index(groups, overall, unread, &files);
    pages.push(DocPage { name: string_from_chars(chars_of("index.md").as_slice()), markdown: index });
    let mut k: usize = 0;
    while k < groups.len()
        invariant
            k <= groups.len(),
            fv == files_view(files@),
            fv == page_files_of(group_names(groups@)).1,
            pages@.len() == k + 1,
            pages@[0].name@ == "index.md"@,
            pages@[0].markdown@ == index_text(
                groups@,
                match overall {
                    Some(c) => Some(c@),
                    None => None,
                },
                unread@,
                fv,
            ),
            forall|j: int|
                0 <= j < k ==> {
                    &&& (#[trigger] pages@[j + 1]).name@ == page_of(fv, groups@[j].0@)
                    &&& pages@[j + 1].markdown@ == page_text(
                        groups@[j].0@,
                        groups@[j].1@,
                        first_in(files_view(coverage@), groups@[j].0@),
                        fv,
                    )
                },
        decreases groups.len() - k,
    {
        let g = &groups[k];
        let name = crate::commands::docs_render::page_name(&files, g.0.as_str());
        let cov = crate::commands::docs_render::line_for(coverage, g.0.as_str());
        let markdown = match &cov {
            Some(c) => render_service_page(g.0.as_str(), &g.1, Some(c.as_str()), &files),
            None => render_service_page(g.0.as_str(), &g.1, None, &files),
        };
        pages.push(DocPage { name, markdown });
        k = k + 1;
    }
    pages
}

} // verus!
