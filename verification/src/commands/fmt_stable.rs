//! Formatting twice is formatting once, section by section: a key-value
//! section (OPTIONS, REQUEST_HEADERS, TLS, PROTO) comes back as it went in,
//! and so do a BENCH section and a rewritten EXTRACT line.
use crate::commands::fmt::{
    ascii_lowercase, bench_collect, bench_key_rank, bench_section_lines, canonical_key_spelling,
    extract_line, extract_token, hash_comment, hash_or_line, is_continuation, kv_collect, kv_render,
    kv_section_lines, kv_split, lemma_hash_rewrite_idempotent, lowercase, normalized_lines,
};
use crate::parser::{find_char, lemma_find_char_bound, lemma_find_char_is};
use crate::sort::{flatten, insert_item, item_le, items_sorted, lemma_sort_items_is_an_ordered_reordering, sort_items, ItemView};
use crate::text::{
    find_nl, is_ws, join, keep_end, lead_ws, lemma_find_nl_is, lemma_keep_end, lemma_keep_end_is,
    lemma_lead_ws, lemma_lead_ws_is, lines, starts_with, strip_cr, trim, trim_end, trim_start,
};
use vstd::prelude::*;

verus! {

/// No whitespace at either end.
pub open spec fn trimmed(s: Seq<char>) -> bool {
    s.len() == 0 || (!is_ws(s[0]) && !is_ws(s.last()))
}

proof fn lemma_trim_of_trimmed(s: Seq<char>)
    requires
        trimmed(s),
    ensures
        trim(s) == s,
{
    lemma_lead_ws_is(s, 0);
    assert(trim_start(s) =~= s);
    lemma_keep_end_is(s, s.len() as int);
    assert(trim_end(s) =~= s);
}

/// `trim(s)` is the part of `s` from its first to past its last non-blank
/// character.
proof fn lemma_trim_bounds(s: Seq<char>)
    ensures
        trimmed(trim(s)),
        trim(s) == s.subrange(
            lead_ws(s) as int,
            (lead_ws(s) + keep_end(trim_start(s))) as int,
        ),
        lead_ws(s) + keep_end(trim_start(s)) <= s.len(),
        trim(s).len() > 0 ==> trim(s)[0] == s[lead_ws(s) as int],
{
    lemma_lead_ws(s);
    let t = trim_start(s);
    lemma_keep_end(t);
    assert(trim(s) =~= s.subrange(lead_ws(s) as int, (lead_ws(s) + keep_end(t)) as int));
    if trim(s).len() > 0 {
        assert(trim(s)[0] == t[0]);
        assert(trim(s).last() == t[keep_end(t) - 1]);
    }
}

/// No `'\n'` in `s`.
pub open spec fn one_line(s: Seq<char>) -> bool {
    forall|i: int| 0 <= i < s.len() ==> #[trigger] s[i] != '\n'
}

/// Lines that split back apart as they were joined: one line each, none
/// empty and none ending in `'\r'`.
pub open spec fn rejoinable(ls: Seq<Seq<char>>) -> bool {
    forall|i: int|
        0 <= i < ls.len() ==> one_line(#[trigger] ls[i]) && ls[i].len() > 0 && ls[i].last() != '\r'
}

proof fn lemma_join_cons(x: Seq<char>, rest: Seq<Seq<char>>, sep: Seq<char>)
    requires
        rest.len() > 0,
    ensures
        join(seq![x] + rest, sep) == x + sep + join(rest, sep),
    decreases rest.len(),
{
    let all = seq![x] + rest;
    if rest.len() == 1 {
        assert(all.drop_last() =~= seq![x]);
        assert(all.last() == rest[0]);
        assert(join(seq![x], sep) == x);
        assert(join(all, sep) == join(all.drop_last(), sep) + sep + all.last());
    } else {
        assert(all.drop_last() =~= seq![x] + rest.drop_last());
        lemma_join_cons(x, rest.drop_last(), sep);
        assert(all.last() == rest.last());
        assert(join(all, sep) == join(all.drop_last(), sep) + sep + all.last());
        assert(join(rest, sep) == join(rest.drop_last(), sep) + sep + rest.last());
        assert(x + sep + join(rest.drop_last(), sep) + sep + rest.last() =~= x + sep + (join(
            rest.drop_last(),
            sep,
        ) + sep + rest.last()));
    }
}

proof fn lemma_one_line_find_nl(s: Seq<char>)
    requires
        one_line(s),
    ensures
        find_nl(s) == s.len(),
{
    lemma_find_nl_is(s, s.len() as int);
}

/// Joining lines with `'\n'` and splitting the text again gives the lines.
pub proof fn lemma_lines_of_join(ls: Seq<Seq<char>>)
    requires
        rejoinable(ls),
    ensures
        lines(join(ls, "\n"@)) == ls,
    decreases ls.len(),
{
    reveal_strlit("\n");
    if ls.len() == 0 {
    } else if ls.len() == 1 {
        lemma_one_line_find_nl(ls[0]);
        assert(seq![ls[0]] =~= ls);
    } else {
        let x = ls[0];
        let rest = ls.drop_first();
        assert(ls =~= seq![x] + rest);
        lemma_join_cons(x, rest, "\n"@);
        let s = x + "\n"@ + join(rest, "\n"@);
        assert(rejoinable(rest)) by {
            assert forall|i: int| 0 <= i < rest.len() implies one_line(#[trigger] rest[i])
                && rest[i].len() > 0 && rest[i].last() != '\r' by {
                assert(rest[i] == ls[i + 1]);
            }
        }
        lemma_lines_of_join(rest);
        assert forall|i: int| 0 <= i < x.len() implies #[trigger] s[i] != '\n' by {
            assert(s[i] == x[i]);
        }
        assert(s[x.len() as int] == '\n');
        lemma_find_nl_is(s, x.len() as int);
        assert(s.take(x.len() as int) =~= x);
        assert(s.skip(x.len() as int + 1) =~= join(rest, "\n"@));
        assert(strip_cr(x) == x);
        assert(lines(s) =~= seq![x] + rest);
    }
}

/// A line the collector keeps as written and files with the next key (a
/// comment, or a line that is not `key: value`): trimmed, not blank, not a
/// `#` comment.
pub open spec fn inert(l: Seq<char>) -> bool {
    &&& trimmed(l)
    &&& l.len() > 0
    &&& l[0] != '#'
    &&& one_line(l)
    &&& kv_split(l) is None
}

/// A key line as the collector writes it, which reads back (once trimmed)
/// as the key and value that render it, under sort key `sk`.
pub open spec fn key_line(l: Seq<char>, sk: Seq<char>, options: bool) -> bool {
    &&& l.len() > 0
    &&& !is_ws(l[0])
    &&& l[0] != '#'
    &&& one_line(l)
    &&& l.last() != '\r'
    &&& match kv_split(trim(l)) {
        Some((k, v)) => kv_render(options, k, v) == (sk, l),
        None => false,
    }
}

/// A block as the collector makes it: its comment lines, then its key line.
pub open spec fn well_block(b: ItemView, options: bool) -> bool {
    &&& b.0 == 0
    &&& b.2.len() > 0
    &&& forall|i: int| 0 <= i < b.2.len() - 1 ==> inert(#[trigger] b.2[i])
    &&& key_line(b.2.last(), b.1, options)
}

proof fn lemma_hash_stable(l: Seq<char>)
    requires
        l.len() > 0,
        !is_ws(l[0]),
        l[0] != '#',
    ensures
        hash_or_line(l) == l,
{
    lemma_lead_ws_is(l, 0);
    assert(trim_start(l) =~= l);
    assert(hash_comment(l) is None);
}

proof fn lemma_collect_pending(
    ls: Seq<Seq<char>>,
    i: int,
    j: int,
    acc: Seq<ItemView>,
    pend: Seq<Seq<char>>,
    options: bool,
)
    requires
        0 <= i <= j <= ls.len(),
        forall|k: int| i <= k < j ==> inert(#[trigger] ls[k]),
    ensures
        kv_collect(ls, i, acc, pend, options) == kv_collect(
            ls,
            j,
            acc,
            pend + ls.subrange(i, j),
            options,
        ),
    decreases j - i,
{
    if i < j {
        let l = ls[i];
        assert(inert(ls[i]));
        lemma_trim_of_trimmed(l);
        lemma_collect_pending(ls, i + 1, j, acc, pend.push(l), options);
        assert(pend.push(l) + ls.subrange(i + 1, j) =~= pend + ls.subrange(i, j));
    } else {
        assert(pend + ls.subrange(i, j) =~= pend);
    }
}

proof fn lemma_collect_key(
    ls: Seq<Seq<char>>,
    j: int,
    acc: Seq<ItemView>,
    pend: Seq<Seq<char>>,
    sk: Seq<char>,
    options: bool,
)
    requires
        0 <= j < ls.len(),
        key_line(ls[j], sk, options),
    ensures
        kv_collect(ls, j, acc, pend, options) == kv_collect(
            ls,
            j + 1,
            acc.push((0nat, sk, pend.push(ls[j]))),
            Seq::empty(),
            options,
        ),
{
    let t = trim(ls[j]);
    if t.len() == 0 {
        assert(kv_split(t) is None);
    }
}

proof fn lemma_flatten_cons(b: ItemView, rest: Seq<ItemView>)
    ensures
        flatten(seq![b] + rest) == b.2 + flatten(rest),
    decreases rest.len(),
{
    let all = seq![b] + rest;
    if rest.len() == 0 {
        assert(all.drop_last() =~= Seq::<ItemView>::empty());
        assert(b.2 + flatten(rest) =~= b.2);
        assert(flatten(all) =~= flatten(all.drop_last()) + b.2);
        assert(flatten(all.drop_last()) =~= Seq::<Seq<char>>::empty());
    } else {
        assert(all.drop_last() =~= seq![b] + rest.drop_last());
        lemma_flatten_cons(b, rest.drop_last());
        assert(all.last() == rest.last());
        assert(b.2 + flatten(rest.drop_last()) + rest.last().2 =~= b.2 + (flatten(rest.drop_last())
            + rest.last().2));
    }
}

/// Collecting lines laid out as well-made blocks and inert trailing lines
/// gives back those blocks and that tail.
proof fn lemma_collect_blocks(
    ls: Seq<Seq<char>>,
    i: int,
    acc: Seq<ItemView>,
    blocks: Seq<ItemView>,
    tail: Seq<Seq<char>>,
    options: bool,
)
    requires
        0 <= i <= ls.len(),
        ls.skip(i) == flatten(blocks) + tail,
        forall|b: int| 0 <= b < blocks.len() ==> well_block(#[trigger] blocks[b], options),
        forall|k: int| 0 <= k < tail.len() ==> inert(#[trigger] tail[k]),
    ensures
        kv_collect(ls, i, acc, Seq::empty(), options) == (acc + blocks, tail),
    decreases blocks.len(),
{
    if blocks.len() == 0 {
        assert(flatten(blocks) =~= Seq::<Seq<char>>::empty());
        assert(ls.skip(i) =~= tail);
        assert forall|k: int| i <= k < ls.len() implies inert(#[trigger] ls[k]) by {
            assert(ls[k] == tail[k - i]);
        }
        lemma_collect_pending(ls, i, ls.len() as int, acc, Seq::empty(), options);
        assert(Seq::<Seq<char>>::empty() + ls.subrange(i, ls.len() as int) =~= tail);
        assert(acc + blocks =~= acc);
    } else {
        let b = blocks[0];
        let rest = blocks.drop_first();
        assert(blocks =~= seq![b] + rest);
        lemma_flatten_cons(b, rest);
        assert(well_block(b, options));
        let n = b.2.len() as int;
        assert(ls.skip(i) =~= b.2 + (flatten(rest) + tail));
        assert forall|k: int| i <= k < i + n - 1 implies inert(#[trigger] ls[k]) by {
            assert(ls[k] == ls.skip(i)[k - i]);
            assert(ls.skip(i)[k - i] == b.2[k - i]);
        }
        lemma_collect_pending(ls, i, i + n - 1, acc, Seq::empty(), options);
        assert(ls[i + n - 1] == ls.skip(i)[n - 1]);
        assert(ls.skip(i)[n - 1] == b.2[n - 1]);
        let pend = Seq::<Seq<char>>::empty() + ls.subrange(i, i + n - 1);
        lemma_collect_key(ls, i + n - 1, acc, pend, b.1, options);
        assert(pend.push(ls[i + n - 1]) =~= b.2) by {
            assert forall|k: int| 0 <= k < n - 1 implies pend[k] == b.2[k] by {
                assert(pend[k] == ls[i + k]);
                assert(ls[i + k] == ls.skip(i)[k]);
            }
        }
        assert((0nat, b.1, b.2) == b);
        assert(ls.skip(i + n) =~= flatten(rest) + tail) by {
            assert forall|k: int| 0 <= k < ls.skip(i + n).len() implies ls.skip(i + n)[k] == (
            flatten(rest) + tail)[k] by {
                assert(ls.skip(i + n)[k] == ls.skip(i)[n + k]);
            }
        }
        assert forall|c: int| 0 <= c < rest.len() implies well_block(#[trigger] rest[c], options) by {
            assert(rest[c] == blocks[c + 1]);
        }
        lemma_collect_blocks(ls, i + n, acc.push(b), rest, tail, options);
        assert(acc.push(b) + rest =~= acc + blocks);
    }
}

proof fn lemma_canonical_idempotent(k: Seq<char>)
    ensures
        canonical_key_spelling(canonical_key_spelling(k)) == canonical_key_spelling(k),
{
    assert(canonical_key_spelling(canonical_key_spelling(k)) =~= canonical_key_spelling(k));
}

/// What the key of a `key: value` line is written as: the trimmed key, or in
/// OPTIONS its canonical spelling.
pub open spec fn written_key(k: Seq<char>, options: bool) -> Seq<char> {
    if options {
        canonical_key_spelling(k)
    } else {
        k
    }
}

/// The key of a trimmed line that is not a comment: a prefix of the line,
/// trimmed, with no `:` in it.
proof fn lemma_key_part(t: Seq<char>)
    requires
        trimmed(t),
        t.len() > 0,
        find_char(t, ':') < t.len(),
    ensures
        ({
            let k = trim(t.take(find_char(t, ':') as int));
            &&& trimmed(k)
            &&& k == t.take(k.len() as int)
            &&& k.len() <= find_char(t, ':')
            &&& forall|i: int| 0 <= i < k.len() ==> #[trigger] k[i] != ':'
        }),
{
    let idx = find_char(t, ':') as int;
    lemma_find_char_bound(t, ':');
    let a = t.take(idx);
    lemma_trim_bounds(a);
    if idx > 0 {
        lemma_lead_ws_is(a, 0);
    } else {
        assert(a.len() == 0);
        lemma_lead_ws_is(a, 0);
    }
    let k = trim(a);
    assert(k =~= t.take(k.len() as int));
    assert forall|i: int| 0 <= i < k.len() implies #[trigger] k[i] != ':' by {
        assert(k[i] == t[i]);
    }
}

/// A rendered `key: value` line reads back as the key and value that
/// rendered it.
proof fn lemma_render_is_key_line(t: Seq<char>, options: bool)
    requires
        trimmed(t),
        t.len() > 0,
        t[0] != '#',
        one_line(t),
        kv_split(t) is Some,
    ensures
        ({
            let (k, v) = kv_split(t).unwrap();
            let (sk, text) = kv_render(options, k, v);
            key_line(text, sk, options)
        }),
{
    reveal_strlit(": ");
    reveal_strlit(":");
    reveal_strlit("//");
    let idx = find_char(t, ':') as int;
    lemma_find_char_bound(t, ':');
    let (k, v) = kv_split(t).unwrap();
    lemma_key_part(t);
    let rest = t.skip(idx + 1);
    lemma_trim_bounds(rest);
    let kk = written_key(k, options);
    let (sk, text) = kv_render(options, k, v);
    lemma_canonical_idempotent(k);
    assert(text =~= kk + ": "@ + v);
    // The written key: trimmed, no `:`, no line break, begins as the line does.
    assert(kk.len() == k.len());
    assert forall|i: int| 0 <= i < kk.len() implies #[trigger] kk[i] != ':' && kk[i] != '\n' && (
    kk[i] == t[i] || (t[i] == '-' && kk[i] == '_')) by {
        assert(k[i] == t[i]);
    }
    assert(trimmed(kk)) by {
        if kk.len() > 0 {
            assert(kk[0] == t[0] || kk[0] == '_');
            assert(kk.last() == kk[kk.len() - 1]);
            assert(k.last() == k[k.len() - 1]);
        }
    }
    assert(one_line(v)) by {
        assert forall|i: int| 0 <= i < v.len() implies #[trigger] v[i] != '\n' by {
            assert(v[i] == rest[lead_ws(rest) + i]);
            assert(rest[lead_ws(rest) + i] == t[idx + 1 + lead_ws(rest) + i]);
        }
    }
    // The line as written, and trimmed.
    let tt = trim(text);
    assert(!is_ws(text[0])) by {
        if kk.len() > 0 {
            assert(text[0] == kk[0]);
        } else {
            assert(text[0] == ':');
        }
    }
    assert(text[0] != '#') by {
        if kk.len() > 0 {
            assert(text[0] == kk[0]);
        }
    }
    let kept: Seq<char> = if v.len() > 0 {
        text
    } else {
        kk + ":"@
    };
    assert(tt == kept) by {
        lemma_lead_ws_is(text, 0);
        assert(trim_start(text) =~= text);
        if v.len() > 0 {
            assert(text.last() == v.last());
            lemma_keep_end_is(text, text.len() as int);
        } else {
            assert(text =~= kk + ": "@);
            if kk.len() > 0 {
                assert(text[kk.len() as int] == ':');
            }
            lemma_keep_end_is(text, kk.len() as int + 1);
            assert(text.take(kk.len() as int + 1) =~= kk + ":"@);
        }
    }
    // It splits at the written key's end.
    assert forall|i: int| 0 <= i < kk.len() implies #[trigger] tt[i] != ':' by {
        assert(tt[i] == kk[i]);
    }
    assert(tt[kk.len() as int] == ':');
    lemma_find_char_is(tt, ':', kk.len() as int);
    assert(!starts_with(tt, "//"@)) by {
        if starts_with(tt, "//"@) {
            assert(tt.take(2)[0] == '/' && tt.take(2)[1] == '/');
            assert(tt[0] == '/' && tt[1] == '/');
            assert(kk.len() >= 2);
            assert(t[0] == '/' && t[1] == '/');
            assert(t.take(2) =~= "//"@);
        }
    }
    assert(tt.take(kk.len() as int) =~= kk);
    lemma_trim_of_trimmed(kk);
    let after = tt.skip(kk.len() as int + 1);
    assert(trim(after) == v) by {
        if v.len() > 0 {
            reveal_strlit(" ");
            assert(tt == text);
            assert forall|i: int| 0 <= i < after.len() implies after[i] == (" "@ + v)[i] by {
                assert(after[i] == text[kk.len() + 1 + i]);
            }
            assert(after =~= " "@ + v);
            lemma_lead_ws_is(after, 1);
            assert(trim_start(after) =~= v);
            lemma_keep_end_is(v, v.len() as int);
            assert(trim_end(v) =~= v);
        } else {
            assert(after.len() == 0);
            lemma_lead_ws_is(after, 0);
            lemma_keep_end_is(after, 0);
            assert(trim(after) =~= v);
        }
    }
    assert(kv_split(tt) == Some((kk, v)));
    assert(kv_render(options, kk, v) == (sk, text));
    assert(one_line(text)) by {
        assert forall|i: int| 0 <= i < text.len() implies #[trigger] text[i] != '\n' by {
            if i < kk.len() {
                assert(text[i] == kk[i]);
            } else if i >= kk.len() + 2 {
                assert(text[i] == v[i - kk.len() - 2]);
            }
        }
    }
    assert(text.last() != '\r') by {
        if v.len() > 0 {
            assert(text.last() == v.last());
        } else {
            assert(text.last() == ' ');
        }
    }
}

proof fn lemma_find_nl_bound(t: Seq<char>)
    ensures
        find_nl(t) <= t.len(),
        forall|i: int| 0 <= i < find_nl(t) ==> #[trigger] t[i] != '\n',
    decreases t.len(),
{
    if t.len() > 0 && t[0] != '\n' {
        lemma_find_nl_bound(t.drop_first());
        assert forall|i: int| 0 <= i < find_nl(t) implies #[trigger] t[i] != '\n' by {
            if i > 0 {
                assert(t[i] == t.drop_first()[i - 1]);
            }
        }
    }
}

/// Every line of a text is one line.
proof fn lemma_lines_one_line(s: Seq<char>)
    ensures
        forall|i: int| 0 <= i < lines(s).len() ==> one_line(#[trigger] lines(s)[i]),
    decreases s.len(),
{
    if s.len() > 0 {
        let k = find_nl(s);
        lemma_find_nl_bound(s);
        if k < s.len() {
            lemma_lines_one_line(s.skip(k as int + 1));
            let first = strip_cr(s.take(k as int));
            assert(one_line(first)) by {
                assert forall|i: int| 0 <= i < first.len() implies #[trigger] first[i] != '\n' by {
                    assert(first[i] == s[i]);
                }
            }
            let ls = lines(s);
            assert(ls == seq![first] + lines(s.skip(k as int + 1)));
            assert forall|i: int| 0 <= i < ls.len() implies one_line(#[trigger] ls[i]) by {
                if i > 0 {
                    assert(ls[i] == lines(s.skip(k as int + 1))[i - 1]);
                }
            }
        }
    }
}

proof fn lemma_lead_char_bound(s: Seq<char>, c: char)
    ensures
        crate::commands::fmt::lead_char(s, c) <= s.len(),
    decreases s.len(),
{
    if s.len() > 0 && s[0] == c {
        lemma_lead_char_bound(s.drop_first(), c);
    }
}

proof fn lemma_one_line_skip(s: Seq<char>, n: int)
    requires
        one_line(s),
        0 <= n <= s.len(),
    ensures
        one_line(s.skip(n)),
{
    assert forall|i: int| 0 <= i < s.skip(n).len() implies #[trigger] s.skip(n)[i] != '\n' by {
        assert(s.skip(n)[i] == s[n + i]);
    }
}

/// What a line is once its `#` comment is rewritten: still one line, and its
/// first non-blank character is not `#`.
pub open spec fn no_hash_start(l: Seq<char>) -> bool {
    trim_start(l).len() == 0 || trim_start(l)[0] != '#'
}

proof fn lemma_hash_shape(x: Seq<char>)
    requires
        one_line(x),
    ensures
        one_line(hash_or_line(x)),
        no_hash_start(hash_or_line(x)),
        hash_comment(x) is Some ==> starts_with(trim(hash_or_line(x)), "//"@),
        (x.len() > 0 && x.last() != '\r') ==> (hash_or_line(x).len() > 0 && hash_or_line(x).last()
            != '\r'),
{
    reveal_strlit("//");
    reveal_strlit("// ");
    if let Some(h) = hash_comment(x) {
        lemma_lead_ws(x);
        let indent = x.take(lead_ws(x) as int);
        let trimmed_x = trim_start(x);
        let rest = trim_start(trimmed_x.skip(crate::commands::fmt::lead_char(trimmed_x, '#') as int));
        let tail: Seq<char> = if rest.len() == 0 {
            "//"@
        } else {
            "// "@ + rest
        };
        assert(h =~= indent + tail);
        let lc = crate::commands::fmt::lead_char(trimmed_x, '#');
        lemma_lead_char_bound(trimmed_x, '#');
        lemma_one_line_skip(x, lead_ws(x) as int);
        let inner = trimmed_x.skip(lc as int);
        lemma_one_line_skip(trimmed_x, lc as int);
        lemma_lead_ws(inner);
        lemma_one_line_skip(inner, lead_ws(inner) as int);
        reveal_strlit("//");
        reveal_strlit("// ");
        assert(one_line(h)) by {
            assert forall|i: int| 0 <= i < h.len() implies #[trigger] h[i] != '\n' by {
                if i < indent.len() {
                    assert(h[i] == x[i]);
                } else if i >= indent.len() + 3 {
                    assert(h[i] == rest[i - indent.len() - 3]);
                } else {
                    assert(h[i] == tail[i - indent.len()]);
                }
            }
        }
        assert forall|i: int| 0 <= i < indent.len() implies is_ws(#[trigger] h[i]) by {
            assert(h[i] == x[i]);
        }
        assert(h[indent.len() as int] == '/');
        lemma_lead_ws_is(h, indent.len() as int);
        assert(trim_start(h)[0] == h[indent.len() as int]);
        let ts = trim_start(h);
        assert(ts =~= tail);
        assert(ts[0] == '/' && ts[1] == '/');
        lemma_keep_end(ts);
        assert(keep_end(ts) >= 2) by {
            if keep_end(ts) < 2 {
                assert(is_ws(ts[1]));
            }
        }
        assert(trim(h).take(2) =~= "//"@);
        if rest.len() > 0 {
            assert(h.last() == rest.last());
            assert(rest.last() == inner.last());
            assert(inner.last() == trimmed_x.last());
            assert(trimmed_x.last() == x.last());
        } else {
            assert(h.last() == '/');
        }
    }
}

/// The first pass makes well-made blocks and an inert tail.
proof fn lemma_collect_shapes(
    ls: Seq<Seq<char>>,
    i: int,
    acc: Seq<ItemView>,
    pend: Seq<Seq<char>>,
    options: bool,
)
    requires
        0 <= i,
        forall|j: int| 0 <= j < ls.len() ==> one_line(#[trigger] ls[j]) && no_hash_start(ls[j]),
        forall|b: int| 0 <= b < acc.len() ==> well_block(#[trigger] acc[b], options),
        forall|k: int| 0 <= k < pend.len() ==> inert(#[trigger] pend[k]),
    ensures
        ({
            let (blocks, tail) = kv_collect(ls, i, acc, pend, options);
            &&& forall|b: int| 0 <= b < blocks.len() ==> well_block(#[trigger] blocks[b], options)
            &&& forall|k: int| 0 <= k < tail.len() ==> inert(#[trigger] tail[k])
        }),
    decreases ls.len() - i,
{
    if i < ls.len() {
        let l = ls[i];
        assert(one_line(l) && no_hash_start(l));
        let t = trim(l);
        lemma_trim_bounds(l);
        lemma_lead_ws(l);
        assert(one_line(t)) by {
            assert forall|c: int| 0 <= c < t.len() implies #[trigger] t[c] != '\n' by {
                assert(t[c] == l[lead_ws(l) + c]);
            }
        }
        if t.len() > 0 {
            assert(trim_start(l)[0] == l[lead_ws(l) as int]);
            assert(t[0] != '#');
        }
        if t.len() == 0 {
            assert(kv_collect(ls, i, acc, pend, options) == kv_collect(ls, i + 1, acc, pend, options));
            lemma_collect_shapes(ls, i + 1, acc, pend, options);
        } else {
            match kv_split(t) {
                Some((k, v)) => {
                    let (sk, text) = kv_render(options, k, v);
                    lemma_render_is_key_line(t, options);
                    let nb = (0nat, sk, pend.push(text));
                    assert(well_block(nb, options)) by {
                        assert(nb.2.last() == text);
                        assert forall|c: int| 0 <= c < nb.2.len() - 1 implies inert(#[trigger] nb.2[c]) by {
                            assert(nb.2[c] == pend[c]);
                        }
                    }
                    let acc2 = acc.push(nb);
                    assert forall|b: int| 0 <= b < acc2.len() implies well_block(#[trigger] acc2[b], options) by {
                        if b < acc.len() {
                            assert(acc2[b] == acc[b]);
                        }
                    }
                    assert(kv_collect(ls, i, acc, pend, options) == kv_collect(ls, i + 1, acc2, Seq::empty(), options));
                    lemma_collect_shapes(ls, i + 1, acc2, Seq::empty(), options);
                },
                None => {
                    let pend2 = pend.push(t);
                    assert forall|k: int| 0 <= k < pend2.len() implies inert(#[trigger] pend2[k]) by {
                        if k < pend.len() {
                            assert(pend2[k] == pend[k]);
                        }
                    }
                    assert(kv_collect(ls, i, acc, pend, options) == kv_collect(ls, i + 1, acc, pend2, options));
                    lemma_collect_shapes(ls, i + 1, acc, pend2, options);
                },
            }
        }
    }
}

/// Sorting what is already in order leaves it as it is.
proof fn lemma_sort_of_sorted(s: Seq<ItemView>)
    requires
        items_sorted(s),
    ensures
        sort_items(s) == s,
    decreases s.len(),
{
    if s.len() > 0 {
        let d = s.drop_last();
        assert(items_sorted(d)) by {
            assert forall|i: int, j: int| 0 <= i < j < d.len() implies item_le(d[i], d[j]) by {
                assert(d[i] == s[i] && d[j] == s[j]);
            }
        }
        lemma_sort_of_sorted(d);
        if d.len() > 0 {
            assert(item_le(s[d.len() - 1], s[s.len() - 1]));
            assert(d.last() == s[d.len() - 1]);
        }
        assert(insert_item(d, s.last()) == d.push(s.last()));
        assert(d.push(s.last()) =~= s);
    }
}

/// The lines of well-made blocks rejoin, and none of them starts a `#`
/// comment or with whitespace.
proof fn lemma_flatten_lines(blocks: Seq<ItemView>, options: bool)
    requires
        forall|b: int| 0 <= b < blocks.len() ==> well_block(#[trigger] blocks[b], options),
    ensures
        rejoinable(flatten(blocks)),
        forall|i: int|
            0 <= i < flatten(blocks).len() ==> !is_ws(#[trigger] flatten(blocks)[i][0])
                && flatten(blocks)[i][0] != '#',
    decreases blocks.len(),
{
    if blocks.len() > 0 {
        let d = blocks.drop_last();
        assert forall|b: int| 0 <= b < d.len() implies well_block(#[trigger] d[b], options) by {
            assert(d[b] == blocks[b]);
        }
        lemma_flatten_lines(d, options);
        let last = blocks.last();
        assert(well_block(blocks[blocks.len() - 1], options));
        let f = flatten(blocks);
        assert(f == flatten(d) + last.2);
        assert forall|i: int| 0 <= i < f.len() implies one_line(#[trigger] f[i]) && f[i].len() > 0
            && f[i].last() != '\r' && !is_ws(f[i][0]) && f[i][0] != '#' by {
            if i < flatten(d).len() {
                assert(f[i] == flatten(d)[i]);
            } else {
                let k = i - flatten(d).len();
                assert(f[i] == last.2[k]);
                if k < last.2.len() - 1 {
                    assert(inert(last.2[k]));
                    assert(is_ws('\r'));
                } else {
                    assert(last.2[k] == last.2.last());
                }
            }
        }
    }
}

/// Formatting a key-value section (OPTIONS, REQUEST_HEADERS, TLS, PROTO)
/// twice gives the lines that formatting it once gives.
pub proof fn lemma_key_value_section_formats_once(raw: Seq<char>, options: bool)
    ensures
        kv_section_lines(join(kv_section_lines(raw, options), "\n"@), options) == kv_section_lines(
            raw,
            options,
        ),
{
    broadcast use vstd::seq_lib::group_to_multiset_ensures;

    let ls = normalized_lines(raw);
    lemma_lines_one_line(raw);
    assert forall|j: int| 0 <= j < ls.len() implies one_line(#[trigger] ls[j]) && no_hash_start(
        ls[j],
    ) by {
        assert(ls[j] == hash_or_line(lines(raw)[j]));
        lemma_hash_shape(lines(raw)[j]);
    }
    let (blocks, tail) = kv_collect(ls, 0, Seq::empty(), Seq::empty(), options);
    lemma_collect_shapes(ls, 0, Seq::empty(), Seq::empty(), options);
    let sorted = sort_items(blocks);
    lemma_sort_items_is_an_ordered_reordering(blocks);
    assert forall|b: int| 0 <= b < sorted.len() implies well_block(#[trigger] sorted[b], options) by {
        assert(sorted.to_multiset().contains(sorted[b]));
        assert(blocks.contains(sorted[b]));
        let c = choose|c: int| 0 <= c < blocks.len() && blocks[c] == sorted[b];
        assert(well_block(blocks[c], options));
    }
    let out = flatten(sorted) + tail;
    assert(out == kv_section_lines(raw, options));
    lemma_flatten_lines(sorted, options);
    assert forall|i: int| 0 <= i < out.len() implies one_line(#[trigger] out[i]) && out[i].len() > 0
        && out[i].last() != '\r' && !is_ws(out[i][0]) && out[i][0] != '#' by {
        if i < flatten(sorted).len() {
            assert(out[i] == flatten(sorted)[i]);
        } else {
            assert(out[i] == tail[i - flatten(sorted).len()]);
            assert(inert(tail[i - flatten(sorted).len()]));
            assert(is_ws('\r'));
        }
    }
    lemma_lines_of_join(out);
    let again = normalized_lines(join(out, "\n"@));
    assert(again =~= out) by {
        assert forall|i: int| 0 <= i < out.len() implies again[i] == out[i] by {
            lemma_hash_stable(out[i]);
        }
    }
    assert(out.skip(0) =~= flatten(sorted) + tail);
    lemma_collect_blocks(out, 0, Seq::empty(), sorted, tail, options);
    assert(Seq::<ItemView>::empty() + sorted =~= sorted);
    lemma_sort_of_sorted(sorted);
}

/// A trimmed, non-blank text's prefix up to `c`, trimmed, is a prefix of
/// the text without `c` in it.
proof fn lemma_prefix_part(t: Seq<char>, c: char)
    requires
        trimmed(t),
        t.len() > 0,
    ensures
        ({
            let p = trim(t.take(find_char(t, c) as int));
            &&& trimmed(p)
            &&& p == t.take(p.len() as int)
            &&& p.len() <= find_char(t, c) <= t.len()
            &&& forall|i: int| 0 <= i < p.len() ==> #[trigger] p[i] != c
        }),
{
    let idx = find_char(t, c) as int;
    lemma_find_char_bound(t, c);
    let a = t.take(idx);
    lemma_trim_bounds(a);
    lemma_lead_ws_is(a, 0);
    let p = trim(a);
    assert(p =~= t.take(p.len() as int));
    assert forall|i: int| 0 <= i < p.len() implies #[trigger] p[i] != c by {
        assert(p[i] == t[i]);
    }
}

/// The text of an EXTRACT line as it is rewritten: `name[:Type] = value`.
pub open spec fn extract_text(n: Seq<char>, ty: Option<Seq<char>>, v: Seq<char>) -> Seq<char> {
    n + (match ty {
        Some(x) => ":"@ + x,
        None => Seq::empty(),
    }) + " = "@ + v
}

/// A rewritten extraction reads back as the same name, type and value.
proof fn lemma_extract_text_reads_back(t: Seq<char>)
    requires
        trimmed(t),
        t.len() > 0,
        extract_token(t) is Some,
    ensures
        ({
            let (n, ty, v) = extract_token(t).unwrap();
            let c = extract_text(n, ty, v);
            &&& trimmed(c)
            &&& c.len() > 0
            &&& c[0] == t[0]
            &&& (c.len() >= 2 && c[0] == '/' && c[1] == '/') ==> (t[0] == '/' && t[1] == '/')
            &&& extract_token(c) == Some((n, ty, v))
        }),
{
    reveal_strlit(":");
    reveal_strlit(" = ");
    reveal_strlit(" ");
    let e = find_char(t, '=') as int;
    lemma_find_char_bound(t, '=');
    let lhs = trim(t.take(e));
    let rest = t.skip(e + 1);
    lemma_trim_bounds(rest);
    let v = trim(rest);
    lemma_prefix_part(t, '=');
    assert(lhs.len() > 0 && v.len() > 0);
    let c = find_char(lhs, ':') as int;
    lemma_find_char_bound(lhs, ':');
    lemma_prefix_part(lhs, ':');
    let (n, ty, v0) = extract_token(t).unwrap();
    assert(v0 == v);
    let tyx: Seq<char> = match ty {
        Some(x) => ":"@ + x,
        None => Seq::empty(),
    };
    let out = extract_text(n, ty, v);
    assert(out =~= n + tyx + " = "@ + v);
    // The name and type parts carry no `=`, the name no `:`.
    assert(n == lhs.take(n.len() as int));
    assert forall|i: int| 0 <= i < n.len() implies #[trigger] n[i] != '=' && n[i] != ':' && n[i]
        == t[i] by {
        assert(n[i] == lhs[i]);
        assert(lhs[i] == t[i]);
    }
    if let Some(x) = ty {
        let after = lhs.skip(c + 1);
        lemma_trim_bounds(after);
        assert forall|i: int| 0 <= i < x.len() implies #[trigger] x[i] != '=' by {
            assert(x[i] == after[lead_ws(after) + i]);
            assert(after[lead_ws(after) + i] == lhs[c + 1 + lead_ws(after) + i]);
            assert(lhs[c + 1 + lead_ws(after) + i] == t[c + 1 + lead_ws(after) + i]);
        }
    }
    let lhs2 = n + tyx;
    assert forall|i: int| 0 <= i < lhs2.len() implies #[trigger] lhs2[i] != '=' by {
        if i >= n.len() + 1 {
            assert(lhs2[i] == ty.unwrap()[i - n.len() - 1]);
        } else if i < n.len() {
            assert(lhs2[i] == n[i]);
        }
    }
    assert(trimmed(lhs2)) by {
        if let Some(x) = ty {
            assert(lhs2.last() == x.last());
        }
        assert(lhs2[0] == n[0]);
    }
    // The line splits at its ` = `.
    assert forall|i: int| 0 <= i < lhs2.len() + 1 implies #[trigger] out[i] != '=' by {
        if i < lhs2.len() {
            assert(out[i] == lhs2[i]);
        }
    }
    assert(out[lhs2.len() as int + 1] == '=');
    lemma_find_char_is(out, '=', lhs2.len() as int + 1);
    assert(out.take(lhs2.len() as int + 1) =~= lhs2 + " "@);
    assert(trim(lhs2 + " "@) == lhs2) by {
        let w = lhs2 + " "@;
        lemma_lead_ws_is(w, 0);
        assert(trim_start(w) =~= w);
        lemma_keep_end_is(w, lhs2.len() as int);
        assert(w.take(lhs2.len() as int) =~= lhs2);
    }
    assert(out.skip(lhs2.len() as int + 2) =~= " "@ + v);
    assert(trim(" "@ + v) == v) by {
        let w = " "@ + v;
        lemma_lead_ws_is(w, 1);
        assert(trim_start(w) =~= v);
        lemma_keep_end_is(v, v.len() as int);
        assert(trim_end(v) =~= v);
    }
    // The name part splits at its `:`, if it has a type.
    match ty {
        Some(x) => {
            assert forall|i: int| 0 <= i < n.len() implies #[trigger] lhs2[i] != ':' by {
                assert(lhs2[i] == n[i]);
            }
            assert(lhs2[n.len() as int] == ':');
            lemma_find_char_is(lhs2, ':', n.len() as int);
            assert(lhs2.take(n.len() as int) =~= n);
            assert(lhs2.skip(n.len() as int + 1) =~= x);
            lemma_trim_of_trimmed(n);
            lemma_trim_of_trimmed(x);
        },
        None => {
            assert(lhs2 =~= n);
            lemma_find_char_is(lhs2, ':', lhs2.len() as int);
        },
    }
    assert(extract_token(out) == Some((n, ty, v)));
    assert(out[0] == t[0]) by {
        assert(out[0] == n[0]);
    }
    assert(trimmed(out)) by {
        assert(out.last() == v.last());
    }
    if out.len() >= 2 && out[0] == '/' && out[1] == '/' {
        assert(n.len() >= 2) by {
            if n.len() < 2 {
                assert(out[1] == lhs2[1] || out[1] == ' ');
            }
        }
        assert(out[1] == n[1]);
    }
}

/// Rewriting an EXTRACT line a second time changes nothing, for a line with
/// no trailing whitespace.
pub proof fn lemma_extract_line_formats_once(l: Seq<char>)
    requires
        one_line(l),
        keep_end(l) == l.len(),
    ensures
        extract_line(hash_or_line(extract_line(hash_or_line(l)))) == extract_line(hash_or_line(l)),
{
    reveal_strlit("//");
    let h = hash_or_line(l);
    lemma_hash_shape(l);
    lemma_hash_rewrite_idempotent(l);
    let t = trim(h);
    lemma_trim_bounds(h);
    if starts_with(t, "//"@) || t.len() == 0 {
    } else {
        match extract_token(t) {
            Some((n, ty, v)) => {
                // `h` is `l` itself: a `#` line would have begun with `//`.
                assert(hash_comment(l) is None);
                lemma_lead_ws(l);
                lemma_keep_end(l);
                assert(keep_end(trim_start(l)) == trim_start(l).len()) by {
                    if trim_start(l).len() > 0 {
                        assert(trim_start(l).last() == l.last());
                        assert(!is_ws(l[l.len() - 1]));
                    }
                    lemma_keep_end_is(trim_start(l), trim_start(l).len() as int);
                }
                let ind = l.take(l.len() - t.len());
                assert(ind =~= l.take(lead_ws(l) as int));
                lemma_extract_text_reads_back(t);
                let c = extract_text(n, ty, v);
                let once = ind + c;
                assert(extract_line(h) =~= once);
                assert(forall|i: int| 0 <= i < ind.len() ==> is_ws(#[trigger] ind[i]));
                assert(trim_start(l)[0] == t[0]);
                assert(!is_ws(c[0]) && c[0] != '#');
                lemma_lead_ws_is(once, ind.len() as int);
                assert(trim_start(once) =~= c);
                assert(hash_comment(once) is None);
                lemma_trim_of_trimmed(c);
                lemma_keep_end_is(c, c.len() as int);
                assert(trim(once) == c);
                assert(!starts_with(c, "//"@)) by {
                    if starts_with(c, "//"@) {
                        assert(c.take(2)[0] == c[0] && c.take(2)[1] == c[1]);
                        assert(t.take(2) =~= "//"@);
                    }
                }
                assert(once.take(once.len() - c.len()) =~= ind);
                assert(extract_line(once) =~= ind + extract_text(n, ty, v));
            },
            None => {},
        }
    }
}

/// How a BENCH entry is written: `key:` when its value is empty.
pub open spec fn bench_text(k: Seq<char>, v: Seq<char>) -> Seq<char> {
    if v.len() == 0 {
        k + ":"@
    } else {
        k + ": "@ + v
    }
}

/// A BENCH key line as the collector writes it, reading back as the key
/// that ranks and sorts it.
pub open spec fn bench_key_line(l: Seq<char>, rank: nat, sk: Seq<char>) -> bool {
    &&& l.len() > 0
    &&& !is_ws(l[0])
    &&& l[0] != '#'
    &&& one_line(l)
    &&& l.last() != '\r'
    &&& trim(l) == l
    &&& match kv_split(l) {
        Some((k, v)) => rank == bench_key_rank(k) && sk == lowercase(k) && l == bench_text(k, v),
        None => false,
    }
}

/// A line glued to the BENCH key above it, kept as written.
pub open spec fn glued(l: Seq<char>) -> bool {
    &&& is_continuation(l)
    &&& one_line(l)
    &&& l.last() != '\r'
    &&& hash_or_line(l) == l
}

/// A BENCH entry as the collector makes it: comment lines, the key line at
/// `m`, then the lines glued to it.
pub open spec fn bench_item_at(b: ItemView, m: int) -> bool {
    &&& 0 <= m < b.2.len()
    &&& forall|i: int| 0 <= i < m ==> inert(#[trigger] b.2[i])
    &&& bench_key_line(b.2[m], b.0, b.1)
    &&& forall|i: int| m < i < b.2.len() ==> glued(#[trigger] b.2[i])
}

pub open spec fn well_bench_item(b: ItemView) -> bool {
    exists|m: int| bench_item_at(b, m)
}

/// A trimmed `key: value` line, written as a BENCH entry, reads back as the
/// same key and value.
proof fn lemma_bench_text_reads_back(t: Seq<char>)
    requires
        trimmed(t),
        t.len() > 0,
        t[0] != '#',
        one_line(t),
        kv_split(t) is Some,
    ensures
        ({
            let (k, v) = kv_split(t).unwrap();
            bench_key_line(bench_text(k, v), bench_key_rank(k), lowercase(k))
        }),
{
    reveal_strlit(": ");
    reveal_strlit(":");
    reveal_strlit("//");
    reveal_strlit(" ");
    let idx = find_char(t, ':') as int;
    lemma_find_char_bound(t, ':');
    let (k, v) = kv_split(t).unwrap();
    lemma_key_part(t);
    let rest = t.skip(idx + 1);
    lemma_trim_bounds(rest);
    let text = bench_text(k, v);
    assert forall|i: int| 0 <= i < k.len() implies #[trigger] k[i] != ':' && k[i] != '\n' && k[i]
        == t[i] by {
        assert(k[i] == t[i]);
    }
    assert(one_line(v)) by {
        assert forall|i: int| 0 <= i < v.len() implies #[trigger] v[i] != '\n' by {
            assert(v[i] == rest[lead_ws(rest) + i]);
            assert(rest[lead_ws(rest) + i] == t[idx + 1 + lead_ws(rest) + i]);
        }
    }
    assert(text[0] == (if k.len() > 0 {
        k[0]
    } else {
        ':'
    }));
    assert(trimmed(text)) by {
        if v.len() > 0 {
            assert(text.last() == v.last());
        } else {
            assert(text.last() == ':');
        }
    }
    lemma_trim_of_trimmed(text);
    assert forall|i: int| 0 <= i < k.len() implies #[trigger] text[i] != ':' by {
        assert(text[i] == k[i]);
    }
    assert(text[k.len() as int] == ':');
    lemma_find_char_is(text, ':', k.len() as int);
    assert(!starts_with(text, "//"@)) by {
        if starts_with(text, "//"@) {
            assert(text.take(2)[0] == text[0] && text.take(2)[1] == text[1]);
            assert(k.len() >= 2);
            assert(t.take(2) =~= "//"@);
        }
    }
    assert(text.take(k.len() as int) =~= k);
    lemma_trim_of_trimmed(k);
    let after = text.skip(k.len() as int + 1);
    assert(trim(after) == v) by {
        if v.len() > 0 {
            assert(after =~= " "@ + v);
            lemma_lead_ws_is(after, 1);
            assert(trim_start(after) =~= v);
            lemma_keep_end_is(v, v.len() as int);
            assert(trim_end(v) =~= v);
        } else {
            assert(after.len() == 0);
            lemma_lead_ws_is(after, 0);
            lemma_keep_end_is(after, 0);
            assert(trim(after) =~= v);
        }
    }
    assert(kv_split(text) == Some((k, v)));
    assert(one_line(text)) by {
        assert forall|i: int| 0 <= i < text.len() implies #[trigger] text[i] != '\n' by {
            if i < k.len() {
                assert(text[i] == k[i]);
            } else if i >= k.len() + 2 {
                assert(text[i] == v[i - k.len() - 2]);
            }
        }
    }
}

/// The lines the first pass reads: one line each, hash comments rewritten,
/// none ending in `'\r'`.
pub open spec fn read_line(l: Seq<char>) -> bool {
    &&& one_line(l)
    &&& no_hash_start(l)
    &&& hash_or_line(l) == l
    &&& (l.len() > 0 ==> l.last() != '\r')
}

/// The first pass makes well-made BENCH entries and an inert tail.
proof fn lemma_bench_collect_shapes(
    ls: Seq<Seq<char>>,
    i: int,
    items: Seq<ItemView>,
    pend: Seq<Seq<char>>,
)
    requires
        0 <= i,
        forall|j: int| 0 <= j < ls.len() ==> read_line(#[trigger] ls[j]),
        forall|b: int| 0 <= b < items.len() ==> well_bench_item(#[trigger] items[b]),
        forall|k: int| 0 <= k < pend.len() ==> inert(#[trigger] pend[k]),
    ensures
        ({
            let (out, tail) = bench_collect(ls, i, items, pend);
            &&& forall|b: int| 0 <= b < out.len() ==> well_bench_item(#[trigger] out[b])
            &&& forall|k: int| 0 <= k < tail.len() ==> inert(#[trigger] tail[k])
        }),
    decreases ls.len() - i,
{
    if i < ls.len() {
        let line = ls[i];
        assert(read_line(line));
        if is_continuation(line) && items.len() > 0 {
            let last = items.last();
            let nl = (last.0, last.1, last.2.push(line));
            assert(well_bench_item(items[items.len() - 1]));
            let m = choose|m: int| bench_item_at(last, m);
            assert(bench_item_at(nl, m)) by {
                assert forall|c: int| 0 <= c < m implies inert(#[trigger] nl.2[c]) by {
                    assert(nl.2[c] == last.2[c]);
                }
                assert(nl.2[m] == last.2[m]);
                assert forall|c: int| m < c < nl.2.len() implies glued(#[trigger] nl.2[c]) by {
                    if c < last.2.len() {
                        assert(nl.2[c] == last.2[c]);
                    }
                }
            }
            let items2 = items.update(items.len() - 1, nl);
            assert forall|b: int| 0 <= b < items2.len() implies well_bench_item(#[trigger] items2[b]) by {
                if b < items.len() - 1 {
                    assert(items2[b] == items[b]);
                }
            }
            assert(bench_collect(ls, i, items, pend) == bench_collect(ls, i + 1, items2, pend));
            lemma_bench_collect_shapes(ls, i + 1, items2, pend);
        } else {
            let t = trim(line);
            lemma_trim_bounds(line);
            lemma_lead_ws(line);
            assert(one_line(t)) by {
                assert forall|c: int| 0 <= c < t.len() implies #[trigger] t[c] != '\n' by {
                    assert(t[c] == line[lead_ws(line) + c]);
                }
            }
            if t.len() > 0 {
                assert(trim_start(line)[0] == line[lead_ws(line) as int]);
            }
            if t.len() == 0 {
                assert(bench_collect(ls, i, items, pend) == bench_collect(ls, i + 1, items, pend));
                lemma_bench_collect_shapes(ls, i + 1, items, pend);
            } else {
                match kv_split(t) {
                    Some((k, v)) => {
                        let text = if v.len() == 0 {
                            k + ":"@
                        } else {
                            k + ": "@ + v
                        };
                        assert(text == bench_text(k, v));
                        lemma_bench_text_reads_back(t);
                        let nb = (bench_key_rank(k), lowercase(k), pend.push(text));
                        assert(bench_item_at(nb, pend.len() as int)) by {
                            assert forall|c: int| 0 <= c < pend.len() implies inert(#[trigger] nb.2[c]) by {
                                assert(nb.2[c] == pend[c]);
                            }
                        }
                        let items2 = items.push(nb);
                        assert forall|b: int| 0 <= b < items2.len() implies well_bench_item(
                            #[trigger] items2[b],
                        ) by {
                            if b < items.len() {
                                assert(items2[b] == items[b]);
                            }
                        }
                        assert(bench_collect(ls, i, items, pend) == bench_collect(ls, i + 1, items2, Seq::empty()));
                        lemma_bench_collect_shapes(ls, i + 1, items2, Seq::empty());
                    },
                    None => {
                        let pend2 = pend.push(t);
                        assert forall|k: int| 0 <= k < pend2.len() implies inert(#[trigger] pend2[k]) by {
                            if k < pend.len() {
                                assert(pend2[k] == pend[k]);
                            }
                        }
                        assert(bench_collect(ls, i, items, pend) == bench_collect(ls, i + 1, items, pend2));
                        lemma_bench_collect_shapes(ls, i + 1, items, pend2);
                    },
                }
            }
        }
    }
}

proof fn lemma_bench_pending(
    ls: Seq<Seq<char>>,
    i: int,
    j: int,
    items: Seq<ItemView>,
    pend: Seq<Seq<char>>,
)
    requires
        0 <= i <= j <= ls.len(),
        forall|k: int| i <= k < j ==> inert(#[trigger] ls[k]),
    ensures
        bench_collect(ls, i, items, pend) == bench_collect(ls, j, items, pend + ls.subrange(i, j)),
    decreases j - i,
{
    if i < j {
        let l = ls[i];
        assert(inert(ls[i]));
        lemma_trim_of_trimmed(l);
        assert(!is_continuation(l));
        lemma_bench_pending(ls, i + 1, j, items, pend.push(l));
        assert(pend.push(l) + ls.subrange(i + 1, j) =~= pend + ls.subrange(i, j));
    } else {
        assert(pend + ls.subrange(i, j) =~= pend);
    }
}

/// The entry `items` ends with, with `more` glued to it.
pub open spec fn with_glued(items: Seq<ItemView>, more: Seq<Seq<char>>) -> Seq<ItemView> {
    let last = items.last();
    items.update(items.len() - 1, (last.0, last.1, last.2 + more))
}

proof fn lemma_bench_glued(
    ls: Seq<Seq<char>>,
    i: int,
    j: int,
    items: Seq<ItemView>,
    pend: Seq<Seq<char>>,
)
    requires
        0 <= i <= j <= ls.len(),
        items.len() > 0,
        forall|k: int| i <= k < j ==> glued(#[trigger] ls[k]),
    ensures
        bench_collect(ls, i, items, pend) == bench_collect(
            ls,
            j,
            with_glued(items, ls.subrange(i, j)),
            pend,
        ),
    decreases j - i,
{
    if i < j {
        let l = ls[i];
        assert(glued(ls[i]));
        let last = items.last();
        let items2 = items.update(items.len() - 1, (last.0, last.1, last.2.push(l)));
        lemma_bench_glued(ls, i + 1, j, items2, pend);
        assert(with_glued(items2, ls.subrange(i + 1, j)) =~= with_glued(items, ls.subrange(i, j))) by {
            assert(last.2.push(l) + ls.subrange(i + 1, j) =~= last.2 + ls.subrange(i, j));
        }
    } else {
        lemma_last_unchanged(items, ls.subrange(i, j));
    }
}

proof fn lemma_last_unchanged(items: Seq<ItemView>, more: Seq<Seq<char>>)
    requires
        items.len() > 0,
    ensures
        more.len() == 0 ==> with_glued(items, more) == items,
{
    if more.len() == 0 {
        let last = items.last();
        assert(last.2 + more =~= last.2);
        assert(with_glued(items, more) =~= items);
    }
}

/// Collecting lines laid out as well-made BENCH entries and inert trailing
/// lines gives back those entries and that tail.
proof fn lemma_bench_blocks(
    ls: Seq<Seq<char>>,
    i: int,
    items: Seq<ItemView>,
    blocks: Seq<ItemView>,
    tail: Seq<Seq<char>>,
)
    requires
        0 <= i <= ls.len(),
        ls.skip(i) == flatten(blocks) + tail,
        forall|b: int| 0 <= b < blocks.len() ==> well_bench_item(#[trigger] blocks[b]),
        forall|k: int| 0 <= k < tail.len() ==> inert(#[trigger] tail[k]),
    ensures
        bench_collect(ls, i, items, Seq::empty()) == (items + blocks, tail),
    decreases blocks.len(),
{
    if blocks.len() == 0 {
        assert(flatten(blocks) =~= Seq::<Seq<char>>::empty());
        assert(ls.skip(i) =~= tail);
        assert forall|k: int| i <= k < ls.len() implies inert(#[trigger] ls[k]) by {
            assert(ls[k] == tail[k - i]);
        }
        lemma_bench_pending(ls, i, ls.len() as int, items, Seq::empty());
        assert(Seq::<Seq<char>>::empty() + ls.subrange(i, ls.len() as int) =~= tail);
        assert(items + blocks =~= items);
    } else {
        let b = blocks[0];
        let rest = blocks.drop_first();
        assert(blocks =~= seq![b] + rest);
        lemma_flatten_cons(b, rest);
        assert(well_bench_item(b));
        let m = choose|m: int| bench_item_at(b, m);
        let n = b.2.len() as int;
        assert(ls.skip(i) =~= b.2 + (flatten(rest) + tail));
        assert forall|k: int| 0 <= k < n implies #[trigger] ls[i + k] == b.2[k] by {
            assert(ls[i + k] == ls.skip(i)[k]);
        }
        assert forall|k: int| i <= k < i + m implies inert(#[trigger] ls[k]) by {
            assert(ls[i + (k - i)] == b.2[k - i]);
        }
        lemma_bench_pending(ls, i, i + m, items, Seq::empty());
        let pend = Seq::<Seq<char>>::empty() + ls.subrange(i, i + m);
        let key = ls[i + m];
        assert(key == b.2[m]);
        // The key line opens the entry.
        assert(!is_continuation(key));
        let (k, v) = kv_split(key).unwrap();
        assert(key == bench_text(k, v));
        let items2 = items.push((b.0, b.1, pend.push(key)));
        assert(bench_collect(ls, i + m, items, pend) == bench_collect(ls, i + m + 1, items2, Seq::empty()));
        assert forall|k2: int| i + m + 1 <= k2 < i + n implies glued(#[trigger] ls[k2]) by {
            assert(ls[i + (k2 - i)] == b.2[k2 - i]);
        }
        lemma_bench_glued(ls, i + m + 1, i + n, items2, Seq::empty());
        let items3 = with_glued(items2, ls.subrange(i + m + 1, i + n));
        assert(items3 =~= items.push(b)) by {
            assert(pend.push(key) + ls.subrange(i + m + 1, i + n) =~= b.2) by {
                assert forall|c: int| 0 <= c < n implies (pend.push(key) + ls.subrange(
                    i + m + 1,
                    i + n,
                ))[c] == b.2[c] by {
                    if c < m {
                        assert(pend[c] == ls[i + c]);
                    } else if c > m {
                        assert(ls.subrange(i + m + 1, i + n)[c - m - 1] == ls[i + c]);
                    }
                }
            }
        }
        assert(ls.skip(i + n) =~= flatten(rest) + tail) by {
            assert forall|c: int| 0 <= c < ls.skip(i + n).len() implies ls.skip(i + n)[c] == (
            flatten(rest) + tail)[c] by {
                assert(ls.skip(i + n)[c] == ls.skip(i)[n + c]);
            }
        }
        assert forall|c: int| 0 <= c < rest.len() implies well_bench_item(#[trigger] rest[c]) by {
            assert(rest[c] == blocks[c + 1]);
        }
        lemma_bench_blocks(ls, i + n, items.push(b), rest, tail);
        assert(items.push(b) + rest =~= items + blocks);
    }
}

/// The lines of well-made BENCH entries rejoin, and each reads the same
/// once its hash comment would be rewritten.
proof fn lemma_bench_flatten_lines(blocks: Seq<ItemView>)
    requires
        forall|b: int| 0 <= b < blocks.len() ==> well_bench_item(#[trigger] blocks[b]),
    ensures
        rejoinable(flatten(blocks)),
        forall|i: int|
            0 <= i < flatten(blocks).len() ==> hash_or_line(#[trigger] flatten(blocks)[i])
                == flatten(blocks)[i],
    decreases blocks.len(),
{
    if blocks.len() > 0 {
        let d = blocks.drop_last();
        assert forall|b: int| 0 <= b < d.len() implies well_bench_item(#[trigger] d[b]) by {
            assert(d[b] == blocks[b]);
        }
        lemma_bench_flatten_lines(d);
        let last = blocks.last();
        assert(well_bench_item(blocks[blocks.len() - 1]));
        let m = choose|m: int| bench_item_at(last, m);
        let f = flatten(blocks);
        assert(f == flatten(d) + last.2);
        assert forall|i: int| 0 <= i < f.len() implies one_line(#[trigger] f[i]) && f[i].len() > 0
            && f[i].last() != '\r' && hash_or_line(f[i]) == f[i] by {
            if i < flatten(d).len() {
                assert(f[i] == flatten(d)[i]);
            } else {
                let k = i - flatten(d).len();
                assert(f[i] == last.2[k]);
                if k < m {
                    assert(inert(last.2[k]));
                    assert(is_ws('\r'));
                    lemma_hash_stable(last.2[k]);
                } else if k == m {
                    lemma_hash_stable(last.2[k]);
                } else {
                    assert(glued(last.2[k]));
                }
            }
        }
    }
}

/// A section whose lines end without a stray carriage return.
pub open spec fn no_cr_line_ends(raw: Seq<char>) -> bool {
    forall|i: int|
        0 <= i < lines(raw).len() && (#[trigger] lines(raw)[i]).len() > 0 ==> lines(raw)[i].last()
            != '\r'
}

/// Formatting a BENCH section twice gives the lines that formatting it once
/// gives, when none of its lines ends in a stray carriage return.
pub proof fn lemma_bench_section_formats_once(raw: Seq<char>)
    requires
        no_cr_line_ends(raw),
    ensures
        bench_section_lines(join(bench_section_lines(raw), "\n"@)) == bench_section_lines(raw),
{
    broadcast use vstd::seq_lib::group_to_multiset_ensures;

    let ls = normalized_lines(raw);
    lemma_lines_one_line(raw);
    assert forall|j: int| 0 <= j < ls.len() implies read_line(#[trigger] ls[j]) by {
        let x = lines(raw)[j];
        assert(ls[j] == hash_or_line(x));
        lemma_hash_shape(x);
        lemma_hash_rewrite_idempotent(x);
        if x.len() == 0 {
            assert(hash_comment(x) is None);
        }
    }
    let (items, tail) = bench_collect(ls, 0, Seq::empty(), Seq::empty());
    lemma_bench_collect_shapes(ls, 0, Seq::empty(), Seq::empty());
    let sorted = sort_items(items);
    lemma_sort_items_is_an_ordered_reordering(items);
    assert forall|b: int| 0 <= b < sorted.len() implies well_bench_item(#[trigger] sorted[b]) by {
        assert(sorted.to_multiset().contains(sorted[b]));
        assert(items.contains(sorted[b]));
        let c = choose|c: int| 0 <= c < items.len() && items[c] == sorted[b];
        assert(well_bench_item(items[c]));
    }
    let out = flatten(sorted) + tail;
    assert(out == bench_section_lines(raw));
    lemma_bench_flatten_lines(sorted);
    assert forall|i: int| 0 <= i < out.len() implies one_line(#[trigger] out[i]) && out[i].len() > 0
        && out[i].last() != '\r' && hash_or_line(out[i]) == out[i] by {
        if i < flatten(sorted).len() {
            assert(out[i] == flatten(sorted)[i]);
        } else {
            let t = tail[i - flatten(sorted).len()];
            assert(out[i] == t);
            assert(inert(t));
            assert(is_ws('\r'));
            lemma_hash_stable(t);
        }
    }
    lemma_lines_of_join(out);
    let again = normalized_lines(join(out, "\n"@));
    assert(again =~= out);
    assert(out.skip(0) =~= flatten(sorted) + tail);
    lemma_bench_blocks(out, 0, Seq::empty(), sorted, tail);
    assert(Seq::<ItemView>::empty() + sorted =~= sorted);
    lemma_sort_of_sorted(sorted);
}

} // verus!
