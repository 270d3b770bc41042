//! The `.gctf` formatter: canonical section order and spacing, `#` comments
//! turned into `//`, JSON5 bodies re-indented from their source text, and
//! numeric literals normalised without touching strings or comments.
use crate::parser::{section_view, Section, SectionContent, SectionType, SectionView};
use crate::text::{
    append_lines, chars_of, join, lead_ws, lines, push_all, push_str, slice_chars, string_from_chars, trim_start,
    views,
};
use vstd::prelude::*;

verus! {

broadcast use vstd::string::group_string_axioms;

/// `char::is_alphanumeric` (Unicode `Alphabetic` or `Numeric`), by name.
pub uninterp spec fn alphanumeric(c: char) -> bool;

/// `char::is_alphabetic` (Unicode `Alphabetic`), by name.
pub uninterp spec fn alphabetic(c: char) -> bool;

/// Calls `char::is_alphanumeric`; its result is the named property of `c`,
/// which for an ASCII character is being an ASCII letter or digit.
#[verifier::external_body]
pub(crate) fn is_alphanumeric(c: char) -> (b: bool)
    ensures
        b == alphanumeric(c),
        (c as u32) < 128 ==> (b <==> (is_ascii_letter(c) || is_digit(c))),
{
    c.is_alphanumeric()
}

/// Calls `char::is_alphabetic`; its result is the named property of `c`,
/// which for an ASCII character is being an ASCII letter.
#[verifier::external_body]
pub(crate) fn is_alphabetic(c: char) -> (b: bool)
    ensures
        b == alphabetic(c),
        (c as u32) < 128 ==> (b <==> is_ascii_letter(c)),
{
    c.is_alphabetic()
}

pub open spec fn is_ascii_letter(c: char) -> bool {
    ('a' <= c && c <= 'z') || ('A' <= c && c <= 'Z')
}

pub open spec fn is_digit(c: char) -> bool {
    '0' <= c && c <= '9'
}

// ---------------------------------------------------------------------------
// `#` comments

/// Number of leading `c` characters of `s`.
pub open spec fn lead_char(s: Seq<char>, c: char) -> nat
    decreases s.len(),
{
    if s.len() > 0 && s[0] == c {
        1 + lead_char(s.drop_first(), c)
    } else {
        0
    }
}

/// A line whose first non-blank character is `#` becomes a `//` comment at the
/// same indentation; any other line is not a hash comment.
pub open spec fn hash_comment(line: Seq<char>) -> Option<Seq<char>> {
    let trimmed = trim_start(line);
    if trimmed.len() == 0 || trimmed[0] != '#' {
        None
    } else {
        let indent = line.take(lead_ws(line) as int);
        let rest = trim_start(trimmed.skip(lead_char(trimmed, '#') as int));
        if rest.len() == 0 {
            Some(indent + "//"@)
        } else {
            Some(indent + "// "@ + rest)
        }
    }
}

/// `hash_comment`, or the line unchanged.
pub open spec fn hash_or_line(line: Seq<char>) -> Seq<char> {
    match hash_comment(line) {
        Some(l) => l,
        None => line,
    }
}

proof fn lemma_lead_char_is(s: Seq<char>, c: char, k: int)
    requires
        0 <= k <= s.len(),
        forall|i: int| 0 <= i < k ==> #[trigger] s[i] == c,
        k < s.len() ==> s[k] != c,
    ensures
        lead_char(s, c) == k,
    decreases s.len(),
{
    if k > 0 {
        assert forall|i: int| 0 <= i < k - 1 implies #[trigger] s.drop_first()[i] == c by {
            assert(s.drop_first()[i] == s[i + 1]);
        }
        if k - 1 < s.drop_first().len() {
            assert(s.drop_first()[k - 1] == s[k]);
        }
        lemma_lead_char_is(s.drop_first(), c, k - 1);
    }
}

pub fn lead_char_count(s: &Vec<char>, c: char) -> (k: usize)
    ensures
        k == lead_char(s@, c),
        k <= s.len(),
{
    let mut k: usize = 0;
    while k < s.len() && s[k] == c
        invariant
            k <= s.len(),
            forall|i: int| 0 <= i < k ==> #[trigger] s@[i] == c,
        decreases s.len() - k,
    {
        k = k + 1;
    }
    proof {
        lemma_lead_char_is(s@, c, k as int);
    }
    k
}

/// `normalize_hash_comment_line` on characters.
pub fn hash_comment_chars(line: &Vec<char>) -> (out: Option<Vec<char>>)
    ensures
        match out {
            Some(v) => hash_comment(line@) == Some(v@),
            None => hash_comment(line@) is None,
        },
{
    let indent_len = crate::text::lead_ws_count(line);
    let trimmed = slice_chars(line, indent_len, line.len());
    assert(trimmed@ =~= trim_start(line@));
    if trimmed.len() == 0 || trimmed[0] != '#' {
        return None;
    }
    let hashes = lead_char_count(&trimmed, '#');
    let after = slice_chars(&trimmed, hashes, trimmed.len());
    let rest = crate::text::trim_start_chars(&after);
    assert(after@ =~= trimmed@.skip(hashes as int));
    let mut out = slice_chars(line, 0, indent_len);
    assert(out@ =~= line@.take(indent_len as int));
    if rest.len() == 0 {
        push_str(&mut out, "//");
    } else {
        push_str(&mut out, "// ");
        push_all(&mut out, &rest);
    }
    Some(out)
}

/// `hash_or_line` computed.
pub fn hash_or_line_chars(line: &Vec<char>) -> (out: Vec<char>)
    ensures
        out@ == hash_or_line(line@),
{
    match hash_comment_chars(line) {
        Some(v) => v,
        None => line.clone(),
    }
}

/// A `#` comment line rewritten as a `//` comment; `None` for any other line.
pub fn normalize_hash_comment_line(line: &str) -> (out: Option<String>)
    ensures
        match out {
            Some(s) => hash_comment(line@) == Some(s@),
            None => hash_comment(line@) is None,
        },
{
    let cs = chars_of(line);
    match hash_comment_chars(&cs) {
        Some(v) => Some(string_from_chars(v.as_slice())),
        None => None,
    }
}

// ---------------------------------------------------------------------------
// Digits

/// The ASCII digits of `s`, in order.
pub open spec fn digits_only(s: Seq<char>) -> Seq<char>
    decreases s.len(),
{
    if s.len() == 0 {
        Seq::empty()
    } else {
        digits_only(s.drop_last()) + (if is_digit(s.last()) {
            seq![s.last()]
        } else {
            Seq::empty()
        })
    }
}

/// `s` without its `_` characters.
pub open spec fn no_underscores(s: Seq<char>) -> Seq<char>
    decreases s.len(),
{
    if s.len() == 0 {
        Seq::empty()
    } else {
        no_underscores(s.drop_last()) + (if s.last() != '_' {
            seq![s.last()]
        } else {
            Seq::empty()
        })
    }
}

/// The first `k` digits of `d` with a `_` before every digit that starts a
/// group of three counted from the right.
pub open spec fn grouped(d: Seq<char>, k: nat) -> Seq<char>
    decreases k,
{
    if k == 0 {
        Seq::empty()
    } else {
        grouped(d, (k - 1) as nat) + (if k - 1 != 0 && (d.len() - (k - 1)) % 3 == 0 {
            seq!['_']
        } else {
            Seq::empty()
        }) + seq![d[k - 1]]
    }
}

/// `1000000` -> `1_000_000`: the digits of `raw` in groups of three from the right.
pub open spec fn group_digits_text(raw: Seq<char>) -> Seq<char> {
    grouped(digits_only(raw), digits_only(raw).len())
}

/// Trailing `0` characters removed.
pub open spec fn trim_zeros(s: Seq<char>) -> Seq<char>
    decreases s.len(),
{
    if s.len() > 0 && s.last() == '0' {
        trim_zeros(s.drop_last())
    } else {
        s
    }
}

/// `000` -> `0`, `500` -> `5`: the fraction's digits without trailing zeros,
/// keeping one digit so a float stays a float.
pub open spec fn trim_fraction_text(raw: Seq<char>) -> Seq<char> {
    let t = trim_zeros(digits_only(raw));
    if t.len() == 0 {
        seq!['0']
    } else {
        t
    }
}

fn digits_only_chars(s: &Vec<char>) -> (out: Vec<char>)
    ensures
        out@ == digits_only(s@),
{
    let mut out = Vec::new();
    let mut i: usize = 0;
    while i < s.len()
        invariant
            i <= s.len(),
            out@ == digits_only(s@.take(i as int)),
        decreases s.len() - i,
    {
        if '0' <= s[i] && s[i] <= '9' {
            out.push(s[i]);
        }
        assert(s@.take(i + 1).drop_last() =~= s@.take(i as int));
        i = i + 1;
    }
    assert(s@.take(s.len() as int) =~= s@);
    out
}

pub fn no_underscores_chars(s: &Vec<char>) -> (out: Vec<char>)
    ensures
        out@ == no_underscores(s@),
{
    let mut out = Vec::new();
    let mut i: usize = 0;
    while i < s.len()
        invariant
            i <= s.len(),
            out@ == no_underscores(s@.take(i as int)),
        decreases s.len() - i,
    {
        if s[i] != '_' {
            out.push(s[i]);
        }
        assert(s@.take(i + 1).drop_last() =~= s@.take(i as int));
        i = i + 1;
    }
    assert(s@.take(s.len() as int) =~= s@);
    out
}

proof fn lemma_short_runs_are_not_grouped(d: Seq<char>, k: nat)
    requires
        k <= d.len() <= 3,
    ensures
        grouped(d, k) == d.take(k as int),
    decreases k,
{
    if k > 0 {
        lemma_short_runs_are_not_grouped(d, (k - 1) as nat);
        assert(d.take(k as int) =~= d.take(k - 1) + seq![d[k - 1]]);
    }
}

fn group_digits_chars(raw: &Vec<char>) -> (out: Vec<char>)
    ensures
        out@ == group_digits_text(raw@),
{
    let digits = digits_only_chars(raw);
    let n = digits.len();
    if n <= 3 {
        proof {
            lemma_short_runs_are_not_grouped(digits@, n as nat);
            assert(digits@.take(n as int) =~= digits@);
        }
        return digits;
    }
    let mut grouped_out: Vec<char> = Vec::new();
    let mut i: usize = 0;
    while i < n
        invariant
            n == digits.len(),
            i <= n,
            grouped_out@ == grouped(digits@, i as nat),
        decreases n - i,
    {
        if i != 0 && (n - i) % 3 == 0 {
            grouped_out.push('_');
        }
        grouped_out.push(digits[i]);
        i = i + 1;
        assert(grouped_out@ =~= grouped(digits@, i as nat));
    }
    grouped_out
}

fn trim_fraction_chars(raw: &Vec<char>) -> (out: Vec<char>)
    ensures
        out@ == trim_fraction_text(raw@),
{
    let digits = digits_only_chars(raw);
    let mut k = digits.len();
    assert(digits@.take(k as int) =~= digits@);
    while k > 0 && digits[k - 1] == '0'
        invariant
            k <= digits.len(),
            trim_zeros(digits@.take(k as int)) == trim_zeros(digits@),
        decreases k,
    {
        assert(digits@.take(k as int).drop_last() =~= digits@.take(k - 1));
        k = k - 1;
    }
    assert(trim_zeros(digits@.take(k as int)) == digits@.take(k as int));
    if k == 0 {
        let mut z = Vec::new();
        z.push('0');
        z
    } else {
        slice_chars(&digits, 0, k)
    }
}

/// Digit grouping: `1000` -> `1_000`, `1234567` -> `1_234_567`; a malformed
/// grouping (`1_00`) normalises to the canonical one (`100`).
pub fn group_digits(raw: &str) -> (out: String)
    ensures
        out@ == group_digits_text(raw@),
{
    let cs = chars_of(raw);
    let g = group_digits_chars(&cs);
    string_from_chars(g.as_slice())
}

/// `1.000000` -> `1.0`, never `1` — losing the `.0` retypes a float as an int.
pub fn trim_fraction(raw: &str) -> (out: String)
    ensures
        out@ == trim_fraction_text(raw@),
{
    let cs = chars_of(raw);
    let t = trim_fraction_chars(&cs);
    string_from_chars(t.as_slice())
}

} // verus!

verus! {

// ---------------------------------------------------------------------------
// Numeric literals

/// Position just past the closing quote `q` of a string whose body starts at
/// `k`; a backslash escapes the character after it. Runs to the end when the
/// string is unterminated.
pub open spec fn quote_end(t: Seq<char>, k: int, q: char) -> int
    decreases t.len() - k,
{
    if k < 0 || k >= t.len() {
        t.len() as int
    } else if t[k] == '\\' {
        if k + 1 < t.len() {
            quote_end(t, k + 2, q)
        } else {
            t.len() as int
        }
    } else if t[k] == q {
        k + 1
    } else {
        quote_end(t, k + 1, q)
    }
}

/// Position just past the `'\n'` that ends a line comment whose rest starts at
/// `k` (or the end of the text).
pub open spec fn line_end(t: Seq<char>, k: int) -> int
    decreases t.len() - k,
{
    if k < 0 || k >= t.len() {
        t.len() as int
    } else if t[k] == '\n' {
        k + 1
    } else {
        line_end(t, k + 1)
    }
}

/// Position just past the `*/` that closes a block comment; `prev` is the
/// character before `k`.
pub open spec fn block_end(t: Seq<char>, k: int, prev: char) -> int
    decreases t.len() - k,
{
    if k < 0 || k >= t.len() {
        t.len() as int
    } else if prev == '*' && t[k] == '/' {
        k + 1
    } else {
        block_end(t, k + 1, t[k])
    }
}

/// End of a run of digits and `_` starting at `k`.
pub open spec fn run_end(t: Seq<char>, k: int) -> int
    decreases t.len() - k,
{
    if k < 0 || k >= t.len() || !(is_digit(t[k]) || t[k] == '_') {
        k
    } else {
        run_end(t, k + 1)
    }
}

pub proof fn lemma_ends_bounded(t: Seq<char>, k: int, q: char)
    requires
        0 <= k <= t.len(),
    ensures
        k <= quote_end(t, k, q) <= t.len(),
        k <= line_end(t, k) <= t.len(),
        k <= block_end(t, k, q) <= t.len(),
        k <= run_end(t, k) <= t.len(),
    decreases t.len() - k,
{
    if k < t.len() {
        lemma_ends_bounded(t, k + 1, q);
        lemma_ends_bounded(t, k + 1, t[k]);
        if k + 2 <= t.len() {
            lemma_ends_bounded(t, k + 2, q);
        }
    }
}

/// Whether the character before a digit lets it start a number: nothing, or
/// anything but a letter, digit, `_` or `.`.
pub open spec fn may_start_number(out: Seq<char>) -> bool {
    out.len() == 0 || !(alphanumeric(out.last()) || out.last() == '_' || out.last() == '.')
}

/// Whether a number ending at `j` really ends there: it is not glued to a
/// letter, `_` or `-` (a UUID, hex, an exponent tail).
pub open spec fn number_ends(t: Seq<char>, j: int) -> bool {
    j >= t.len() || !(alphanumeric(t[j]) || t[j] == '_' || t[j] == '-')
}

/// Whether the integer run ending at `j1` carries a fraction: `.` then a digit.
pub open spec fn has_fraction(t: Seq<char>, j1: int) -> bool {
    j1 + 1 < t.len() && t[j1] == '.' && is_digit(t[j1 + 1])
}

/// The canonical spelling of the number starting at `i`, and where it ends.
pub open spec fn number_at(t: Seq<char>, i: int, group: bool) -> (Seq<char>, int) {
    let j1 = run_end(t, i + 1);
    let frac = has_fraction(t, j1);
    let j2 = if frac {
        run_end(t, j1 + 1)
    } else {
        j1
    };
    if !number_ends(t, j2) {
        (t.subrange(i, j2), j2)
    } else {
        let int_part = t.subrange(i, j1);
        (
            (if group {
                group_digits_text(int_part)
            } else {
                no_underscores(int_part)
            }) + (if frac {
                seq!['.'] + trim_fraction_text(t.subrange(j1 + 1, j2))
            } else {
                Seq::empty()
            }),
            j2,
        )
    }
}

/// One step of the literal normaliser at `i`: what it emits and where it resumes.
pub open spec fn literal_step(t: Seq<char>, i: int, out: Seq<char>, group: bool) -> (Seq<char>, int) {
    let c = t[i];
    if c == '"' || c == '\'' {
        let j = quote_end(t, i + 1, c);
        (t.subrange(i, j), j)
    } else if c == '#' || (c == '/' && i + 1 < t.len() && t[i + 1] == '/') {
        let j = line_end(t, i + 1);
        (t.subrange(i, j), j)
    } else if c == '/' && i + 1 < t.len() && t[i + 1] == '*' {
        let j = block_end(t, i + 1, '\0');
        (t.subrange(i, j), j)
    } else if is_digit(c) && may_start_number(out) {
        number_at(t, i, group)
    } else {
        (seq![c], i + 1)
    }
}

/// Normalise the numeric literals of `t` from position `i`, having emitted `out`.
pub open spec fn literals_from(t: Seq<char>, i: int, out: Seq<char>, group: bool) -> Seq<char>
    decreases t.len() - i,
{
    if i < 0 || i >= t.len() {
        out
    } else {
        let (piece, j) = literal_step(t, i, out, group);
        proof {
            lemma_ends_bounded(t, i + 1, t[i]);
            lemma_ends_bounded(t, i + 1, '\0');
            let j1 = run_end(t, i + 1);
            if i + 1 <= j1 && j1 + 1 <= t.len() {
                lemma_ends_bounded(t, j1 + 1, '\0');
            }
        }
        if j <= i {
            out
        } else {
            literals_from(t, j, out + piece, group)
        }
    }
}

/// The numeric literals of `t` in canonical form: fractions trimmed
/// (`1.000000` -> `1.0`) and, when `group` is set, integers grouped in threes
/// (`1000000` -> `1_000_000`; without `group`, separators are dropped). Strings,
/// comments and numbers glued to letters are left as written.
pub open spec fn normalized_literals(t: Seq<char>, group: bool) -> Seq<char> {
    literals_from(t, 0, Seq::empty(), group)
}

fn quote_end_exec(t: &Vec<char>, k0: usize, q: char) -> (j: usize)
    requires
        k0 <= t.len(),
    ensures
        j == quote_end(t@, k0 as int, q),
        k0 <= j <= t.len(),
{
    let mut k = k0;
    proof {
        lemma_ends_bounded(t@, k0 as int, q);
    }
    loop
        invariant
            k0 <= k <= t.len(),
            quote_end(t@, k as int, q) == quote_end(t@, k0 as int, q),
        decreases t.len() - k,
    {
        if k >= t.len() {
            return t.len();
        }
        if t[k] == '\\' {
            if k + 1 < t.len() {
                k = k + 2;
            } else {
                return t.len();
            }
        } else if t[k] == q {
            return k + 1;
        } else {
            k = k + 1;
        }
    }
}

fn line_end_exec(t: &Vec<char>, k0: usize) -> (j: usize)
    requires
        k0 <= t.len(),
    ensures
        j == line_end(t@, k0 as int),
        k0 <= j <= t.len(),
{
    let mut k = k0;
    loop
        invariant
            k0 <= k <= t.len(),
            line_end(t@, k as int) == line_end(t@, k0 as int),
        decreases t.len() - k,
    {
        if k >= t.len() {
            return t.len();
        }
        if t[k] == '\n' {
            return k + 1;
        }
        k = k + 1;
    }
}

fn block_end_exec(t: &Vec<char>, k0: usize, prev0: char) -> (j: usize)
    requires
        k0 <= t.len(),
    ensures
        j == block_end(t@, k0 as int, prev0),
        k0 <= j <= t.len(),
{
    let mut k = k0;
    let mut prev = prev0;
    loop
        invariant
            k0 <= k <= t.len(),
            block_end(t@, k as int, prev) == block_end(t@, k0 as int, prev0),
        decreases t.len() - k,
    {
        if k >= t.len() {
            return t.len();
        }
        if prev == '*' && t[k] == '/' {
            return k + 1;
        }
        prev = t[k];
        k = k + 1;
    }
}

fn run_end_exec(t: &Vec<char>, k0: usize) -> (j: usize)
    requires
        k0 <= t.len(),
    ensures
        j == run_end(t@, k0 as int),
        k0 <= j <= t.len(),
{
    let mut k = k0;
    while k < t.len() && (('0' <= t[k] && t[k] <= '9') || t[k] == '_')
        invariant
            k0 <= k <= t.len(),
            run_end(t@, k as int) == run_end(t@, k0 as int),
        decreases t.len() - k,
    {
        k = k + 1;
    }
    k
}

fn literals_chars(t: &Vec<char>, group: bool) -> (out: Vec<char>)
    ensures
        out@ == normalized_literals(t@, group),
{
    let mut out: Vec<char> = Vec::new();
    let mut i: usize = 0;
    while i < t.len()
        invariant
            i <= t.len(),
            literals_from(t@, i as int, out@, group) == normalized_literals(t@, group),
        decreases t.len() - i,
    {
        let ghost before = out@;
        let c = t[i];
        let next_is = |x: char| -> (b: bool)
            ensures
                b == (i + 1 < t.len() && t@[i + 1] == x),
            { i + 1 < t.len() && t[i + 1] == x };
        let j: usize;
        if c == '"' || c == '\'' {
            j = quote_end_exec(t, i + 1, c);
            let piece = slice_chars(t, i, j);
            push_all(&mut out, &piece);
        } else if c == '#' || (c == '/' && next_is('/')) {
            j = line_end_exec(t, i + 1);
            let piece = slice_chars(t, i, j);
            push_all(&mut out, &piece);
        } else if c == '/' && next_is('*') {
            j = block_end_exec(t, i + 1, '\0');
            let piece = slice_chars(t, i, j);
            push_all(&mut out, &piece);
        } else if '0' <= c && c <= '9' && (out.len() == 0 || !(is_alphanumeric(out[out.len() - 1])
            || out[out.len() - 1] == '_' || out[out.len() - 1] == '.')) {
            let j1 = run_end_exec(t, i + 1);
            let frac = j1 < t.len() && j1 + 1 < t.len() && t[j1] == '.' && '0' <= t[j1 + 1] && t[j1 + 1] <= '9';
            let j2 = if frac {
                run_end_exec(t, j1 + 1)
            } else {
                j1
            };
            let ends = j2 >= t.len() || !(is_alphanumeric(t[j2]) || t[j2] == '_' || t[j2] == '-');
            if !ends {
                let piece = slice_chars(t, i, j2);
                push_all(&mut out, &piece);
            } else {
                let int_part = slice_chars(t, i, j1);
                if group {
                    let g = group_digits_chars(&int_part);
                    push_all(&mut out, &g);
                } else {
                    let g = no_underscores_chars(&int_part);
                    push_all(&mut out, &g);
                }
                if frac {
                    out.push('.');
                    let f = slice_chars(t, j1 + 1, j2);
                    let tf = trim_fraction_chars(&f);
                    push_all(&mut out, &tf);
                }
            }
            j = j2;
        } else {
            out.push(c);
            j = i + 1;
        }
        proof {
            let (piece, jj) = literal_step(t@, i as int, before, group);
            assert(jj == j);
            assert(out@ =~= before + piece);
            assert(j > i);
        }
        i = j;
    }
    out
}

/// Canonicalise numeric literals. `group_integers` is false inside JSON
/// payloads: `1_000_000` is neither valid JSON nor JSON5, and a body is read by
/// other tools too. Fraction trimming (`1.000000` -> `1.0`) applies either way.
pub fn normalize_numeric_literals(text: &str, group_integers: bool) -> (out: String)
    ensures
        out@ == normalized_literals(text@, group_integers),
{
    let cs = chars_of(text);
    let n = literals_chars(&cs, group_integers);
    string_from_chars(n.as_slice())
}

} // verus!

verus! {

// ---------------------------------------------------------------------------
// JSON5 bodies, re-indented from their source text

/// `s` without its trailing `' '` characters.
pub open spec fn strip_spaces(s: Seq<char>) -> Seq<char>
    decreases s.len(),
{
    if s.len() > 0 && s.last() == ' ' {
        strip_spaces(s.drop_last())
    } else {
        s
    }
}

/// `n` spaces.
pub open spec fn spaces(n: nat) -> Seq<char> {
    Seq::new(n, |_i: int| ' ')
}

/// Move to a fresh line indented by `indent` levels of two spaces; pending
/// spaces are dropped first, and no blank line is ever produced.
pub open spec fn newline_indent(s: Seq<char>, indent: nat) -> Seq<char> {
    let s1 = strip_spaces(s);
    (if s1.len() > 0 && s1.last() == '\n' {
        s1
    } else {
        s1.push('\n')
    }) + spaces(2 * indent)
}

/// The formatter's state between two characters of the source.
pub struct JState {
    pub out: Seq<char>,
    pub indent: nat,
    /// Inside a string opened by this quote.
    pub quote: Option<char>,
    pub escaped: bool,
    pub in_line_comment: bool,
    pub in_block_comment: bool,
    /// A newline in the source since the last token.
    pub saw_newline_gap: bool,
    /// A line break owed after `{`, `[` or `,`, emitted by the next token.
    pub pending_break: bool,
    /// A `/* … */` ended mid-line: the next value needs a space.
    pub need_space: bool,
    /// Offset of a `,` with no value after it yet.
    pub dangling_comma: Option<nat>,
    /// A commented-out member sits after that comma, so it must stay.
    pub comma_holds: bool,
}

pub open spec fn json_init() -> JState {
    JState {
        out: Seq::empty(),
        indent: 0,
        quote: None,
        escaped: false,
        in_line_comment: false,
        in_block_comment: false,
        saw_newline_gap: false,
        pending_break: false,
        need_space: false,
        dangling_comma: None,
        comma_holds: false,
    }
}

/// What every value does before it is written: take the owed line break (or a
/// space after an inline block comment), and settle any dangling comma.
pub open spec fn open_value(s: JState) -> JState {
    let out = if s.saw_newline_gap || s.pending_break {
        newline_indent(s.out, s.indent)
    } else if s.need_space && !(s.out.len() > 0 && (s.out.last() == ' ' || s.out.last() == '\n')) {
        s.out.push(' ')
    } else {
        s.out
    };
    JState { out, saw_newline_gap: false, need_space: false, dangling_comma: None, comma_holds: false, ..s }
}

/// End of a JSON5 identifier starting at `k`.
pub open spec fn word_end(t: Seq<char>, k: int) -> int
    decreases t.len() - k,
{
    if k < 0 || k >= t.len() || !(alphanumeric(t[k]) || t[k] == '_' || t[k] == '$') {
        k
    } else {
        word_end(t, k + 1)
    }
}

/// First position at or after `k` that is not whitespace.
pub open spec fn skip_ws(t: Seq<char>, k: int) -> int
    decreases t.len() - k,
{
    if k < 0 || k >= t.len() || !crate::text::is_ws(t[k]) {
        k
    } else {
        skip_ws(t, k + 1)
    }
}

/// `s` with the character at `p` removed.
pub open spec fn remove_at(s: Seq<char>, p: int) -> Seq<char> {
    s.take(p) + s.skip(p + 1)
}

/// The character after a `/` when it opens a comment.
pub open spec fn slash_kind(t: Seq<char>, i: int) -> Option<char> {
    if t[i] == '/' && i + 1 < t.len() && (t[i + 1] == '/' || t[i + 1] == '*') {
        Some(t[i + 1])
    } else {
        None
    }
}

/// Inside a `//` comment: copy up to the newline, which ends it.
pub open spec fn step_in_line(s: JState, c: char) -> JState {
    if c == '\n' {
        JState { in_line_comment: false, saw_newline_gap: true, pending_break: false, ..s }
    } else if c != '\r' {
        JState { out: s.out.push(c), ..s }
    } else {
        s
    }
}

/// Inside a `/* … */` comment: copy, and close on `*/`.
pub open spec fn step_in_block(t: Seq<char>, i: int, s: JState) -> (JState, int) {
    let c = t[i];
    if c == '*' && i + 1 < t.len() && t[i + 1] == '/' {
        (
            JState { out: s.out.push(c).push('/'), in_block_comment: false, need_space: true, ..s },
            i + 2,
        )
    } else {
        (JState { out: s.out.push(c), ..s }, i + 1)
    }
}

/// Inside a string opened by `q`: contents are copied; only the escapes that
/// change meaning once the quotes become `"` are rewritten.
pub open spec fn step_in_string(s: JState, q: char, c: char) -> JState {
    let s0 = JState { saw_newline_gap: false, ..s };
    if s0.escaped {
        let o = if !(q == '\'' && c == '\'') {
            s0.out.push('\\')
        } else {
            s0.out
        };
        JState { escaped: false, out: o.push(c), ..s0 }
    } else if c == '\\' {
        JState { escaped: true, ..s0 }
    } else if c == q {
        JState { quote: None, out: s0.out.push('"'), ..s0 }
    } else {
        let o = if c == '"' {
            s0.out.push('\\')
        } else {
            s0.out
        };
        JState { out: o.push(c), ..s0 }
    }
}

/// A comment opens (`#`, `//` or `/*`): on its own line only when the source
/// put it there.
pub open spec fn step_comment_open(t: Seq<char>, i: int, s: JState) -> (JState, int) {
    let kind = slash_kind(t, i);
    let s1 = if s.saw_newline_gap {
        JState {
            comma_holds: if s.dangling_comma is Some {
                true
            } else {
                s.comma_holds
            },
            out: newline_indent(s.out, s.indent),
            pending_break: false,
            ..s
        }
    } else if s.out.len() > 0 && s.out.last() != '\n' && s.out.last() != ' ' {
        JState { out: s.out.push(' '), ..s }
    } else {
        s
    };
    let s2 = JState { need_space: false, ..s1 };
    let s3 = if kind == Some('*') {
        JState { out: s2.out.push('/').push('*'), in_block_comment: true, ..s2 }
    } else {
        JState { out: s2.out.push('/').push('/'), in_line_comment: true, pending_break: false, ..s2 }
    };
    (JState { saw_newline_gap: false, ..s3 }, if kind is Some {
        i + 2
    } else {
        i + 1
    })
}

/// A closing bracket: drop a dangling comma (unless it carries a
/// commented-out member), keep `{}`/`[]` compact, else close on its own line.
pub open spec fn step_close(s: JState, c: char) -> JState {
    let o = match s.dangling_comma {
        Some(p) => if !s.comma_holds {
            remove_at(s.out, p as int)
        } else {
            s.out
        },
        None => s.out,
    };
    let empty = s.pending_break && o.len() > 0 && ((c == '}' && o.last() == '{') || (c == ']'
        && o.last() == '['));
    let indent: nat = if s.indent > 0 {
        (s.indent - 1) as nat
    } else {
        0
    };
    let s1 = JState {
        dangling_comma: None,
        comma_holds: false,
        indent,
        pending_break: false,
        saw_newline_gap: false,
        need_space: false,
        ..s
    };
    if empty {
        JState { out: o.push(c), ..s1 }
    } else {
        let o1 = strip_spaces(o);
        let o2 = if o1.len() > 0 && o1.last() == '\n' {
            o1
        } else {
            o1.push('\n')
        };
        JState { out: (o2 + spaces(2 * indent)).push(c), ..s1 }
    }
}

/// Any other character starts a value; an identifier followed by `:` is an
/// unquoted JSON5 key and gets quoted.
pub open spec fn step_value(t: Seq<char>, i: int, s: JState) -> (JState, int) {
    let c = t[i];
    let s1 = JState { pending_break: false, ..open_value(s) };
    if alphabetic(c) || c == '_' || c == '$' {
        let e = word_end(t, i + 1);
        let word = t.subrange(i, e);
        let la = skip_ws(t, e);
        if la < t.len() && t[la] == ':' {
            (JState { out: s1.out.push('"') + word + seq!['"'], ..s1 }, e)
        } else {
            (JState { out: s1.out + word, ..s1 }, e)
        }
    } else {
        (JState { out: s1.out.push(c), ..s1 }, i + 1)
    }
}

/// The formatter at `t[i]`: the next state and where it resumes.
pub open spec fn json_step(t: Seq<char>, i: int, s: JState) -> (JState, int) {
    let c = t[i];
    if s.in_line_comment {
        (step_in_line(s, c), i + 1)
    } else if s.in_block_comment {
        step_in_block(t, i, s)
    } else if s.quote is Some {
        (step_in_string(s, s.quote->0, c), i + 1)
    } else if c == '"' || c == '\'' {
        let s1 = open_value(s);
        (JState { pending_break: false, quote: Some(c), out: s1.out.push('"'), ..s1 }, i + 1)
    } else if c == '#' || slash_kind(t, i) is Some {
        step_comment_open(t, i, s)
    } else if c == '{' || c == '[' {
        let s1 = open_value(s);
        (JState { out: s1.out.push(c), indent: s1.indent + 1, pending_break: true, ..s1 }, i + 1)
    } else if c == '}' || c == ']' {
        (step_close(s, c), i + 1)
    } else if c == ',' {
        (
            JState {
                dangling_comma: Some(s.out.len()),
                comma_holds: false,
                out: s.out.push(','),
                saw_newline_gap: false,
                need_space: false,
                pending_break: true,
                ..s
            },
            i + 1,
        )
    } else if c == ':' {
        (
            JState { out: s.out.push(':').push(' '), saw_newline_gap: false, need_space: false, ..s },
            i + 1,
        )
    } else if crate::text::is_ws(c) {
        if c == '\n' {
            (JState { saw_newline_gap: true, ..s }, i + 1)
        } else {
            (s, i + 1)
        }
    } else {
        step_value(t, i, s)
    }
}

pub proof fn lemma_word_end_bounded(t: Seq<char>, k: int)
    requires
        0 <= k <= t.len(),
    ensures
        k <= word_end(t, k) <= t.len(),
        k <= skip_ws(t, k) <= t.len(),
    decreases t.len() - k,
{
    if k < t.len() {
        lemma_word_end_bounded(t, k + 1);
    }
}

/// Run the formatter from position `i` in state `s` to the end; the output.
pub open spec fn json_run(t: Seq<char>, i: int, s: JState) -> Seq<char>
    decreases t.len() - i,
{
    if i < 0 || i >= t.len() {
        s.out
    } else {
        let (s2, j) = json_step(t, i, s);
        if j <= i || j > t.len() {
            s.out
        } else {
            json_run(t, j, s2)
        }
    }
}

/// A JSON5 body re-indented from its source text: two spaces per level,
/// quotes canonicalised to `"`, unquoted keys quoted, trailing commas dropped
/// unless a commented-out member rides on them, comments kept where the
/// author put them, fractions trimmed — as lines.
pub open spec fn json_lines(raw: Seq<char>) -> Seq<Seq<char>> {
    lines(normalized_literals(json_run(raw, 0, json_init()), false))
}

/// The formatter's state, as the executable keeps it.
struct JsonFmt {
    out: Vec<char>,
    indent: usize,
    quote: Option<char>,
    escaped: bool,
    in_line_comment: bool,
    in_block_comment: bool,
    saw_newline_gap: bool,
    pending_break: bool,
    need_space: bool,
    dangling_comma: Option<usize>,
    comma_holds: bool,
}

impl JsonFmt {
    spec fn state(&self) -> JState {
        JState {
            out: self.out@,
            indent: self.indent as nat,
            quote: self.quote,
            escaped: self.escaped,
            in_line_comment: self.in_line_comment,
            in_block_comment: self.in_block_comment,
            saw_newline_gap: self.saw_newline_gap,
            pending_break: self.pending_break,
            need_space: self.need_space,
            dangling_comma: match self.dangling_comma {
                Some(p) => Some(p as nat),
                None => None,
            },
            comma_holds: self.comma_holds,
        }
    }

    /// The dangling comma, when there is one, is a `,` inside the output.
    spec fn wf(&self, i: int) -> bool {
        &&& self.indent <= i
        &&& match self.dangling_comma {
            Some(p) => p < self.out@.len() && self.out@[p as int] == ',',
            None => true,
        }
    }
}

proof fn lemma_strip_spaces(s: Seq<char>)
    ensures
        strip_spaces(s).len() <= s.len(),
        strip_spaces(s) == s.take(strip_spaces(s).len() as int),
        forall|p: int|
            0 <= p < s.len() && s[p] != ' ' ==> p < strip_spaces(s).len(),
    decreases s.len(),
{
    if s.len() > 0 && s.last() == ' ' {
        lemma_strip_spaces(s.drop_last());
        let r = strip_spaces(s.drop_last());
        assert(s.drop_last().take(r.len() as int) =~= s.take(r.len() as int));
        assert forall|p: int| 0 <= p < s.len() && s[p] != ' ' implies p < strip_spaces(s).len() by {
            assert(p < s.len() - 1);
            assert(s.drop_last()[p] == s[p]);
        }
    } else {
        assert(s.take(s.len() as int) =~= s);
    }
}

fn strip_spaces_exec(out: &mut Vec<char>)
    ensures
        final(out)@ == strip_spaces(old(out)@),
{
    while out.len() > 0 && out[out.len() - 1] == ' '
        invariant
            strip_spaces(out@) == strip_spaces(old(out)@),
        decreases out.len(),
    {
        let ghost before = out@;
        out.pop();
        assert(out@ =~= before.drop_last());
    }
}

fn newline_indent_exec(out: &mut Vec<char>, indent: usize)
    ensures
        final(out)@ == newline_indent(old(out)@, indent as nat),
{
    strip_spaces_exec(out);
    if !(out.len() > 0 && out[out.len() - 1] == '\n') {
        out.push('\n');
    }
    let mut k: usize = 0;
    let ghost base = out@;
    while k < indent
        invariant
            k <= indent,
            out@ == base + spaces(2 * k as nat),
        decreases indent - k,
    {
        out.push(' ');
        out.push(' ');
        k = k + 1;
        assert(out@ =~= base + spaces(2 * k as nat));
    }
}

/// After a strip of spaces and pushes, a `,` at `p` is still there.
proof fn lemma_comma_survives(s: Seq<char>, p: int, indent: nat)
    requires
        0 <= p < s.len(),
        s[p] == ',',
    ensures
        p < strip_spaces(s).len(),
        strip_spaces(s)[p] == ',',
        p < newline_indent(s, indent).len(),
        newline_indent(s, indent)[p] == ',',
{
    lemma_strip_spaces(s);
}

fn open_value_exec(st: &mut JsonFmt, Ghost(i): Ghost<int>)
    requires
        old(st).wf(i),
    ensures
        final(st).state() == open_value(old(st).state()),
        final(st).wf(i),
{
    if st.saw_newline_gap || st.pending_break {
        newline_indent_exec(&mut st.out, st.indent);
    } else if st.need_space && !(st.out.len() > 0 && (st.out[st.out.len() - 1] == ' '
        || st.out[st.out.len() - 1] == '\n')) {
        st.out.push(' ');
    }
    st.saw_newline_gap = false;
    st.need_space = false;
    st.dangling_comma = None;
    st.comma_holds = false;
    assert(st.state() =~= open_value(old(st).state()));
}

fn word_end_exec(t: &Vec<char>, k0: usize) -> (j: usize)
    requires
        k0 <= t.len(),
    ensures
        j == word_end(t@, k0 as int),
        k0 <= j <= t.len(),
{
    let mut k = k0;
    while k < t.len() && (is_alphanumeric(t[k]) || t[k] == '_' || t[k] == '$')
        invariant
            k0 <= k <= t.len(),
            word_end(t@, k as int) == word_end(t@, k0 as int),
        decreases t.len() - k,
    {
        k = k + 1;
    }
    k
}

fn skip_ws_exec(t: &Vec<char>, k0: usize) -> (j: usize)
    requires
        k0 <= t.len(),
    ensures
        j == skip_ws(t@, k0 as int),
        k0 <= j <= t.len(),
{
    let mut k = k0;
    while k < t.len() && crate::text::is_whitespace(t[k])
        invariant
            k0 <= k <= t.len(),
            skip_ws(t@, k as int) == skip_ws(t@, k0 as int),
        decreases t.len() - k,
    {
        k = k + 1;
    }
    k
}

fn push_indent(out: &mut Vec<char>, indent: usize)
    ensures
        final(out)@ == old(out)@ + spaces(2 * indent as nat),
{
    let mut k: usize = 0;
    while k < indent
        invariant
            k <= indent,
            out@ == old(out)@ + spaces(2 * k as nat),
        decreases indent - k,
    {
        out.push(' ');
        out.push(' ');
        k = k + 1;
        assert(out@ =~= old(out)@ + spaces(2 * k as nat));
    }
}

fn step_in_line_exec(st: &mut JsonFmt, c: char)
    ensures
        final(st).state() == step_in_line(old(st).state(), c),
        final(st).dangling_comma == old(st).dangling_comma,
        final(st).indent == old(st).indent,
        final(st).out@.len() >= old(st).out@.len(),
        final(st).out@.take(old(st).out@.len() as int) == old(st).out@,
{
    if c == '\n' {
        st.in_line_comment = false;
        st.saw_newline_gap = true;
        st.pending_break = false;
    } else if c != '\r' {
        st.out.push(c);
    }
    assert(st.out@.take(old(st).out@.len() as int) =~= old(st).out@);
    assert(st.state() =~= step_in_line(old(st).state(), c));
}

fn step_in_block_exec(t: &Vec<char>, i: usize, st: &mut JsonFmt) -> (j: usize)
    requires
        i < t.len(),
    ensures
        (final(st).state(), j as int) == step_in_block(t@, i as int, old(st).state()),
        final(st).dangling_comma == old(st).dangling_comma,
        final(st).indent == old(st).indent,
        final(st).out@.len() >= old(st).out@.len(),
        final(st).out@.take(old(st).out@.len() as int) == old(st).out@,
{
    let c = t[i];
    st.out.push(c);
    if c == '*' && i + 1 < t.len() && t[i + 1] == '/' {
        st.out.push('/');
        st.in_block_comment = false;
        st.need_space = true;
        assert(st.out@.take(old(st).out@.len() as int) =~= old(st).out@);
        assert(st.state() =~= step_in_block(t@, i as int, old(st).state()).0);
        return i + 2;
    }
    assert(st.out@.take(old(st).out@.len() as int) =~= old(st).out@);
    assert(st.state() =~= step_in_block(t@, i as int, old(st).state()).0);
    i + 1
}

fn step_in_string_exec(st: &mut JsonFmt, q: char, c: char)
    ensures
        final(st).state() == step_in_string(old(st).state(), q, c),
        final(st).dangling_comma == old(st).dangling_comma,
        final(st).indent == old(st).indent,
        final(st).out@.len() >= old(st).out@.len(),
        final(st).out@.take(old(st).out@.len() as int) == old(st).out@,
{
    st.saw_newline_gap = false;
    if st.escaped {
        st.escaped = false;
        if !(q == '\'' && c == '\'') {
            st.out.push('\\');
        }
        st.out.push(c);
    } else if c == '\\' {
        st.escaped = true;
    } else if c == q {
        st.quote = None;
        st.out.push('"');
    } else {
        if c == '"' {
            st.out.push('\\');
        }
        st.out.push(c);
    }
    assert(st.out@.take(old(st).out@.len() as int) =~= old(st).out@);
    assert(st.state() =~= step_in_string(old(st).state(), q, c));
}

fn step_comment_open_exec(t: &Vec<char>, i: usize, st: &mut JsonFmt) -> (j: usize)
    requires
        i < t.len(),
        old(st).wf(i as int),
        t@[i as int] == '#' || slash_kind(t@, i as int) is Some,
    ensures
        (final(st).state(), j as int) == step_comment_open(t@, i as int, old(st).state()),
        final(st).wf(i as int),
        i < j <= t.len(),
{
    let c = t[i];
    let kind: Option<char> = if c == '/' && i + 1 < t.len() && (t[i + 1] == '/' || t[i + 1] == '*') {
        Some(t[i + 1])
    } else {
        None
    };
    assert(kind == slash_kind(t@, i as int));
    if st.saw_newline_gap {
        if st.dangling_comma.is_some() {
            st.comma_holds = true;
        }
        proof {
            if let Some(p) = st.dangling_comma {
                lemma_comma_survives(st.out@, p as int, st.indent as nat);
            }
        }
        newline_indent_exec(&mut st.out, st.indent);
        st.pending_break = false;
    } else if st.out.len() > 0 && st.out[st.out.len() - 1] != '\n' && st.out[st.out.len() - 1]
        != ' ' {
        st.out.push(' ');
    }
    st.need_space = false;
    if kind == Some('*') {
        st.out.push('/');
        st.out.push('*');
        st.in_block_comment = true;
    } else {
        st.out.push('/');
        st.out.push('/');
        st.in_line_comment = true;
        st.pending_break = false;
    }
    st.saw_newline_gap = false;
    assert(st.state() =~= step_comment_open(t@, i as int, old(st).state()).0);
    if kind.is_some() {
        i + 2
    } else {
        i + 1
    }
}

/// The output once a dangling comma is settled before a closing bracket.
pub open spec fn settled_out(s: JState) -> Seq<char> {
    match s.dangling_comma {
        Some(p) => if !s.comma_holds {
            remove_at(s.out, p as int)
        } else {
            s.out
        },
        None => s.out,
    }
}

fn settle_comma(st: &mut JsonFmt)
    requires
        match old(st).dangling_comma {
            Some(p) => p < old(st).out@.len(),
            None => true,
        },
    ensures
        final(st).out@ == settled_out(old(st).state()),
        final(st).dangling_comma is None,
        final(st).comma_holds == false,
        final(st).indent == old(st).indent,
        final(st).quote == old(st).quote,
        final(st).escaped == old(st).escaped,
        final(st).in_line_comment == old(st).in_line_comment,
        final(st).in_block_comment == old(st).in_block_comment,
        final(st).saw_newline_gap == old(st).saw_newline_gap,
        final(st).pending_break == old(st).pending_break,
        final(st).need_space == old(st).need_space,
{
    let d = st.dangling_comma;
    st.dangling_comma = None;
    if let Some(pos) = d {
        if !st.comma_holds {
            let ghost before = st.out@;
            st.out.remove(pos);
            assert(st.out@ =~= remove_at(before, pos as int));
        }
    }
    st.comma_holds = false;
}

#[verifier::spinoff_prover]
fn step_close_exec(st: &mut JsonFmt, c: char, Ghost(i): Ghost<int>)
    requires
        old(st).wf(i),
    ensures
        final(st).state() == step_close(old(st).state(), c),
        final(st).wf(i),
{
    let ghost s = st.state();
    settle_comma(st);
    let ghost o = st.out@;
    assert(o == settled_out(s));
    let empty = st.pending_break && st.out.len() > 0 && ((c == '}' && st.out[st.out.len() - 1]
        == '{') || (c == ']' && st.out[st.out.len() - 1] == '['));
    if st.indent > 0 {
        st.indent = st.indent - 1;
    }
    st.pending_break = false;
    st.saw_newline_gap = false;
    st.need_space = false;
    if empty {
        st.out.push(c);
        assert(st.state() =~= step_close(s, c));
        return ;
    }
    strip_spaces_exec(&mut st.out);
    if !(st.out.len() > 0 && st.out[st.out.len() - 1] == '\n') {
        st.out.push('\n');
    }
    push_indent(&mut st.out, st.indent);
    st.out.push(c);
    assert(st.state() =~= step_close(s, c));
}

fn step_value_exec(t: &Vec<char>, i: usize, st: &mut JsonFmt) -> (j: usize)
    requires
        i < t.len(),
        old(st).wf(i as int),
    ensures
        (final(st).state(), j as int) == step_value(t@, i as int, old(st).state()),
        final(st).wf(i as int),
        i < j <= t.len(),
{
    let c = t[i];
    open_value_exec(st, Ghost(i as int));
    st.pending_break = false;
    if is_alphabetic(c) || c == '_' || c == '$' {
        let e = word_end_exec(t, i + 1);
        let word = slice_chars(t, i, e);
        let la = skip_ws_exec(t, e);
        let ghost base = st.out@;
        if la < t.len() && t[la] == ':' {
            st.out.push('"');
            push_all(&mut st.out, &word);
            st.out.push('"');
            assert(st.out@ =~= base.push('"') + word@ + seq!['"']);
        } else {
            push_all(&mut st.out, &word);
        }
        assert(st.state() =~= step_value(t@, i as int, old(st).state()).0);
        return e;
    }
    st.out.push(c);
    assert(st.state() =~= step_value(t@, i as int, old(st).state()).0);
    i + 1
}

proof fn lemma_prefix_keeps_comma(old_out: Seq<char>, new_out: Seq<char>, d: Option<usize>)
    requires
        new_out.len() >= old_out.len(),
        new_out.take(old_out.len() as int) == old_out,
        match d {
            Some(p) => p < old_out.len() && old_out[p as int] == ',',
            None => true,
        },
    ensures
        match d {
            Some(p) => p < new_out.len() && new_out[p as int] == ',',
            None => true,
        },
{
    if let Some(p) = d {
        assert(new_out.take(old_out.len() as int)[p as int] == new_out[p as int]);
    }
}

fn json_step_exec(t: &Vec<char>, i: usize, st: &mut JsonFmt) -> (j: usize)
    requires
        i < t.len(),
        old(st).wf(i as int),
    ensures
        (final(st).state(), j as int) == json_step(t@, i as int, old(st).state()),
        i < j <= t.len(),
        final(st).wf(j as int),
{
    let c = t[i];
    let ghost s = st.state();
    let ghost o = st.out@;
    if st.in_line_comment {
        step_in_line_exec(st, c);
        proof {
            lemma_prefix_keeps_comma(o, st.out@, st.dangling_comma);
        }
        return i + 1;
    }
    if st.in_block_comment {
        let j = step_in_block_exec(t, i, st);
        proof {
            lemma_prefix_keeps_comma(o, st.out@, st.dangling_comma);
        }
        return j;
    }
    if let Some(q) = st.quote {
        step_in_string_exec(st, q, c);
        proof {
            lemma_prefix_keeps_comma(o, st.out@, st.dangling_comma);
        }
        return i + 1;
    }
    if c == '"' || c == '\'' {
        open_value_exec(st, Ghost(i as int));
        st.pending_break = false;
        st.quote = Some(c);
        st.out.push('"');
        assert(st.state() =~= json_step(t@, i as int, s).0);
        return i + 1;
    }
    let is_comment = c == '#' || (c == '/' && i + 1 < t.len() && (t[i + 1] == '/' || t[i + 1]
        == '*'));
    assert(is_comment == (c == '#' || slash_kind(t@, i as int) is Some));
    if is_comment {
        return step_comment_open_exec(t, i, st);
    }
    if c == '{' || c == '[' {
        open_value_exec(st, Ghost(i as int));
        st.out.push(c);
        st.indent = st.indent + 1;
        st.pending_break = true;
        assert(st.state() =~= json_step(t@, i as int, s).0);
        return i + 1;
    }
    if c == '}' || c == ']' {
        step_close_exec(st, c, Ghost(i as int));
        return i + 1;
    }
    if c == ',' {
        st.dangling_comma = Some(st.out.len());
        st.comma_holds = false;
        st.out.push(',');
        st.saw_newline_gap = false;
        st.need_space = false;
        st.pending_break = true;
        assert(st.state() =~= json_step(t@, i as int, s).0);
        return i + 1;
    }
    if c == ':' {
        st.out.push(':');
        st.out.push(' ');
        st.saw_newline_gap = false;
        st.need_space = false;
        assert(st.state() =~= json_step(t@, i as int, s).0);
        assert(st.out@.take(o.len() as int) =~= o);
        proof {
            lemma_prefix_keeps_comma(o, st.out@, st.dangling_comma);
        }
        return i + 1;
    }
    if crate::text::is_whitespace(c) {
        if c == '\n' {
            st.saw_newline_gap = true;
        }
        assert(st.state() =~= json_step(t@, i as int, s).0);
        return i + 1;
    }
    step_value_exec(t, i, st)
}

fn json_run_exec(t: &Vec<char>) -> (out: Vec<char>)
    ensures
        out@ == json_run(t@, 0, json_init()),
{
    let mut st = JsonFmt {
        out: Vec::new(),
        indent: 0,
        quote: None,
        escaped: false,
        in_line_comment: false,
        in_block_comment: false,
        saw_newline_gap: false,
        pending_break: false,
        need_space: false,
        dangling_comma: None,
        comma_holds: false,
    };
    assert(st.state() =~= json_init());
    let mut i: usize = 0;
    while i < t.len()
        invariant
            i <= t.len(),
            st.wf(i as int),
            json_run(t@, i as int, st.state()) == json_run(t@, 0, json_init()),
        decreases t.len() - i,
    {
        i = json_step_exec(t, i, &mut st);
    }
    st.out
}

/// A JSON5 body re-indented from its source text, as lines.
pub fn json_lines_chars(raw: &Vec<char>) -> (out: Vec<Vec<char>>)
    ensures
        views(out@) == json_lines(raw@),
{
    let o = json_run_exec(raw);
    let n = literals_chars(&o, false);
    crate::text::split_lines(&n)
}

} // verus!

verus! {

// ---------------------------------------------------------------------------
// Section bodies

/// Every line of `raw` with `#` comments written as `//` comments.
pub open spec fn normalized_lines(raw: Seq<char>) -> Seq<Seq<char>> {
    lines(raw).map_values(|l: Seq<char>| hash_or_line(l))
}

/// ASSERTS lines: comments as `//`, numeric literals canonical and grouped.
pub open spec fn assertion_lines(raw: Seq<char>) -> Seq<Seq<char>> {
    lines(raw).map_values(|l: Seq<char>| normalized_literals(hash_or_line(l), true))
}

/// Lines with trailing blank lines removed.
pub open spec fn trim_blank_tail(ls: Seq<Seq<char>>) -> Seq<Seq<char>>
    decreases ls.len(),
{
    if ls.len() > 0 && crate::text::is_blank(ls.last()) {
        trim_blank_tail(ls.drop_last())
    } else {
        ls
    }
}

pub fn normalized_lines_exec(raw: &Vec<char>) -> (out: Vec<Vec<char>>)
    ensures
        views(out@) == normalized_lines(raw@),
{
    let ls = crate::text::split_lines(raw);
    let mut out: Vec<Vec<char>> = Vec::new();
    let mut i: usize = 0;
    while i < ls.len()
        invariant
            i <= ls.len(),
            views(ls@) == lines(raw@),
            views(out@) == views(ls@).take(i as int).map_values(|l: Seq<char>| hash_or_line(l)),
        decreases ls.len() - i,
    {
        let l = hash_or_line_chars(&ls[i]);
        let ghost o0 = out@;
        out.push(l);
        proof {
            assert(views(out@) =~= views(o0).push(l@));
            assert(views(ls@).take(i + 1) =~= views(ls@).take(i as int).push(ls@[i as int]@));
            assert(views(out@) =~= views(ls@).take(i + 1).map_values(
                |l: Seq<char>| hash_or_line(l),
            ));
        }
        i = i + 1;
    }
    assert(views(ls@).take(i as int) =~= views(ls@));
    out
}

pub fn assertion_lines_exec(raw: &Vec<char>) -> (out: Vec<Vec<char>>)
    ensures
        views(out@) == assertion_lines(raw@),
{
    let ls = crate::text::split_lines(raw);
    let mut out: Vec<Vec<char>> = Vec::new();
    let mut i: usize = 0;
    while i < ls.len()
        invariant
            i <= ls.len(),
            views(ls@) == lines(raw@),
            views(out@) == views(ls@).take(i as int).map_values(
                |l: Seq<char>| normalized_literals(hash_or_line(l), true),
            ),
        decreases ls.len() - i,
    {
        let h = hash_or_line_chars(&ls[i]);
        let l = literals_chars(&h, true);
        let ghost o0 = out@;
        out.push(l);
        proof {
            assert(views(out@) =~= views(o0).push(l@));
            assert(views(ls@).take(i + 1) =~= views(ls@).take(i as int).push(ls@[i as int]@));
            assert(views(out@) =~= views(ls@).take(i + 1).map_values(
                |l: Seq<char>| normalized_literals(hash_or_line(l), true),
            ));
        }
        i = i + 1;
    }
    assert(views(ls@).take(i as int) =~= views(ls@));
    out
}

pub fn trim_blank_tail_exec(ls: &mut Vec<Vec<char>>)
    ensures
        views(final(ls)@) == trim_blank_tail(views(old(ls)@)),
{
    while ls.len() > 0 && crate::text::chars_blank(&ls[ls.len() - 1])
        invariant
            trim_blank_tail(views(ls@)) == trim_blank_tail(views(old(ls)@)),
        decreases ls.len(),
    {
        let ghost l0 = ls@;
        ls.pop();
        assert(views(ls@) =~= views(l0).drop_last());
    }
}

/// `str::to_lowercase` (Unicode case mapping), by name.
pub uninterp spec fn lowercase(s: Seq<char>) -> Seq<char>;

/// Calls `str::to_lowercase`; its result is the named lowercase of `s`, which
/// for ASCII-only text is its ASCII lowercase, character for character.
#[verifier::external_body]
pub(crate) fn to_lowercase_chars(s: &Vec<char>) -> (out: Vec<char>)
    ensures
        out@ == lowercase(s@),
        (forall|i: int| 0 <= i < s@.len() ==> (#[trigger] s@[i] as u32) < 128) ==> out@
            == s@.map_values(|c: char| crate::text::ascii_lower(c)),
{
    let text: String = s.iter().collect();
    text.to_lowercase().chars().collect()
}

/// `str::to_ascii_lowercase`.
pub open spec fn ascii_lowercase(s: Seq<char>) -> Seq<char> {
    s.map_values(|c: char| crate::text::ascii_lower(c))
}

/// The canonical snake_case spelling of an OPTIONS key: `-` becomes `_`.
pub open spec fn canonical_key_spelling(k: Seq<char>) -> Seq<char> {
    k.map_values(|c: char| if c == '-' {
        '_'
    } else {
        c
    })
}

fn ascii_lowercase_exec(s: &Vec<char>) -> (out: Vec<char>)
    ensures
        out@ == ascii_lowercase(s@),
{
    let mut out = Vec::new();
    let mut i: usize = 0;
    while i < s.len()
        invariant
            i <= s.len(),
            out@ == s@.take(i as int).map_values(|c: char| crate::text::ascii_lower(c)),
        decreases s.len() - i,
    {
        out.push(crate::text::to_ascii_lower(s[i]));
        i = i + 1;
        assert(out@ =~= s@.take(i as int).map_values(|c: char| crate::text::ascii_lower(c)));
    }
    assert(s@.take(i as int) =~= s@);
    out
}

fn canonical_key_exec(s: &Vec<char>) -> (out: Vec<char>)
    ensures
        out@ == canonical_key_spelling(s@),
{
    let mut out = Vec::new();
    let mut i: usize = 0;
    while i < s.len()
        invariant
            i <= s.len(),
            out@ == s@.take(i as int).map_values(|c: char| if c == '-' {
                '_'
            } else {
                c
            }),
        decreases s.len() - i,
    {
        out.push(if s[i] == '-' {
            '_'
        } else {
            s[i]
        });
        i = i + 1;
        assert(out@ =~= s@.take(i as int).map_values(|c: char| if c == '-' {
            '_'
        } else {
            c
        }));
    }
    assert(s@.take(i as int) =~= s@);
    out
}

/// A `key: value` line, split at its first `:` and trimmed; comments are not.
pub open spec fn kv_split(t: Seq<char>) -> Option<(Seq<char>, Seq<char>)> {
    let k = crate::parser::find_char(t, ':');
    if k < t.len() && !crate::text::starts_with(t, "//"@) {
        Some((crate::text::trim(t.take(k as int)), crate::text::trim(t.skip(k as int + 1))))
    } else {
        None
    }
}

fn kv_split_exec(t: &Vec<char>) -> (r: Option<(Vec<char>, Vec<char>)>)
    ensures
        match r {
            Some((k, v)) => kv_split(t@) == Some((k@, v@)),
            None => kv_split(t@) is None,
        },
{
    let k = crate::parser::find_char_exec(t, ':');
    if k < t.len() && !crate::text::chars_start_with(t, "//") {
        let a = slice_chars(t, 0, k);
        let b = slice_chars(t, k + 1, t.len());
        let key = crate::text::trim_chars(&a);
        let value = crate::text::trim_chars(&b);
        assert(b@ =~= t@.skip(k + 1));
        Some((key, value))
    } else {
        None
    }
}

/// How a key-value section sorts: by lowercased key, or (OPTIONS) by the
/// ASCII-lowercased canonical key, which is also what it writes.
pub open spec fn kv_render(options: bool, key: Seq<char>, value: Seq<char>) -> (Seq<char>, Seq<char>) {
    if options {
        let nk = canonical_key_spelling(key);
        (ascii_lowercase(nk), nk + ": "@ + value)
    } else {
        (lowercase(key), key + ": "@ + value)
    }
}

/// Key lines gather the comments and unparsable lines written above them
/// into one block; what follows the last key is the tail. Nothing is dropped.
pub open spec fn kv_collect(
    ls: Seq<Seq<char>>,
    i: int,
    blocks: Seq<(nat, Seq<char>, Seq<Seq<char>>)>,
    pending: Seq<Seq<char>>,
    options: bool,
) -> (Seq<(nat, Seq<char>, Seq<Seq<char>>)>, Seq<Seq<char>>)
    decreases ls.len() - i,
{
    if i < 0 || i >= ls.len() {
        (blocks, pending)
    } else {
        let t = crate::text::trim(ls[i]);
        if t.len() == 0 {
            kv_collect(ls, i + 1, blocks, pending, options)
        } else {
            match kv_split(t) {
                Some((k, v)) => {
                    let (sk, text) = kv_render(options, k, v);
                    kv_collect(ls, i + 1, blocks.push((0nat, sk, pending.push(text))), Seq::empty(), options)
                },
                None => kv_collect(ls, i + 1, blocks, pending.push(t), options),
            }
        }
    }
}

/// A key-value section: entries sorted (comments riding with the key below
/// them), unparsable trailing lines last.
pub open spec fn kv_section_lines(raw: Seq<char>, options: bool) -> Seq<Seq<char>> {
    let (blocks, tail) = kv_collect(normalized_lines(raw), 0, Seq::empty(), Seq::empty(), options);
    crate::sort::flatten(crate::sort::sort_items(blocks)) + tail
}

fn kv_section_lines_exec(raw: &Vec<char>, options: bool) -> (out: Vec<Vec<char>>)
    ensures
        views(out@) == kv_section_lines(raw@, options),
{
    let ls = normalized_lines_exec(raw);
    let ghost lv = views(ls@);
    let mut blocks: Vec<crate::sort::SortItem> = Vec::new();
    let mut pending: Vec<Vec<char>> = Vec::new();
    let mut i: usize = 0;
    assert(crate::sort::items_view(blocks@) =~= Seq::empty());
    assert(views(pending@) =~= Seq::<Seq<char>>::empty());
    while i < ls.len()
        invariant
            i <= ls.len(),
            lv == views(ls@),
            kv_collect(lv, i as int, crate::sort::items_view(blocks@), views(pending@), options)
                == kv_collect(lv, 0, Seq::empty(), Seq::empty(), options),
        decreases ls.len() - i,
    {
        let t = crate::text::trim_chars(&ls[i]);
        if t.len() > 0 {
            match kv_split_exec(&t) {
                Some((k, v)) => {
                    let sk: Vec<char>;
                    let mut text: Vec<char>;
                    if options {
                        let nk = canonical_key_exec(&k);
                        sk = ascii_lowercase_exec(&nk);
                        text = nk;
                    } else {
                        sk = to_lowercase_chars(&k);
                        text = k;
                    }
                    push_str(&mut text, ": ");
                    push_all(&mut text, &v);
                    let ghost b0 = crate::sort::items_view(blocks@);
                    let ghost p0 = views(pending@);
                    let mut block = pending;
                    block.push(text);
                    pending = Vec::new();
                    assert(views(block@) =~= p0.push(text@));
                    blocks.push(crate::sort::SortItem { rank: 0, key: sk, lines: block });
                    proof {
                        assert(crate::sort::items_view(blocks@) =~= b0.push(
                            crate::sort::item_view(blocks@.last()),
                        ));
                        assert(views(pending@) =~= Seq::<Seq<char>>::empty());
                        assert(kv_render(options, k@, v@) == (sk@, text@));
                    }
                },
                None => {
                    let ghost p0 = views(pending@);
                    pending.push(t);
                    assert(views(pending@) =~= p0.push(t@));
                },
            }
        }
        i = i + 1;
    }
    let sorted = crate::sort::sort_items_exec(blocks);
    let mut out = crate::sort::flatten_exec(sorted);
    let ghost o0 = views(out@);
    let mut j: usize = 0;
    while j < pending.len()
        invariant
            j <= pending.len(),
            views(out@) == o0 + views(pending@).take(j as int),
        decreases pending.len() - j,
    {
        let l = slice_chars(&pending[j], 0, pending[j].len());
        assert(l@ =~= pending@[j as int]@);
        let ghost a0 = out@;
        out.push(l);
        proof {
            assert(views(out@) =~= views(a0).push(l@));
            assert(views(pending@).take(j + 1) =~= views(pending@).take(j as int).push(l@));
        }
        j = j + 1;
    }
    assert(views(pending@).take(j as int) =~= views(pending@));
    out
}

} // verus!

verus! {

/// The BENCH keys in the order a benchmark configuration reads them; any
/// other key sorts after them.
pub open spec fn bench_keys() -> Seq<Seq<char>> {
    seq![
        "mode"@, "profile"@, "concurrency"@, "requests"@, "duration"@, "ramp_up"@, "warmup"@,
        "warmup_mode"@, "cool_down"@, "max_duration"@, "max_rps"@, "load_schedule"@,
        "load_profile"@, "load_midpoint"@, "load_amplitude"@, "load_frequency"@,
        "load_spike_target"@, "load_spike_after"@, "load_spike_duration"@, "load_start"@,
        "load_step"@, "load_end"@, "load_step_duration"@, "concurrency_schedule"@,
        "concurrency_start"@, "concurrency_end"@, "concurrency_step"@,
        "concurrency_step_duration"@, "load_max_duration"@, "connections"@, "request_timeout"@,
        "connect_timeout"@, "keepalive"@, "cpus"@, "name"@, "assert_mode"@, "no_assert"@,
        "duration_stop"@, "sample_rate"@, "skip_first"@, "count_errors_in_latency"@,
        "latency_percentiles"@, "progress_interval"@, "cache"@, "cache_ttl"@, "sources"@
    ]
}

/// Position of `k` in `keys`, or `keys.len()`.
pub open spec fn rank_in(keys: Seq<Seq<char>>, k: Seq<char>) -> nat
    decreases keys.len(),
{
    if keys.len() == 0 {
        0
    } else if keys[0] == k {
        0
    } else {
        1 + rank_in(keys.drop_first(), k)
    }
}

/// Canonical rank of a BENCH key.
pub open spec fn bench_key_rank(k: Seq<char>) -> nat {
    rank_in(bench_keys(), k)
}

proof fn lemma_rank_in_is(keys: Seq<Seq<char>>, k: Seq<char>, i: int)
    requires
        0 <= i <= keys.len(),
        forall|j: int| 0 <= j < i ==> #[trigger] keys[j] != k,
        i < keys.len() ==> keys[i] == k,
    ensures
        rank_in(keys, k) == i,
    decreases keys.len(),
{
    if i > 0 {
        assert(keys[0] != k);
        assert forall|j: int| 0 <= j < i - 1 implies #[trigger] keys.drop_first()[j] != k by {
            assert(keys.drop_first()[j] == keys[j + 1]);
        }
        lemma_rank_in_is(keys.drop_first(), k, i - 1);
    }
}

pub fn bench_key_rank_exec(key: &Vec<char>) -> (r: usize)
    ensures
        r == bench_key_rank(key@),
{
    let keys: [&str; 46] = [
        "mode", "profile", "concurrency", "requests", "duration", "ramp_up", "warmup",
        "warmup_mode", "cool_down", "max_duration", "max_rps", "load_schedule", "load_profile",
        "load_midpoint", "load_amplitude", "load_frequency", "load_spike_target",
        "load_spike_after", "load_spike_duration", "load_start", "load_step", "load_end",
        "load_step_duration", "concurrency_schedule", "concurrency_start", "concurrency_end",
        "concurrency_step", "concurrency_step_duration", "load_max_duration", "connections",
        "request_timeout", "connect_timeout", "keepalive", "cpus", "name", "assert_mode",
        "no_assert", "duration_stop", "sample_rate", "skip_first", "count_errors_in_latency",
        "latency_percentiles", "progress_interval", "cache", "cache_ttl", "sources",
    ];
    assert(keys@.map_values(|s: &str| s@) =~= bench_keys());
    let mut i: usize = 0;
    while i < 46
        invariant
            i <= 46,
            keys@.map_values(|s: &str| s@) == bench_keys(),
            forall|j: int| 0 <= j < i ==> #[trigger] bench_keys()[j] != key@,
        decreases 46 - i,
    {
        let k = chars_of(keys[i]);
        if crate::text::chars_eq(&k, key) {
            proof {
                assert(bench_keys()[i as int] == keys@[i as int]@);
                lemma_rank_in_is(bench_keys(), key@, i as int);
            }
            return i;
        }
        assert(bench_keys()[i as int] == keys@[i as int]@);
        i = i + 1;
    }
    proof {
        lemma_rank_in_is(bench_keys(), key@, 46);
    }
    46
}

/// A continuation line of a BENCH value: it starts with a space or a tab.
pub open spec fn is_continuation(l: Seq<char>) -> bool {
    l.len() > 0 && (l[0] == ' ' || l[0] == '\t')
}

/// BENCH entries: like key-value entries, but indented lines stay glued to
/// the key above them (the nested `sources:` list) and keys carry a rank.
pub open spec fn bench_collect(
    ls: Seq<Seq<char>>,
    i: int,
    items: Seq<(nat, Seq<char>, Seq<Seq<char>>)>,
    pending: Seq<Seq<char>>,
) -> (Seq<(nat, Seq<char>, Seq<Seq<char>>)>, Seq<Seq<char>>)
    decreases ls.len() - i,
{
    if i < 0 || i >= ls.len() {
        (items, pending)
    } else {
        let line = ls[i];
        if is_continuation(line) && items.len() > 0 {
            let last = items.last();
            bench_collect(
                ls,
                i + 1,
                items.update(items.len() - 1, (last.0, last.1, last.2.push(line))),
                pending,
            )
        } else {
            let t = crate::text::trim(line);
            if t.len() == 0 {
                bench_collect(ls, i + 1, items, pending)
            } else {
                match kv_split(t) {
                    Some((k, v)) => {
                        let text = if v.len() == 0 {
                            k + ":"@
                        } else {
                            k + ": "@ + v
                        };
                        bench_collect(
                            ls,
                            i + 1,
                            items.push((bench_key_rank(k), lowercase(k), pending.push(text))),
                            Seq::empty(),
                        )
                    },
                    None => bench_collect(ls, i + 1, items, pending.push(t)),
                }
            }
        }
    }
}

/// A BENCH section: entries in canonical key order, nested values intact.
pub open spec fn bench_section_lines(raw: Seq<char>) -> Seq<Seq<char>> {
    let (items, tail) = bench_collect(normalized_lines(raw), 0, Seq::empty(), Seq::empty());
    crate::sort::flatten(crate::sort::sort_items(items)) + tail
}


fn bench_section_lines_exec(raw: &Vec<char>) -> (out: Vec<Vec<char>>)
    ensures
        views(out@) == bench_section_lines(raw@),
{
    let ls = normalized_lines_exec(raw);
    let ghost lv = views(ls@);
    let mut items: Vec<crate::sort::SortItem> = Vec::new();
    let mut pending: Vec<Vec<char>> = Vec::new();
    let mut i: usize = 0;
    assert(crate::sort::items_view(items@) =~= Seq::empty());
    assert(views(pending@) =~= Seq::<Seq<char>>::empty());
    while i < ls.len()
        invariant
            i <= ls.len(),
            lv == views(ls@),
            bench_collect(lv, i as int, crate::sort::items_view(items@), views(pending@))
                == bench_collect(lv, 0, Seq::empty(), Seq::empty()),
        decreases ls.len() - i,
    {
        let line = &ls[i];
        let cont = line.len() > 0 && (line[0] == ' ' || line[0] == '\t');
        if cont && items.len() > 0 {
            let ghost b0 = crate::sort::items_view(items@);
            let mut last = items.pop().unwrap();
            let ghost lb = views(last.lines@);
            let copy = slice_chars(line, 0, line.len());
            assert(copy@ =~= line@);
            last.lines.push(copy);
            assert(views(last.lines@) =~= lb.push(line@));
            items.push(last);
            proof {
                assert(crate::sort::items_view(items@) =~= b0.update(
                    b0.len() - 1,
                    (b0.last().0, b0.last().1, b0.last().2.push(line@)),
                ));
            }
        } else {
            let t = crate::text::trim_chars(line);
            if t.len() > 0 {
                match kv_split_exec(&t) {
                    Some((k, v)) => {
                        let mut text = slice_chars(&k, 0, k.len());
                        assert(text@ =~= k@);
                        if v.len() == 0 {
                            push_str(&mut text, ":");
                        } else {
                            push_str(&mut text, ": ");
                            push_all(&mut text, &v);
                        }
                        let rank = bench_key_rank_exec(&k);
                        let lk = to_lowercase_chars(&k);
                        let ghost b0 = crate::sort::items_view(items@);
                        let ghost p0 = views(pending@);
                        let mut block = pending;
                        block.push(text);
                        pending = Vec::new();
                        assert(views(block@) =~= p0.push(text@));
                        items.push(crate::sort::SortItem { rank, key: lk, lines: block });
                        proof {
                            assert(crate::sort::items_view(items@) =~= b0.push(
                                crate::sort::item_view(items@.last()),
                            ));
                            assert(views(pending@) =~= Seq::<Seq<char>>::empty());
                        }
                    },
                    None => {
                        let ghost p0 = views(pending@);
                        pending.push(t);
                        assert(views(pending@) =~= p0.push(t@));
                    },
                }
            }
        }
        i = i + 1;
    }
    let sorted = crate::sort::sort_items_exec(items);
    let mut out = crate::sort::flatten_exec(sorted);
    append_lines(&mut out, pending);
    out
}

// ---------------------------------------------------------------------------
// EXTRACT

/// An extraction line `name[:Type] = value`, its parts trimmed.
pub open spec fn extract_token(t: Seq<char>) -> Option<(Seq<char>, Option<Seq<char>>, Seq<char>)> {
    let e = crate::parser::find_char(t, '=');
    if e >= t.len() {
        None
    } else {
        let lhs = crate::text::trim(t.take(e as int));
        let v = crate::text::trim(t.skip(e as int + 1));
        if lhs.len() == 0 || v.len() == 0 {
            None
        } else {
            let c = crate::parser::find_char(lhs, ':');
            if c < lhs.len() {
                let n = crate::text::trim(lhs.take(c as int));
                let ty = crate::text::trim(lhs.skip(c as int + 1));
                if n.len() == 0 || ty.len() == 0 {
                    None
                } else {
                    Some((n, Some(ty), v))
                }
            } else {
                Some((lhs, None, v))
            }
        }
    }
}

/// An EXTRACT line in canonical spacing, `name:Type = value`, at the line's
/// own indentation; comments and anything else stay as written.
pub open spec fn extract_line(l: Seq<char>) -> Seq<char> {
    let t = crate::text::trim(l);
    if crate::text::starts_with(t, "//"@) || t.len() == 0 {
        l
    } else {
        match extract_token(t) {
            Some((n, ty, v)) => l.take(l.len() - t.len()) + n + (match ty {
                Some(x) => ":"@ + x,
                None => Seq::empty(),
            }) + " = "@ + v,
            None => l,
        }
    }
}

pub open spec fn extract_section_lines(raw: Seq<char>) -> Seq<Seq<char>> {
    normalized_lines(raw).map_values(|l: Seq<char>| extract_line(l))
}

proof fn lemma_trim_len(s: Seq<char>)
    ensures
        crate::text::trim(s).len() <= s.len(),
{
    crate::text::lemma_lead_ws(s);
    crate::text::lemma_keep_end(crate::text::trim_start(s));
}

fn extract_line_exec(l: &Vec<char>) -> (out: Vec<char>)
    ensures
        out@ == extract_line(l@),
{
    let t = crate::text::trim_chars(l);
    if crate::text::chars_start_with(&t, "//") || t.len() == 0 {
        return slice_chars(l, 0, l.len());
    }
    let e = crate::parser::find_char_exec(&t, '=');
    if e >= t.len() {
        return slice_chars(l, 0, l.len());
    }
    let a = slice_chars(&t, 0, e);
    let b = slice_chars(&t, e + 1, t.len());
    assert(b@ =~= t@.skip(e as int + 1));
    let lhs = crate::text::trim_chars(&a);
    let v = crate::text::trim_chars(&b);
    if lhs.len() == 0 || v.len() == 0 {
        return slice_chars(l, 0, l.len());
    }
    let c = crate::parser::find_char_exec(&lhs, ':');
    proof {
        lemma_trim_len(l@);
    }
    let mut out = slice_chars(l, 0, l.len() - t.len());
    if c < lhs.len() {
        let na = slice_chars(&lhs, 0, c);
        let ta = slice_chars(&lhs, c + 1, lhs.len());
        assert(ta@ =~= lhs@.skip(c as int + 1));
        let n = crate::text::trim_chars(&na);
        let ty = crate::text::trim_chars(&ta);
        if n.len() == 0 || ty.len() == 0 {
            return slice_chars(l, 0, l.len());
        }
        push_all(&mut out, &n);
        push_str(&mut out, ":");
        push_all(&mut out, &ty);
    } else {
        push_all(&mut out, &lhs);
    }
    push_str(&mut out, " = ");
    push_all(&mut out, &v);
    out
}

fn extract_section_lines_exec(raw: &Vec<char>) -> (out: Vec<Vec<char>>)
    ensures
        views(out@) == extract_section_lines(raw@),
{
    let ls = normalized_lines_exec(raw);
    let mut out: Vec<Vec<char>> = Vec::new();
    let mut i: usize = 0;
    while i < ls.len()
        invariant
            i <= ls.len(),
            views(ls@) == normalized_lines(raw@),
            views(out@) == views(ls@).take(i as int).map_values(|l: Seq<char>| extract_line(l)),
        decreases ls.len() - i,
    {
        let l = extract_line_exec(&ls[i]);
        let ghost o0 = out@;
        out.push(l);
        proof {
            assert(views(out@) =~= views(o0).push(l@));
            assert(views(ls@).take(i + 1) =~= views(ls@).take(i as int).push(ls@[i as int]@));
            assert(views(out@) =~= views(ls@).take(i + 1).map_values(
                |l: Seq<char>| extract_line(l),
            ));
        }
        i = i + 1;
    }
    assert(views(ls@).take(i as int) =~= views(ls@));
    out
}

} // verus!

verus! {

// ---------------------------------------------------------------------------
// One section's body

/// The body of a section that is neither a JSON payload nor one of the
/// sections with a layout of their own.
pub open spec fn plain_body(v: SectionView) -> Seq<Seq<char>> {
    match v.content {
        SectionContent::KeyValues => kv_section_lines(v.raw, false),
        SectionContent::Extract => extract_section_lines(v.raw),
        _ => normalized_lines(v.raw),
    }
}

/// A section's body before trailing blank lines are dropped.
pub open spec fn body_lines(v: SectionView) -> Seq<Seq<char>> {
    match v.section_type {
        SectionType::Request | SectionType::Response | SectionType::Error => if v.content
            == SectionContent::Json {
            json_lines(v.raw)
        } else {
            plain_body(v)
        },
        SectionType::Meta | SectionType::Dataset => lines(v.raw),
        SectionType::Options => if v.content == SectionContent::KeyValues {
            kv_section_lines(v.raw, true)
        } else {
            plain_body(v)
        },
        SectionType::Bench => if v.content == SectionContent::KeyValues {
            bench_section_lines(v.raw)
        } else {
            plain_body(v)
        },
        _ => plain_body(v),
    }
}

/// A section's body as the formatter writes it: ASSERTS lines as they come,
/// any other body without its trailing blank lines. META and DATASET are YAML
/// and stay verbatim (there `#` is the comment marker).
pub open spec fn section_lines(v: SectionView) -> Seq<Seq<char>> {
    if v.section_type == SectionType::Asserts {
        assertion_lines(v.raw)
    } else {
        trim_blank_tail(body_lines(v))
    }
}

fn plain_body_exec(content: SectionContent, raw: &Vec<char>) -> (out: Vec<Vec<char>>)
    ensures
        views(out@) == match content {
            SectionContent::KeyValues => kv_section_lines(raw@, false),
            SectionContent::Extract => extract_section_lines(raw@),
            _ => normalized_lines(raw@),
        },
{
    match content {
        SectionContent::KeyValues => kv_section_lines_exec(raw, false),
        SectionContent::Extract => extract_section_lines_exec(raw),
        _ => normalized_lines_exec(raw),
    }
}

pub fn section_lines_exec(s: &Section) -> (out: Vec<Vec<char>>)
    ensures
        views(out@) == section_lines(section_view(*s)),
{
    let raw = chars_of(s.raw_content.as_str());
    let ghost v = section_view(*s);
    assert(v.raw == raw@);
    if matches!(s.section_type, SectionType::Asserts) {
        return assertion_lines_exec(&raw);
    }
    let mut out = match s.section_type {
        SectionType::Request | SectionType::Response | SectionType::Error => {
            if matches!(s.content, SectionContent::Json) {
                json_lines_chars(&raw)
            } else {
                plain_body_exec(s.content, &raw)
            }
        },
        SectionType::Meta | SectionType::Dataset => crate::text::split_lines(&raw),
        SectionType::Options => {
            if matches!(s.content, SectionContent::KeyValues) {
                kv_section_lines_exec(&raw, true)
            } else {
                plain_body_exec(s.content, &raw)
            }
        },
        SectionType::Bench => {
            if matches!(s.content, SectionContent::KeyValues) {
                bench_section_lines_exec(&raw)
            } else {
                plain_body_exec(s.content, &raw)
            }
        },
        _ => plain_body_exec(s.content, &raw),
    };
    assert(views(out@) == body_lines(v));
    trim_blank_tail_exec(&mut out);
    out
}

} // verus!

verus! {

// ---------------------------------------------------------------------------
// Whole documents

/// The non-blank lines of `ls[from..to]`, `#` comments written as `//`.
pub open spec fn kept_lines(ls: Seq<Seq<char>>, from: int, to: int) -> Seq<Seq<char>>
    decreases to - from,
{
    if to <= from {
        Seq::empty()
    } else {
        kept_lines(ls, from, to - 1) + if crate::text::is_blank(ls[to - 1]) {
            Seq::<Seq<char>>::empty()
        } else {
            seq![hash_or_line(ls[to - 1])]
        }
    }
}

/// Where the text before section `k` begins: after the section before it.
pub open spec fn block_from(n_lines: int, vs: Seq<SectionView>, k: int) -> int {
    if k == 0 {
        0
    } else if vs[k - 1].end_line < n_lines {
        vs[k - 1].end_line
    } else {
        n_lines
    }
}

/// Where section `v`'s own lines begin: at its first attribute line.
pub open spec fn block_to(n_lines: int, v: SectionView) -> int {
    let a = v.start_line - v.attributes.len();
    let a = if a < 0 {
        0
    } else {
        a
    };
    if a < n_lines {
        a
    } else {
        n_lines
    }
}

/// Section `k` as a block: the comments written above it, its attributes, its
/// header, its body.
pub open spec fn block_lines(ls: Seq<Seq<char>>, vs: Seq<SectionView>, k: int) -> Seq<Seq<char>> {
    let v = vs[k];
    kept_lines(ls, block_from(ls.len() as int, vs, k), block_to(ls.len() as int, v)) + v.attributes
        + seq![crate::parser::header_text(v.section_type, v.options)] + section_lines(v)
}

/// A line that may travel with the section below it: blank, or a `//` comment.
pub open spec fn is_loose(l: Seq<char>) -> bool {
    crate::text::is_blank(l) || crate::text::starts_with(crate::text::trim(l), "//"@)
}

/// Where the trailing run of loose lines of `b` begins.
pub open spec fn loose_tail_start(b: Seq<Seq<char>>) -> nat
    decreases b.len(),
{
    if b.len() > 0 && is_loose(b.last()) {
        loose_tail_start(b.drop_last())
    } else {
        b.len()
    }
}

/// `t` without its leading blank lines.
pub open spec fn drop_blank_head(t: Seq<Seq<char>>) -> Seq<Seq<char>>
    decreases t.len(),
{
    if t.len() > 0 && crate::text::is_blank(t[0]) {
        drop_blank_head(t.drop_first())
    } else {
        t
    }
}

/// Blocks `i..`, with `carry` put in front of block `i`. Up to block `upto`,
/// each block hands its trailing comments (less the blank lines leading them)
/// to the next one: a comment written between two sections belongs with the
/// section below it, which matters once sections move.
pub open spec fn rehomed(
    blocks: Seq<Seq<Seq<char>>>,
    i: int,
    upto: int,
    carry: Seq<Seq<char>>,
) -> Seq<Seq<Seq<char>>>
    decreases blocks.len() - i,
{
    if i < 0 || i >= blocks.len() {
        Seq::empty()
    } else {
        let b = carry + blocks[i];
        if i < upto {
            let s = loose_tail_start(b) as int;
            seq![b.take(s)] + rehomed(blocks, i + 1, upto, drop_blank_head(b.skip(s)))
        } else {
            seq![b] + rehomed(blocks, i + 1, upto, Seq::empty())
        }
    }
}

/// Index of the first body section (one without a preamble rank), or the count.
pub open spec fn first_body(vs: Seq<SectionView>, i: int) -> int
    decreases vs.len() - i,
{
    if i < 0 || i >= vs.len() {
        vs.len() as int
    } else if crate::parser::preamble_rank_of(vs[i].section_type) is None {
        i
    } else {
        first_body(vs, i + 1)
    }
}

pub open spec fn rank_of(v: SectionView) -> nat {
    match crate::parser::preamble_rank_of(v.section_type) {
        Some(r) => r,
        None => 0,
    }
}

/// The first `f` blocks in canonical preamble order (stable), the rest as they were.
pub open spec fn reordered(blocks: Seq<Seq<Seq<char>>>, vs: Seq<SectionView>, f: int) -> Seq<
    Seq<Seq<char>>,
> {
    let items = Seq::new(f as nat, |i: int| (rank_of(vs[i]), Seq::<char>::empty(), blocks[i]));
    crate::sort::sort_items(items).map_values(|it: crate::sort::ItemView| it.2) + blocks.skip(f)
}

/// The blocks one after another, each followed by exactly one blank line.
pub open spec fn assemble(blocks: Seq<Seq<Seq<char>>>) -> Seq<Seq<char>>
    decreases blocks.len(),
{
    if blocks.len() == 0 {
        Seq::empty()
    } else {
        trim_blank_tail(assemble(blocks.drop_last()) + blocks.last()).push(Seq::empty())
    }
}

/// The formatted text of a document whose lines are `ls` and whose sections are `vs`.
pub open spec fn formatted_from(ls: Seq<Seq<char>>, vs: Seq<SectionView>) -> Seq<char> {
    let n = vs.len() as int;
    let blocks = Seq::new(n as nat, |k: int| block_lines(ls, vs, k));
    let f = first_body(vs, 0);
    let upto = if n == 0 {
        0
    } else if f < n - 1 {
        f
    } else {
        n - 1
    };
    let moved = rehomed(blocks, 0, upto, Seq::empty());
    let cur = block_from(ls.len() as int, vs, n);
    let out = assemble(reordered(moved, vs, f)) + ls.subrange(cur, ls.len() as int).map_values(
        |l: Seq<char>| hash_or_line(l),
    );
    let r = join(out, "\n"@);
    if crate::text::ends_with(r, "\n"@) {
        r
    } else {
        r + "\n"@
    }
}

/// The formatted text of `source`.
pub open spec fn formatted(source: Seq<char>) -> Seq<char> {
    formatted_from(lines(source), crate::parser::doc_views(source))
}

pub open spec fn blocks_view(b: Seq<Vec<Vec<char>>>) -> Seq<Seq<Seq<char>>> {
    b.map_values(|x: Vec<Vec<char>>| views(x@))
}

} // verus!

verus! {

fn kept_lines_exec(ls: &Vec<Vec<char>>, from: usize, to: usize) -> (out: Vec<Vec<char>>)
    requires
        to <= ls.len(),
    ensures
        views(out@) == kept_lines(views(ls@), from as int, to as int),
{
    let ghost lv = views(ls@);
    let mut out: Vec<Vec<char>> = Vec::new();
    if to <= from {
        return out;
    }
    let mut i = from;
    while i < to
        invariant
            from <= i <= to <= ls.len(),
            lv == views(ls@),
            views(out@) == kept_lines(lv, from as int, i as int),
        decreases to - i,
    {
        if !crate::text::chars_blank(&ls[i]) {
            let l = hash_or_line_chars(&ls[i]);
            let ghost o0 = out@;
            out.push(l);
            assert(views(out@) =~= views(o0).push(l@));
        }
        assert(lv[i as int] == ls@[i as int]@);
        i = i + 1;
    }
    out
}

/// The characters of each string.
fn lines_of_strings(v: &Vec<String>) -> (out: Vec<Vec<char>>)
    ensures
        views(out@) == crate::parser::strs(v@),
{
    let mut out: Vec<Vec<char>> = Vec::new();
    let mut i: usize = 0;
    while i < v.len()
        invariant
            i <= v.len(),
            views(out@) == crate::parser::strs(v@).take(i as int),
        decreases v.len() - i,
    {
        let l = chars_of(v[i].as_str());
        let ghost o0 = out@;
        out.push(l);
        proof {
            assert(views(out@) =~= views(o0).push(l@));
            assert(crate::parser::strs(v@).take(i + 1) =~= crate::parser::strs(v@).take(i as int).push(
                v@[i as int]@,
            ));
        }
        i = i + 1;
    }
    assert(crate::parser::strs(v@).take(i as int) =~= crate::parser::strs(v@));
    out
}

fn block_lines_exec(ls: &Vec<Vec<char>>, s: &Section, from: usize) -> (out: Vec<Vec<char>>)
    ensures
        ({
            let v = section_view(*s);
            views(out@) == kept_lines(views(ls@), from as int, block_to(ls.len() as int, v))
                + v.attributes + seq![crate::parser::header_text(v.section_type, v.options)]
                + section_lines(v)
        }),
{
    let na = s.attributes.len();
    let a = if s.start_line >= na {
        s.start_line - na
    } else {
        0
    };
    let to = if a < ls.len() {
        a
    } else {
        ls.len()
    };
    let mut out = kept_lines_exec(ls, from, to);
    let attrs = lines_of_strings(&s.attributes);
    append_lines(&mut out, attrs);
    let opts = lines_of_strings(&s.inline_options);
    let header = crate::parser::header_text_exec(s.section_type, &opts);
    let ghost o0 = out@;
    out.push(header);
    assert(views(out@) =~= views(o0).push(header@));
    let body = section_lines_exec(s);
    append_lines(&mut out, body);
    proof {
        let v = section_view(*s);
        assert(views(out@) =~= kept_lines(views(ls@), from as int, block_to(ls.len() as int, v))
            + v.attributes + seq![crate::parser::header_text(v.section_type, v.options)]
            + section_lines(v));
    }
    out
}

fn section_blocks(ls: &Vec<Vec<char>>, secs: &Vec<Section>) -> (out: Vec<Vec<Vec<char>>>)
    ensures
        blocks_view(out@) == Seq::new(
            secs@.len(),
            |k: int| block_lines(views(ls@), crate::parser::sections_view(secs@), k),
        ),
{
    let ghost vs = crate::parser::sections_view(secs@);
    let ghost lv = views(ls@);
    let mut out: Vec<Vec<Vec<char>>> = Vec::new();
    let mut cur: usize = 0;
    let mut k: usize = 0;
    while k < secs.len()
        invariant
            k <= secs.len(),
            vs == crate::parser::sections_view(secs@),
            lv == views(ls@),
            cur as int == block_from(lv.len() as int, vs, k as int),
            blocks_view(out@) == Seq::new(k as nat, |j: int| block_lines(lv, vs, j)),
        decreases secs.len() - k,
    {
        let b = block_lines_exec(ls, &secs[k], cur);
        let ghost o0 = out@;
        out.push(b);
        proof {
            assert(vs[k as int] == section_view(secs@[k as int]));
            assert(blocks_view(out@) =~= blocks_view(o0).push(views(b@)));
            assert(blocks_view(out@) =~= Seq::new((k + 1) as nat, |j: int| block_lines(lv, vs, j)));
        }
        cur = if secs[k].end_line < ls.len() {
            secs[k].end_line
        } else {
            ls.len()
        };
        k = k + 1;
    }
    out
}

fn first_body_exec(secs: &Vec<Section>) -> (f: usize)
    ensures
        f as int == first_body(crate::parser::sections_view(secs@), 0),
        f <= secs.len(),
{
    let ghost vs = crate::parser::sections_view(secs@);
    let mut i: usize = 0;
    while i < secs.len()
        invariant
            i <= secs.len(),
            vs == crate::parser::sections_view(secs@),
            first_body(vs, i as int) == first_body(vs, 0),
        decreases secs.len() - i,
    {
        assert(vs[i as int].section_type == secs@[i as int].section_type);
        if secs[i].section_type.preamble_rank().is_none() {
            return i;
        }
        i = i + 1;
    }
    i
}

fn is_loose_exec(l: &Vec<char>) -> (b: bool)
    ensures
        b == is_loose(l@),
{
    crate::text::chars_blank(l) || crate::text::chars_start_with(&crate::text::trim_chars(l), "//")
}

fn loose_tail_start_exec(b: &Vec<Vec<char>>) -> (s: usize)
    ensures
        s as int == loose_tail_start(views(b@)),
        s <= b.len(),
{
    let ghost bv = views(b@);
    let mut idx = b.len();
    assert(bv.take(idx as int) =~= bv);
    while idx > 0 && is_loose_exec(&b[idx - 1])
        invariant
            idx <= b.len(),
            bv == views(b@),
            loose_tail_start(bv.take(idx as int)) == loose_tail_start(bv),
        decreases idx,
    {
        assert(bv.take(idx as int).drop_last() =~= bv.take(idx - 1));
        idx = idx - 1;
    }
    proof {
        if idx > 0 {
            assert(bv.take(idx as int).last() == b@[idx - 1]@);
        }
    }
    idx
}

fn drop_blank_head_exec(t: &Vec<Vec<char>>) -> (out: Vec<Vec<char>>)
    ensures
        views(out@) == drop_blank_head(views(t@)),
{
    let ghost tv = views(t@);
    let mut j: usize = 0;
    assert(tv.skip(0) =~= tv);
    while j < t.len() && crate::text::chars_blank(&t[j])
        invariant
            j <= t.len(),
            tv == views(t@),
            drop_blank_head(tv.skip(j as int)) == drop_blank_head(tv),
        decreases t.len() - j,
    {
        assert(tv.skip(j as int).drop_first() =~= tv.skip(j + 1));
        assert(tv.skip(j as int)[0] == t@[j as int]@);
        j = j + 1;
    }
    proof {
        if j < t.len() {
            assert(tv.skip(j as int)[0] == t@[j as int]@);
        }
    }
    let out = crate::parser::line_range(t, j, t.len());
    assert(views(out@) =~= tv.skip(j as int));
    out
}

fn copy_lines(b: &Vec<Vec<char>>) -> (out: Vec<Vec<char>>)
    ensures
        views(out@) == views(b@),
{
    let out = crate::parser::line_range(b, 0, b.len());
    assert(views(b@).subrange(0, b.len() as int) =~= views(b@));
    out
}

fn rehome_exec(blocks: &Vec<Vec<Vec<char>>>, upto: usize) -> (out: Vec<Vec<Vec<char>>>)
    ensures
        blocks_view(out@) == rehomed(blocks_view(blocks@), 0, upto as int, Seq::empty()),
{
    let ghost bv = blocks_view(blocks@);
    let mut out: Vec<Vec<Vec<char>>> = Vec::new();
    let mut carry: Vec<Vec<char>> = Vec::new();
    let mut i: usize = 0;
    assert(views(carry@) =~= Seq::<Seq<char>>::empty());
    while i < blocks.len()
        invariant
            i <= blocks.len(),
            bv == blocks_view(blocks@),
            blocks_view(out@) + rehomed(bv, i as int, upto as int, views(carry@)) == rehomed(
                bv,
                0,
                upto as int,
                Seq::empty(),
            ),
        decreases blocks.len() - i,
    {
        let ghost c0 = views(carry@);
        let mut b = carry;
        append_lines(&mut b, copy_lines(&blocks[i]));
        assert(views(b@) == c0 + bv[i as int]);
        let ghost o0 = blocks_view(out@);
        if i < upto {
            let s = loose_tail_start_exec(&b);
            let head = crate::parser::line_range(&b, 0, s);
            let rest = crate::parser::line_range(&b, s, b.len());
            assert(views(head@) =~= views(b@).take(s as int));
            assert(views(rest@) =~= views(b@).skip(s as int));
            carry = drop_blank_head_exec(&rest);
            out.push(head);
            assert(blocks_view(out@) =~= o0.push(views(head@)));
        } else {
            carry = Vec::new();
            out.push(b);
            assert(blocks_view(out@) =~= o0.push(views(b@)));
            assert(views(carry@) =~= Seq::<Seq<char>>::empty());
        }
        assert(blocks_view(out@) + rehomed(bv, i + 1, upto as int, views(carry@)) =~= o0 + rehomed(
            bv,
            i as int,
            upto as int,
            c0,
        ));
        i = i + 1;
    }
    assert(blocks_view(out@) =~= blocks_view(out@) + rehomed(bv, i as int, upto as int, views(carry@)));
    out
}

fn rank_exec(s: &Section) -> (r: usize)
    ensures
        r as nat == rank_of(section_view(*s)),
{
    match s.section_type.preamble_rank() {
        Some(r) => r,
        None => 0,
    }
}

fn reorder_exec(blocks: &Vec<Vec<Vec<char>>>, secs: &Vec<Section>, f: usize) -> (out: Vec<
    Vec<Vec<char>>,
>)
    requires
        f <= blocks.len(),
        blocks.len() == secs.len(),
    ensures
        blocks_view(out@) == reordered(
            blocks_view(blocks@),
            crate::parser::sections_view(secs@),
            f as int,
        ),
{
    let ghost bv = blocks_view(blocks@);
    let ghost vs = crate::parser::sections_view(secs@);
    let mut items: Vec<crate::sort::SortItem> = Vec::new();
    let mut i: usize = 0;
    while i < f
        invariant
            i <= f <= blocks.len() == secs.len(),
            bv == blocks_view(blocks@),
            vs == crate::parser::sections_view(secs@),
            crate::sort::items_view(items@) == Seq::new(
                i as nat,
                |j: int| (rank_of(vs[j]), Seq::<char>::empty(), bv[j]),
            ),
        decreases f - i,
    {
        let r = rank_exec(&secs[i]);
        let it = crate::sort::SortItem { rank: r, key: Vec::new(), lines: copy_lines(&blocks[i]) };
        let ghost i0 = crate::sort::items_view(items@);
        items.push(it);
        proof {
            assert(vs[i as int] == section_view(secs@[i as int]));
            assert(crate::sort::items_view(items@) =~= i0.push(crate::sort::item_view(it)));
            assert(crate::sort::item_view(it) == (rank_of(vs[i as int]), Seq::<char>::empty(), bv[i as int]));
            assert(crate::sort::items_view(items@) =~= Seq::new(
                (i + 1) as nat,
                |j: int| (rank_of(vs[j]), Seq::<char>::empty(), bv[j]),
            ));
        }
        i = i + 1;
    }
    let sorted = crate::sort::sort_items_exec(items);
    let ghost sv = crate::sort::items_view(sorted@);
    let mut out: Vec<Vec<Vec<char>>> = Vec::new();
    let mut j: usize = 0;
    while j < sorted.len()
        invariant
            j <= sorted.len(),
            sv == crate::sort::items_view(sorted@),
            blocks_view(out@) == sv.take(j as int).map_values(|it: crate::sort::ItemView| it.2),
        decreases sorted.len() - j,
    {
        let c = copy_lines(&sorted[j].lines);
        let ghost o0 = blocks_view(out@);
        out.push(c);
        proof {
            assert(sv[j as int].2 == views(sorted@[j as int].lines@));
            assert(blocks_view(out@) =~= o0.push(views(c@)));
            assert(sv.take(j + 1).map_values(|it: crate::sort::ItemView| it.2) =~= sv.take(
                j as int,
            ).map_values(|it: crate::sort::ItemView| it.2).push(sv[j as int].2));
        }
        j = j + 1;
    }
    assert(sv.take(j as int) =~= sv);
    let ghost pre = blocks_view(out@);
    let mut k = f;
    while k < blocks.len()
        invariant
            f <= k <= blocks.len(),
            bv == blocks_view(blocks@),
            blocks_view(out@) == pre + bv.subrange(f as int, k as int),
        decreases blocks.len() - k,
    {
        let c = copy_lines(&blocks[k]);
        let ghost o0 = blocks_view(out@);
        out.push(c);
        proof {
            assert(blocks_view(out@) =~= o0.push(views(c@)));
            assert(bv.subrange(f as int, k + 1) =~= bv.subrange(f as int, k as int).push(bv[k as int]));
        }
        k = k + 1;
    }
    assert(bv.subrange(f as int, k as int) =~= bv.skip(f as int));
    out
}

fn assemble_exec(blocks: &Vec<Vec<Vec<char>>>) -> (out: Vec<Vec<char>>)
    ensures
        views(out@) == assemble(blocks_view(blocks@)),
{
    let ghost bv = blocks_view(blocks@);
    let mut out: Vec<Vec<char>> = Vec::new();
    let mut i: usize = 0;
    while i < blocks.len()
        invariant
            i <= blocks.len(),
            bv == blocks_view(blocks@),
            views(out@) == assemble(bv.take(i as int)),
        decreases blocks.len() - i,
    {
        append_lines(&mut out, copy_lines(&blocks[i]));
        trim_blank_tail_exec(&mut out);
        let ghost o0 = out@;
        out.push(Vec::new());
        proof {
            assert(views(out@) =~= views(o0).push(Seq::empty()));
            assert(bv.take(i + 1).drop_last() =~= bv.take(i as int));
        }
        i = i + 1;
    }
    assert(bv.take(i as int) =~= bv);
    out
}

} // verus!

verus! {

/// Lay out a parsed document: each section as a block (the comments above it,
/// attributes, header, body), preamble sections in canonical order with their
/// comments, one blank line after each block, lines after the last section
/// kept, and a final newline.
fn format_gctf_chain(doc: &crate::parser::GctfDocument, source: &str) -> (out: String)
    ensures
        out@ == formatted_from(lines(source@), crate::parser::sections_view(doc.sections@)),
{
    let src = chars_of(source);
    let ls = crate::text::split_lines(&src);
    let ghost lv = views(ls@);
    let ghost vs = crate::parser::sections_view(doc.sections@);
    let secs = &doc.sections;
    let n = secs.len();
    let blocks = section_blocks(&ls, secs);
    let f = first_body_exec(secs);
    let upto = if n == 0 {
        0
    } else if f < n - 1 {
        f
    } else {
        n - 1
    };
    let moved = rehome_exec(&blocks, upto);
    proof {
        let bl = Seq::new(n as nat, |k: int| block_lines(lv, vs, k));
        assert(blocks_view(blocks@) == bl);
        lemma_rehomed_len(bl, 0, upto as int, Seq::empty());
    }
    let ordered = reorder_exec(&moved, secs, f);
    let mut out = assemble_exec(&ordered);
    let cur = if n == 0 {
        0
    } else if secs[n - 1].end_line < ls.len() {
        secs[n - 1].end_line
    } else {
        ls.len()
    };
    proof {
        if n > 0 {
            assert(vs[n - 1] == section_view(doc.sections@[n - 1]));
        }
        assert(cur as int == block_from(lv.len() as int, vs, n as int));
    }
    let ghost pre = views(out@);
    let mut i = cur;
    while i < ls.len()
        invariant
            cur <= i <= ls.len(),
            lv == views(ls@),
            views(out@) == pre + lv.subrange(cur as int, i as int).map_values(
                |l: Seq<char>| hash_or_line(l),
            ),
        decreases ls.len() - i,
    {
        let l = hash_or_line_chars(&ls[i]);
        let ghost o0 = out@;
        out.push(l);
        proof {
            assert(views(out@) =~= views(o0).push(l@));
            assert(lv.subrange(cur as int, i + 1).map_values(|l: Seq<char>| hash_or_line(l))
                =~= lv.subrange(cur as int, i as int).map_values(|l: Seq<char>| hash_or_line(l)).push(
                hash_or_line(lv[i as int]),
            ));
        }
        i = i + 1;
    }
    let mut r = crate::text::join_lines(&out, "\n");
    if !crate::text::chars_end_with(&r, "\n") {
        push_str(&mut r, "\n");
    }
    string_from_chars(r.as_slice())
}

proof fn lemma_rehomed_len(
    blocks: Seq<Seq<Seq<char>>>,
    i: int,
    upto: int,
    carry: Seq<Seq<char>>,
)
    requires
        0 <= i <= blocks.len(),
    ensures
        rehomed(blocks, i, upto, carry).len() == blocks.len() - i,
    decreases blocks.len() - i,
{
    if i < blocks.len() {
        let b = carry + blocks[i];
        if i < upto {
            let s = loose_tail_start(b) as int;
            lemma_rehomed_len(blocks, i + 1, upto, drop_blank_head(b.skip(s)));
        } else {
            lemma_rehomed_len(blocks, i + 1, upto, Seq::empty());
        }
    }
}

/// How far assertion rewrites go before a file is formatted. Only the level
/// that rewrites nothing exists here: the assertion optimizer is not part of
/// this crate.
#[derive(Clone, Copy, PartialEq, Eq, Debug)]
pub enum OptimizeLevel {
    Safe,
}

/// Format `.gctf` text: `Ok` with the formatted text exactly when it parses.
pub fn format_gctf_content(source: &str, file_name: &str) -> (res: Result<
    String,
    crate::parser::ParseError,
>)
    ensures
        res is Ok <==> crate::parser::parses(source@),
        res matches Ok(text) ==> text@ == formatted(source@),
        res matches Err(e) ==> crate::parser::parse_error(source@, e),
{
    format_gctf_content_with_level(source, file_name, OptimizeLevel::Safe)
}

/// Format `.gctf` text at the given rewrite level. The one level there is
/// rewrites no assertion, so the text comes out as `format_gctf_content`
/// gives it.
pub fn format_gctf_content_with_level(source: &str, file_name: &str, level: OptimizeLevel) -> (res:
    Result<String, crate::parser::ParseError>)
    ensures
        res is Ok <==> crate::parser::parses(source@),
        res matches Ok(text) ==> text@ == formatted(source@),
        res matches Err(e) ==> crate::parser::parse_error(source@, e),
{
    match crate::parser::parse_gctf_from_str(source, file_name) {
        Ok(doc) => Ok(format_gctf_chain(&doc, source)),
        Err(e) => Err(e),
    }
}

} // verus!

verus! {

// ---------------------------------------------------------------------------
// Laws

proof fn lemma_digits_only_concat(a: Seq<char>, b: Seq<char>)
    ensures
        digits_only(a + b) == digits_only(a) + digits_only(b),
    decreases b.len(),
{
    if b.len() == 0 {
        assert(a + b =~= a);
        assert(digits_only(a) + digits_only(b) =~= digits_only(a));
    } else {
        lemma_digits_only_concat(a, b.drop_last());
        assert((a + b).drop_last() =~= a + b.drop_last());
        assert((a + b).last() == b.last());
    }
}

proof fn lemma_digits_only_of_digits(d: Seq<char>)
    requires
        forall|i: int| 0 <= i < d.len() ==> is_digit(#[trigger] d[i]),
    ensures
        digits_only(d) == d,
    decreases d.len(),
{
    if d.len() > 0 {
        lemma_digits_only_of_digits(d.drop_last());
        assert(d.drop_last() + seq![d.last()] =~= d);
    }
}

proof fn lemma_digits_only_digits(s: Seq<char>)
    ensures
        forall|i: int| 0 <= i < digits_only(s).len() ==> is_digit(#[trigger] digits_only(s)[i]),
    decreases s.len(),
{
    if s.len() > 0 {
        lemma_digits_only_digits(s.drop_last());
        let p = digits_only(s.drop_last());
        let e: Seq<char> = if is_digit(s.last()) {
            seq![s.last()]
        } else {
            Seq::empty()
        };
        assert(digits_only(s) == p + e);
        assert forall|i: int| 0 <= i < digits_only(s).len() implies is_digit(
            #[trigger] digits_only(s)[i],
        ) by {
            if i < p.len() {
                assert(digits_only(s)[i] == p[i]);
            } else {
                assert(digits_only(s)[i] == e[i - p.len()]);
            }
        }
    }
}

proof fn lemma_grouped_digits(d: Seq<char>, k: nat)
    requires
        k <= d.len(),
        forall|i: int| 0 <= i < d.len() ==> is_digit(#[trigger] d[i]),
    ensures
        digits_only(grouped(d, k)) == d.take(k as int),
    decreases k,
{
    if k > 0 {
        lemma_grouped_digits(d, (k - 1) as nat);
        let sep: Seq<char> = if k - 1 != 0 && (d.len() - (k - 1)) % 3 == 0 {
            seq!['_']
        } else {
            Seq::empty()
        };
        lemma_digits_only_concat(grouped(d, (k - 1) as nat), sep);
        lemma_digits_only_concat(grouped(d, (k - 1) as nat) + sep, seq![d[k - 1]]);
        assert(digits_only(sep) =~= Seq::<char>::empty()) by {
            if sep.len() > 0 {
                assert(sep.drop_last() =~= Seq::<char>::empty());
                assert(sep.last() == '_');
                assert(!is_digit('_'));
                assert(digits_only(sep.drop_last()) =~= Seq::<char>::empty());
                assert(digits_only(sep) =~= digits_only(sep.drop_last()));
            } else {
                assert(sep =~= Seq::<char>::empty());
            }
        }
        assert(is_digit(d[k - 1]));
        let one = seq![d[k - 1]];
        assert(digits_only(one) =~= one) by {
            assert(one.drop_last() =~= Seq::<char>::empty());
            assert(one.last() == d[k - 1]);
            assert(digits_only(one.drop_last()) =~= Seq::<char>::empty());
            assert(digits_only(one) =~= digits_only(one.drop_last()) + seq![one.last()]);
        }
        assert(d.take(k as int) =~= d.take(k - 1) + seq![d[k - 1]]);
    }
}

/// Grouping is idempotent: grouping grouped digits changes nothing.
pub proof fn lemma_group_digits_idempotent(raw: Seq<char>)
    ensures
        group_digits_text(group_digits_text(raw)) == group_digits_text(raw),
{
    let d = digits_only(raw);
    lemma_digits_only_digits(raw);
    lemma_grouped_digits(d, d.len());
    assert(d.take(d.len() as int) =~= d);
}

proof fn lemma_trim_zeros_shape(s: Seq<char>)
    ensures
        trim_zeros(s).len() > 0 ==> trim_zeros(s).last() != '0',
        trim_zeros(s) == s.take(trim_zeros(s).len() as int),
        trim_zeros(s).len() <= s.len(),
    decreases s.len(),
{
    if s.len() > 0 && s.last() == '0' {
        lemma_trim_zeros_shape(s.drop_last());
        assert(s.drop_last().take(trim_zeros(s).len() as int) =~= s.take(trim_zeros(s).len() as int));
    } else {
        assert(s.take(s.len() as int) =~= s);
    }
}

proof fn lemma_trim_zeros_tail(s: Seq<char>)
    ensures
        trim_zeros(s).len() <= s.len(),
        forall|i: int| trim_zeros(s).len() <= i < s.len() ==> #[trigger] s[i] == '0',
    decreases s.len(),
{
    if s.len() > 0 && s.last() == '0' {
        lemma_trim_zeros_tail(s.drop_last());
        assert forall|i: int| trim_zeros(s).len() <= i < s.len() implies #[trigger] s[i] == '0' by {
            if i < s.len() - 1 {
                assert(s[i] == s.drop_last()[i]);
            }
        }
    }
}

/// `n` zeros.
pub open spec fn zeros(n: nat) -> Seq<char> {
    Seq::new(n, |i: int| '0')
}

/// Trimming a fraction keeps its value: when some digit is not zero, the
/// digits are the trimmed fraction followed by zeros only, and the trimmed
/// fraction does not end in a zero; when every digit is zero, it is `0`.
pub proof fn lemma_trim_fraction_keeps_value(raw: Seq<char>)
    ensures
        ({
            let d = digits_only(raw);
            let t = trim_fraction_text(raw);
            &&& (exists|i: int| 0 <= i < d.len() && #[trigger] d[i] != '0') ==> {
                &&& t.len() <= d.len()
                &&& d == t + zeros((d.len() - t.len()) as nat)
                &&& t.last() != '0'
            }
            &&& (forall|i: int| 0 <= i < d.len() ==> #[trigger] d[i] == '0') ==> t == seq!['0']
        }),
{
    let d = digits_only(raw);
    lemma_trim_zeros_shape(d);
    lemma_trim_zeros_tail(d);
    let tz = trim_zeros(d);
    if exists|i: int| 0 <= i < d.len() && #[trigger] d[i] != '0' {
        let i = choose|i: int| 0 <= i < d.len() && #[trigger] d[i] != '0';
        assert(tz.len() > 0);
        assert(d =~= tz + zeros((d.len() - tz.len()) as nat)) by {
            assert forall|j: int| 0 <= j < d.len() implies d[j] == (tz + zeros(
                (d.len() - tz.len()) as nat,
            ))[j] by {
                if j < tz.len() {
                    assert(tz[j] == d[j]);
                }
            }
        }
    }
    if forall|i: int| 0 <= i < d.len() ==> #[trigger] d[i] == '0' {
        if tz.len() > 0 {
            assert(tz[tz.len() - 1] == d[tz.len() - 1]);
        }
    }
}

/// Trimming a fraction is idempotent.
pub proof fn lemma_trim_fraction_idempotent(raw: Seq<char>)
    ensures
        trim_fraction_text(trim_fraction_text(raw)) == trim_fraction_text(raw),
{
    let d = digits_only(raw);
    lemma_digits_only_digits(raw);
    lemma_trim_zeros_shape(d);
    let t = trim_zeros(d);
    let r = trim_fraction_text(raw);
    assert(forall|i: int| 0 <= i < r.len() ==> is_digit(#[trigger] r[i])) by {
        assert forall|i: int| 0 <= i < t.len() implies is_digit(#[trigger] t[i]) by {
            assert(t[i] == d[i]);
        }
    }
    lemma_digits_only_of_digits(r);
    if t.len() == 0 {
        assert(trim_zeros(seq!['0']) =~= trim_zeros(Seq::<char>::empty())) by {
            assert(seq!['0'].drop_last() =~= Seq::<char>::empty());
        }
    }
}

proof fn lemma_lead_ws_prefix(indent: Seq<char>, rest: Seq<char>)
    requires
        forall|i: int| 0 <= i < indent.len() ==> crate::text::is_ws(#[trigger] indent[i]),
        rest.len() > 0,
        !crate::text::is_ws(rest[0]),
    ensures
        trim_start(indent + rest) == rest,
{
    let s = indent + rest;
    assert forall|i: int| 0 <= i < indent.len() implies crate::text::is_ws(#[trigger] s[i]) by {
        assert(s[i] == indent[i]);
    }
    assert(s[indent.len() as int] == rest[0]);
    crate::text::lemma_lead_ws_is(s, indent.len() as int);
    assert(s.skip(indent.len() as int) =~= rest);
}

/// Rewriting `#` comments is idempotent: a rewritten line is no `#` comment.
pub proof fn lemma_hash_rewrite_idempotent(line: Seq<char>)
    ensures
        hash_or_line(hash_or_line(line)) == hash_or_line(line),
{
    if let Some(l) = hash_comment(line) {
        reveal_strlit("//");
        reveal_strlit("// ");
        crate::text::lemma_lead_ws(line);
        let indent = line.take(lead_ws(line) as int);
        let trimmed = trim_start(line);
        let rest = trim_start(trimmed.skip(lead_char(trimmed, '#') as int));
        let tail = if rest.len() == 0 {
            "//"@
        } else {
            "// "@ + rest
        };
        assert(l =~= indent + tail);
        assert(tail[0] == '/');
        lemma_lead_ws_prefix(indent, tail);
        assert(hash_comment(l) is None);
    }
}

/// A formatted document always ends with a newline.
pub proof fn lemma_formatted_ends_with_newline(source: Seq<char>)
    ensures
        crate::text::ends_with(formatted(source), "\n"@),
{
    reveal_strlit("\n");
    let ls = lines(source);
    let vs = crate::parser::doc_views(source);
    let f = formatted_from(ls, vs);
    let n = vs.len() as int;
    let blocks = Seq::new(n as nat, |k: int| block_lines(ls, vs, k));
    let first = first_body(vs, 0);
    let upto = if n == 0 {
        0
    } else if first < n - 1 {
        first
    } else {
        n - 1
    };
    let moved = rehomed(blocks, 0, upto, Seq::empty());
    let cur = block_from(ls.len() as int, vs, n);
    let out = assemble(reordered(moved, vs, first)) + ls.subrange(cur, ls.len() as int).map_values(
        |l: Seq<char>| hash_or_line(l),
    );
    let r = join(out, "\n"@);
    if !crate::text::ends_with(r, "\n"@) {
        assert((r + "\n"@).skip((r + "\n"@).len() - 1) =~= "\n"@);
    }
}

} // verus!

verus! {

/// `s` with every `\r\n` written as `\n`, scanning left to right.
pub open spec fn lf_only(s: Seq<char>) -> Seq<char>
    decreases s.len(),
{
    if s.len() == 0 {
        s
    } else if s.len() >= 2 && s[0] == '\r' && s[1] == '\n' {
        seq!['\n'] + lf_only(s.skip(2))
    } else {
        seq![s[0]] + lf_only(s.skip(1))
    }
}

/// Line endings made comparable: `\r\n` becomes `\n`.
pub fn normalize_eol_for_compare(s: &str) -> (out: String)
    ensures
        out@ == lf_only(s@),
{
    let v = chars_of(s);
    let mut out: Vec<char> = Vec::new();
    let mut i: usize = 0;
    assert(v@.skip(0) =~= v@);
    while i < v.len()
        invariant
            i <= v.len(),
            v@ == s@,
            lf_only(s@) == out@ + lf_only(v@.skip(i as int)),
        decreases v.len() - i,
    {
        let ghost rest = v@.skip(i as int);
        if v[i] == '\r' && i + 1 < v.len() && v[i + 1] == '\n' {
            assert(rest.skip(2) =~= v@.skip(i + 2));
            assert(rest[0] == '\r' && rest[1] == '\n');
            out.push('\n');
            i = i + 2;
        } else {
            assert(rest.skip(1) =~= v@.skip(i + 1));
            out.push(v[i]);
            i = i + 1;
        }
        assert(out@ + lf_only(v@.skip(i as int)) =~= lf_only(s@));
    }
    assert(v@.skip(i as int) =~= Seq::<char>::empty());
    assert(out@ =~= out@ + lf_only(v@.skip(i as int)));
    string_from_chars(out.as_slice())
}

/// Whether formatting changes a file: the texts differ once line endings are
/// made comparable.
pub fn needs_format(original: &str, formatted_text: &str) -> (b: bool)
    ensures
        b == (lf_only(original@) != lf_only(formatted_text@)),
{
    let a = normalize_eol_for_compare(original);
    let b = normalize_eol_for_compare(formatted_text);
    !crate::text::str_eq(a.as_str(), b.as_str())
}

} // verus!

verus! {

/// `s` with every `\n` written as `\r\n`.
pub open spec fn crlf(s: Seq<char>) -> Seq<char>
    decreases s.len(),
{
    if s.len() == 0 {
        s
    } else {
        (if s[0] == '\n' {
            seq!['\r', '\n']
        } else {
            seq![s[0]]
        }) + crlf(s.drop_first())
    }
}

/// No line of `s` already ends in `\r\n`.
pub open spec fn lf_endings(s: Seq<char>) -> bool {
    forall|i: int| 0 < i < s.len() && #[trigger] s[i] == '\n' ==> s[i - 1] != '\r'
}

proof fn lemma_crlf_no_newline(s: Seq<char>)
    requires
        forall|i: int| 0 <= i < s.len() ==> #[trigger] s[i] != '\n',
    ensures
        crlf(s) == s,
    decreases s.len(),
{
    if s.len() > 0 {
        assert forall|i: int| 0 <= i < s.drop_first().len() implies #[trigger] s.drop_first()[i]
            != '\n' by {
            assert(s.drop_first()[i] == s[i + 1]);
        }
        lemma_crlf_no_newline(s.drop_first());
        assert(crlf(s) =~= seq![s[0]] + s.drop_first());
    }
}

/// Up to the first newline at `k`, the CRLF text is the text itself, then
/// `\r\n`, then the CRLF text of the rest.
proof fn lemma_crlf_split(s: Seq<char>, k: int)
    requires
        0 <= k < s.len(),
        s[k] == '\n',
        forall|i: int| 0 <= i < k ==> #[trigger] s[i] != '\n',
    ensures
        crlf(s) == s.take(k) + seq!['\r', '\n'] + crlf(s.skip(k + 1)),
    decreases k,
{
    if k == 0 {
        assert(s.skip(1) =~= s.drop_first());
        assert(s.take(0) =~= Seq::<char>::empty());
        assert(crlf(s) =~= s.take(k) + seq!['\r', '\n'] + crlf(s.skip(k + 1)));
    } else {
        let t = s.drop_first();
        assert forall|i: int| 0 <= i < k - 1 implies #[trigger] t[i] != '\n' by {
            assert(t[i] == s[i + 1]);
        }
        assert(t[k - 1] == s[k]);
        lemma_crlf_split(t, k - 1);
        assert(t.skip(k) =~= s.skip(k + 1));
        assert(s.take(k) =~= seq![s[0]] + t.take(k - 1));
        assert(crlf(s) =~= s.take(k) + seq!['\r', '\n'] + crlf(s.skip(k + 1)));
    }
}

proof fn lemma_find_nl_props(t: Seq<char>)
    ensures
        crate::text::find_nl(t) <= t.len(),
        forall|i: int| 0 <= i < crate::text::find_nl(t) ==> #[trigger] t[i] != '\n',
        crate::text::find_nl(t) < t.len() ==> t[crate::text::find_nl(t) as int] == '\n',
    decreases t.len(),
{
    if t.len() > 0 && t[0] != '\n' {
        lemma_find_nl_props(t.drop_first());
        assert forall|i: int| 0 <= i < crate::text::find_nl(t) implies #[trigger] t[i] != '\n' by {
            if i > 0 {
                assert(t[i] == t.drop_first()[i - 1]);
            }
        }
        if crate::text::find_nl(t) < t.len() {
            assert(t[crate::text::find_nl(t) as int] == t.drop_first()[crate::text::find_nl(t) - 1]);
        }
    }
}

proof fn lemma_crlf_lines(s: Seq<char>)
    requires
        lf_endings(s),
    ensures
        lines(crlf(s)) == lines(s),
    decreases s.len(),
{
    if s.len() > 0 {
        lemma_find_nl_props(s);
        let k = crate::text::find_nl(s) as int;
        if k >= s.len() {
            lemma_crlf_no_newline(s);
        } else {
            lemma_crlf_split(s, k);
            let rest = s.skip(k + 1);
            let c = crlf(s);
            assert(c =~= s.take(k) + seq!['\r', '\n'] + crlf(rest));
            assert forall|i: int| 0 <= i < k + 1 implies #[trigger] c[i] != '\n' by {
                if i < k {
                    assert(c[i] == s[i]);
                } else {
                    assert(c[i] == '\r');
                }
            }
            assert(c[k + 1] == '\n');
            crate::text::lemma_find_nl_is(c, k + 1);
            assert(c.take(k + 1) =~= s.take(k).push('\r'));
            assert(crate::text::strip_cr(c.take(k + 1)) =~= s.take(k));
            if k > 0 {
                assert(s.take(k).last() == s[k - 1]);
                assert(s[k - 1] != '\r');
            }
            assert(crate::text::strip_cr(s.take(k)) == s.take(k));
            assert(c.skip(k + 2) =~= crlf(rest));
            assert forall|i: int| 0 < i < rest.len() && #[trigger] rest[i] == '\n' implies rest[i - 1]
                != '\r' by {
                assert(rest[i] == s[i + k + 1]);
                assert(rest[i - 1] == s[i + k]);
            }
            lemma_crlf_lines(rest);
        }
    }
}

/// A file formats the same whether its lines end in `\n` or `\r\n`: it
/// parses in both forms or in neither, to the same formatted text.
pub proof fn lemma_crlf_formats_like_lf(s: Seq<char>)
    requires
        lf_endings(s),
    ensures
        crate::parser::parses(crlf(s)) == crate::parser::parses(s),
        formatted(crlf(s)) == formatted(s),
        crate::parser::doc_views(crlf(s)) == crate::parser::doc_views(s),
{
    lemma_crlf_lines(s);
}
} // verus!
