//! Character-level text helpers shared by the command modules.
//!
//! Text is handled as sequences of Unicode scalar values (`Seq<char>`), which
//! is the view Verus gives both `str` and `String`.
use vstd::prelude::*;

verus! {

broadcast use vstd::string::group_string_axioms;

/// The characters of `s`, in order.
pub fn chars_of(s: &str) -> (out: Vec<char>)
    ensures
        out@ == s@,
{
    let mut out: Vec<char> = Vec::new();
    for c in it: s.chars()
        invariant
            out@ == it.seq().take(it.index() as int),
    {
        out.push(c);
    }
    out
}

/// `String: FromIterator<&char>` — gathers the characters into a `String`.
#[verifier::external_body]
pub(crate) fn string_from_chars(chars: &[char]) -> (s: String)
    ensures
        s@ == chars@,
{
    chars.iter().collect()
}

/// Unicode `White_Space`, the set `char::is_whitespace` (and so `str::trim`) uses.
pub open spec fn is_ws(c: char) -> bool {
    ||| ('\u{9}' <= c && c <= '\u{d}')
    ||| c == ' '
    ||| c == '\u{85}'
    ||| c == '\u{a0}'
    ||| c == '\u{1680}'
    ||| ('\u{2000}' <= c && c <= '\u{200a}')
    ||| c == '\u{2028}'
    ||| c == '\u{2029}'
    ||| c == '\u{202f}'
    ||| c == '\u{205f}'
    ||| c == '\u{3000}'
}

pub fn is_whitespace(c: char) -> (b: bool)
    ensures
        b == is_ws(c),
{
    ('\u{9}' <= c && c <= '\u{d}') || c == ' ' || c == '\u{85}' || c == '\u{a0}' || c
        == '\u{1680}' || ('\u{2000}' <= c && c <= '\u{200a}') || c == '\u{2028}' || c
        == '\u{2029}' || c == '\u{202f}' || c == '\u{205f}' || c == '\u{3000}'
}

/// Number of leading whitespace characters of `s`.
pub open spec fn lead_ws(s: Seq<char>) -> nat
    decreases s.len(),
{
    if s.len() > 0 && is_ws(s[0]) {
        1 + lead_ws(s.drop_first())
    } else {
        0
    }
}

/// Length of `s` once its trailing whitespace is gone.
pub open spec fn keep_end(s: Seq<char>) -> nat
    decreases s.len(),
{
    if s.len() > 0 && is_ws(s.last()) {
        keep_end(s.drop_last())
    } else {
        s.len()
    }
}

/// `str::trim_start`.
pub open spec fn trim_start(s: Seq<char>) -> Seq<char> {
    s.skip(lead_ws(s) as int)
}

/// `str::trim_end`.
pub open spec fn trim_end(s: Seq<char>) -> Seq<char> {
    s.take(keep_end(s) as int)
}

/// `str::trim`.
pub open spec fn trim(s: Seq<char>) -> Seq<char> {
    trim_end(trim_start(s))
}

/// Whether `s` is blank: nothing but whitespace, as `s.trim().is_empty()`.
pub open spec fn is_blank(s: Seq<char>) -> bool {
    forall|i: int| 0 <= i < s.len() ==> is_ws(#[trigger] s[i])
}

pub proof fn lemma_lead_ws(s: Seq<char>)
    ensures
        lead_ws(s) <= s.len(),
        forall|i: int| 0 <= i < lead_ws(s) ==> is_ws(#[trigger] s[i]),
        lead_ws(s) < s.len() ==> !is_ws(s[lead_ws(s) as int]),
    decreases s.len(),
{
    if s.len() > 0 && is_ws(s[0]) {
        lemma_lead_ws(s.drop_first());
        assert forall|i: int| 0 <= i < lead_ws(s) implies is_ws(#[trigger] s[i]) by {
            if i > 0 {
                assert(s[i] == s.drop_first()[i - 1]);
            }
        }
    }
}

/// The leading-whitespace count is the first index that is not whitespace.
pub proof fn lemma_lead_ws_is(s: Seq<char>, k: int)
    requires
        0 <= k <= s.len(),
        forall|i: int| 0 <= i < k ==> is_ws(#[trigger] s[i]),
        k < s.len() ==> !is_ws(s[k]),
    ensures
        lead_ws(s) == k,
    decreases s.len(),
{
    if k > 0 {
        assert(is_ws(s[0]));
        assert forall|i: int| 0 <= i < k - 1 implies is_ws(#[trigger] s.drop_first()[i]) by {
            assert(s.drop_first()[i] == s[i + 1]);
        }
        if k - 1 < s.drop_first().len() {
            assert(s.drop_first()[k - 1] == s[k]);
        }
        lemma_lead_ws_is(s.drop_first(), k - 1);
    }
}

pub proof fn lemma_keep_end(s: Seq<char>)
    ensures
        keep_end(s) <= s.len(),
        forall|i: int| keep_end(s) <= i < s.len() ==> is_ws(#[trigger] s[i]),
        keep_end(s) > 0 ==> !is_ws(s[keep_end(s) - 1]),
    decreases s.len(),
{
    if s.len() > 0 && is_ws(s.last()) {
        lemma_keep_end(s.drop_last());
        assert forall|i: int| keep_end(s) <= i < s.len() implies is_ws(#[trigger] s[i]) by {
            if i < s.len() - 1 {
                assert(s[i] == s.drop_last()[i]);
            }
        }
        if keep_end(s) > 0 {
            assert(s[keep_end(s) - 1] == s.drop_last()[keep_end(s) - 1]);
        }
    }
}

/// The kept length is one past the last character that is not whitespace.
pub proof fn lemma_keep_end_is(s: Seq<char>, k: int)
    requires
        0 <= k <= s.len(),
        forall|i: int| k <= i < s.len() ==> is_ws(#[trigger] s[i]),
        k > 0 ==> !is_ws(s[k - 1]),
    ensures
        keep_end(s) == k,
    decreases s.len(),
{
    if k < s.len() {
        assert(is_ws(s[s.len() - 1]));
        assert forall|i: int| k <= i < s.drop_last().len() implies is_ws(#[trigger] s.drop_last()[i]) by {
            assert(s.drop_last()[i] == s[i]);
        }
        if k > 0 {
            assert(s.drop_last()[k - 1] == s[k - 1]);
        }
        lemma_keep_end_is(s.drop_last(), k);
    }
}

/// The trimmed text is empty exactly when the text is blank.
pub proof fn lemma_trim_empty_iff_blank(s: Seq<char>)
    ensures
        (trim(s).len() == 0) == is_blank(s),
{
    lemma_lead_ws(s);
    let t = trim_start(s);
    lemma_keep_end(t);
    let k = lead_ws(s) as int;
    if trim(s).len() == 0 {
        assert forall|i: int| 0 <= i < s.len() implies is_ws(#[trigger] s[i]) by {
            if i >= k {
                assert(t[i - k] == s[i]);
            }
        }
    }
    if is_blank(s) && k < s.len() {
        assert(is_ws(s[k]));
    }
}

/// Whether `s` is blank, i.e. `s.trim().is_empty()`.
pub fn str_is_blank(s: &str) -> (b: bool)
    ensures
        b == is_blank(s@),
        b == (trim(s@).len() == 0),
{
    proof {
        lemma_trim_empty_iff_blank(s@);
    }
    let cs = chars_of(s);
    let mut i: usize = 0;
    while i < cs.len()
        invariant
            cs@ == s@,
            i <= cs.len(),
            forall|j: int| 0 <= j < i ==> is_ws(#[trigger] cs@[j]),
        decreases cs.len() - i,
    {
        if !is_whitespace(cs[i]) {
            assert(!is_ws(s@[i as int]));
            proof {
                lemma_trim_empty_iff_blank(s@);
            }
            return false;
        }
        i = i + 1;
    }
    true
}

/// Decimal digits of `n`, most significant first, with no leading zeros.
pub open spec fn decimal(n: nat) -> Seq<char>
    decreases n,
{
    if n < 10 {
        seq![digit_char(n)]
    } else {
        decimal(n / 10) + seq![digit_char(n % 10)]
    }
}

pub open spec fn digit_char(d: nat) -> char {
    if d == 0 { '0' }
    else if d == 1 { '1' }
    else if d == 2 { '2' }
    else if d == 3 { '3' }
    else if d == 4 { '4' }
    else if d == 5 { '5' }
    else if d == 6 { '6' }
    else if d == 7 { '7' }
    else if d == 8 { '8' }
    else { '9' }
}

fn digit(d: u64) -> (c: char)
    requires
        d < 10,
    ensures
        c == digit_char(d as nat),
{
    if d == 0 { '0' }
    else if d == 1 { '1' }
    else if d == 2 { '2' }
    else if d == 3 { '3' }
    else if d == 4 { '4' }
    else if d == 5 { '5' }
    else if d == 6 { '6' }
    else if d == 7 { '7' }
    else if d == 8 { '8' }
    else { '9' }
}

/// `n.to_string()`: the decimal spelling of `n`.
pub fn decimal_chars(n: u64) -> (out: Vec<char>)
    ensures
        out@ == decimal(n as nat),
    decreases n,
{
    if n < 10 {
        let mut v = Vec::new();
        v.push(digit(n));
        v
    } else {
        let mut v = decimal_chars(n / 10);
        v.push(digit(n % 10));
        v
    }
}

/// Appends `more` to `out`.
pub fn push_all(out: &mut Vec<char>, more: &Vec<char>)
    ensures
        final(out)@ == old(out)@ + more@,
{
    let mut i: usize = 0;
    while i < more.len()
        invariant
            i <= more.len(),
            out@ == old(out)@ + more@.take(i as int),
        decreases more.len() - i,
    {
        out.push(more[i]);
        i = i + 1;
        assert(more@.take(i as int) =~= more@.take((i - 1) as int).push(more@[i - 1]));
    }
    assert(more@.take(more.len() as int) =~= more@);
}

/// Appends the characters of `s` to `out`.
pub fn push_str(out: &mut Vec<char>, s: &str)
    ensures
        final(out)@ == old(out)@ + s@,
{
    let cs = chars_of(s);
    push_all(out, &cs);
}

} // verus!

verus! {

/// Whether two character sequences are equal.
pub fn chars_eq(a: &Vec<char>, b: &Vec<char>) -> (r: bool)
    ensures
        r == (a@ == b@),
{
    if a.len() != b.len() {
        return false;
    }
    let mut i: usize = 0;
    while i < a.len()
        invariant
            a.len() == b.len(),
            i <= a.len(),
            forall|j: int| 0 <= j < i ==> a@[j] == b@[j],
        decreases a.len() - i,
    {
        if a[i] != b[i] {
            return false;
        }
        i = i + 1;
    }
    assert(a@ =~= b@);
    true
}

/// `a == b` on string slices.
pub fn str_eq(a: &str, b: &str) -> (r: bool)
    ensures
        r == (a@ == b@),
{
    let x = chars_of(a);
    let y = chars_of(b);
    chars_eq(&x, &y)
}

/// `char::to_ascii_lowercase`.
pub open spec fn ascii_lower(c: char) -> char {
    if 'A' <= c && c <= 'Z' {
        (((c as u8) + 32) as u8) as char
    } else {
        c
    }
}

pub fn to_ascii_lower(c: char) -> (r: char)
    ensures
        r == ascii_lower(c),
{
    if 'A' <= c && c <= 'Z' {
        ((c as u8) + 32) as char
    } else {
        c
    }
}

/// `str::eq_ignore_ascii_case`.
pub open spec fn eq_ignore_ascii_case(a: Seq<char>, b: Seq<char>) -> bool {
    a.len() == b.len() && forall|i: int| 0 <= i < a.len() ==> ascii_lower(#[trigger] a[i])
        == ascii_lower(b[i])
}

pub fn chars_eq_ignore_ascii_case(a: &Vec<char>, b: &Vec<char>) -> (r: bool)
    ensures
        r == eq_ignore_ascii_case(a@, b@),
{
    if a.len() != b.len() {
        return false;
    }
    let mut i: usize = 0;
    while i < a.len()
        invariant
            a.len() == b.len(),
            i <= a.len(),
            forall|j: int| 0 <= j < i ==> ascii_lower(#[trigger] a@[j]) == ascii_lower(b@[j]),
        decreases a.len() - i,
    {
        if to_ascii_lower(a[i]) != to_ascii_lower(b[i]) {
            assert(ascii_lower(a@[i as int]) != ascii_lower(b@[i as int]));
            return false;
        }
        i = i + 1;
    }
    true
}

} // verus!

verus! {

/// Index of the first `'\n'` in `t`, or `t.len()` when there is none.
pub open spec fn find_nl(t: Seq<char>) -> nat
    decreases t.len(),
{
    if t.len() == 0 {
        0
    } else if t[0] == '\n' {
        0
    } else {
        1 + find_nl(t.drop_first())
    }
}

pub proof fn lemma_find_nl_is(t: Seq<char>, k: int)
    requires
        0 <= k <= t.len(),
        forall|i: int| 0 <= i < k ==> #[trigger] t[i] != '\n',
        k < t.len() ==> t[k] == '\n',
    ensures
        find_nl(t) == k,
    decreases t.len(),
{
    if k > 0 {
        assert(t[0] != '\n');
        assert forall|i: int| 0 <= i < k - 1 implies #[trigger] t.drop_first()[i] != '\n' by {
            assert(t.drop_first()[i] == t[i + 1]);
        }
        if k - 1 < t.drop_first().len() {
            assert(t.drop_first()[k - 1] == t[k]);
        }
        lemma_find_nl_is(t.drop_first(), k - 1);
    }
}

/// A line taken from before a `'\n'` loses a trailing `'\r'` (`\r\n` endings).
pub open spec fn strip_cr(l: Seq<char>) -> Seq<char> {
    if l.len() > 0 && l.last() == '\r' {
        l.drop_last()
    } else {
        l
    }
}

/// `str::lines`: split at `\n` (or `\r\n`); a final line ending adds no empty line.
pub open spec fn lines(s: Seq<char>) -> Seq<Seq<char>>
    decreases s.len(),
{
    if s.len() == 0 {
        Seq::empty()
    } else {
        let k = find_nl(s);
        if k >= s.len() {
            seq![s]
        } else {
            seq![strip_cr(s.take(k as int))] + lines(s.skip(k as int + 1))
        }
    }
}

/// The views of a sequence of character vectors.
pub open spec fn views(v: Seq<Vec<char>>) -> Seq<Seq<char>> {
    v.map_values(|x: Vec<char>| x@)
}

/// `s[a..b]` as a new vector.
pub fn slice_chars(s: &Vec<char>, a: usize, b: usize) -> (out: Vec<char>)
    requires
        a <= b <= s.len(),
    ensures
        out@ == s@.subrange(a as int, b as int),
{
    let mut out = Vec::new();
    let mut i = a;
    while i < b
        invariant
            a <= i <= b <= s.len(),
            out@ == s@.subrange(a as int, i as int),
        decreases b - i,
    {
        out.push(s[i]);
        i = i + 1;
        assert(out@ =~= s@.subrange(a as int, i as int));
    }
    out
}

/// The lines of `s`, as `str::lines` gives them.
pub fn split_lines(s: &Vec<char>) -> (out: Vec<Vec<char>>)
    ensures
        views(out@) == lines(s@),
{
    let mut out: Vec<Vec<char>> = Vec::new();
    let mut pos: usize = 0;
    assert(s@.skip(0) =~= s@);
    assert(views(out@) + lines(s@) =~= lines(s@));
    while pos < s.len()
        invariant
            pos <= s.len(),
            views(out@) + lines(s@.skip(pos as int)) == lines(s@),
        decreases s.len() - pos,
    {
        let ghost t = s@.skip(pos as int);
        let mut k = pos;
        while k < s.len() && s[k] != '\n'
            invariant
                pos <= k <= s.len(),
                forall|i: int| pos <= i < k ==> s@[i] != '\n',
            decreases s.len() - k,
        {
            k = k + 1;
        }
        proof {
            assert forall|i: int| 0 <= i < k - pos implies #[trigger] t[i] != '\n' by {
                assert(t[i] == s@[pos + i]);
            }
            lemma_find_nl_is(t, k - pos);
        }
        let ghost before = out@;
        if k >= s.len() {
            let line = slice_chars(s, pos, k);
            out.push(line);
            proof {
                assert(line@ =~= t);
                assert(lines(t) == seq![t]);
                assert(s@.skip(k as int) =~= Seq::<char>::empty());
                assert(views(out@) =~= views(before) + seq![t]);
            }
            pos = k;
        } else {
            let mut end = k;
            if end > pos && s[end - 1] == '\r' {
                end = end - 1;
            }
            let line = slice_chars(s, pos, end);
            out.push(line);
            proof {
                assert(t.take(k - pos) =~= s@.subrange(pos as int, k as int));
                assert(line@ =~= strip_cr(t.take(k - pos)));
                assert(t.skip(k - pos + 1) =~= s@.skip(k + 1));
                assert(views(out@) =~= views(before) + seq![line@]);
            }
            pos = k + 1;
        }
    }
    assert(s@.skip(pos as int) =~= Seq::<char>::empty());
    assert(views(out@) + Seq::<Seq<char>>::empty() =~= views(out@));
    out
}

} // verus!

verus! {

/// `lead_ws` computed.
pub fn lead_ws_count(s: &Vec<char>) -> (k: usize)
    ensures
        k == lead_ws(s@),
        k <= s.len(),
{
    let mut k: usize = 0;
    while k < s.len() && is_whitespace(s[k])
        invariant
            k <= s.len(),
            forall|i: int| 0 <= i < k ==> is_ws(#[trigger] s@[i]),
        decreases s.len() - k,
    {
        k = k + 1;
    }
    proof {
        lemma_lead_ws_is(s@, k as int);
    }
    k
}

/// `keep_end` computed.
pub fn keep_end_count(s: &Vec<char>) -> (k: usize)
    ensures
        k == keep_end(s@),
        k <= s.len(),
{
    let mut k: usize = s.len();
    while k > 0 && is_whitespace(s[k - 1])
        invariant
            k <= s.len(),
            forall|i: int| k <= i < s.len() ==> is_ws(#[trigger] s@[i]),
        decreases k,
    {
        k = k - 1;
    }
    proof {
        lemma_keep_end_is(s@, k as int);
    }
    k
}

/// `s.trim_start()`.
pub fn trim_start_chars(s: &Vec<char>) -> (out: Vec<char>)
    ensures
        out@ == trim_start(s@),
{
    let k = lead_ws_count(s);
    let out = slice_chars(s, k, s.len());
    assert(out@ =~= trim_start(s@));
    out
}

/// `s.trim()`.
pub fn trim_chars(s: &Vec<char>) -> (out: Vec<char>)
    ensures
        out@ == trim(s@),
{
    let t = trim_start_chars(s);
    let k = keep_end_count(&t);
    let out = slice_chars(&t, 0, k);
    assert(out@ =~= trim(s@));
    out
}

/// Whether every character of `s` is whitespace: `s.trim().is_empty()`.
pub fn chars_blank(s: &Vec<char>) -> (b: bool)
    ensures
        b == is_blank(s@),
        b == (trim(s@).len() == 0),
{
    proof {
        lemma_trim_empty_iff_blank(s@);
    }
    let mut i: usize = 0;
    while i < s.len()
        invariant
            i <= s.len(),
            forall|j: int| 0 <= j < i ==> is_ws(#[trigger] s@[j]),
        decreases s.len() - i,
    {
        if !is_whitespace(s[i]) {
            assert(!is_ws(s@[i as int]));
            proof {
                lemma_trim_empty_iff_blank(s@);
            }
            return false;
        }
        i = i + 1;
    }
    true
}

/// Whether `s` starts with `p`.
pub open spec fn starts_with(s: Seq<char>, p: Seq<char>) -> bool {
    p.len() <= s.len() && s.take(p.len() as int) == p
}

/// Whether `s` ends with `p`.
pub open spec fn ends_with(s: Seq<char>, p: Seq<char>) -> bool {
    p.len() <= s.len() && s.skip(s.len() - p.len()) == p
}

pub fn chars_start_with(s: &Vec<char>, p: &str) -> (b: bool)
    ensures
        b == starts_with(s@, p@),
{
    let pc = chars_of(p);
    if pc.len() > s.len() {
        return false;
    }
    let mut i: usize = 0;
    while i < pc.len()
        invariant
            pc@ == p@,
            pc.len() <= s.len(),
            i <= pc.len(),
            forall|j: int| 0 <= j < i ==> s@[j] == pc@[j],
        decreases pc.len() - i,
    {
        if s[i] != pc[i] {
            assert(s@.take(pc.len() as int)[i as int] != p@[i as int]);
            return false;
        }
        i = i + 1;
    }
    assert(s@.take(pc.len() as int) =~= p@);
    true
}

pub fn chars_end_with(s: &Vec<char>, p: &str) -> (b: bool)
    ensures
        b == ends_with(s@, p@),
{
    let pc = chars_of(p);
    if pc.len() > s.len() {
        return false;
    }
    let off = s.len() - pc.len();
    let mut i: usize = 0;
    while i < pc.len()
        invariant
            pc@ == p@,
            pc.len() <= s.len(),
            off == s.len() - pc.len(),
            i <= pc.len(),
            forall|j: int| 0 <= j < i ==> s@[off + j] == pc@[j],
        decreases pc.len() - i,
    {
        if s[off + i] != pc[i] {
            assert(s@.skip(off as int)[i as int] != p@[i as int]);
            return false;
        }
        i = i + 1;
    }
    assert(s@.skip(off as int) =~= p@);
    true
}

/// Lines joined with `sep` between them (`[T]::join`).
pub open spec fn join(ls: Seq<Seq<char>>, sep: Seq<char>) -> Seq<char>
    decreases ls.len(),
{
    if ls.len() == 0 {
        Seq::empty()
    } else if ls.len() == 1 {
        ls[0]
    } else {
        join(ls.drop_last(), sep) + sep + ls.last()
    }
}

/// `more`'s lines after `out`'s.
pub fn append_lines(out: &mut Vec<Vec<char>>, more: Vec<Vec<char>>)
    ensures
        views(final(out)@) == views(old(out)@) + views(more@),
{
    let mut rest = more;
    let ghost all = views(rest@);
    let n0 = rest.len();
    let mut k: usize = 0;
    while rest.len() > 0
        invariant
            k <= all.len(),
            all.len() == n0,
            views(rest@) == all.skip(k as int),
            views(out@) == views(old(out)@) + all.take(k as int),
        decreases rest.len(),
    {
        let ghost r0 = rest@;
        let x = rest.remove(0);
        proof {
            assert(views(r0).len() == r0.len());
            assert(all.skip(k as int).len() == all.len() - k);
            assert(rest@ =~= r0.subrange(1, r0.len() as int));
            assert(views(rest@) =~= views(r0).subrange(1, r0.len() as int));
            assert(all.skip(k as int).subrange(1, r0.len() as int) =~= all.skip(k + 1));
            assert(views(r0)[0] == x@);
            assert(all.skip(k as int)[0] == all[k as int]);
        }
        let ghost o0 = out@;
        out.push(x);
        proof {
            assert(views(out@) =~= views(o0).push(x@));
            assert(all.take(k + 1) =~= all.take(k as int).push(all[k as int]));
        }
        k = k + 1;
    }
    assert(all.take(k as int) =~= all);
}

pub fn join_lines(ls: &Vec<Vec<char>>, sep: &str) -> (out: Vec<char>)
    ensures
        out@ == join(views(ls@), sep@),
{
    let mut out: Vec<char> = Vec::new();
    let mut i: usize = 0;
    while i < ls.len()
        invariant
            i <= ls.len(),
            out@ == join(views(ls@).take(i as int), sep@),
        decreases ls.len() - i,
    {
        let ghost prev = out@;
        if i > 0 {
            push_str(&mut out, sep);
        }
        push_all(&mut out, &ls[i]);
        proof {
            let v = views(ls@);
            assert(v.take(i + 1).drop_last() =~= v.take(i as int));
            if i == 0 {
                assert(v.take(1) =~= seq![ls@[0]@]);
            }
        }
        i = i + 1;
    }
    assert(views(ls@).take(ls.len() as int) =~= views(ls@));
    out
}

} // verus!

verus! {

/// ASCII whitespace as `u8::is_ascii_whitespace` (and so `str::trim_ascii`) reads it.
pub open spec fn is_aws(c: char) -> bool {
    c == ' ' || c == '\t' || c == '\n' || c == '\u{c}' || c == '\r'
}

pub open spec fn lead_aws(s: Seq<char>) -> nat
    decreases s.len(),
{
    if s.len() > 0 && is_aws(s[0]) {
        1 + lead_aws(s.drop_first())
    } else {
        0
    }
}

pub open spec fn keep_aend(s: Seq<char>) -> nat
    decreases s.len(),
{
    if s.len() > 0 && is_aws(s.last()) {
        keep_aend(s.drop_last())
    } else {
        s.len()
    }
}

/// `str::trim_ascii`.
pub open spec fn trim_ascii(s: Seq<char>) -> Seq<char> {
    let t = s.skip(lead_aws(s) as int);
    t.take(keep_aend(t) as int)
}

proof fn lemma_lead_aws_is(s: Seq<char>, k: int)
    requires
        0 <= k <= s.len(),
        forall|i: int| 0 <= i < k ==> is_aws(#[trigger] s[i]),
        k < s.len() ==> !is_aws(s[k]),
    ensures
        lead_aws(s) == k,
    decreases s.len(),
{
    if k > 0 {
        assert(is_aws(s[0]));
        assert forall|i: int| 0 <= i < k - 1 implies is_aws(#[trigger] s.drop_first()[i]) by {
            assert(s.drop_first()[i] == s[i + 1]);
        }
        if k - 1 < s.drop_first().len() {
            assert(s.drop_first()[k - 1] == s[k]);
        }
        lemma_lead_aws_is(s.drop_first(), k - 1);
    }
}

proof fn lemma_keep_aend_is(s: Seq<char>, k: int)
    requires
        0 <= k <= s.len(),
        forall|i: int| k <= i < s.len() ==> is_aws(#[trigger] s[i]),
        k > 0 ==> !is_aws(s[k - 1]),
    ensures
        keep_aend(s) == k,
    decreases s.len(),
{
    if k < s.len() {
        assert(is_aws(s[s.len() - 1]));
        assert forall|i: int| k <= i < s.drop_last().len() implies is_aws(
            #[trigger] s.drop_last()[i],
        ) by {
            assert(s.drop_last()[i] == s[i]);
        }
        if k > 0 {
            assert(s.drop_last()[k - 1] == s[k - 1]);
        }
        lemma_keep_aend_is(s.drop_last(), k);
    }
}

/// `s.trim_ascii()`.
pub fn trim_ascii_chars(s: &Vec<char>) -> (out: Vec<char>)
    ensures
        out@ == trim_ascii(s@),
{
    let mut a: usize = 0;
    while a < s.len() && (s[a] == ' ' || s[a] == '\t' || s[a] == '\n' || s[a] == '\u{c}' || s[a]
        == '\r')
        invariant
            a <= s.len(),
            forall|i: int| 0 <= i < a ==> is_aws(#[trigger] s@[i]),
        decreases s.len() - a,
    {
        a = a + 1;
    }
    proof {
        lemma_lead_aws_is(s@, a as int);
    }
    let t = slice_chars(s, a, s.len());
    assert(t@ =~= s@.skip(a as int));
    let mut k: usize = t.len();
    while k > 0 && (t[k - 1] == ' ' || t[k - 1] == '\t' || t[k - 1] == '\n' || t[k - 1] == '\u{c}'
        || t[k - 1] == '\r')
        invariant
            k <= t.len(),
            forall|i: int| k <= i < t.len() ==> is_aws(#[trigger] t@[i]),
        decreases k,
    {
        k = k - 1;
    }
    proof {
        lemma_keep_aend_is(t@, k as int);
    }
    let out = slice_chars(&t, 0, k);
    assert(out@ =~= trim_ascii(s@));
    out
}

/// `s.trim_ascii().to_ascii_lowercase()`.
pub fn trim_ascii_lower(s: &str) -> (out: Vec<char>)
    ensures
        out@ == trim_ascii(s@).map_values(|c: char| ascii_lower(c)),
{
    let cs = chars_of(s);
    let t = trim_ascii_chars(&cs);
    let mut out: Vec<char> = Vec::new();
    let mut i: usize = 0;
    while i < t.len()
        invariant
            i <= t.len(),
            t@ == trim_ascii(s@),
            out@ == t@.take(i as int).map_values(|c: char| ascii_lower(c)),
        decreases t.len() - i,
    {
        out.push(to_ascii_lower(t[i]));
        assert(t@.take(i + 1) =~= t@.take(i as int).push(t@[i as int]));
        assert(out@ =~= t@.take(i + 1).map_values(|c: char| ascii_lower(c)));
        i = i + 1;
    }
    assert(t@.take(i as int) =~= t@);
    out
}

} // verus!

verus! {

/// The strings one after another.
pub open spec fn concat(ss: Seq<Seq<char>>) -> Seq<char>
    decreases ss.len(),
{
    if ss.len() == 0 {
        Seq::empty()
    } else {
        concat(ss.drop_last()) + ss.last()
    }
}

pub proof fn lemma_concat_push(ss: Seq<Seq<char>>, x: Seq<char>)
    ensures
        concat(ss.push(x)) == concat(ss) + x,
{
    assert(ss.push(x).drop_last() =~= ss);
}

/// Occurrences of `p` in `s`, counted by the positions where they end.
pub open spec fn count_occ(s: Seq<char>, p: Seq<char>) -> nat
    decreases s.len(),
{
    if s.len() == 0 {
        0
    } else {
        count_occ(s.drop_last(), p) + if ends_with(s, p) {
            1nat
        } else {
            0nat
        }
    }
}

pub fn count_occ_exec(s: &Vec<char>, p: &str) -> (n: usize)
    ensures
        n == count_occ(s@, p@),
{
    let mut n: usize = 0;
    let mut i: usize = 0;
    while i < s.len()
        invariant
            i <= s.len(),
            n <= i,
            n == count_occ(s@.take(i as int), p@),
        decreases s.len() - i,
    {
        let prefix = slice_chars(s, 0, i + 1);
        assert(prefix@ =~= s@.take(i + 1));
        assert(s@.take(i + 1).drop_last() =~= s@.take(i as int));
        if chars_end_with(&prefix, p) {
            n = n + 1;
        }
        i = i + 1;
    }
    assert(s@.take(i as int) =~= s@);
    n
}

} // verus!
