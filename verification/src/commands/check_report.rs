//! The findings of `check`: one diagnostic per problem, ordered for reading
//! (by file, line, code and message, equal ones keeping their order), and the
//! counts a summary reports.
use crate::sort::{lemma_lex_antisym, lemma_lex_total, lemma_lex_trans, lex_le, lex_le_exec};
use vstd::prelude::*;

verus! {

broadcast use vstd::string::group_string_axioms;

#[derive(Debug, Clone, Copy, PartialEq, Eq, Structural)]
pub enum DiagnosticSeverity {
    Error,
    Warning,
    Info,
    Hint,
}

/// One finding: where (file and 1-based line), which rule, what, and how to
/// fix it when there is a hint.
pub struct Diagnostic {
    pub file: String,
    pub line: usize,
    pub code: String,
    pub message: String,
    pub severity: DiagnosticSeverity,
    pub hint: Option<String>,
}

pub struct DiagView {
    pub file: Seq<char>,
    pub line: nat,
    pub code: Seq<char>,
    pub message: Seq<char>,
    pub severity: DiagnosticSeverity,
    pub hint: Option<Seq<char>>,
}

pub open spec fn diag_view(d: Diagnostic) -> DiagView {
    DiagView {
        file: d.file@,
        line: d.line as nat,
        code: d.code@,
        message: d.message@,
        severity: d.severity,
        hint: match d.hint {
            Some(h) => Some(h@),
            None => None,
        },
    }
}

pub open spec fn diags_view(s: Seq<Diagnostic>) -> Seq<DiagView> {
    s.map_values(|d: Diagnostic| diag_view(d))
}

/// `a` strictly before `b` in code-point order.
pub open spec fn lex_lt(a: Seq<char>, b: Seq<char>) -> bool {
    lex_le(a, b) && a != b
}

/// `a` does not come after `b` by line, then code, then message.
pub open spec fn line_le(a: DiagView, b: DiagView) -> bool {
    a.line < b.line || (a.line == b.line && (lex_lt(a.code, b.code) || (a.code == b.code && lex_le(
        a.message,
        b.message,
    ))))
}

/// `a` does not come after `b`: compared by file first when `by_file`, then
/// by line, code and message.
pub open spec fn diag_le(a: DiagView, b: DiagView, by_file: bool) -> bool {
    if by_file {
        lex_lt(a.file, b.file) || (a.file == b.file && line_le(a, b))
    } else {
        line_le(a, b)
    }
}

/// `x` placed after every element of the sorted `s` that is not after it.
pub open spec fn insert_diag(s: Seq<DiagView>, x: DiagView, by_file: bool) -> Seq<DiagView>
    decreases s.len(),
{
    if s.len() == 0 {
        seq![x]
    } else if diag_le(s.last(), x, by_file) {
        s.push(x)
    } else {
        insert_diag(s.drop_last(), x, by_file).push(s.last())
    }
}

/// The stable sort of `s` by `diag_le`.
pub open spec fn sort_diags(s: Seq<DiagView>, by_file: bool) -> Seq<DiagView>
    decreases s.len(),
{
    if s.len() == 0 {
        s
    } else {
        insert_diag(sort_diags(s.drop_last(), by_file), s.last(), by_file)
    }
}

proof fn lemma_insert_diag_at(s: Seq<DiagView>, x: DiagView, p: int, by_file: bool)
    requires
        0 <= p <= s.len(),
        p > 0 ==> diag_le(s[p - 1], x, by_file),
        forall|j: int| p <= j < s.len() ==> !diag_le(#[trigger] s[j], x, by_file),
    ensures
        insert_diag(s, x, by_file) == s.take(p) + seq![x] + s.skip(p),
    decreases s.len(),
{
    if s.len() == 0 {
        assert(s.take(p) + seq![x] + s.skip(p) =~= seq![x]);
    } else if p == s.len() {
        assert(s.take(p) + seq![x] + s.skip(p) =~= s.push(x));
    } else {
        assert(!diag_le(s.last(), x, by_file));
        assert forall|j: int| p <= j < s.drop_last().len() implies !diag_le(
            #[trigger] s.drop_last()[j],
            x,
            by_file,
        ) by {
            assert(s.drop_last()[j] == s[j]);
        }
        if p > 0 {
            assert(s.drop_last()[p - 1] == s[p - 1]);
        }
        lemma_insert_diag_at(s.drop_last(), x, p, by_file);
        assert(s.drop_last().take(p) + seq![x] + s.drop_last().skip(p) + seq![s.last()] =~= s.take(
            p,
        ) + seq![x] + s.skip(p));
    }
}

fn chars(s: &String) -> (v: Vec<char>)
    ensures
        v@ == s@,
{
    crate::text::chars_of(s.as_str())
}

fn lex_lt_exec(a: &Vec<char>, b: &Vec<char>) -> (r: bool)
    ensures
        r == lex_lt(a@, b@),
{
    lex_le_exec(a, b) && !crate::text::chars_eq(a, b)
}

fn diag_le_exec(a: &Diagnostic, b: &Diagnostic, by_file: bool) -> (r: bool)
    ensures
        r == diag_le(diag_view(*a), diag_view(*b), by_file),
{
    if by_file {
        let af = chars(&a.file);
        let bf = chars(&b.file);
        if lex_lt_exec(&af, &bf) {
            return true;
        }
        if !crate::text::chars_eq(&af, &bf) {
            return false;
        }
    }
    if a.line != b.line {
        return a.line < b.line;
    }
    let ac = chars(&a.code);
    let bc = chars(&b.code);
    if lex_lt_exec(&ac, &bc) {
        return true;
    }
    if !crate::text::chars_eq(&ac, &bc) {
        return false;
    }
    lex_le_exec(&chars(&a.message), &chars(&b.message))
}

fn sort_diags_exec(diagnostics: &mut Vec<Diagnostic>, by_file: bool)
    ensures
        diags_view(final(diagnostics)@) == sort_diags(diags_view(old(diagnostics)@), by_file),
{
    let mut rest: Vec<Diagnostic> = Vec::new();
    std::mem::swap(&mut rest, diagnostics);
    let ghost all = diags_view(rest@);
    assert(all == diags_view(old(diagnostics)@));
    let n0 = rest.len();
    assert(all.len() == n0);
    let mut out: Vec<Diagnostic> = Vec::new();
    let mut k: usize = 0;
    assert(diags_view(out@) =~= sort_diags(all.take(0), by_file));
    while rest.len() > 0
        invariant
            k <= all.len(),
            all.len() <= usize::MAX,
            diags_view(rest@) == all.skip(k as int),
            diags_view(out@) == sort_diags(all.take(k as int), by_file),
        decreases rest.len(),
    {
        let ghost r0 = rest@;
        let x = rest.remove(0);
        proof {
            assert(diags_view(r0).len() == r0.len());
            assert(all.skip(k as int).len() == all.len() - k);
            assert(diags_view(r0)[0] == diag_view(r0[0]));
            assert(all.skip(k as int)[0] == all[k as int]);
            assert(rest@ =~= r0.subrange(1, r0.len() as int));
            assert(diags_view(rest@) =~= diags_view(r0).subrange(1, r0.len() as int));
            assert(all.skip(k as int).subrange(1, r0.len() as int) =~= all.skip(k + 1));
            assert(diags_view(rest@) =~= all.skip(k + 1));
            assert(diag_view(x) == all[k as int]);
        }
        let mut p = out.len();
        while p > 0 && !diag_le_exec(&out[p - 1], &x, by_file)
            invariant
                p <= out.len(),
                forall|j: int|
                    p <= j < out.len() ==> !diag_le(
                        #[trigger] diags_view(out@)[j],
                        diag_view(x),
                        by_file,
                    ),
            decreases p,
        {
            p = p - 1;
        }
        let ghost before = diags_view(out@);
        proof {
            if p > 0 {
                assert(diag_le(before[p - 1], diag_view(x), by_file));
            }
            lemma_insert_diag_at(before, diag_view(x), p as int, by_file);
        }
        out.insert(p, x);
        proof {
            assert(diags_view(out@) =~= before.take(p as int) + seq![diag_view(x)] + before.skip(
                p as int,
            ));
            assert(all.take(k + 1).drop_last() =~= all.take(k as int));
        }
        k = k + 1;
    }
    proof {
        assert(all.take(k as int) =~= all);
    }
    *diagnostics = out;
}

/// Order diagnostics for reading: by file, line, code and message; equal ones
/// keep the order they were found in.
pub fn sort_diagnostics(diagnostics: &mut Vec<Diagnostic>)
    ensures
        diags_view(final(diagnostics)@) == sort_diags(diags_view(old(diagnostics)@), true),
{
    sort_diags_exec(diagnostics, true);
}

/// Order one file's report diagnostics: by line, code and message; equal ones
/// keep their order.
pub fn sort_report_diagnostics(diagnostics: &mut Vec<Diagnostic>)
    ensures
        diags_view(final(diagnostics)@) == sort_diags(diags_view(old(diagnostics)@), false),
{
    sort_diags_exec(diagnostics, false);
}

proof fn lemma_lex_lt_trans(a: Seq<char>, b: Seq<char>, c: Seq<char>)
    requires
        lex_le(a, b),
        lex_le(b, c),
        lex_lt(a, b) || lex_lt(b, c),
    ensures
        lex_lt(a, c),
{
    lemma_lex_trans(a, b, c);
    if a == c {
        lemma_lex_antisym(a, b);
        lemma_lex_antisym(b, c);
    }
}

proof fn lemma_line_le_total(a: DiagView, b: DiagView)
    ensures
        line_le(a, b) || line_le(b, a),
{
    lemma_lex_total(a.code, b.code);
    lemma_lex_total(a.message, b.message);
}

proof fn lemma_line_le_trans(a: DiagView, b: DiagView, c: DiagView)
    requires
        line_le(a, b),
        line_le(b, c),
    ensures
        line_le(a, c),
{
    if a.line == b.line && b.line == c.line {
        if a.code == b.code && b.code == c.code {
            lemma_lex_trans(a.message, b.message, c.message);
        } else if a.code == b.code {
            assert(lex_lt(a.code, c.code));
        } else if b.code == c.code {
            assert(lex_lt(a.code, c.code));
        } else {
            lemma_lex_lt_trans(a.code, b.code, c.code);
        }
    }
}

proof fn lemma_diag_le_total(a: DiagView, b: DiagView, by_file: bool)
    ensures
        diag_le(a, b, by_file) || diag_le(b, a, by_file),
{
    lemma_line_le_total(a, b);
    lemma_lex_total(a.file, b.file);
}

proof fn lemma_diag_le_trans(a: DiagView, b: DiagView, c: DiagView, by_file: bool)
    requires
        diag_le(a, b, by_file),
        diag_le(b, c, by_file),
    ensures
        diag_le(a, c, by_file),
{
    if by_file {
        if a.file == b.file && b.file == c.file {
            lemma_line_le_trans(a, b, c);
        } else if a.file == b.file {
            assert(lex_lt(a.file, c.file));
        } else if b.file == c.file {
            assert(lex_lt(a.file, c.file));
        } else {
            lemma_lex_lt_trans(a.file, b.file, c.file);
        }
    } else {
        lemma_line_le_trans(a, b, c);
    }
}

/// No diagnostic comes after a later one.
pub open spec fn diags_sorted(s: Seq<DiagView>, by_file: bool) -> bool {
    forall|i: int, j: int| 0 <= i < j < s.len() ==> diag_le(s[i], s[j], by_file)
}

proof fn lemma_insert_bounded(s: Seq<DiagView>, x: DiagView, u: DiagView, by_file: bool)
    requires
        forall|i: int| 0 <= i < s.len() ==> diag_le(#[trigger] s[i], u, by_file),
        diag_le(x, u, by_file),
    ensures
        forall|i: int|
            0 <= i < insert_diag(s, x, by_file).len() ==> diag_le(
                #[trigger] insert_diag(s, x, by_file)[i],
                u,
                by_file,
            ),
    decreases s.len(),
{
    if s.len() == 0 {
        assert(insert_diag(s, x, by_file) == seq![x]);
    } else if diag_le(s.last(), x, by_file) {
        let r = s.push(x);
        assert forall|i: int| 0 <= i < r.len() implies diag_le(#[trigger] r[i], u, by_file) by {
            if i < s.len() {
                assert(r[i] == s[i]);
            }
        }
    } else {
        let t = s.drop_last();
        assert forall|i: int| 0 <= i < t.len() implies diag_le(#[trigger] t[i], u, by_file) by {
            assert(t[i] == s[i]);
        }
        assert(diag_le(s[s.len() - 1], u, by_file));
        lemma_insert_bounded(t, x, u, by_file);
        let q = insert_diag(t, x, by_file);
        let r = q.push(s.last());
        assert forall|i: int| 0 <= i < r.len() implies diag_le(#[trigger] r[i], u, by_file) by {
            if i < q.len() {
                assert(r[i] == q[i]);
            }
        }
    }
}

proof fn lemma_insert_len(s: Seq<DiagView>, x: DiagView, by_file: bool)
    ensures
        insert_diag(s, x, by_file).len() == s.len() + 1,
    decreases s.len(),
{
    if s.len() > 0 && !diag_le(s.last(), x, by_file) {
        lemma_insert_len(s.drop_last(), x, by_file);
    }
}

proof fn lemma_insert_sorted(s: Seq<DiagView>, x: DiagView, by_file: bool)
    requires
        diags_sorted(s, by_file),
    ensures
        diags_sorted(insert_diag(s, x, by_file), by_file),
    decreases s.len(),
{
    if s.len() == 0 {
    } else if diag_le(s.last(), x, by_file) {
        assert forall|i: int, j: int| 0 <= i < j < s.push(x).len() implies diag_le(
            s.push(x)[i],
            s.push(x)[j],
            by_file,
        ) by {
            if j == s.len() {
                if i < s.len() - 1 {
                    lemma_diag_le_trans(s[i], s.last(), x, by_file);
                }
            }
        }
    } else {
        let t = s.drop_last();
        let last = s.last();
        assert(diags_sorted(t, by_file));
        lemma_insert_sorted(t, x, by_file);
        lemma_diag_le_total(last, x, by_file);
        assert forall|i: int| 0 <= i < t.len() implies diag_le(#[trigger] t[i], last, by_file) by {
            assert(s[i] == t[i]);
        }
        lemma_insert_bounded(t, x, last, by_file);
        let r = insert_diag(t, x, by_file);
        lemma_insert_len(t, x, by_file);
        assert forall|i: int, j: int| 0 <= i < j < r.push(last).len() implies diag_le(
            r.push(last)[i],
            r.push(last)[j],
            by_file,
        ) by {
            if j == r.len() {
                assert(diag_le(r[i], last, by_file));
            } else {
                assert(diag_le(r[i], r[j], by_file));
            }
        }
    }
}

proof fn lemma_insert_multiset(s: Seq<DiagView>, x: DiagView, by_file: bool)
    ensures
        insert_diag(s, x, by_file).to_multiset() == s.to_multiset().insert(x),
    decreases s.len(),
{
    broadcast use vstd::seq_lib::to_multiset_build;
    broadcast use vstd::multiset::group_multiset_axioms;

    if s.len() == 0 {
        assert(s.push(x) =~= seq![x]);
    } else if diag_le(s.last(), x, by_file) {
    } else {
        let t = s.drop_last();
        lemma_insert_multiset(t, x, by_file);
        assert(s =~= t.push(s.last()));
        assert(t.to_multiset().insert(x).insert(s.last()) =~= t.to_multiset().insert(s.last()).insert(
            x,
        ));
    }
}

/// Sorting diagnostics puts them in reading order without losing or adding
/// one: the result is ordered, and holds each diagnostic as often as the
/// input did.
pub proof fn lemma_sorted_diagnostics_are_an_ordered_reordering(s: Seq<DiagView>, by_file: bool)
    ensures
        diags_sorted(sort_diags(s, by_file), by_file),
        sort_diags(s, by_file).to_multiset() == s.to_multiset(),
    decreases s.len(),
{
    broadcast use vstd::seq_lib::to_multiset_build;

    if s.len() > 0 {
        lemma_sorted_diagnostics_are_an_ordered_reordering(s.drop_last(), by_file);
        lemma_insert_sorted(sort_diags(s.drop_last(), by_file), s.last(), by_file);
        lemma_insert_multiset(sort_diags(s.drop_last(), by_file), s.last(), by_file);
        assert(s =~= s.drop_last().push(s.last()));
    }
}

/// How many diagnostics have severity `sev`.
pub open spec fn count_severity(s: Seq<Diagnostic>, sev: DiagnosticSeverity) -> nat
    decreases s.len(),
{
    if s.len() == 0 {
        0
    } else {
        count_severity(s.drop_last(), sev) + if s.last().severity == sev {
            1nat
        } else {
            0nat
        }
    }
}

/// What a `check` run found.
#[derive(Debug, Clone, Copy, PartialEq, Eq)]
pub struct CheckSummary {
    pub total_files: usize,
    pub files_with_errors: usize,
    pub total_errors: usize,
    pub total_warnings: usize,
}

fn count_severity_exec(diagnostics: &Vec<Diagnostic>, sev: DiagnosticSeverity) -> (n: usize)
    ensures
        n == count_severity(diagnostics@, sev),
{
    let mut n: usize = 0;
    let mut i: usize = 0;
    while i < diagnostics.len()
        invariant
            i <= diagnostics.len(),
            n == count_severity(diagnostics@.take(i as int), sev),
            n <= i,
        decreases diagnostics.len() - i,
    {
        assert(diagnostics@.take(i + 1).drop_last() =~= diagnostics@.take(i as int));
        if diagnostics[i].severity == sev {
            n = n + 1;
        }
        i = i + 1;
    }
    assert(diagnostics@.take(i as int) =~= diagnostics@);
    n
}

/// The run's summary: the file counts as given, the errors and warnings
/// counted among the diagnostics.
pub fn build_summary(diagnostics: &Vec<Diagnostic>, total_files: usize, files_with_errors: usize) -> (s:
    CheckSummary)
    ensures
        s.total_files == total_files,
        s.files_with_errors == files_with_errors,
        s.total_errors == count_severity(diagnostics@, DiagnosticSeverity::Error),
        s.total_warnings == count_severity(diagnostics@, DiagnosticSeverity::Warning),
{
    CheckSummary {
        total_files,
        files_with_errors,
        total_errors: count_severity_exec(diagnostics, DiagnosticSeverity::Error),
        total_warnings: count_severity_exec(diagnostics, DiagnosticSeverity::Warning),
    }
}

} // verus!
