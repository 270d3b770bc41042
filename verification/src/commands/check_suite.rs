//! What `check` says of a whole suite: the documents it counted, and the
//! notes it adds when no document covers an error case or has an ASSERTS
//! section.
use crate::commands::check_report::{diag_view, diags_view, DiagView, Diagnostic, DiagnosticSeverity};
use crate::parser::{GctfDocument, SectionType};
use crate::text::{chars_of, decimal, decimal_chars, push_all, push_str, string_from_chars};
use vstd::prelude::*;

verus! {

broadcast use vstd::string::group_string_axioms;

/// The counts `check` keeps over a suite's documents.
#[derive(Clone, Copy)]
pub struct SuiteTally {
    pub total_docs: usize,
    pub grpc_docs: usize,
    pub with_error: usize,
    pub with_asserts: usize,
}

/// Whether some section of `doc` is of type `t`.
pub open spec fn has_section(doc: GctfDocument, t: SectionType) -> bool {
    exists|i: int| 0 <= i < doc.sections@.len() && (#[trigger] doc.sections@[i]).section_type == t
}

pub fn sections_include(doc: &GctfDocument, t: SectionType) -> (b: bool)
    ensures
        b == has_section(*doc, t),
{
    let mut i: usize = 0;
    while i < doc.sections.len()
        invariant
            i <= doc.sections@.len(),
            forall|j: int| 0 <= j < i ==> (#[trigger] doc.sections@[j]).section_type != t,
        decreases doc.sections@.len() - i,
    {
        if doc.sections[i].section_type == t {
            return true;
        }
        i = i + 1;
    }
    false
}

/// Count one document: every document, the gRPC ones, those with an ERROR
/// section and those with an ASSERTS section.
pub fn count_document(t: SuiteTally, doc: &GctfDocument, is_grpc: bool) -> (r: SuiteTally)
    requires
        t.total_docs < usize::MAX,
        t.grpc_docs <= t.total_docs,
        t.with_error <= t.total_docs,
        t.with_asserts <= t.total_docs,
    ensures
        r.total_docs == t.total_docs + 1,
        r.grpc_docs == t.grpc_docs + if is_grpc {
            1int
        } else {
            0int
        },
        r.with_error == t.with_error + if has_section(*doc, SectionType::Error) {
            1int
        } else {
            0int
        },
        r.with_asserts == t.with_asserts + if has_section(*doc, SectionType::Asserts) {
            1int
        } else {
            0int
        },
{
    let e = sections_include(doc, SectionType::Error);
    let a = sections_include(doc, SectionType::Asserts);
    SuiteTally {
        total_docs: t.total_docs + 1,
        grpc_docs: if is_grpc {
            t.grpc_docs + 1
        } else {
            t.grpc_docs
        },
        with_error: if e {
            t.with_error + 1
        } else {
            t.with_error
        },
        with_asserts: if a {
            t.with_asserts + 1
        } else {
            t.with_asserts
        },
    }
}

pub open spec fn no_error_case_note(grpc_docs: nat) -> DiagView {
    DiagView {
        file: "<suite>"@,
        line: 1,
        code: "NO_ERROR_CASE_COVERAGE"@,
        message: "No test in this suite exercises an ERROR case (0/"@ + decimal(grpc_docs)
            + " documents have an ERROR section)"@,
        severity: DiagnosticSeverity::Info,
        hint: Some(
            "Consider adding at least one test asserting a gRPC error status for the covered services"@,
        ),
    }
}

pub open spec fn no_asserts_note(total_docs: nat) -> DiagView {
    DiagView {
        file: "<suite>"@,
        line: 1,
        code: "NO_ASSERTS_COVERAGE"@,
        message: "No test in this suite has an ASSERTS section (0/"@ + decimal(total_docs)
            + " documents) \u{2014} every test relies on exact RESPONSE/ERROR body matching"@,
        severity: DiagnosticSeverity::Info,
        hint: Some(
            "Exact-match RESPONSE/ERROR is a real check, but ASSERTS lets you check specific fields without pinning the whole payload"@,
        ),
    }
}

/// The suite-level notes: one when gRPC documents exist and none has an
/// ERROR section, then one when documents exist and none has an ASSERTS
/// section.
pub open spec fn suite_notes(t: SuiteTally) -> Seq<DiagView> {
    (if t.grpc_docs > 0 && t.with_error == 0 {
        seq![no_error_case_note(t.grpc_docs as nat)]
    } else {
        Seq::empty()
    }) + (if t.total_docs > 0 && t.with_asserts == 0 {
        seq![no_asserts_note(t.total_docs as nat)]
    } else {
        Seq::empty()
    })
}

fn text(s: &str) -> (r: String)
    ensures
        r@ == s@,
{
    string_from_chars(chars_of(s).as_slice())
}

pub fn suite_diagnostics(t: &SuiteTally) -> (out: Vec<Diagnostic>)
    ensures
        diags_view(out@) == suite_notes(*t),
{
    let mut out: Vec<Diagnostic> = Vec::new();
    let ghost first: Seq<DiagView> = if t.grpc_docs > 0 && t.with_error == 0 {
        seq![no_error_case_note(t.grpc_docs as nat)]
    } else {
        Seq::empty()
    };
    if t.grpc_docs > 0 && t.with_error == 0 {
        let mut msg = chars_of("No test in this suite exercises an ERROR case (0/");
        push_all(&mut msg, &decimal_chars(t.grpc_docs as u64));
        push_str(&mut msg, " documents have an ERROR section)");
        let d = Diagnostic {
            file: text("<suite>"),
            line: 1,
            code: text("NO_ERROR_CASE_COVERAGE"),
            message: string_from_chars(msg.as_slice()),
            severity: DiagnosticSeverity::Info,
            hint: Some(
                text(
                    "Consider adding at least one test asserting a gRPC error status for the covered services",
                ),
            ),
        };
        assert(diag_view(d) == no_error_case_note(t.grpc_docs as nat));
        out.push(d);
    }
    assert(diags_view(out@) =~= first);
    if t.total_docs > 0 && t.with_asserts == 0 {
        let mut msg = chars_of("No test in this suite has an ASSERTS section (0/");
        push_all(&mut msg, &decimal_chars(t.total_docs as u64));
        push_str(
            &mut msg,
            " documents) \u{2014} every test relies on exact RESPONSE/ERROR body matching",
        );
        let d = Diagnostic {
            file: text("<suite>"),
            line: 1,
            code: text("NO_ASSERTS_COVERAGE"),
            message: string_from_chars(msg.as_slice()),
            severity: DiagnosticSeverity::Info,
            hint: Some(
                text(
                    "Exact-match RESPONSE/ERROR is a real check, but ASSERTS lets you check specific fields without pinning the whole payload",
                ),
            ),
        };
        assert(diag_view(d) == no_asserts_note(t.total_docs as nat));
        let ghost before = out@;
        out.push(d);
        assert(diags_view(out@) =~= diags_view(before).push(diag_view(d)));
    }
    assert(diags_view(out@) =~= suite_notes(*t));
    out
}

} // verus!
