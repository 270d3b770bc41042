//! Shell command lines that reproduce a call: `grpctestify call`, `grpcurl`
//! and `curl`, each with every value single-quoted so it cannot break out of
//! the shell.
use crate::text::{
    chars_eq_ignore_ascii_case, chars_of, decimal, decimal_chars, eq_ignore_ascii_case, is_blank,
    push_all, push_str, str_eq, str_is_blank, string_from_chars,
};
use vstd::prelude::*;

verus! {

broadcast use vstd::string::group_string_axioms;

#[derive(Default, Clone, Copy)]
pub struct TlsPaths<'a> {
    pub ca: Option<&'a str>,
    pub cert: Option<&'a str>,
    pub key: Option<&'a str>,
}

#[derive(Default, Clone, Copy)]
pub struct CallSpec<'a> {
    pub endpoint: &'a str,
    pub address: Option<&'a str>,
    pub protocol: Option<&'a str>,
    pub body: Option<&'a str>,
    pub headers: &'a [(String, String)],
    pub tls: TlsPaths<'a>,
    pub protoset: Option<&'a str>,
    pub insecure: bool,
    pub plaintext: bool,
    pub max_time: Option<u64>,
}

/// One character of a single-quoted shell word: a `'` closes the quote, emits
/// an escaped quote and reopens it.
pub open spec fn quote_piece(c: char) -> Seq<char> {
    if c == '\'' {
        seq!['\'', '\\', '\'', '\'']
    } else {
        seq![c]
    }
}

pub open spec fn quote_body(s: Seq<char>) -> Seq<char>
    decreases s.len(),
{
    if s.len() == 0 {
        Seq::empty()
    } else {
        quote_body(s.drop_last()) + quote_piece(s.last())
    }
}

/// `s` as one single-quoted shell word.
pub open spec fn quoted(s: Seq<char>) -> Seq<char> {
    seq!['\''] + quote_body(s) + seq!['\'']
}

proof fn lemma_quote_body_is_escaped(s: Seq<char>)
    ensures
        quote_body(s) == crate::commands::grpcurl::quote_escaped(s),
    decreases s.len(),
{
    reveal_strlit("'\\''");
    if s.len() > 0 {
        lemma_quote_body_is_escaped(s.drop_last());
        assert(quote_piece(s.last()) =~= if s.last() == '\'' {
            "'\\''"@
        } else {
            seq![s.last()]
        });
    }
}

/// Every value written into these command lines is read back exactly by the
/// shell that runs them.
pub proof fn lemma_quoted_reads_back(s: Seq<char>)
    ensures
        crate::commands::grpcurl::shell_read(quoted(s), false) == s,
{
    reveal_strlit("''");
    reveal_strlit("'");
    lemma_quote_body_is_escaped(s);
    assert(quoted(s) =~= crate::commands::grpcurl::shell_word(s));
    crate::commands::grpcurl::lemma_shell_word_reads_back(s);
}

/// A value that is present and not blank.
pub open spec fn filled(o: Option<&str>) -> bool {
    o is Some && !is_blank(o->0@)
}

/// ` <flag> '<value>'` when the value is present and not blank.
pub open spec fn opt_flag(flag: Seq<char>, o: Option<&str>) -> Seq<char> {
    if filled(o) {
        flag + quoted(o->0@)
    } else {
        Seq::empty()
    }
}

/// ` -H 'name: value'` for one header; a blank name is left out when `skip_blank`.
pub open spec fn header_flag(h: (String, String), skip_blank: bool) -> Seq<char> {
    if skip_blank && is_blank(h.0@) {
        Seq::empty()
    } else {
        " -H "@ + quoted(h.0@ + ": "@ + h.1@)
    }
}

pub open spec fn header_flags(hs: Seq<(String, String)>, skip_blank: bool) -> Seq<char>
    decreases hs.len(),
{
    if hs.len() == 0 {
        Seq::empty()
    } else {
        header_flags(hs.drop_last(), skip_blank) + header_flag(hs.last(), skip_blank)
    }
}

/// ` <flag> <seconds>` when a limit is set.
pub open spec fn max_time_flag(flag: Seq<char>, m: Option<u64>) -> Seq<char> {
    match m {
        Some(n) => flag + decimal(n as nat),
        None => Seq::empty(),
    }
}

/// The transport is named only when it is given and is not the default `grpc`.
pub open spec fn protocol_flag(p: Option<&str>) -> Seq<char> {
    if p is Some && p->0@.len() > 0 && p->0@ != "grpc"@ {
        " --protocol "@ + p->0@
    } else {
        Seq::empty()
    }
}

pub open spec fn grpctestify_call_text(spec: CallSpec) -> Seq<char> {
    "grpctestify call -e "@ + quoted(spec.endpoint@) + opt_flag(" --address "@, spec.address)
        + opt_flag(" -d "@, spec.body) + protocol_flag(spec.protocol) + (if spec.insecure {
        " --insecure"@
    } else if spec.plaintext {
        " --plaintext"@
    } else {
        Seq::empty()
    }) + header_flags(spec.headers@, true) + opt_flag(" --tls-ca "@, spec.tls.ca) + opt_flag(
        " --tls-cert "@,
        spec.tls.cert,
    ) + opt_flag(" --tls-key "@, spec.tls.key) + max_time_flag(" --max-time "@, spec.max_time)
}

pub open spec fn grpctestify_call_file_text(path: Seq<char>, doc_index: usize) -> Seq<char> {
    "grpctestify call "@ + quoted(path) + (if doc_index > 1 {
        " --doc-index "@ + decimal(doc_index as nat)
    } else {
        Seq::empty()
    })
}

pub open spec fn grpcurl_text(spec: CallSpec) -> Seq<char> {
    "grpcurl"@ + (if spec.plaintext {
        " -plaintext"@
    } else if spec.insecure {
        " -insecure"@
    } else {
        Seq::empty()
    }) + opt_flag(" -cacert "@, spec.tls.ca) + opt_flag(" -cert "@, spec.tls.cert) + opt_flag(
        " -key "@,
        spec.tls.key,
    ) + opt_flag(" -protoset "@, spec.protoset) + header_flags(spec.headers@, true) + opt_flag(
        " -d "@,
        spec.body,
    ) + max_time_flag(" -max-time "@, spec.max_time) + seq![' '] + (match spec.address {
        Some(a) => a@,
        None => "localhost:4770"@,
    }) + seq![' '] + spec.endpoint@
}

pub open spec fn curl_text(
    method: Seq<char>,
    url: Seq<char>,
    headers: Seq<(String, String)>,
    body: Option<&str>,
    max_time: Option<u64>,
) -> Seq<char> {
    "curl -L"@ + (if !eq_ignore_ascii_case(method, "GET"@) {
        " -X "@ + method
    } else {
        Seq::empty()
    }) + seq![' '] + quoted(url) + header_flags(headers, false) + opt_flag(" -d "@, body)
        + max_time_flag(" --max-time "@, max_time)
}

fn quote_chars_into(out: &mut Vec<char>, s: &Vec<char>)
    ensures
        final(out)@ == old(out)@ + quoted(s@),
{
    out.push('\'');
    let ghost start = out@;
    let mut i: usize = 0;
    while i < s.len()
        invariant
            i <= s.len(),
            out@ == start + quote_body(s@.take(i as int)),
        decreases s.len() - i,
    {
        let c = s[i];
        if c == '\'' {
            out.push('\'');
            out.push('\\');
            out.push('\'');
            out.push('\'');
        } else {
            out.push(c);
        }
        proof {
            assert(s@.take(i + 1).drop_last() =~= s@.take(i as int));
            assert(quote_body(s@.take(i + 1)) == quote_body(s@.take(i as int)) + quote_piece(c));
        }
        i = i + 1;
        assert(out@ =~= start + quote_body(s@.take(i as int)));
    }
    assert(s@.take(s.len() as int) =~= s@);
    out.push('\'');
    assert(out@ =~= old(out)@ + quoted(s@));
}

/// `'<value>'`, the value single-quoted for a POSIX shell.
fn quote(value: &str) -> (q: Vec<char>)
    ensures
        q@ == quoted(value@),
{
    let mut q = Vec::new();
    let cs = chars_of(value);
    quote_chars_into(&mut q, &cs);
    assert(q@ =~= quoted(value@));
    q
}

fn push_quoted(out: &mut Vec<char>, s: &str)
    ensures
        final(out)@ == old(out)@ + quoted(s@),
{
    let cs = chars_of(s);
    quote_chars_into(out, &cs);
}

fn push_opt_flag(out: &mut Vec<char>, flag: &str, o: Option<&str>)
    ensures
        final(out)@ == old(out)@ + opt_flag(flag@, o),
{
    match o {
        Some(v) => {
            if !str_is_blank(v) {
                push_str(out, flag);
                push_quoted(out, v);
                assert(out@ =~= old(out)@ + opt_flag(flag@, o));
            } else {
                assert(out@ =~= old(out)@ + opt_flag(flag@, o));
            }
        },
        None => {
            assert(out@ =~= old(out)@ + opt_flag(flag@, o));
        },
    }
}

fn push_max_time(out: &mut Vec<char>, flag: &str, m: Option<u64>)
    ensures
        final(out)@ == old(out)@ + max_time_flag(flag@, m),
{
    match m {
        Some(n) => {
            push_str(out, flag);
            let d = decimal_chars(n);
            push_all(out, &d);
            assert(out@ =~= old(out)@ + max_time_flag(flag@, m));
        },
        None => {
            assert(out@ =~= old(out)@ + max_time_flag(flag@, m));
        },
    }
}

fn push_header_flags(out: &mut Vec<char>, headers: &[(String, String)], skip_blank: bool)
    ensures
        final(out)@ == old(out)@ + header_flags(headers@, skip_blank),
{
    let ghost start = out@;
    let mut i: usize = 0;
    while i < headers.len()
        invariant
            i <= headers@.len(),
            out@ == start + header_flags(headers@.take(i as int), skip_blank),
        decreases headers@.len() - i,
    {
        let name = headers[i].0.as_str();
        let value = headers[i].1.as_str();
        let ghost before = out@;
        if !(skip_blank && str_is_blank(name)) {
            push_str(out, " -H ");
            let mut text = chars_of(name);
            push_str(&mut text, ": ");
            push_str(&mut text, value);
            quote_chars_into(out, &text);
        }
        proof {
            assert(headers@.take(i + 1).drop_last() =~= headers@.take(i as int));
            assert(headers@.take(i + 1).last() == headers@[i as int]);
            assert(out@ =~= before + header_flag(headers@[i as int], skip_blank));
        }
        i = i + 1;
        assert(out@ =~= start + header_flags(headers@.take(i as int), skip_blank));
    }
    assert(headers@.take(headers@.len() as int) =~= headers@);
}

/// `grpctestify call -e '<endpoint>' ...`: the command line that repeats this
/// call with `grpctestify call`.
pub fn grpctestify_call(spec: CallSpec<'_>) -> (line: String)
    ensures
        line@ == grpctestify_call_text(spec),
{
    let mut out: Vec<char> = Vec::new();
    push_str(&mut out, "grpctestify call -e ");
    push_quoted(&mut out, spec.endpoint);
    push_opt_flag(&mut out, " --address ", spec.address);
    push_opt_flag(&mut out, " -d ", spec.body);
    let ghost before_protocol = out@;
    match spec.protocol {
        Some(p) => {
            if !p.is_empty() && !str_eq(p, "grpc") {
                push_str(&mut out, " --protocol ");
                push_str(&mut out, p);
            }
        },
        None => {},
    }
    assert(out@ =~= before_protocol + protocol_flag(spec.protocol));
    if spec.insecure {
        push_str(&mut out, " --insecure");
    } else if spec.plaintext {
        push_str(&mut out, " --plaintext");
    }
    push_header_flags(&mut out, spec.headers, true);
    push_opt_flag(&mut out, " --tls-ca ", spec.tls.ca);
    push_opt_flag(&mut out, " --tls-cert ", spec.tls.cert);
    push_opt_flag(&mut out, " --tls-key ", spec.tls.key);
    push_max_time(&mut out, " --max-time ", spec.max_time);
    assert(out@ =~= grpctestify_call_text(spec));
    string_from_chars(out.as_slice())
}

/// `grpctestify call '<path>'`, with `--doc-index` for any document but the first.
pub fn grpctestify_call_file(path: &str, doc_index: usize) -> (line: String)
    ensures
        line@ == grpctestify_call_file_text(path@, doc_index),
{
    let mut out: Vec<char> = Vec::new();
    push_str(&mut out, "grpctestify call ");
    push_quoted(&mut out, path);
    if doc_index > 1 {
        push_str(&mut out, " --doc-index ");
        let d = decimal_chars(doc_index as u64);
        push_all(&mut out, &d);
    }
    assert(out@ =~= grpctestify_call_file_text(path@, doc_index));
    string_from_chars(out.as_slice())
}

/// The `grpcurl` command line for this call, target last as grpcurl wants it.
pub fn grpcurl_line(spec: CallSpec<'_>) -> (line: String)
    ensures
        line@ == grpcurl_text(spec),
{
    let mut out: Vec<char> = Vec::new();
    push_str(&mut out, "grpcurl");
    if spec.plaintext {
        push_str(&mut out, " -plaintext");
    } else if spec.insecure {
        push_str(&mut out, " -insecure");
    }
    push_opt_flag(&mut out, " -cacert ", spec.tls.ca);
    push_opt_flag(&mut out, " -cert ", spec.tls.cert);
    push_opt_flag(&mut out, " -key ", spec.tls.key);
    push_opt_flag(&mut out, " -protoset ", spec.protoset);
    push_header_flags(&mut out, spec.headers, true);
    push_opt_flag(&mut out, " -d ", spec.body);
    push_max_time(&mut out, " -max-time ", spec.max_time);
    out.push(' ');
    match spec.address {
        Some(a) => push_str(&mut out, a),
        None => push_str(&mut out, "localhost:4770"),
    }
    out.push(' ');
    push_str(&mut out, spec.endpoint);
    assert(out@ =~= grpcurl_text(spec));
    string_from_chars(out.as_slice())
}

/// The `curl` command line for an HTTP call; `-X` is spelled out unless the
/// method is `GET`.
pub fn curl_line(
    method: &str,
    url: &str,
    headers: &[(String, String)],
    body: Option<&str>,
    max_time: Option<u64>,
) -> (line: String)
    ensures
        line@ == curl_text(method@, url@, headers@, body, max_time),
{
    let mut out: Vec<char> = Vec::new();
    push_str(&mut out, "curl -L");
    let m = chars_of(method);
    let get = chars_of("GET");
    if !chars_eq_ignore_ascii_case(&m, &get) {
        push_str(&mut out, " -X ");
        push_all(&mut out, &m);
    }
    out.push(' ');
    push_quoted(&mut out, url);
    push_header_flags(&mut out, headers, false);
    push_opt_flag(&mut out, " -d ", body);
    push_max_time(&mut out, " --max-time ", max_time);
    assert(out@ =~= curl_text(method@, url@, headers@, body, max_time));
    string_from_chars(out.as_slice())
}

} // verus!
