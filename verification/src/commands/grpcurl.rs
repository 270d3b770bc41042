//! Pieces of the `grpcurl` command line rebuilt from a test file: shell
//! quoting, the address and whether it is plaintext, and file paths written
//! relative to where the command is run.
use crate::commands::{opt_view, TlsConfig};
use crate::sort::{flatten, items_view, sort_items, flatten_exec, sort_items_exec, SortItem, ItemView};
use crate::text::{
    append_lines, chars_of, join, join_lines, push_all, push_str, starts_with, string_from_chars,
    views,
};
use vstd::prelude::*;

verus! {

broadcast use vstd::string::group_string_axioms;

/// `'` written as `'\''`, so it survives inside single quotes.
pub open spec fn quote_escaped(s: Seq<char>) -> Seq<char>
    decreases s.len(),
{
    if s.len() == 0 {
        Seq::empty()
    } else {
        quote_escaped(s.drop_last()) + if s.last() == '\'' {
            "'\\''"@
        } else {
            seq![s.last()]
        }
    }
}

/// A value as one POSIX shell word: in single quotes, `''` when empty.
pub open spec fn shell_word(s: Seq<char>) -> Seq<char> {
    if s.len() == 0 {
        "''"@
    } else {
        "'"@ + quote_escaped(s) + "'"@
    }
}

/// What a POSIX shell reads from the text `t`: inside single quotes every
/// character stands for itself up to the closing quote; outside them a quote
/// opens a quoted run, a backslash stands for the character after it, and
/// any other character for itself.
pub open spec fn shell_read(t: Seq<char>, quoted: bool) -> Seq<char>
    decreases t.len(),
{
    if t.len() == 0 {
        Seq::empty()
    } else if quoted {
        if t[0] == '\'' {
            shell_read(t.drop_first(), false)
        } else {
            seq![t[0]] + shell_read(t.drop_first(), true)
        }
    } else if t[0] == '\'' {
        shell_read(t.drop_first(), true)
    } else if t[0] == '\\' && t.len() >= 2 {
        seq![t[1]] + shell_read(t.skip(2), false)
    } else {
        seq![t[0]] + shell_read(t.drop_first(), false)
    }
}

/// How one character is written inside single quotes.
pub open spec fn quote_char(c: char) -> Seq<char> {
    if c == '\'' {
        "'\\''"@
    } else {
        seq![c]
    }
}

proof fn lemma_quote_escaped_front(s: Seq<char>)
    requires
        s.len() > 0,
    ensures
        quote_escaped(s) == quote_char(s[0]) + quote_escaped(s.drop_first()),
    decreases s.len(),
{
    if s.len() == 1 {
        assert(s.drop_last() =~= Seq::<char>::empty());
        assert(s.drop_first() =~= Seq::<char>::empty());
        assert(quote_escaped(s) =~= quote_char(s[0]) + quote_escaped(s.drop_first()));
    } else {
        lemma_quote_escaped_front(s.drop_last());
        assert(s.drop_first().drop_last() =~= s.drop_last().drop_first());
        assert(s.drop_first().last() == s.last());
        assert(s.drop_last()[0] == s[0]);
        assert(quote_escaped(s) =~= quote_char(s[0]) + quote_escaped(s.drop_first()));
    }
}

proof fn lemma_read_quoted(s: Seq<char>, tail: Seq<char>)
    ensures
        shell_read(quote_escaped(s) + tail, true) == s + shell_read(tail, true),
    decreases s.len(),
{
    reveal_strlit("'\\''");
    if s.len() == 0 {
        assert(quote_escaped(s) + tail =~= tail);
        assert(s + shell_read(tail, true) =~= shell_read(tail, true));
    } else {
        lemma_quote_escaped_front(s);
        let rest = s.drop_first();
        let x = quote_escaped(rest) + tail;
        lemma_read_quoted(rest, tail);
        let t = quote_escaped(s) + tail;
        assert(t =~= quote_char(s[0]) + x);
        if s[0] == '\'' {
            let t1 = t.drop_first();
            assert(t[0] == '\'');
            assert(t1 =~= seq!['\\', '\'', '\''] + x);
            let t2 = t1.skip(2);
            assert(t2 =~= seq!['\''] + x);
            assert(shell_read(t, true) == shell_read(t1, false));
            assert(t1[0] == '\\' && t1[1] == '\'');
            assert(shell_read(t1, false) == seq!['\''] + shell_read(t2, false));
            assert(t2[0] == '\'');
            assert(t2.drop_first() =~= x);
            assert(shell_read(t2, false) == shell_read(x, true));
            assert(shell_read(t, true) == seq!['\''] + shell_read(x, true));
        } else {
            assert(t[0] == s[0]);
            assert(t.drop_first() =~= x);
        }
        assert(s =~= seq![s[0]] + rest);
        assert(s + shell_read(tail, true) =~= seq![s[0]] + (rest + shell_read(tail, true)));
    }
}

/// Quoting is read back exactly: a shell reading the quoted word gets the
/// value that was quoted, whatever characters it holds.
pub proof fn lemma_shell_word_reads_back(s: Seq<char>)
    ensures
        shell_read(shell_word(s), false) == s,
{
    reveal_strlit("''");
    reveal_strlit("'");
    if s.len() == 0 {
        let w = shell_word(s);
        assert(w =~= seq!['\'', '\'']);
        assert(w.drop_first() =~= seq!['\'']);
        assert(seq!['\''].drop_first() =~= Seq::<char>::empty());
        assert(shell_read(w, false) == shell_read(w.drop_first(), true));
        assert(shell_read(seq!['\''], true) == shell_read(Seq::<char>::empty(), false));
        assert(s =~= Seq::<char>::empty());
    } else {
        let w = shell_word(s);
        assert(w =~= seq!['\''] + (quote_escaped(s) + seq!['\'']));
        assert(w.drop_first() =~= quote_escaped(s) + seq!['\'']);
        assert(w[0] == '\'');
        assert(shell_read(w, false) == shell_read(w.drop_first(), true));
        lemma_read_quoted(s, seq!['\'']);
        assert(seq!['\''].drop_first() =~= Seq::<char>::empty());
        assert(shell_read(seq!['\''], true) == shell_read(Seq::<char>::empty(), false));
        assert(s + shell_read(seq!['\''], true) =~= s);
    }
}

pub fn shell_quote(value: &str) -> (q: String)
    ensures
        q@ == shell_word(value@),
{
    proof {
        reveal_strlit("''");
        reveal_strlit("'");
        reveal_strlit("'\\''");
    }
    let v = chars_of(value);
    if v.len() == 0 {
        return string_from_chars(chars_of("''").as_slice());
    }
    let mut out = chars_of("'");
    let mut i: usize = 0;
    while i < v.len()
        invariant
            i <= v.len(),
            v@ == value@,
            out@ == "'"@ + quote_escaped(v@.take(i as int)),
        decreases v.len() - i,
    {
        if v[i] == '\'' {
            push_str(&mut out, "'\\''");
        } else {
            out.push(v[i]);
        }
        assert(v@.take(i + 1).drop_last() =~= v@.take(i as int));
        i = i + 1;
    }
    assert(v@.take(i as int) =~= v@);
    push_str(&mut out, "'");
    string_from_chars(out.as_slice())
}

/// The address grpcurl dials and whether it is plaintext: an `https://`
/// address is TLS, an `http://` or bare one plaintext; the scheme is dropped.
pub open spec fn address_parts(raw: Seq<char>) -> (Seq<char>, bool) {
    if starts_with(raw, "https://"@) {
        (raw.skip(8), false)
    } else if starts_with(raw, "http://"@) {
        (raw.skip(7), true)
    } else {
        (raw, true)
    }
}

pub fn grpcurl_address_parts(raw: &str) -> (r: (String, bool))
    ensures
        (r.0@, r.1) == address_parts(raw@),
{
    proof {
        reveal_strlit("https://");
        reveal_strlit("http://");
    }
    let v = chars_of(raw);
    if crate::text::chars_start_with(&v, "https://") {
        let rest = crate::text::slice_chars(&v, 8, v.len());
        assert(rest@ =~= raw@.skip(8));
        (string_from_chars(rest.as_slice()), false)
    } else if crate::text::chars_start_with(&v, "http://") {
        let rest = crate::text::slice_chars(&v, 7, v.len());
        assert(rest@ =~= raw@.skip(7));
        (string_from_chars(rest.as_slice()), true)
    } else {
        (string_from_chars(v.as_slice()), true)
    }
}

/// `Path::strip_prefix` (whole components) of `resolved` by `cwd`, by name.
pub uninterp spec fn path_relative(resolved: Seq<char>, cwd: Seq<char>) -> Option<Seq<char>>;

/// Calls `Path::strip_prefix`; the result is the named relative path, as text.
#[verifier::external_body]
fn strip_path_prefix(resolved: &str, cwd: &str) -> (r: Option<String>)
    ensures
        match r {
            Some(s) => path_relative(resolved@, cwd@) == Some(s@),
            None => path_relative(resolved@, cwd@) is None,
        },
{
    std::path::Path::new(resolved).strip_prefix(cwd).ok().map(|p| p.to_string_lossy().to_string())
}

/// `\` written as `/`.
pub open spec fn slashed(s: Seq<char>) -> Seq<char> {
    s.map_values(|c: char| if c == '\\' {
        '/'
    } else {
        c
    })
}

/// The path a command names: relative to the working directory when the file
/// lies below it, as given otherwise; separators as `/`.
pub open spec fn invocation_path(resolved: Seq<char>, relative: Option<Seq<char>>) -> Seq<char> {
    match relative {
        Some(r) => if r.len() > 0 {
            slashed(r)
        } else {
            slashed(resolved)
        },
        None => slashed(resolved),
    }
}

fn slashed_chars(v: &Vec<char>) -> (out: Vec<char>)
    ensures
        out@ == slashed(v@),
{
    let mut out: Vec<char> = Vec::new();
    let mut i: usize = 0;
    while i < v.len()
        invariant
            i <= v.len(),
            out@ == slashed(v@.take(i as int)),
        decreases v.len() - i,
    {
        out.push(
            if v[i] == '\\' {
                '/'
            } else {
                v[i]
            },
        );
        assert(out@ =~= slashed(v@.take(i + 1)));
        i = i + 1;
    }
    assert(v@.take(i as int) =~= v@);
    out
}

/// `invocation_path` computed from the path and its relative form, if any.
pub fn invocation_path_from(resolved: &str, relative: Option<&str>) -> (p: String)
    ensures
        p@ == invocation_path(
            resolved@,
            match relative {
                Some(r) => Some(r@),
                None => None,
            },
        ),
{
    let chosen = match relative {
        Some(r) => if r.is_empty() {
            chars_of(resolved)
        } else {
            chars_of(r)
        },
        None => chars_of(resolved),
    };
    string_from_chars(slashed_chars(&chosen).as_slice())
}

/// A path as a command run from `cwd` names it.
pub fn path_for_invocation(resolved: &str, cwd: &str) -> (p: String)
    ensures
        p@ == invocation_path(resolved@, path_relative(resolved@, cwd@)),
{
    match strip_path_prefix(resolved, cwd) {
        Some(rel) => invocation_path_from(resolved, Some(rel.as_str())),
        None => invocation_path_from(resolved, None),
    }
}

/// Where a file's protobuf schema comes from: a compiled descriptor set, or
/// import paths and `.proto` files.
#[derive(Debug, Clone, PartialEq, Eq)]
pub struct ProtoPaths {
    pub descriptor: Option<String>,
    pub import_paths: Vec<String>,
    pub files: Vec<String>,
}

/// One `grpcurl` invocation reproducing a request of a test file.
#[derive(Debug, Clone, PartialEq, Eq)]
pub struct GrpcurlOutput {
    pub file: String,
    pub doc_index: usize,
    pub address: String,
    pub endpoint: String,
    pub request_index: usize,
    pub command: String,
}

/// A file path as one shell word, written as the command run from `cwd` names
/// it.
pub open spec fn path_word(p: Seq<char>, cwd: Seq<char>) -> Seq<char> {
    shell_word(invocation_path(p, path_relative(p, cwd)))
}

/// `flag path` for a path that is set, nothing otherwise.
pub open spec fn opt_path_words(flag: Seq<char>, p: Option<String>, cwd: Seq<char>) -> Seq<Seq<char>> {
    match p {
        Some(x) => seq![flag, path_word(x@, cwd)],
        None => Seq::empty(),
    }
}

/// The TLS flags: certificate authority, client certificate and key (as
/// paths), server-name override (as given) and `-insecure`.
pub open spec fn tls_words(t: TlsConfig, cwd: Seq<char>) -> Seq<Seq<char>> {
    opt_path_words("-cacert"@, t.ca_cert_path, cwd) + opt_path_words("-cert"@, t.client_cert_path, cwd)
        + opt_path_words("-key"@, t.client_key_path, cwd) + match t.server_name {
        Some(n) => seq!["-servername"@, shell_word(n@)],
        None => Seq::empty(),
    } + if t.insecure_skip_verify {
        seq!["-insecure"@]
    } else {
        Seq::empty()
    }
}

/// `flag path` for every path of the list, in order.
pub open spec fn flag_paths(flag: Seq<char>, paths: Seq<String>, cwd: Seq<char>) -> Seq<Seq<char>>
    decreases paths.len(),
{
    if paths.len() == 0 {
        Seq::empty()
    } else {
        flag_paths(flag, paths.drop_last(), cwd) + seq![flag, path_word(paths.last()@, cwd)]
    }
}

/// The schema flags: the descriptor set when there is one, else every import
/// path and then every proto file.
pub open spec fn proto_words(p: ProtoPaths, cwd: Seq<char>) -> Seq<Seq<char>> {
    match p.descriptor {
        Some(d) => seq!["-protoset"@, path_word(d@, cwd)],
        None => flag_paths("-import-path"@, p.import_paths@, cwd) + flag_paths("-proto"@, p.files@, cwd),
    }
}

/// A header as a sortable item: ordered by its name, written as `-H 'name: value'`.
pub open spec fn header_item(h: (String, String)) -> ItemView {
    (0nat, h.0@, seq!["-H"@, shell_word(h.0@ + ": "@ + h.1@)])
}

/// The header flags, ordered by name (headers of one name keep their order).
pub open spec fn header_words(headers: Seq<(String, String)>) -> Seq<Seq<char>> {
    flatten(sort_items(headers.map_values(|h: (String, String)| header_item(h))))
}

/// The request body sent: `{}` without requests, else the `request_index`-th
/// (1-based; 0 counts as the first), the last one when there are fewer.
pub open spec fn chosen_body(requests: Seq<String>, request_index: usize) -> Seq<char> {
    let idx: int = if request_index == 0 {
        0
    } else {
        request_index - 1
    };
    if requests.len() == 0 {
        "{}"@
    } else if idx < requests.len() {
        requests[idx]@
    } else {
        requests.last()@
    }
}

/// The words of the `grpcurl` command: `-plaintext` for a plaintext address
/// without TLS, `-gzip` when compression is on, the TLS, schema and header
/// flags, the body and finally the address and the method.
pub open spec fn grpcurl_words(
    address_raw: Seq<char>,
    endpoint: Seq<char>,
    tls: Option<TlsConfig>,
    gzip: bool,
    proto: Option<ProtoPaths>,
    headers: Seq<(String, String)>,
    requests: Seq<String>,
    request_index: usize,
    cwd: Seq<char>,
) -> Seq<Seq<char>> {
    let (address, plain) = address_parts(address_raw);
    seq!["grpcurl"@] + (if plain && tls is None {
        seq!["-plaintext"@]
    } else {
        Seq::empty()
    }) + (if gzip {
        seq!["-gzip"@]
    } else {
        Seq::empty()
    }) + match tls {
        Some(t) => tls_words(t, cwd),
        None => Seq::empty(),
    } + match proto {
        Some(p) => proto_words(p, cwd),
        None => Seq::empty(),
    } + header_words(headers) + seq!["-d"@, shell_word(chosen_body(requests, request_index))] + seq![
        shell_word(address),
        shell_word(endpoint),
    ]
}

/// The command sends the request asked for: the word after `-d` (fourth from
/// the end, before the address and the method) is the `request_index`-th
/// request (1-based) when there is one, the first for index 0, the last for
/// an index past the end, and `{}` when the file has no request.
pub proof fn lemma_command_sends_the_asked_request(
    address_raw: Seq<char>,
    endpoint: Seq<char>,
    tls: Option<TlsConfig>,
    gzip: bool,
    proto: Option<ProtoPaths>,
    headers: Seq<(String, String)>,
    requests: Seq<String>,
    request_index: usize,
    cwd: Seq<char>,
)
    ensures
        ({
            let w = grpcurl_words(
                address_raw,
                endpoint,
                tls,
                gzip,
                proto,
                headers,
                requests,
                request_index,
                cwd,
            );
            &&& w.len() >= 5
            &&& w[0] == "grpcurl"@
            &&& w[w.len() - 4] == "-d"@
            &&& w[w.len() - 2] == shell_word(address_parts(address_raw).0)
            &&& w[w.len() - 1] == shell_word(endpoint)
            &&& (1 <= request_index <= requests.len() ==> w[w.len() - 3] == shell_word(
                requests[request_index - 1]@,
            ))
            &&& (request_index == 0 && requests.len() > 0 ==> w[w.len() - 3] == shell_word(
                requests[0]@,
            ))
            &&& (request_index > requests.len() && requests.len() > 0 ==> w[w.len() - 3]
                == shell_word(requests[requests.len() - 1]@))
            &&& (requests.len() == 0 ==> w[w.len() - 3] == shell_word("{}"@))
        }),
{
    let w = grpcurl_words(
        address_raw,
        endpoint,
        tls,
        gzip,
        proto,
        headers,
        requests,
        request_index,
        cwd,
    );
    let (address, plain) = address_parts(address_raw);
    let tail = seq!["-d"@, shell_word(chosen_body(requests, request_index))] + seq![
        shell_word(address),
        shell_word(endpoint),
    ];
    let head = seq!["grpcurl"@] + (if plain && tls is None {
        seq!["-plaintext"@]
    } else {
        Seq::empty()
    }) + (if gzip {
        seq!["-gzip"@]
    } else {
        Seq::empty()
    }) + match tls {
        Some(t) => tls_words(t, cwd),
        None => Seq::empty(),
    } + match proto {
        Some(p) => proto_words(p, cwd),
        None => Seq::empty(),
    } + header_words(headers);
    assert(w =~= head + tail);
    assert(head[0] == "grpcurl"@);
    assert(w[w.len() - 4] == tail[0]);
    assert(w[w.len() - 3] == tail[1]);
    assert(w[w.len() - 2] == tail[2]);
    assert(w[w.len() - 1] == tail[3]);
}

fn word(s: &str) -> (w: Vec<char>)
    ensures
        w@ == s@,
{
    chars_of(s)
}

fn quoted(s: &str) -> (w: Vec<char>)
    ensures
        w@ == shell_word(s@),
{
    let q = shell_quote(s);
    chars_of(q.as_str())
}

fn path_quoted(p: &str, cwd: &str) -> (w: Vec<char>)
    ensures
        w@ == path_word(p@, cwd@),
{
    let inv = path_for_invocation(p, cwd);
    quoted(inv.as_str())
}

fn opt_path_words_exec(flag: &str, p: &Option<String>, cwd: &str) -> (out: Vec<Vec<char>>)
    ensures
        views(out@) == opt_path_words(flag@, *p, cwd@),
{
    let mut out: Vec<Vec<char>> = Vec::new();
    match p {
        Some(x) => {
            out.push(word(flag));
            out.push(path_quoted(x.as_str(), cwd));
            assert(views(out@) =~= seq![flag@, path_word(x@, cwd@)]);
        },
        None => {
            assert(views(out@) =~= Seq::<Seq<char>>::empty());
        },
    }
    out
}

fn tls_words_exec(t: &TlsConfig, cwd: &str) -> (out: Vec<Vec<char>>)
    ensures
        views(out@) == tls_words(*t, cwd@),
{
    let mut out = opt_path_words_exec("-cacert", &t.ca_cert_path, cwd);
    append_lines(&mut out, opt_path_words_exec("-cert", &t.client_cert_path, cwd));
    append_lines(&mut out, opt_path_words_exec("-key", &t.client_key_path, cwd));
    let ghost before = views(out@);
    match &t.server_name {
        Some(n) => {
            out.push(word("-servername"));
            out.push(quoted(n.as_str()));
            assert(views(out@) =~= before + seq!["-servername"@, shell_word(n@)]);
        },
        None => {
            assert(views(out@) =~= before + Seq::<Seq<char>>::empty());
        },
    }
    let ghost mid = views(out@);
    if t.insecure_skip_verify {
        out.push(word("-insecure"));
        assert(views(out@) =~= mid + seq!["-insecure"@]);
    } else {
        assert(views(out@) =~= mid + Seq::<Seq<char>>::empty());
    }
    out
}

fn flag_paths_exec(flag: &str, paths: &Vec<String>, cwd: &str) -> (out: Vec<Vec<char>>)
    ensures
        views(out@) == flag_paths(flag@, paths@, cwd@),
{
    let mut out: Vec<Vec<char>> = Vec::new();
    let mut i: usize = 0;
    while i < paths.len()
        invariant
            i <= paths.len(),
            views(out@) == flag_paths(flag@, paths@.take(i as int), cwd@),
        decreases paths.len() - i,
    {
        let ghost before = views(out@);
        out.push(word(flag));
        out.push(path_quoted(paths[i].as_str(), cwd));
        assert(paths@.take(i + 1).drop_last() =~= paths@.take(i as int));
        assert(views(out@) =~= before + seq![flag@, path_word(paths@[i as int]@, cwd@)]);
        i = i + 1;
    }
    assert(paths@.take(i as int) =~= paths@);
    out
}

fn proto_words_exec(p: &ProtoPaths, cwd: &str) -> (out: Vec<Vec<char>>)
    ensures
        views(out@) == proto_words(*p, cwd@),
{
    match &p.descriptor {
        Some(d) => {
            let mut out: Vec<Vec<char>> = Vec::new();
            out.push(word("-protoset"));
            out.push(path_quoted(d.as_str(), cwd));
            assert(views(out@) =~= seq!["-protoset"@, path_word(d@, cwd@)]);
            out
        },
        None => {
            let mut out = flag_paths_exec("-import-path", &p.import_paths, cwd);
            append_lines(&mut out, flag_paths_exec("-proto", &p.files, cwd));
            out
        },
    }
}

fn header_words_exec(headers: &Vec<(String, String)>) -> (out: Vec<Vec<char>>)
    ensures
        views(out@) == header_words(headers@),
{
    let mut items: Vec<SortItem> = Vec::new();
    let mut i: usize = 0;
    while i < headers.len()
        invariant
            i <= headers.len(),
            items_view(items@) == headers@.take(i as int).map_values(
                |h: (String, String)| header_item(h),
            ),
        decreases headers.len() - i,
    {
        let (k, v) = &headers[i];
        let mut line = chars_of(k.as_str());
        push_str(&mut line, ": ");
        push_all(&mut line, &chars_of(v.as_str()));
        let mut lines: Vec<Vec<char>> = Vec::new();
        lines.push(word("-H"));
        let q = string_from_chars(line.as_slice());
        lines.push(quoted(q.as_str()));
        let ghost it = header_item(headers@[i as int]);
        assert(views(lines@) =~= it.2);
        let ghost before = items_view(items@);
        items.push(SortItem { rank: 0, key: chars_of(k.as_str()), lines });
        assert(items_view(items@) =~= before.push(it));
        assert(headers@.take(i + 1).map_values(|h: (String, String)| header_item(h))
            =~= headers@.take(i as int).map_values(|h: (String, String)| header_item(h)).push(it));
        i = i + 1;
    }
    assert(headers@.take(i as int) =~= headers@);
    let sorted = sort_items_exec(items);
    flatten_exec(sorted)
}

/// The `grpcurl` command reproducing request `request_index` of a test file,
/// from what the file resolves to: its method, address, TLS and schema
/// settings, whether it compresses, its request headers and its request
/// bodies as JSON text. Paths are written as seen from `cwd`. A file without
/// a method is refused.
pub fn build_grpcurl_command(
    endpoint: Option<&str>,
    address_raw: &str,
    tls: Option<&TlsConfig>,
    gzip: bool,
    proto: Option<&ProtoPaths>,
    headers: &Vec<(String, String)>,
    requests: &Vec<String>,
    file: &str,
    cwd: &str,
    doc_index: usize,
    request_index: usize,
) -> (res: Result<GrpcurlOutput, String>)
    ensures
        match endpoint {
            None => res is Err && res->Err_0@ == "Missing ENDPOINT section"@,
            Some(e) => res is Ok && {
                let out = res->Ok_0;
                &&& out.file@ == file@
                &&& out.doc_index == doc_index
                &&& out.address@ == address_parts(address_raw@).0
                &&& out.endpoint@ == e@
                &&& out.request_index == request_index
                &&& out.command@ == join(
                    grpcurl_words(
                        address_raw@,
                        e@,
                        match tls {
                            Some(t) => Some(*t),
                            None => None,
                        },
                        gzip,
                        match proto {
                            Some(p) => Some(*p),
                            None => None,
                        },
                        headers@,
                        requests@,
                        request_index,
                        cwd@,
                    ),
                    " "@,
                )
            },
        },
{
    let e = match endpoint {
        Some(e) => e,
        None => {
            return Err(string_from_chars(chars_of("Missing ENDPOINT section").as_slice()));
        },
    };
    let (address, plain) = grpcurl_address_parts(address_raw);
    let ghost tls_v: Option<TlsConfig> = match tls {
        Some(t) => Some(*t),
        None => None,
    };
    let ghost proto_v: Option<ProtoPaths> = match proto {
        Some(p) => Some(*p),
        None => None,
    };
    let ghost pw: Seq<Seq<char>> = if plain && tls_v is None {
        seq!["-plaintext"@]
    } else {
        Seq::empty()
    };
    let ghost gw: Seq<Seq<char>> = if gzip {
        seq!["-gzip"@]
    } else {
        Seq::empty()
    };
    let ghost tw: Seq<Seq<char>> = match tls_v {
        Some(t) => tls_words(t, cwd@),
        None => Seq::empty(),
    };
    let ghost prw: Seq<Seq<char>> = match proto_v {
        Some(p) => proto_words(p, cwd@),
        None => Seq::empty(),
    };
    let mut parts: Vec<Vec<char>> = Vec::new();
    parts.push(word("grpcurl"));
    assert(views(parts@) =~= seq!["grpcurl"@]);
    if plain && tls.is_none() {
        parts.push(word("-plaintext"));
    }
    assert(views(parts@) =~= seq!["grpcurl"@] + pw);
    if gzip {
        parts.push(word("-gzip"));
    }
    assert(views(parts@) =~= seq!["grpcurl"@] + pw + gw);
    match tls {
        Some(t) => append_lines(&mut parts, tls_words_exec(t, cwd)),
        None => {},
    }
    assert(views(parts@) =~= seq!["grpcurl"@] + pw + gw + tw);
    match proto {
        Some(p) => append_lines(&mut parts, proto_words_exec(p, cwd)),
        None => {},
    }
    assert(views(parts@) =~= seq!["grpcurl"@] + pw + gw + tw + prw);
    append_lines(&mut parts, header_words_exec(headers));
    let ghost w4 = views(parts@);
    assert(w4 =~= seq!["grpcurl"@] + pw + gw + tw + prw + header_words(headers@));
    let idx: usize = if request_index == 0 {
        0
    } else {
        request_index - 1
    };
    let body: Vec<char> = if requests.len() == 0 {
        quoted("{}")
    } else if idx < requests.len() {
        quoted(requests[idx].as_str())
    } else {
        quoted(requests[requests.len() - 1].as_str())
    };
    assert(body@ == shell_word(chosen_body(requests@, request_index)));
    parts.push(word("-d"));
    parts.push(body);
    parts.push(quoted(address.as_str()));
    parts.push(quoted(e));
    assert(views(parts@) =~= w4 + seq!["-d"@, shell_word(chosen_body(requests@, request_index))]
        + seq![shell_word(address@), shell_word(e@)]);
    assert(views(parts@) =~= grpcurl_words(
        address_raw@,
        e@,
        tls_v,
        gzip,
        proto_v,
        headers@,
        requests@,
        request_index,
        cwd@,
    ));
    let command = join_lines(&parts, " ");
    Ok(
        GrpcurlOutput {
            file: string_from_chars(chars_of(file).as_slice()),
            doc_index,
            address,
            endpoint: string_from_chars(chars_of(e).as_slice()),
            request_index,
            command: string_from_chars(command.as_slice()),
        },
    )
}

} // verus!
