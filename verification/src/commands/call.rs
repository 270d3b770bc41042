//! `call`: the decisions around a single call that do not need the network —
//! its deadline, the headers named on the command line, whether the endpoint
//! is an HTTP request, which TLS settings apply and what an HTTP error says.
use crate::commands::{opt_view, tls_config_from_flags, TlsConfig};
use crate::parser::find_char;
use crate::text::{chars_of, decimal, decimal_chars, push_all, push_str, string_from_chars, trim};
use vstd::prelude::*;

verus! {

broadcast use vstd::string::group_string_axioms;

/// The call's overall deadline is `--max-time`, whatever the connect timeout.
pub fn resolve_call_timeout_seconds(_connect_timeout: u64, max_time: u64) -> (t: u64)
    ensures
        t == max_time,
{
    max_time
}

/// The `key: value` pairs of `-H` flags, trimmed; a flag without `:` or with
/// an empty key names no header.
pub open spec fn header_pairs_of(flags: Seq<Seq<char>>) -> Seq<(Seq<char>, Seq<char>)>
    decreases flags.len(),
{
    if flags.len() == 0 {
        Seq::empty()
    } else {
        let f = flags.last();
        let k = find_char(f, ':');
        header_pairs_of(flags.drop_last()) + if k < f.len() && trim(f.take(k as int)).len() > 0 {
            seq![(trim(f.take(k as int)), trim(f.skip(k as int + 1)))]
        } else {
            Seq::empty()
        }
    }
}

pub open spec fn pairs_view(v: Seq<(String, String)>) -> Seq<(Seq<char>, Seq<char>)> {
    v.map_values(|p: (String, String)| (p.0@, p.1@))
}

pub fn header_pairs(flags: &Vec<String>) -> (pairs: Vec<(String, String)>)
    ensures
        pairs_view(pairs@) == header_pairs_of(crate::parser::strs(flags@)),
{
    let ghost fv = crate::parser::strs(flags@);
    let mut out: Vec<(String, String)> = Vec::new();
    let mut i: usize = 0;
    while i < flags.len()
        invariant
            i <= flags@.len(),
            fv == crate::parser::strs(flags@),
            pairs_view(out@) == header_pairs_of(fv.take(i as int)),
        decreases flags@.len() - i,
    {
        let f = chars_of(flags[i].as_str());
        assert(fv.take(i + 1).drop_last() =~= fv.take(i as int));
        assert(fv[i as int] == f@);
        let k = crate::parser::find_char_exec(&f, ':');
        if k < f.len() {
            let head = crate::text::slice_chars(&f, 0, k);
            assert(head@ =~= f@.take(k as int));
            let key = crate::text::trim_chars(&head);
            if key.len() > 0 {
                let rest = crate::text::slice_chars(&f, k + 1, f.len());
                assert(rest@ =~= f@.skip(k + 1));
                let value = crate::text::trim_chars(&rest);
                let ghost o0 = out@;
                out.push((string_from_chars(key.as_slice()), string_from_chars(value.as_slice())));
                assert(pairs_view(out@) =~= pairs_view(o0).push((key@, value@)));
            }
        }
        i = i + 1;
    }
    assert(fv.take(i as int) =~= fv);
    out
}

/// A method name: a run of ASCII letters.
pub open spec fn http_method(m: Seq<char>) -> bool {
    m.len() > 0 && forall|i: int|
        0 <= i < m.len() ==> ('a' <= #[trigger] m[i] <= 'z' || 'A' <= m[i] <= 'Z')
}

/// An HTTP endpoint `METHOD /path`: split at the first space, both parts
/// trimmed and non-empty, the method upper-cased.
pub open spec fn http_endpoint_of(endpoint: Seq<char>) -> Option<(Seq<char>, Seq<char>)> {
    let t = trim(endpoint);
    let k = find_char(t, ' ');
    if k >= t.len() {
        None
    } else {
        let m = trim(t.take(k as int));
        let p = trim(t.skip(k as int + 1));
        if m.len() == 0 || p.len() == 0 || !http_method(m) {
            None
        } else {
            Some((m.map_values(|c: char| ascii_upper(c)), p))
        }
    }
}

pub open spec fn ascii_upper(c: char) -> char {
    if 'a' <= c && c <= 'z' {
        ((c as u8) - 32) as u8 as char
    } else {
        c
    }
}

fn to_ascii_upper(c: char) -> (r: char)
    ensures
        r == ascii_upper(c),
{
    if 'a' <= c && c <= 'z' {
        ((c as u8) - 32) as char
    } else {
        c
    }
}

pub fn http_endpoint(endpoint: &str) -> (r: Option<(String, String)>)
    ensures
        match r {
            Some((m, p)) => http_endpoint_of(endpoint@) == Some((m@, p@)),
            None => http_endpoint_of(endpoint@) is None,
        },
{
    let t = crate::text::trim_chars(&chars_of(endpoint));
    let k = crate::parser::find_char_exec(&t, ' ');
    if k >= t.len() {
        return None;
    }
    let head = crate::text::slice_chars(&t, 0, k);
    assert(head@ =~= t@.take(k as int));
    let m = crate::text::trim_chars(&head);
    let rest = crate::text::slice_chars(&t, k + 1, t.len());
    assert(rest@ =~= t@.skip(k + 1));
    let p = crate::text::trim_chars(&rest);
    if m.len() == 0 || p.len() == 0 {
        return None;
    }
    let ghost expect = if http_method(m@) {
        Some((m@.map_values(|c: char| ascii_upper(c)), p@))
    } else {
        None
    };
    assert(http_endpoint_of(endpoint@) == expect);
    let mut upper: Vec<char> = Vec::new();
    let mut i: usize = 0;
    while i < m.len()
        invariant
            i <= m.len(),
            http_endpoint_of(endpoint@) == expect,
            expect == if http_method(m@) {
                Some((m@.map_values(|c: char| ascii_upper(c)), p@))
            } else {
                None
            },
            forall|j: int| 0 <= j < i ==> ('a' <= #[trigger] m@[j] <= 'z' || 'A' <= m@[j] <= 'Z'),
            upper@ == m@.take(i as int).map_values(|c: char| ascii_upper(c)),
        decreases m.len() - i,
    {
        let c = m[i];
        if !(('a' <= c && c <= 'z') || ('A' <= c && c <= 'Z')) {
            assert(!http_method(m@));
            return None;
        }
        upper.push(to_ascii_upper(c));
        assert(upper@ =~= m@.take(i + 1).map_values(|c: char| ascii_upper(c)));
        i = i + 1;
    }
    assert(m@.take(i as int) =~= m@);
    Some((string_from_chars(upper.as_slice()), string_from_chars(p.as_slice())))
}

/// What an HTTP error status says: nothing below 400, and nothing when the
/// output is silenced without `--show-error` or `--fail`.
pub fn error_notice(show_error: bool, silent: bool, fail: bool, status: u16) -> (n: Option<String>)
    ensures
        match n {
            Some(s) => status >= 400 && (show_error || !silent || fail) && s@ == "* HTTP "@
                + decimal(status as nat) + ": the answer is an error"@,
            None => status < 400 || !(show_error || !silent || fail),
        },
{
    if status < 400 {
        return None;
    }
    if show_error || !silent || fail {
        let mut out = chars_of("* HTTP ");
        push_all(&mut out, &decimal_chars(status as u64));
        push_str(&mut out, ": the answer is an error");
        return Some(string_from_chars(out.as_slice()));
    }
    None
}

/// The gRPC-only flags set on a call whose target is HTTP, in flag order.
pub open spec fn grpc_only_flags(
    insecure: bool,
    plaintext: bool,
    tls_ca: bool,
    tls_cert: bool,
    tls_key: bool,
    protocol: Seq<char>,
) -> Seq<Seq<char>> {
    (if insecure {
        seq!["--insecure"@]
    } else {
        Seq::empty()
    }) + (if plaintext {
        seq!["--plaintext"@]
    } else {
        Seq::empty()
    }) + (if tls_ca {
        seq!["--tls-ca"@]
    } else {
        Seq::empty()
    }) + (if tls_cert {
        seq!["--tls-cert"@]
    } else {
        Seq::empty()
    }) + (if tls_key {
        seq!["--tls-key"@]
    } else {
        Seq::empty()
    }) + (if protocol != "grpc"@ {
        seq!["--protocol"@]
    } else {
        Seq::empty()
    })
}

pub fn flags_an_http_call_cannot_honour(
    insecure: bool,
    plaintext: bool,
    tls_ca: bool,
    tls_cert: bool,
    tls_key: bool,
    protocol: &str,
) -> (named: Vec<&'static str>)
    ensures
        named@.map_values(|s: &str| s@) == grpc_only_flags(
            insecure,
            plaintext,
            tls_ca,
            tls_cert,
            tls_key,
            protocol@,
        ),
{
    let mut named: Vec<&'static str> = Vec::new();
    if insecure {
        named.push("--insecure");
    }
    if plaintext {
        named.push("--plaintext");
    }
    if tls_ca {
        named.push("--tls-ca");
    }
    if tls_cert {
        named.push("--tls-cert");
    }
    if tls_key {
        named.push("--tls-key");
    }
    if !crate::text::str_eq(protocol, "grpc") {
        named.push("--protocol");
    }
    assert(named@.map_values(|s: &str| s@) =~= grpc_only_flags(
        insecure,
        plaintext,
        tls_ca,
        tls_cert,
        tls_key,
        protocol@,
    ));
    named
}

/// The address a call dials: the `--address` flag, else the document's.
pub fn dial_address(flag: Option<&str>, document_address: &str) -> (a: String)
    ensures
        a@ == match flag {
            Some(f) => f@,
            None => document_address@,
        },
{
    match flag {
        Some(address) => address.to_owned(),
        None => document_address.to_owned(),
    }
}

/// `c` names the same files and server as `d`.
pub open spec fn same_paths(c: TlsConfig, d: Option<TlsConfig>) -> bool {
    match d {
        Some(x) => c.ca_cert_path == x.ca_cert_path && c.client_cert_path == x.client_cert_path
            && c.client_key_path == x.client_key_path && c.server_name == x.server_name,
        None => false,
    }
}

/// Whether TLS settings turn verification off.
pub open spec fn unverified(t: Option<TlsConfig>) -> bool {
    match t {
        Some(c) => c.insecure_skip_verify,
        None => false,
    }
}

/// The TLS settings a call uses. Any of `--plaintext` or the certificate
/// flags overrides the document: `--plaintext` means none, the certificate
/// flags mean verified TLS with those files. Without them the document's
/// settings apply. `--insecure` then turns verification off, asking for TLS
/// where nothing else did.
pub fn call_tls_config(
    plaintext: bool,
    tls_ca: Option<&str>,
    tls_cert: Option<&str>,
    tls_key: Option<&str>,
    insecure: bool,
    document_tls: Option<TlsConfig>,
) -> (t: Option<TlsConfig>)
    ensures
        ({
            let from_flags = plaintext || tls_ca is Some || tls_cert is Some || tls_key is Some;
            let base_none = if from_flags {
                plaintext
            } else {
                document_tls is None
            };
            &&& t is Some <==> (!base_none || insecure)
            &&& t matches Some(c) ==> {
                &&& c.insecure_skip_verify == (insecure || (!from_flags && unverified(document_tls)))
                &&& if base_none {
                    c.ca_cert_path is None && c.client_cert_path is None && c.client_key_path is None
                        && c.server_name is None
                } else if from_flags {
                    &&& opt_view(c.ca_cert_path) == match tls_ca {
                        Some(s) => Some(s@),
                        None => None,
                    }
                    &&& opt_view(c.client_cert_path) == match tls_cert {
                        Some(s) => Some(s@),
                        None => None,
                    }
                    &&& opt_view(c.client_key_path) == match tls_key {
                        Some(s) => Some(s@),
                        None => None,
                    }
                    &&& c.server_name is None
                } else {
                    same_paths(c, document_tls)
                }
            }
        }),
{
    let from_flags = plaintext || tls_ca.is_some() || tls_cert.is_some() || tls_key.is_some();
    let base = if from_flags {
        if plaintext {
            None
        } else {
            Some(tls_config_from_flags(tls_ca, tls_cert, tls_key, false))
        }
    } else {
        document_tls
    };
    if insecure {
        match base {
            Some(t) => Some(
                TlsConfig {
                    ca_cert_path: t.ca_cert_path,
                    client_cert_path: t.client_cert_path,
                    client_key_path: t.client_key_path,
                    server_name: t.server_name,
                    insecure_skip_verify: true,
                },
            ),
            None => Some(tls_config_from_flags(None, None, None, true)),
        }
    } else {
        base
    }
}

} // verus!
