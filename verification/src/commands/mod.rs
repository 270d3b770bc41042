use vstd::prelude::*;
use vstd::string::StringSliceAdditionalSpecFns;
use vstd::utf8::{decode_utf8, encode_utf8_decode_utf8, is_char_boundary};

pub mod bench;
pub mod bench_aggregate;
pub mod bench_compare;
pub mod bench_config;
pub mod bench_plan;
pub mod bench_report;
pub mod call;
pub mod call_line;
pub mod check;
pub mod check_report;
pub mod check_suite;
pub mod docs;
pub mod docs_group;
pub mod docs_group_title;
pub mod docs_render;
pub mod explain;
pub mod graph;
pub mod grpcurl;
pub mod health;
pub mod index_cmd;
pub mod fmt;
pub mod fmt_stable;

verus! {

broadcast use vstd::string::group_string_axioms;

/// `s` cut to `max_len` bytes with a trailing `...` when it is longer; kept
/// whole when it fits or when `max_len < 3` leaves no room for the ellipsis.
pub open spec fn truncated(s: &str, max_len: usize) -> Seq<char> {
    if max_len < 3 || s.len() <= max_len {
        s@
    } else {
        decode_utf8(s.spec_bytes().subrange(0, max_len - 3)) + "..."@
    }
}

/// Truncate string to max length with ellipsis.
/// `max_len` must be >= 3; if the string fits, it is returned as-is.
pub fn truncate_str(s: &str, max_len: usize) -> (out: String)
    requires
        max_len < 3 || s.len() <= max_len || is_char_boundary(
            s.spec_bytes(),
            max_len - 3,
        ),
    ensures
        out@ == truncated(s, max_len),
{
    if max_len < 3 || s.len() <= max_len {
        s.to_owned()
    } else {
        let (head, _) = s.split_at(max_len - 3);
        proof {
            encode_utf8_decode_utf8(head@);
            assert(head.spec_bytes() =~= s.spec_bytes().subrange(0, max_len - 3));
            assert(decode_utf8(s.spec_bytes().subrange(0, max_len - 3)) == head@);
        }
        let mut out = head.to_owned();
        out.append("...");
        out
    }
}

/// TLS settings of a connection.
#[derive(Debug, Clone, PartialEq, Eq)]
pub struct TlsConfig {
    pub ca_cert_path: Option<String>,
    pub client_cert_path: Option<String>,
    pub client_key_path: Option<String>,
    pub server_name: Option<String>,
    pub insecure_skip_verify: bool,
}

pub open spec fn opt_view(o: Option<String>) -> Option<Seq<char>> {
    match o {
        Some(s) => Some(s@),
        None => None,
    }
}

fn copy_opt(o: Option<&str>) -> (r: Option<String>)
    ensures
        opt_view(r) == match o {
            Some(s) => Some(s@),
            None => None,
        },
{
    match o {
        Some(s) => Some(s.to_owned()),
        None => None,
    }
}

/// TLS settings from command-line flags: the given certificate paths, no
/// server-name override, verification off exactly when `insecure`.
pub fn tls_config_from_flags(
    ca: Option<&str>,
    cert: Option<&str>,
    key: Option<&str>,
    insecure: bool,
) -> (t: TlsConfig)
    ensures
        opt_view(t.ca_cert_path) == match ca {
            Some(s) => Some(s@),
            None => None,
        },
        opt_view(t.client_cert_path) == match cert {
            Some(s) => Some(s@),
            None => None,
        },
        opt_view(t.client_key_path) == match key {
            Some(s) => Some(s@),
            None => None,
        },
        t.server_name is None,
        t.insecure_skip_verify == insecure,
{
    TlsConfig {
        ca_cert_path: copy_opt(ca),
        client_cert_path: copy_opt(cert),
        client_key_path: copy_opt(key),
        server_name: None,
        insecure_skip_verify: insecure,
    }
}

} // verus!
