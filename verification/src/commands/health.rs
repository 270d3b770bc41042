//! `health`: which services to probe, how to connect, and how the results
//! read. The probing itself is network I/O and runs elsewhere.
use crate::commands::{tls_config_from_flags, TlsConfig};
use crate::text::{chars_of, join, push_all, push_str, string_from_chars};
use vstd::prelude::*;

verus! {

broadcast use vstd::string::group_string_axioms;

/// TLS for a health probe: none unless `--tls` or `--insecure` asks for it,
/// verification off under `--insecure`.
pub fn resolve_tls_config(tls: bool, insecure: bool) -> (t: Option<TlsConfig>)
    ensures
        t is Some <==> (tls || insecure),
        t matches Some(c) ==> c.insecure_skip_verify == insecure && c.ca_cert_path is None
            && c.client_cert_path is None && c.client_key_path is None && c.server_name is None,
{
    if tls || insecure {
        Some(tls_config_from_flags(None, None, None, insecure))
    } else {
        None
    }
}

/// The services to check: each named one, or the server as a whole (the
/// empty name) when none is named.
pub fn target_services(services: &Vec<String>) -> (t: Vec<String>)
    ensures
        crate::parser::strs(t@) == if services@.len() == 0 {
            seq![Seq::<char>::empty()]
        } else {
            crate::parser::strs(services@)
        },
{
    let mut out: Vec<String> = Vec::new();
    if services.len() == 0 {
        out.push(String::new());
        assert(crate::parser::strs(out@) =~= seq![Seq::<char>::empty()]);
        return out;
    }
    let mut i: usize = 0;
    while i < services.len()
        invariant
            i <= services@.len(),
            crate::parser::strs(out@) == crate::parser::strs(services@).take(i as int),
        decreases services@.len() - i,
    {
        let s = services[i].clone();
        let ghost o0 = out@;
        out.push(s);
        assert(crate::parser::strs(out@) =~= crate::parser::strs(o0).push(services@[i as int]@));
        assert(crate::parser::strs(services@).take(i + 1) =~= crate::parser::strs(services@).take(
            i as int,
        ).push(services@[i as int]@));
        i = i + 1;
    }
    assert(crate::parser::strs(services@).take(i as int) =~= crate::parser::strs(services@));
    out
}

/// One probe's outcome.
pub struct HealthResult {
    pub service: String,
    pub status: String,
    pub duration_ms: u64,
}

/// How a result names its target: `overall` for the server as a whole.
pub open spec fn target_name(service: Seq<char>) -> Seq<char> {
    if service.len() == 0 {
        "overall"@
    } else {
        service
    }
}

impl HealthResult {
    pub fn is_serving(&self) -> (b: bool)
        ensures
            b == (self.status@ == "SERVING"@),
    {
        crate::text::str_eq(self.status.as_str(), "SERVING")
    }

    pub fn display_target(&self) -> (s: String)
        ensures
            s@ == target_name(self.service@),
    {
        if self.service.as_str().is_empty() {
            string_from_chars(chars_of("overall").as_slice())
        } else {
            self.service.clone()
        }
    }
}

/// `target=STATUS` for each result that is not serving.
pub open spec fn failures(rs: Seq<HealthResult>) -> Seq<Seq<char>>
    decreases rs.len(),
{
    if rs.len() == 0 {
        Seq::empty()
    } else {
        failures(rs.drop_last()) + if rs.last().status@ == "SERVING"@ {
            Seq::<Seq<char>>::empty()
        } else {
            seq![target_name(rs.last().service@) + "="@ + rs.last().status@]
        }
    }
}

/// The targets that are not serving, as `target=STATUS`, comma-separated.
pub fn failure_summary(results: &Vec<HealthResult>) -> (s: String)
    ensures
        s@ == join(failures(results@), ", "@),
{
    let mut parts: Vec<Vec<char>> = Vec::new();
    let mut i: usize = 0;
    while i < results.len()
        invariant
            i <= results@.len(),
            crate::text::views(parts@) == failures(results@.take(i as int)),
        decreases results@.len() - i,
    {
        let r = &results[i];
        assert(results@.take(i + 1).drop_last() =~= results@.take(i as int));
        if !r.is_serving() {
            let mut p = chars_of(r.display_target().as_str());
            push_str(&mut p, "=");
            push_all(&mut p, &chars_of(r.status.as_str()));
            let ghost p0 = parts@;
            parts.push(p);
            assert(crate::text::views(parts@) =~= crate::text::views(p0).push(p@));
        }
        i = i + 1;
    }
    assert(results@.take(i as int) =~= results@);
    string_from_chars(crate::text::join_lines(&parts, ", ").as_slice())
}

} // verus!
