//! `check`: the hints attached to validation messages, the rule that the
//! preamble sections come in canonical order, and which Rhai plugins the
//! checker may treat as known functions.
use crate::commands::docs::find_sub;
use crate::parser::{preamble_rank_of, section_name, GctfDocument, Section, SectionType};
use crate::text::{chars_of, push_all, push_str, string_from_chars};
use vstd::prelude::*;

verus! {

broadcast use vstd::string::group_string_axioms;

/// `str::contains`.
pub open spec fn contains_text(s: Seq<char>, p: Seq<char>) -> bool {
    find_sub(s, p, 0) + p.len() <= s.len()
}

fn contains_text_exec(s: &Vec<char>, p: &str) -> (b: bool)
    ensures
        b == contains_text(s@, p@),
{
    let k = crate::commands::docs::find_sub_exec(s, p, 0);
    proof {
        crate::commands::docs::lemma_find_sub_bounds(s@, p@, 0);
    }
    let pl = chars_of(p).len();
    k <= s.len() && pl <= s.len() - k
}

/// The advice for a validation message, by the first phrase it contains.
pub open spec fn hint_for(m: Seq<char>) -> Option<Seq<char>> {
    if contains_text(m, "OPTIONS.retry_delay is deprecated"@) {
        Some("Use `retry_delay` in OPTIONS (snake_case canonical form)"@)
    } else if contains_text(m, "OPTIONS.no_retry is deprecated"@) {
        Some("Use `no_retry` in OPTIONS (snake_case canonical form)"@)
    } else if contains_text(m, "OPTIONS.no_retry=true conflicts with OPTIONS.retry>0"@) {
        Some("Choose one: set `no_retry: true` OR set `retry: N` with `no_retry: false`"@)
    } else if contains_text(m, "OPTIONS.timeout must be a positive integer"@) {
        Some("Set timeout to a positive integer, e.g. `timeout: 30`"@)
    } else if contains_text(m, "OPTIONS.retry must be a non-negative integer"@) {
        Some("Use `retry: 0` to disable retries or any integer >= 0"@)
    } else if contains_text(m, "OPTIONS.retry_delay must be a non-negative number"@) {
        Some("Use a non-negative number in seconds, e.g. `retry_delay: 0.5`"@)
    } else if contains_text(m, "Attribute #[retry-delay] is deprecated"@) {
        Some("Use `#[retry_delay(...)]` instead of `#[retry-delay(...)]`"@)
    } else if contains_text(m, "Attribute #[no-retry] is deprecated"@) {
        Some("Use `#[no_retry(...)]` instead of `#[no-retry(...)]`"@)
    } else if contains_text(m, "Attribute conflict: #[no_retry] with #[retry"@) {
        Some("Remove one conflicting attribute to make retry behavior explicit"@)
    } else {
        None
    }
}

pub fn validation_hint(message: &str) -> (h: Option<&'static str>)
    ensures
        match h {
            Some(s) => hint_for(message@) == Some(s@),
            None => hint_for(message@) is None,
        },
{
    let m = chars_of(message);
    if contains_text_exec(&m, "OPTIONS.retry_delay is deprecated") {
        return Some("Use `retry_delay` in OPTIONS (snake_case canonical form)");
    }
    if contains_text_exec(&m, "OPTIONS.no_retry is deprecated") {
        return Some("Use `no_retry` in OPTIONS (snake_case canonical form)");
    }
    if contains_text_exec(&m, "OPTIONS.no_retry=true conflicts with OPTIONS.retry>0") {
        return Some("Choose one: set `no_retry: true` OR set `retry: N` with `no_retry: false`");
    }
    if contains_text_exec(&m, "OPTIONS.timeout must be a positive integer") {
        return Some("Set timeout to a positive integer, e.g. `timeout: 30`");
    }
    if contains_text_exec(&m, "OPTIONS.retry must be a non-negative integer") {
        return Some("Use `retry: 0` to disable retries or any integer >= 0");
    }
    if contains_text_exec(&m, "OPTIONS.retry_delay must be a non-negative number") {
        return Some("Use a non-negative number in seconds, e.g. `retry_delay: 0.5`");
    }
    if contains_text_exec(&m, "Attribute #[retry-delay] is deprecated") {
        return Some("Use `#[retry_delay(...)]` instead of `#[retry-delay(...)]`");
    }
    if contains_text_exec(&m, "Attribute #[no-retry] is deprecated") {
        return Some("Use `#[no_retry(...)]` instead of `#[no-retry(...)]`");
    }
    if contains_text_exec(&m, "Attribute conflict: #[no_retry] with #[retry") {
        return Some("Remove one conflicting attribute to make retry behavior explicit");
    }
    None
}

// ---------------------------------------------------------------------------
// Preamble order

/// The hint attached to every section-order warning.
pub open spec fn order_hint() -> Seq<char> {
    "Run `grpctestify fmt --write` to put the preamble sections in canonical order"@
}

/// Order warnings for the leading preamble sections `types[i..]`, given the
/// highest-ranked section before them (`top`): each section ranked below
/// `top` is reported at its 1-based header line as belonging before it.
pub open spec fn order_issues(
    types: Seq<SectionType>,
    lines: Seq<nat>,
    i: int,
    top: Option<SectionType>,
) -> Seq<(nat, Seq<char>, Seq<char>)>
    decreases types.len() - i,
{
    if i < 0 || i >= types.len() || preamble_rank_of(types[i]) is None {
        Seq::empty()
    } else {
        let t = types[i];
        let r = preamble_rank_of(t)->0;
        match top {
            Some(p) => if r < preamble_rank_of(p)->0 {
                seq![
                    (
                        lines[i] + 1,
                        section_name(t) + " should come before "@ + section_name(p),
                        order_hint(),
                    ),
                ] + order_issues(types, lines, i + 1, top)
            } else {
                order_issues(types, lines, i + 1, Some(t))
            },
            None => order_issues(types, lines, i + 1, Some(t)),
        }
    }
}

/// Sections `0..=i` are all preamble sections.
pub open spec fn in_preamble_run(types: Seq<SectionType>, i: int) -> bool {
    forall|j: int| 0 <= j <= i ==> (#[trigger] preamble_rank_of(types[j])) is Some
}

/// Some warning of `issues` is reported at 1-based line `line`.
pub open spec fn reported_at(issues: Seq<(nat, Seq<char>, Seq<char>)>, line: nat) -> bool {
    exists|m: int| 0 <= m < issues.len() && (#[trigger] issues[m]).0 == line
}

proof fn lemma_reported_in_tail(
    head: Seq<(nat, Seq<char>, Seq<char>)>,
    tail: Seq<(nat, Seq<char>, Seq<char>)>,
    line: nat,
)
    requires
        reported_at(tail, line),
    ensures
        reported_at(head + tail, line),
{
    let m = choose|m: int| 0 <= m < tail.len() && (#[trigger] tail[m]).0 == line;
    assert((head + tail)[head.len() + m] == tail[m]);
}

proof fn lemma_misplaced_from(
    types: Seq<SectionType>,
    lines: Seq<nat>,
    k: int,
    top: Option<SectionType>,
    i: int,
    j: int,
)
    requires
        0 <= j < i < types.len(),
        i < lines.len(),
        0 <= k <= i,
        in_preamble_run(types, i),
        preamble_rank_of(types[j])->0 > preamble_rank_of(types[i])->0,
        k == 0 <==> top is None,
        top matches Some(p) ==> preamble_rank_of(p) is Some && forall|x: int|
            0 <= x < k ==> preamble_rank_of(#[trigger] types[x])->0 <= preamble_rank_of(p)->0,
    ensures
        reported_at(order_issues(types, lines, k, top), lines[i] + 1),
    decreases i - k,
{
    let t = types[k];
    assert(preamble_rank_of(types[k]) is Some);
    let r = preamble_rank_of(t)->0;
    match top {
        Some(p) => {
            if r < preamble_rank_of(p)->0 {
                if k == i {
                    let issue = (lines[i] + 1, section_name(t) + " should come before "@ + section_name(p), order_hint());
                    let whole = seq![issue] + order_issues(types, lines, k + 1, top);
                    assert(order_issues(types, lines, k, top) == whole);
                    assert(whole[0].0 == lines[i] + 1);
                } else {
                    assert forall|x: int| 0 <= x < k + 1 implies preamble_rank_of(#[trigger] types[x])->0
                        <= preamble_rank_of(p)->0 by {
                    }
                    lemma_misplaced_from(types, lines, k + 1, top, i, j);
                    let issue = (lines[k] + 1, section_name(t) + " should come before "@ + section_name(p), order_hint());
                    lemma_reported_in_tail(seq![issue], order_issues(types, lines, k + 1, top), lines[i] + 1);
                    assert(order_issues(types, lines, k, top) == seq![issue] + order_issues(types, lines, k + 1, top));
                }
            } else {
                if k < i {
                    assert forall|x: int| 0 <= x < k + 1 implies preamble_rank_of(#[trigger] types[x])->0
                        <= preamble_rank_of(t)->0 by {
                    }
                    lemma_misplaced_from(types, lines, k + 1, Some(t), i, j);
                } else {
                    assert(preamble_rank_of(types[j])->0 <= preamble_rank_of(p)->0);
                    assert(false);
                }
            }
        },
        None => {
            assert(k == 0);
            if k < i {
                assert forall|x: int| 0 <= x < k + 1 implies preamble_rank_of(#[trigger] types[x])->0
                    <= preamble_rank_of(t)->0 by {
                }
                lemma_misplaced_from(types, lines, k + 1, Some(t), i, j);
            }
        },
    }
}

/// Section `i` comes after a section of the leading preamble run that it
/// belongs before.
pub open spec fn misplaced(types: Seq<SectionType>, i: int) -> bool {
    &&& 0 <= i < types.len()
    &&& in_preamble_run(types, i)
    &&& exists|j: int|
        0 <= j < i && preamble_rank_of(#[trigger] types[j])->0 > preamble_rank_of(types[i])->0
}

/// Every warning of `issues` stands at the header line of a misplaced section.
pub open spec fn only_misplaced(
    issues: Seq<(nat, Seq<char>, Seq<char>)>,
    types: Seq<SectionType>,
    lines: Seq<nat>,
) -> bool {
    forall|m: int|
        #![trigger issues[m]]
        0 <= m < issues.len() ==> exists|i: int| #[trigger] misplaced(types, i) && issues[m].0 == lines[i] + 1
}

proof fn lemma_only_misplaced_from(
    types: Seq<SectionType>,
    lines: Seq<nat>,
    k: int,
    top: Option<SectionType>,
)
    requires
        0 <= k <= types.len(),
        types.len() == lines.len(),
        k == 0 ==> top is None,
        k > 0 ==> in_preamble_run(types, k - 1),
        top matches Some(p) ==> preamble_rank_of(p) is Some && exists|x: int|
            0 <= x < k && #[trigger] types[x] == p,
    ensures
        only_misplaced(order_issues(types, lines, k, top), types, lines),
    decreases types.len() - k,
{
    let out = order_issues(types, lines, k, top);
    if k < types.len() && preamble_rank_of(types[k]) is Some {
        let t = types[k];
        assert(in_preamble_run(types, k)) by {
            assert forall|j: int| 0 <= j <= k implies (#[trigger] preamble_rank_of(types[j])) is Some by {
                if j < k {
                    assert(in_preamble_run(types, k - 1));
                }
            }
        }
        match top {
            Some(p) => {
                let x = choose|x: int| 0 <= x < k && #[trigger] types[x] == p;
                if preamble_rank_of(t)->0 < preamble_rank_of(p)->0 {
                    lemma_only_misplaced_from(types, lines, k + 1, top);
                    let rest = order_issues(types, lines, k + 1, top);
                    let issue = (lines[k] + 1, section_name(t) + " should come before "@ + section_name(p), order_hint());
                    assert(out == seq![issue] + rest);
                    assert(misplaced(types, k)) by {
                        assert(preamble_rank_of(types[x])->0 > preamble_rank_of(types[k])->0);
                    }
                    assert forall|m: int| #![trigger out[m]] 0 <= m < out.len() implies exists|i: int|
                        #[trigger] misplaced(types, i) && out[m].0 == lines[i] + 1 by {
                        if m == 0 {
                            assert(out[0].0 == lines[k] + 1);
                            assert(misplaced(types, k));
                        } else {
                            assert(out[m] == rest[m - 1]);
                            let i = choose|i: int| #[trigger] misplaced(types, i) && rest[m - 1].0 == lines[i] + 1;
                            assert(misplaced(types, i));
                        }
                    }
                } else {
                    assert(types[k] == t);
                    lemma_only_misplaced_from(types, lines, k + 1, Some(t));
                    assert(out == order_issues(types, lines, k + 1, Some(t)));
                }
            },
            None => {
                assert(types[k] == t);
                lemma_only_misplaced_from(types, lines, k + 1, Some(t));
                assert(out == order_issues(types, lines, k + 1, Some(t)));
            },
        }
    } else {
        assert(out.len() == 0);
    }
}

/// Only misplaced preamble sections are reported: every warning stands at the
/// header line of a section that comes after one it belongs before.
pub proof fn lemma_only_misplaced_sections_are_reported(types: Seq<SectionType>, lines: Seq<nat>)
    requires
        types.len() == lines.len(),
    ensures
        only_misplaced(order_issues(types, lines, 0, None), types, lines),
{
    lemma_only_misplaced_from(types, lines, 0, None);
}

/// Every misplaced preamble section is reported: within the leading run of
/// preamble sections, a section that comes after one it belongs before gets
/// a warning at its own (1-based) header line, whatever else was reported.
pub proof fn lemma_every_misplaced_section_is_reported(
    types: Seq<SectionType>,
    lines: Seq<nat>,
    i: int,
    j: int,
)
    requires
        0 <= j < i < types.len(),
        types.len() == lines.len(),
        in_preamble_run(types, i),
        preamble_rank_of(types[j])->0 > preamble_rank_of(types[i])->0,
    ensures
        reported_at(order_issues(types, lines, 0, None), lines[i] + 1),
{
    lemma_misplaced_from(types, lines, 0, None, i, j);
}

pub open spec fn issues_view(v: Seq<(usize, String, String)>) -> Seq<(nat, Seq<char>, Seq<char>)> {
    v.map_values(|x: (usize, String, String)| (x.0 as nat, x.1@, x.2@))
}

/// Section-order warnings of a document: within its leading run of preamble
/// sections (the ones `fmt` reorders), each section that comes after a
/// section it belongs before.
pub fn preamble_section_order(doc: &GctfDocument) -> (issues: Vec<(usize, String, String)>)
    requires
        forall|i: int|
            0 <= i < doc.sections@.len() ==> (#[trigger] doc.sections@[i]).start_line < usize::MAX,
    ensures
        issues_view(issues@) == order_issues(
            doc.sections@.map_values(|s: Section| s.section_type),
            doc.sections@.map_values(|s: Section| s.start_line as nat),
            0,
            None,
        ),
{
    let ghost types = doc.sections@.map_values(|s: Section| s.section_type);
    let ghost lines = doc.sections@.map_values(|s: Section| s.start_line as nat);
    let mut out: Vec<(usize, String, String)> = Vec::new();
    let mut top: Option<SectionType> = None;
    let mut i: usize = 0;
    while i < doc.sections.len()
        invariant
            i <= doc.sections@.len(),
            types == doc.sections@.map_values(|s: Section| s.section_type),
            lines == doc.sections@.map_values(|s: Section| s.start_line as nat),
            forall|j: int|
                0 <= j < doc.sections@.len() ==> (#[trigger] doc.sections@[j]).start_line
                    < usize::MAX,
            issues_view(out@) + order_issues(types, lines, i as int, top) == order_issues(
                types,
                lines,
                0,
                None,
            ),
            top matches Some(p) ==> preamble_rank_of(p) is Some,
        ensures
            issues_view(out@) == order_issues(types, lines, 0, None),
        decreases doc.sections@.len() - i,
    {
        assert(types[i as int] == doc.sections@[i as int].section_type);
        assert(lines[i as int] == doc.sections@[i as int].start_line as nat);
        let s = &doc.sections[i];
        let t = s.section_type;
        let r = match t.preamble_rank() {
            Some(r) => r,
            None => {
                proof {
                    assert(order_issues(types, lines, i as int, top) =~= Seq::empty());
                    assert(issues_view(out@) =~= issues_view(out@) + Seq::<(nat, Seq<char>, Seq<char>)>::empty());
                }
                break;
            },
        };
        let ghost o0 = issues_view(out@);
        match top {
            Some(p) => {
                let pr = match p.preamble_rank() {
                    Some(x) => x,
                    None => 0,
                };
                if r < pr {
                    let mut msg = chars_of(t.name());
                    push_str(&mut msg, " should come before ");
                    push_all(&mut msg, &chars_of(p.name()));
                    let hint = chars_of(
                        "Run `grpctestify fmt --write` to put the preamble sections in canonical order",
                    );
                    let line = s.start_line + 1;
                    out.push((line, string_from_chars(msg.as_slice()), string_from_chars(hint.as_slice())));
                    proof {
                        assert(issues_view(out@) =~= o0.push((line as nat, msg@, hint@)));
                        assert(issues_view(out@) + order_issues(types, lines, i + 1, top) =~= o0
                            + order_issues(types, lines, i as int, top));
                    }
                } else {
                    top = Some(t);
                }
            },
            None => {
                top = Some(t);
            },
        }
        i = i + 1;
    }
    out
}

// ---------------------------------------------------------------------------
// Rhai plugins

/// What the checker needs of a configured Rhai plugin.
pub struct PluginInfo {
    pub name: String,
    pub returns_bool: bool,
    pub safe_for_rewrite: bool,
    pub deterministic: bool,
    pub idempotent: bool,
}

/// A plugin whose calls may be rewritten as boolean expressions.
pub open spec fn rewritable_boolean(p: PluginInfo) -> bool {
    p.returns_bool && p.safe_for_rewrite && p.deterministic && p.idempotent
}

fn push_unique(out: &mut Vec<String>, name: &String)
    requires
        crate::parser::strs(old(out)@).no_duplicates(),
    ensures
        crate::parser::strs(final(out)@).no_duplicates(),
        crate::parser::strs(final(out)@).to_set() == crate::parser::strs(old(out)@).to_set().insert(
            name@,
        ),
{
    let mut i: usize = 0;
    while i < out.len()
        invariant
            i <= out@.len(),
            out@ == old(out)@,
            crate::parser::strs(old(out)@).no_duplicates(),
            forall|j: int| 0 <= j < i ==> out@[j]@ != name@,
        decreases out@.len() - i,
    {
        if crate::text::str_eq(out[i].as_str(), name.as_str()) {
            proof {
                assert(crate::parser::strs(out@)[i as int] == name@);
                assert(crate::parser::strs(out@).to_set() =~= crate::parser::strs(out@).to_set().insert(
                    name@,
                ));
            }
            return;
        }
        i = i + 1;
    }
    let ghost o0 = crate::parser::strs(out@);
    out.push(name.clone());
    proof {
        assert(crate::parser::strs(out@) =~= o0.push(name@));
        assert(!o0.contains(name@)) by {
            if o0.contains(name@) {
                let j = choose|j: int| 0 <= j < o0.len() && o0[j] == name@;
                assert(out@[j]@ == name@);
            }
        }
        o0.lemma_push_to_set_commute(name@);
        assert forall|a: int, b: int| 0 <= a < b < o0.push(name@).len() implies o0.push(name@)[a]
            != o0.push(name@)[b] by {
            if b == o0.len() {
                assert(o0.push(name@)[a] == o0[a]);
            }
        }
    }
}

/// The names of the plugins that `keep` selects, each once.
pub open spec fn plugin_names(ps: Seq<PluginInfo>, booleans_only: bool) -> Set<Seq<char>> {
    Set::new(
        |n: Seq<char>|
            exists|i: int|
                0 <= i < ps.len() && (#[trigger] ps[i]).name@ == n && (!booleans_only
                    || rewritable_boolean(ps[i])),
    )
}

fn names_where(plugins: &Vec<PluginInfo>, booleans_only: bool) -> (names: Vec<String>)
    ensures
        crate::parser::strs(names@).no_duplicates(),
        crate::parser::strs(names@).to_set() == plugin_names(plugins@, booleans_only),
{
    let mut out: Vec<String> = Vec::new();
    let mut i: usize = 0;
    while i < plugins.len()
        invariant
            i <= plugins@.len(),
            crate::parser::strs(out@).no_duplicates(),
            crate::parser::strs(out@).to_set() == plugin_names(plugins@.take(i as int), booleans_only),
        decreases plugins@.len() - i,
    {
        let p = &plugins[i];
        let ghost before = plugin_names(plugins@.take(i as int), booleans_only);
        let keep = !booleans_only || (p.returns_bool && p.safe_for_rewrite && p.deterministic
            && p.idempotent);
        if keep {
            push_unique(&mut out, &p.name);
        }
        proof {
            let after = plugin_names(plugins@.take(i + 1), booleans_only);
            assert forall|n: Seq<char>| after.contains(n) <==> (before.contains(n) || (keep && n
                == p.name@)) by {
                if after.contains(n) {
                    let j = choose|j: int|
                        0 <= j < plugins@.take(i + 1).len() && (#[trigger] plugins@.take(i + 1)[j]).name@
                            == n && (!booleans_only || rewritable_boolean(plugins@.take(i + 1)[j]));
                    if j < i {
                        assert(plugins@.take(i as int)[j] == plugins@.take(i + 1)[j]);
                    }
                }
                if before.contains(n) {
                    let j = choose|j: int|
                        0 <= j < plugins@.take(i as int).len() && (#[trigger] plugins@.take(
                            i as int,
                        )[j]).name@ == n && (!booleans_only || rewritable_boolean(
                            plugins@.take(i as int)[j],
                        ));
                    assert(plugins@.take(i + 1)[j] == plugins@.take(i as int)[j]);
                }
                if keep && n == p.name@ {
                    assert(plugins@.take(i + 1)[i as int] == plugins@[i as int]);
                }
            }
            if keep {
                assert(crate::parser::strs(out@).to_set() =~= after);
            } else {
                assert(before =~= after);
            }
        }
        i = i + 1;
    }
    assert(plugins@.take(i as int) =~= plugins@);
    out
}

/// The names of all configured Rhai plugins, each once.
pub fn rhai_plugin_names(plugins: &Vec<PluginInfo>) -> (names: Vec<String>)
    ensures
        crate::parser::strs(names@).no_duplicates(),
        crate::parser::strs(names@).to_set() == plugin_names(plugins@, false),
{
    names_where(plugins, false)
}

/// The names of the plugins whose calls may be rewritten: boolean-valued,
/// safe to rewrite, deterministic and idempotent; each once.
pub fn rhai_boolean_plugin_names(plugins: &Vec<PluginInfo>) -> (names: Vec<String>)
    ensures
        crate::parser::strs(names@).no_duplicates(),
        crate::parser::strs(names@).to_set() == plugin_names(plugins@, true),
{
    names_where(plugins, true)
}

} // verus!
