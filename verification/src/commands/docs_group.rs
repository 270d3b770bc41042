//! Which documentation pages a test file is filed under, and the pages
//! themselves: page names in ascending order, each with the files documented
//! on it (by their position in the list of files), in file order.
use crate::commands::docs::service_key;
use crate::commands::docs_render::{FlowStep, MethodFlow};
use crate::sort::{lemma_lex_antisym, lemma_lex_total, lemma_lex_trans, lex_le, lex_le_exec};
use crate::text::{chars_of, str_eq};
use crate::commands::docs_group_title::{by_title, copy_positions, sort_by_title};
use vstd::prelude::*;

verus! {

broadcast use vstd::string::group_string_axioms;

/// `a` comes strictly before `b` in code-point order.
pub open spec fn lex_lt(a: Seq<char>, b: Seq<char>) -> bool {
    lex_le(a, b) && a != b
}

/// Page names run in strictly ascending order (so none occurs twice).
pub open spec fn pages_ascending(s: Seq<(String, Vec<usize>)>) -> bool {
    forall|i: int, j: int| 0 <= i < j < s.len() ==> lex_lt(#[trigger] s[i].0@, #[trigger] s[j].0@)
}

/// The files listed under page `name`, if there is such a page.
pub open spec fn listed(s: Seq<(String, Vec<usize>)>, name: Seq<char>) -> Option<Seq<usize>> {
    if exists|i: int| 0 <= i < s.len() && (#[trigger] s[i]).0@ == name {
        Some(s[choose|i: int| 0 <= i < s.len() && (#[trigger] s[i]).0@ == name].1@)
    } else {
        None
    }
}

proof fn lemma_listed_at(s: Seq<(String, Vec<usize>)>, i: int)
    requires
        pages_ascending(s),
        0 <= i < s.len(),
    ensures
        listed(s, s[i].0@) == Some(s[i].1@),
{
    let name = s[i].0@;
    assert(s[i].0@ == name);
    let j = choose|j: int| 0 <= j < s.len() && (#[trigger] s[j]).0@ == name;
    if j != i {
        if j < i {
            assert(lex_lt(s[j].0@, s[i].0@));
        } else {
            assert(lex_lt(s[i].0@, s[j].0@));
        }
    }
}

proof fn lemma_listed_absent(s: Seq<(String, Vec<usize>)>, name: Seq<char>)
    requires
        forall|i: int| 0 <= i < s.len() ==> (#[trigger] s[i]).0@ != name,
    ensures
        listed(s, name) is None,
{
}

proof fn lemma_lex_refl(a: Seq<char>)
    ensures
        lex_le(a, a),
{
    lemma_lex_total(a, a);
}

/// The files under `name` once file `file` is filed there too.
pub open spec fn with_file(before: Option<Seq<usize>>, file: usize) -> Seq<usize> {
    match before {
        Some(v) => v.push(file),
        None => seq![file],
    }
}

/// Files `file` under page `name`, making the page if it is new; every
/// other page keeps what it had.
pub fn file_under(pages: &mut Vec<(String, Vec<usize>)>, name: &String, file: usize)
    requires
        pages_ascending(old(pages)@),
    ensures
        pages_ascending(final(pages)@),
        listed(final(pages)@, name@) == Some(with_file(listed(old(pages)@, name@), file)),
        forall|other: Seq<char>|
            other != name@ ==> #[trigger] listed(final(pages)@, other) == listed(old(pages)@, other),
{
    let ghost s = pages@;
    let key = chars_of(name.as_str());
    let mut p: usize = 0;
    while p < pages.len()
        invariant_except_break
            p <= pages@.len(),
            pages@ == s,
            key@ == name@,
            forall|j: int| 0 <= j < p ==> lex_lt(#[trigger] s[j].0@, name@),
        invariant
            pages@ == s,
        ensures
            p <= pages@.len(),
            key@ == name@,
            forall|j: int| 0 <= j < p ==> lex_lt(#[trigger] s[j].0@, name@),
            p < pages@.len() ==> lex_le(name@, s[p as int].0@),
        decreases pages@.len() - p,
    {
        let here = chars_of(pages[p].0.as_str());
        let le = lex_le_exec(&here, &key);
        if !le || str_eq(pages[p].0.as_str(), name.as_str()) {
            proof {
                lemma_lex_total(here@, key@);
                if here@ == key@ {
                    lemma_lex_refl(key@);
                }
            }
            break;
        }
        p = p + 1;
    }
    proof {
        assert forall|j: int| p <= j < s.len() implies lex_le(name@, #[trigger] s[j].0@) by {
            if j > p {
                assert(lex_lt(s[p as int].0@, s[j].0@));
                lemma_lex_trans(name@, s[p as int].0@, s[j].0@);
            }
        }
    }
    if p < pages.len() && str_eq(pages[p].0.as_str(), name.as_str()) {
        let (label, mut files) = pages.remove(p);
        proof {
            lemma_listed_at(s, p as int);
        }
        files.push(file);
        pages.insert(p, (label, files));
        proof {
            let t = pages@;
            assert(t =~= s.update(p as int, t[p as int]));
            assert forall|i: int, j: int| 0 <= i < j < t.len() implies lex_lt(
                #[trigger] t[i].0@,
                #[trigger] t[j].0@,
            ) by {
                assert(lex_lt(s[i].0@, s[j].0@));
            }
            lemma_listed_at(t, p as int);
            assert forall|other: Seq<char>| other != name@ implies #[trigger] listed(t, other)
                == listed(s, other) by {
                if exists|i: int| 0 <= i < s.len() && (#[trigger] s[i]).0@ == other {
                    let i = choose|i: int| 0 <= i < s.len() && (#[trigger] s[i]).0@ == other;
                    lemma_listed_at(s, i);
                    lemma_listed_at(t, i);
                } else {
                    assert forall|i: int| 0 <= i < t.len() implies (#[trigger] t[i]).0@
                        != other by {
                        assert(t[i].0@ == s[i].0@);
                    }
                }
            }
        }
    } else {
        let mut fresh: Vec<usize> = Vec::new();
        fresh.push(file);
        pages.insert(p, (name.clone(), fresh));
        proof {
            let t = pages@;
            assert forall|i: int| 0 <= i < s.len() implies (#[trigger] s[i]).0@ != name@ by {
                if i >= p {
                    assert(lex_le(name@, s[i].0@));
                    if s[i].0@ == name@ {
                        if i > p {
                            assert(lex_lt(s[p as int].0@, s[i].0@));
                            lemma_lex_antisym(s[p as int].0@, name@);
                        }
                    }
                }
            }
            assert forall|i: int, j: int| 0 <= i < j < t.len() implies lex_lt(
                #[trigger] t[i].0@,
                #[trigger] t[j].0@,
            ) by {
                if j < p {
                    assert(t[i] == s[i] && t[j] == s[j]);
                } else if j == p {
                    assert(t[i] == s[i]);
                } else if i < p {
                    assert(t[i] == s[i] && t[j] == s[j - 1]);
                    assert(lex_lt(s[i].0@, name@));
                    assert(lex_le(name@, s[j - 1].0@));
                    lemma_lex_trans(s[i].0@, name@, s[j - 1].0@);
                    if s[i].0@ == s[j - 1].0@ {
                        lemma_lex_antisym(s[i].0@, name@);
                    }
                } else if i == p {
                    assert(t[j] == s[j - 1]);
                } else {
                    assert(t[i] == s[i - 1] && t[j] == s[j - 1]);
                }
            }
            lemma_listed_absent(s, name@);
            lemma_listed_at(t, p as int);
            assert(t[p as int].1@ =~= seq![file]);
            assert forall|other: Seq<char>| other != name@ implies #[trigger] listed(t, other)
                == listed(s, other) by {
                if exists|i: int| 0 <= i < s.len() && (#[trigger] s[i]).0@ == other {
                    let i = choose|i: int| 0 <= i < s.len() && (#[trigger] s[i]).0@ == other;
                    lemma_listed_at(s, i);
                    if i < p {
                        assert(t[i] == s[i]);
                        lemma_listed_at(t, i);
                    } else {
                        assert(t[i + 1] == s[i]);
                        lemma_listed_at(t, i + 1);
                    }
                } else {
                    assert forall|i: int| 0 <= i < t.len() implies (#[trigger] t[i]).0@
                        != other by {
                        if i < p {
                            assert(t[i] == s[i]);
                        } else if i > p {
                            assert(t[i] == s[i - 1]);
                        }
                    }
                }
            }
        }
    }
}

/// What placing a documented file needs: its flow, and the HTTP host and the
/// gRPC package and services that the file names.
pub struct FlowSource {
    pub flow: MethodFlow,
    pub http_host: Option<String>,
    pub package: String,
    pub services: Vec<String>,
}

/// The texts of a list of strings.
pub open spec fn names(v: Seq<String>) -> Seq<Seq<char>> {
    v.map_values(|g: String| g@)
}

/// `package.Service`, or the bare service without a package.
pub open spec fn service_key_of(package: Seq<char>, service: Seq<char>) -> Seq<char> {
    if package.len() == 0 {
        service
    } else {
        package + "."@ + service
    }
}

/// The pages that a file's own steps name, in step order.
pub open spec fn step_groups(steps: Seq<FlowStep>) -> Seq<Seq<char>>
    decreases steps.len(),
{
    if steps.len() == 0 {
        seq![]
    } else {
        let rest = step_groups(steps.drop_last());
        match steps.last().group {
            Some(g) => rest.push(g@),
            None => rest,
        }
    }
}

/// The pages of a file whose steps name none: its HTTP host, then each of
/// its services under the package.
pub open spec fn fallback_groups(host: Option<String>, package: Seq<char>, services: Seq<String>) -> Seq<
    Seq<char>,
> {
    let head: Seq<Seq<char>> = match host {
        Some(h) => seq![h@],
        None => seq![],
    };
    head + services.map_values(|s: String| service_key_of(package, s@))
}

/// Each name at its first occurrence only.
pub open spec fn first_occurrences(s: Seq<Seq<char>>) -> Seq<Seq<char>>
    decreases s.len(),
{
    if s.len() == 0 {
        seq![]
    } else {
        let r = first_occurrences(s.drop_last());
        if r.contains(s.last()) {
            r
        } else {
            r.push(s.last())
        }
    }
}

/// The pages a file is documented on: none for a file that names neither a
/// service nor an HTTP host; else the pages its steps name or, when they
/// name none, its fallback pages; each once, in order.
pub open spec fn pages_of(src: FlowSource) -> Seq<Seq<char>> {
    if src.services@.len() == 0 && src.http_host is None {
        seq![]
    } else {
        let own = step_groups(src.flow.steps@);
        first_occurrences(
            if own.len() > 0 {
                own
            } else {
                fallback_groups(src.http_host, src.package@, src.services@)
            },
        )
    }
}

/// No name occurs twice in `first_occurrences(s)`, and it holds the names of `s`.
pub proof fn lemma_first_occurrences(s: Seq<Seq<char>>)
    ensures
        forall|i: int, j: int|
            0 <= i < j < first_occurrences(s).len() ==> #[trigger] first_occurrences(s)[i]
                != #[trigger] first_occurrences(s)[j],
        forall|x: Seq<char>| first_occurrences(s).contains(x) <==> s.contains(x),
    decreases s.len(),
{
    if s.len() > 0 {
        let r = first_occurrences(s.drop_last());
        lemma_first_occurrences(s.drop_last());
        assert forall|x: Seq<char>| first_occurrences(s).contains(x) <==> s.contains(x) by {
            let d = s.drop_last();
            assert(s.contains(x) <==> (d.contains(x) || x == s.last())) by {
                if s.contains(x) && x != s.last() {
                    let k = choose|k: int| 0 <= k < s.len() && s[k] == x;
                    assert(d[k] == x);
                }
                if d.contains(x) {
                    let k = choose|k: int| 0 <= k < d.len() && d[k] == x;
                    assert(s[k] == x);
                }
                if x == s.last() {
                    assert(s[s.len() - 1] == x);
                }
            }
            if !r.contains(s.last()) {
                let t = r.push(s.last());
                assert(t.contains(x) <==> (r.contains(x) || x == s.last())) by {
                    if t.contains(x) && x != s.last() {
                        let k = choose|k: int| 0 <= k < t.len() && t[k] == x;
                        assert(r[k] == x);
                    }
                    if r.contains(x) {
                        let k = choose|k: int| 0 <= k < r.len() && r[k] == x;
                        assert(t[k] == x);
                    }
                    if x == s.last() {
                        assert(t[t.len() - 1] == x);
                    }
                }
            }
        }
        if !r.contains(s.last()) {
            let t = r.push(s.last());
            assert forall|i: int, j: int| 0 <= i < j < t.len() implies #[trigger] t[i]
                != #[trigger] t[j] by {
                if j == t.len() - 1 {
                    assert(r[i] == t[i]);
                }
            }
        }
    }
}

fn has_name(v: &Vec<String>, x: &str) -> (r: bool)
    ensures
        r == names(v@).contains(x@),
{
    let mut i: usize = 0;
    while i < v.len()
        invariant
            i <= v@.len(),
            forall|j: int| 0 <= j < i ==> (#[trigger] v@[j])@ != x@,
        decreases v@.len() - i,
    {
        if str_eq(v[i].as_str(), x) {
            assert(names(v@)[i as int] == x@);
            return true;
        }
        i = i + 1;
    }
    proof {
        if names(v@).contains(x@) {
            let k = choose|k: int| 0 <= k < names(v@).len() && names(v@)[k] == x@;
            assert(v@[k]@ == x@);
        }
    }
    false
}

/// The pages that `src` is documented on.
pub fn flow_pages(src: &FlowSource) -> (out: Vec<String>)
    ensures
        names(out@) == pages_of(*src),
{
    let mut out: Vec<String> = Vec::new();
    if src.services.len() == 0 && src.http_host.is_none() {
        assert(names(out@) =~= seq![]);
        return out;
    }
    let steps = &src.flow.steps;
    let mut cand: Vec<String> = Vec::new();
    let mut i: usize = 0;
    while i < steps.len()
        invariant
            i <= steps@.len(),
            steps@ == src.flow.steps@,
            names(cand@) == step_groups(steps@.take(i as int)),
        decreases steps@.len() - i,
    {
        proof {
            assert(steps@.take(i + 1).drop_last() =~= steps@.take(i as int));
        }
        match &steps[i].group {
            Some(g) => {
                cand.push(g.clone());
                assert(names(cand@) =~= step_groups(steps@.take(i + 1)));
            },
            None => {},
        }
        i = i + 1;
    }
    assert(steps@.take(steps@.len() as int) =~= steps@);
    if cand.len() == 0 {
        let ghost own = names(cand@);
        match &src.http_host {
            Some(h) => cand.push(h.clone()),
            None => {},
        }
        let ghost head = names(cand@);
        let mut k: usize = 0;
        while k < src.services.len()
            invariant
                k <= src.services@.len(),
                names(cand@) == head + src.services@.take(k as int).map_values(
                    |s: String| service_key_of(src.package@, s@),
                ),
            decreases src.services@.len() - k,
        {
            let key = service_key(src.package.as_str(), src.services[k].as_str());
            let ghost before = names(cand@);
            cand.push(key);
            assert(names(cand@) =~= before.push(service_key_of(src.package@, src.services@[k as int]@)));
            assert(src.services@.take(k + 1).map_values(
                |s: String| service_key_of(src.package@, s@),
            ) =~= src.services@.take(k as int).map_values(
                |s: String| service_key_of(src.package@, s@),
            ).push(service_key_of(src.package@, src.services@[k as int]@)));
            assert(names(cand@) =~= head + src.services@.take(k + 1).map_values(
                |s: String| service_key_of(src.package@, s@),
            ));
            k = k + 1;
        }
        assert(src.services@.take(src.services@.len() as int) =~= src.services@);
        assert(names(cand@) =~= fallback_groups(src.http_host, src.package@, src.services@));
    }
    let ghost c = names(cand@);
    let mut j: usize = 0;
    while j < cand.len()
        invariant
            j <= cand@.len(),
            c == names(cand@),
            names(out@) == first_occurrences(c.take(j as int)),
        decreases cand@.len() - j,
    {
        proof {
            assert(c.take(j + 1).drop_last() =~= c.take(j as int));
            assert(c.take(j + 1).last() == cand@[j as int]@);
        }
        if !has_name(&out, cand[j].as_str()) {
            out.push(cand[j].clone());
            assert(names(out@) =~= first_occurrences(c.take(j + 1)));
        }
        j = j + 1;
    }
    assert(c.take(c.len() as int) =~= c);
    out
}

/// The positions of the files documented on page `name`, in file order.
pub open spec fn files_under(srcs: Seq<FlowSource>, name: Seq<char>) -> Seq<usize>
    decreases srcs.len(),
{
    if srcs.len() == 0 {
        seq![]
    } else {
        let rest = files_under(srcs.drop_last(), name);
        if pages_of(srcs.last()).contains(name) {
            rest.push((srcs.len() - 1) as usize)
        } else {
            rest
        }
    }
}

/// A page exists exactly for the names that some file is filed under.
pub open spec fn page_for(files: Seq<usize>) -> Option<Seq<usize>> {
    if files.len() > 0 {
        Some(files)
    } else {
        None
    }
}

/// Every page that some file is documented on, in ascending order of name,
/// each listing the positions of its files in file order.
fn pages_in_file_order(srcs: &Vec<FlowSource>) -> (pages: Vec<(String, Vec<usize>)>)
    ensures
        pages_ascending(pages@),
        forall|name: Seq<char>| #[trigger]
            listed(pages@, name) == page_for(files_under(srcs@, name)),
{
    let mut pages: Vec<(String, Vec<usize>)> = Vec::new();
    let mut i: usize = 0;
    while i < srcs.len()
        invariant
            i <= srcs@.len(),
            pages_ascending(pages@),
            forall|name: Seq<char>| #[trigger]
                listed(pages@, name) == page_for(files_under(srcs@.take(i as int), name)),
        decreases srcs@.len() - i,
    {
        let groups = flow_pages(&srcs[i]);
        let ghost base = pages@;
        let ghost done = srcs@.take(i as int);
        proof {
            lemma_first_occurrences_distinct_pages(srcs@[i as int]);
            assert forall|a: int, b: int| 0 <= a < b < groups@.len() implies (
            #[trigger] groups@[a])@ != (#[trigger] groups@[b])@ by {
                assert(names(groups@)[a] == groups@[a]@);
                assert(names(groups@)[b] == groups@[b]@);
            }
        }
        let mut j: usize = 0;
        while j < groups.len()
            invariant
                j <= groups@.len(),
                i < srcs@.len(),
                names(groups@) == pages_of(srcs@[i as int]),
                forall|a: int, b: int|
                    0 <= a < b < groups@.len() ==> (#[trigger] groups@[a])@ != (#[trigger] groups@[b])@,
                pages_ascending(pages@),
                forall|name: Seq<char>| #[trigger]
                    listed(base, name) == page_for(files_under(done, name)),
                forall|name: Seq<char>| #[trigger]
                    listed(pages@, name) == if names(groups@).take(j as int).contains(name) {
                        Some(files_under(done, name).push(i))
                    } else {
                        listed(base, name)
                    },
            decreases groups@.len() - j,
        {
            let ghost before = pages@;
            file_under(&mut pages, &groups[j], i);
            proof {
                let g = groups@[j as int]@;
                let t = names(groups@).take(j + 1);
                assert(t =~= names(groups@).take(j as int).push(g));
                assert(!names(groups@).take(j as int).contains(g)) by {
                    if names(groups@).take(j as int).contains(g) {
                        let k = choose|k: int|
                            0 <= k < names(groups@).take(j as int).len() && names(groups@).take(
                                j as int,
                            )[k] == g;
                        assert(groups@[k]@ == g);
                    }
                }
                assert forall|name: Seq<char>| #[trigger]
                    listed(pages@, name) == if t.contains(name) {
                        Some(files_under(done, name).push(i))
                    } else {
                        listed(base, name)
                    } by {
                    let pre = names(groups@).take(j as int);
                    assert(t.contains(name) <==> (pre.contains(name) || name == g)) by {
                        if t.contains(name) && name != g {
                            let k = choose|k: int| 0 <= k < t.len() && t[k] == name;
                            assert(pre[k] == name);
                        }
                        if pre.contains(name) {
                            let k = choose|k: int| 0 <= k < pre.len() && pre[k] == name;
                            assert(t[k] == name);
                        }
                        if name == g {
                            assert(t[t.len() - 1] == name);
                        }
                    }
                    if name == g {
                        assert(listed(before, name) == listed(base, name));
                        assert(with_file(page_for(files_under(done, name)), i)
                            =~= files_under(done, name).push(i));
                    }
                }
            }
            j = j + 1;
        }
        proof {
            assert(names(groups@).take(groups@.len() as int) =~= names(groups@));
            let next = srcs@.take(i + 1);
            assert(next.drop_last() =~= done);
            assert(next.last() == srcs@[i as int]);
            assert forall|name: Seq<char>| #[trigger]
                listed(pages@, name) == page_for(files_under(next, name)) by {
                if pages_of(srcs@[i as int]).contains(name) {
                    assert(files_under(next, name) == files_under(done, name).push(i));
                } else {
                    assert(files_under(next, name) == files_under(done, name));
                }
            }
        }
        i = i + 1;
    }
    assert(srcs@.take(srcs@.len() as int) =~= srcs@);
    pages
}

proof fn lemma_first_occurrences_distinct_pages(src: FlowSource)
    ensures
        forall|a: int, b: int|
            0 <= a < b < pages_of(src).len() ==> #[trigger] pages_of(src)[a] != #[trigger] pages_of(
                src,
            )[b],
{
    if !(src.services@.len() == 0 && src.http_host is None) {
        let own = step_groups(src.flow.steps@);
        lemma_first_occurrences(
            if own.len() > 0 {
                own
            } else {
                fallback_groups(src.http_host, src.package@, src.services@)
            },
        );
    }
}

/// A page lists each of its files once, in file order.
pub proof fn lemma_pages_list_files_once_in_order(srcs: Seq<FlowSource>, name: Seq<char>)
    requires
        srcs.len() <= usize::MAX,
    ensures
        forall|a: int, b: int|
            0 <= a < b < files_under(srcs, name).len() ==> #[trigger] files_under(srcs, name)[a]
                < #[trigger] files_under(srcs, name)[b],
        forall|a: int|
            0 <= a < files_under(srcs, name).len() ==> #[trigger] files_under(srcs, name)[a]
                < srcs.len(),
    decreases srcs.len(),
{
    if srcs.len() > 0 {
        let rest = files_under(srcs.drop_last(), name);
        lemma_pages_list_files_once_in_order(srcs.drop_last(), name);
        if pages_of(srcs.last()).contains(name) {
            let t = rest.push((srcs.len() - 1) as usize);
            assert forall|a: int, b: int| 0 <= a < b < t.len() implies #[trigger] t[a]
                < #[trigger] t[b] by {
                assert(t[a] == rest[a]);
                if b < rest.len() {
                    assert(t[b] == rest[b]);
                }
            }
            assert forall|a: int| 0 <= a < t.len() implies #[trigger] t[a] < srcs.len() by {
                if a < rest.len() {
                    assert(t[a] == rest[a]);
                }
            }
        }
    }
}

/// A page's files ordered by title.
pub open spec fn titled(srcs: Seq<FlowSource>, files: Option<Seq<usize>>) -> Option<Seq<usize>> {
    match files {
        Some(f) => Some(by_title(srcs, f)),
        None => None,
    }
}

/// The documentation pages: every page that some file is documented on, in
/// ascending order of name, each listing the positions of its files ordered
/// by the files' titles (files of one title in file order).
pub fn collect_flows_by_service(srcs: &Vec<FlowSource>) -> (pages: Vec<(String, Vec<usize>)>)
    ensures
        pages_ascending(pages@),
        forall|name: Seq<char>| #[trigger]
            listed(pages@, name) == titled(srcs@, page_for(files_under(srcs@, name))),
{
    let first = pages_in_file_order(srcs);
    let n = srcs.len();
    proof {
        assert(srcs@.len() == n);
        lemma_pages_list_files_once_in_order_all(srcs@);
    }
    let mut pages: Vec<(String, Vec<usize>)> = Vec::new();
    let mut k: usize = 0;
    while k < first.len()
        invariant
            k <= first@.len(),
            pages@.len() == k,
            pages_ascending(first@),
            forall|name: Seq<char>| #[trigger]
                listed(first@, name) == page_for(files_under(srcs@, name)),
            forall|name: Seq<char>, a: int|
                0 <= a < files_under(srcs@, name).len() ==> #[trigger] files_under(srcs@, name)[a]
                    < srcs@.len(),
            forall|c: int|
                0 <= c < k ==> (#[trigger] pages@[c]).0@ == first@[c].0@ && pages@[c].1@
                    == by_title(srcs@, first@[c].1@),
        decreases first@.len() - k,
    {
        proof {
            lemma_listed_at(first@, k as int);
            let f = first@[k as int].1@;
            assert(listed(first@, first@[k as int].0@) == page_for(
                files_under(srcs@, first@[k as int].0@),
            ));
            assert forall|a: int| 0 <= a < f.len() implies #[trigger] f[a] < srcs@.len() by {
                assert(f[a] == files_under(srcs@, first@[k as int].0@)[a]);
            }
        }
        let files = copy_positions(&first[k].1);
        let sorted = sort_by_title(srcs, files);
        pages.push((first[k].0.clone(), sorted));
        k = k + 1;
    }
    proof {
        let t = pages@;
        let s = first@;
        assert forall|i: int, j: int| 0 <= i < j < t.len() implies lex_lt(
            #[trigger] t[i].0@,
            #[trigger] t[j].0@,
        ) by {
            assert(lex_lt(s[i].0@, s[j].0@));
        }
        assert forall|name: Seq<char>| #[trigger]
            listed(t, name) == titled(srcs@, page_for(files_under(srcs@, name))) by {
            if exists|i: int| 0 <= i < s.len() && (#[trigger] s[i]).0@ == name {
                let i = choose|i: int| 0 <= i < s.len() && (#[trigger] s[i]).0@ == name;
                lemma_listed_at(s, i);
                lemma_listed_at(t, i);
                assert(listed(s, name) == page_for(files_under(srcs@, name)));
            } else {
                assert forall|i: int| 0 <= i < t.len() implies (#[trigger] t[i]).0@ != name by {
                    assert(t[i].0@ == s[i].0@);
                }
                assert(listed(s, name) == page_for(files_under(srcs@, name)));
            }
        }
    }
    pages
}

proof fn lemma_pages_list_files_once_in_order_all(srcs: Seq<FlowSource>)
    requires
        srcs.len() <= usize::MAX,
    ensures
        forall|name: Seq<char>, a: int|
            0 <= a < files_under(srcs, name).len() ==> #[trigger] files_under(srcs, name)[a]
                < srcs.len(),
{
    assert forall|name: Seq<char>, a: int|
        0 <= a < files_under(srcs, name).len() implies #[trigger] files_under(srcs, name)[a]
        < srcs.len() by {
        lemma_pages_list_files_once_in_order(srcs, name);
    }
}

} // verus!
