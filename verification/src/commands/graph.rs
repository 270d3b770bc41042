//! The test-suite graph: each directory's setup fixture, tests and teardown
//! fixture, as an indented text tree or as a Mermaid flowchart. The labels
//! (file names, with the steps of a multi-document chain) are read from the
//! files elsewhere; the layout is decided here.
use crate::text::{concat, count_occ, count_occ_exec};
use crate::text::{chars_of, decimal, decimal_chars, join, push_all, push_str, string_from_chars};
use vstd::prelude::*;

verus! {

broadcast use vstd::string::group_string_axioms;

/// One directory of the suite: its display path and its nodes' labels.
pub struct GraphGroup {
    pub dir: String,
    pub setup: Option<String>,
    pub tests: Vec<String>,
    pub teardown: Option<String>,
}

pub struct GroupView {
    pub dir: Seq<char>,
    pub setup: Option<Seq<char>>,
    pub tests: Seq<Seq<char>>,
    pub teardown: Option<Seq<char>>,
}

pub open spec fn group_view(g: GraphGroup) -> GroupView {
    GroupView {
        dir: g.dir@,
        setup: match g.setup {
            Some(s) => Some(s@),
            None => None,
        },
        tests: crate::parser::strs(g.tests@),
        teardown: match g.teardown {
            Some(s) => Some(s@),
            None => None,
        },
    }
}

pub open spec fn groups_view(gs: Seq<GraphGroup>) -> Seq<GroupView> {
    gs.map_values(|g: GraphGroup| group_view(g))
}

/// A file's label: its name, followed by its steps when it chains several.
pub fn node_label(name: &str, steps: &Vec<String>) -> (l: String)
    ensures
        l@ == if steps@.len() > 1 {
            name@ + " ("@ + join(crate::parser::strs(steps@), " → "@) + ")"@
        } else {
            name@
        },
{
    let mut out = chars_of(name);
    if steps.len() > 1 {
        push_str(&mut out, " (");
        let mut parts: Vec<Vec<char>> = Vec::new();
        let mut i: usize = 0;
        while i < steps.len()
            invariant
                i <= steps@.len(),
                crate::text::views(parts@) == crate::parser::strs(steps@).take(i as int),
            decreases steps@.len() - i,
        {
            let ghost p0 = parts@;
            parts.push(chars_of(steps[i].as_str()));
            assert(crate::text::views(parts@) =~= crate::text::views(p0).push(steps@[i as int]@));
            assert(crate::parser::strs(steps@).take(i + 1) =~= crate::parser::strs(steps@).take(
                i as int,
            ).push(steps@[i as int]@));
            i = i + 1;
        }
        assert(crate::parser::strs(steps@).take(i as int) =~= crate::parser::strs(steps@));
        push_all(&mut out, &crate::text::join_lines(&parts, " → "));
        push_str(&mut out, ")");
    }
    string_from_chars(out.as_slice())
}

/// `.` for the suite's root directory.
pub open spec fn dir_display(d: Seq<char>) -> Seq<char> {
    if d.len() == 0 {
        "."@
    } else {
        d
    }
}

/// A directory's rows: setup, tests, teardown.
pub open spec fn group_rows(g: GroupView) -> Seq<Seq<char>> {
    (match g.setup {
        Some(s) => seq![s + " (setup)"@],
        None => Seq::empty(),
    }) + g.tests + (match g.teardown {
        Some(t) => seq![t + " (teardown)"@],
        None => Seq::empty(),
    })
}

/// The rows as tree branches, the last one closing the branch.
pub open spec fn branch_lines(rows: Seq<Seq<char>>, k: nat) -> Seq<Seq<char>>
    decreases k,
{
    if k == 0 {
        Seq::empty()
    } else {
        branch_lines(rows, (k - 1) as nat).push(
            (if k - 1 == (if rows.len() == 0 {
                0
            } else {
                rows.len() - 1
            }) {
                "└─ "@
            } else {
                "├─ "@
            }) + rows[k - 1] + "\n"@,
        )
    }
}

pub open spec fn text_block(g: GroupView) -> Seq<char> {
    let rows = group_rows(g);
    dir_display(g.dir) + "\n"@ + concat(branch_lines(rows, rows.len())) + "\n"@
}

pub open spec fn text_of(gs: Seq<GroupView>) -> Seq<char>
    decreases gs.len(),
{
    if gs.len() == 0 {
        Seq::empty()
    } else {
        text_of(gs.drop_last()) + text_block(gs.last())
    }
}

fn rows_of(g: &GraphGroup) -> (rows: Vec<Vec<char>>)
    ensures
        crate::text::views(rows@) == group_rows(group_view(*g)),
{
    let mut rows: Vec<Vec<char>> = Vec::new();
    if let Some(s) = &g.setup {
        let mut r = chars_of(s.as_str());
        push_str(&mut r, " (setup)");
        rows.push(r);
    }
    let ghost r0 = crate::text::views(rows@);
    let mut i: usize = 0;
    while i < g.tests.len()
        invariant
            i <= g.tests@.len(),
            crate::text::views(rows@) == r0 + crate::parser::strs(g.tests@).take(i as int),
        decreases g.tests@.len() - i,
    {
        let ghost p0 = rows@;
        rows.push(chars_of(g.tests[i].as_str()));
        assert(crate::text::views(rows@) =~= crate::text::views(p0).push(g.tests@[i as int]@));
        assert(crate::parser::strs(g.tests@).take(i + 1) =~= crate::parser::strs(g.tests@).take(
            i as int,
        ).push(g.tests@[i as int]@));
        i = i + 1;
    }
    assert(crate::parser::strs(g.tests@).take(i as int) =~= crate::parser::strs(g.tests@));
    if let Some(t) = &g.teardown {
        let mut r = chars_of(t.as_str());
        push_str(&mut r, " (teardown)");
        let ghost p0 = rows@;
        rows.push(r);
        assert(crate::text::views(rows@) =~= crate::text::views(p0).push(r@));
    }
    assert(crate::text::views(rows@) =~= group_rows(group_view(*g)));
    rows
}

/// The suite as a text tree: each directory, then its rows as branches.
pub fn render_text(groups: &Vec<GraphGroup>) -> (out: String)
    ensures
        out@ == text_of(groups_view(groups@)),
{
    let ghost gv = groups_view(groups@);
    let mut out: Vec<char> = Vec::new();
    let mut i: usize = 0;
    while i < groups.len()
        invariant
            i <= groups@.len(),
            gv == groups_view(groups@),
            out@ == text_of(gv.take(i as int)),
        decreases groups@.len() - i,
    {
        let g = &groups[i];
        let ghost o0 = out@;
        if g.dir.as_str().is_empty() {
            push_str(&mut out, ".");
        } else {
            push_all(&mut out, &chars_of(g.dir.as_str()));
        }
        push_str(&mut out, "\n");
        let rows = rows_of(g);
        let ghost rv = crate::text::views(rows@);
        let last: usize = if rows.len() == 0 {
            0
        } else {
            rows.len() - 1
        };
        let ghost mid = out@;
        let mut k: usize = 0;
        while k < rows.len()
            invariant
                k <= rows@.len(),
                rv == crate::text::views(rows@),
                last == (if rows@.len() == 0 {
                    0
                } else {
                    rows@.len() - 1
                }),
                out@ == mid + concat(branch_lines(rv, k as nat)),
            decreases rows@.len() - k,
        {
            let ghost before = out@;
            if k == last {
                push_str(&mut out, "└─ ");
            } else {
                push_str(&mut out, "├─ ");
            }
            push_all(&mut out, &rows[k]);
            push_str(&mut out, "\n");
            proof {
                crate::text::lemma_concat_push(
                    branch_lines(rv, k as nat),
                    branch_lines(rv, (k + 1) as nat).last(),
                );
                assert(branch_lines(rv, (k + 1) as nat) == branch_lines(rv, k as nat).push(
                    branch_lines(rv, (k + 1) as nat).last(),
                ));
            }
            k = k + 1;
        }
        push_str(&mut out, "\n");
        proof {
            reveal_strlit(".");
            assert(gv.take(i + 1).drop_last() =~= gv.take(i as int));
            assert(gv[i as int] == group_view(groups@[i as int]));
            assert(rv == group_rows(gv[i as int]));
            assert(mid =~= o0 + dir_display(gv[i as int].dir) + "\n"@);
            assert(out@ =~= o0 + text_block(gv[i as int]));
        }
        i = i + 1;
    }
    assert(gv.take(i as int) =~= gv);
    string_from_chars(out.as_slice())
}

} // verus!

verus! {

/// `"` written as `&quot;`, so a label cannot end its Mermaid string.
pub open spec fn mermaid_text(s: Seq<char>) -> Seq<char>
    decreases s.len(),
{
    if s.len() == 0 {
        Seq::empty()
    } else {
        mermaid_text(s.drop_last()) + if s.last() == '"' {
            "&quot;"@
        } else {
            seq![s.last()]
        }
    }
}

pub fn mermaid_escape(s: &str) -> (out: String)
    ensures
        out@ == mermaid_text(s@),
{
    let out = mermaid_escape_chars(&chars_of(s));
    string_from_chars(out.as_slice())
}

fn mermaid_escape_chars(v: &Vec<char>) -> (out: Vec<char>)
    ensures
        out@ == mermaid_text(v@),
{
    let mut out: Vec<char> = Vec::new();
    let mut i: usize = 0;
    while i < v.len()
        invariant
            i <= v.len(),
            out@ == mermaid_text(v@.take(i as int)),
        decreases v.len() - i,
    {
        if v[i] == '"' {
            push_str(&mut out, "&quot;");
        } else {
            out.push(v[i]);
        }
        assert(v@.take(i + 1).drop_last() =~= v@.take(i as int));
        i = i + 1;
    }
    assert(v@.take(i as int) =~= v@);
    out
}

/// A node: `n<id>["<label>"]`.
pub open spec fn node_line(id: nat, label: Seq<char>) -> Seq<char> {
    "    n"@ + decimal(id) + "[\""@ + mermaid_text(label) + "\"]\n"@
}

/// An edge: `n<a> --> n<b>`.
pub open spec fn edge_line(a: nat, b: nat) -> Seq<char> {
    "    n"@ + decimal(a) + " --> n"@ + decimal(b) + "\n"@
}

/// Nodes for `labels`, numbered from `first`.
pub open spec fn nodes_text(labels: Seq<Seq<char>>, first: nat) -> Seq<char>
    decreases labels.len(),
{
    if labels.len() == 0 {
        Seq::empty()
    } else {
        nodes_text(labels.drop_last(), first) + node_line(
            (first + labels.len() - 1) as nat,
            labels.last(),
        )
    }
}

/// Edges from node `a` to the `k` nodes numbered from `first`.
pub open spec fn edges_out(a: nat, first: nat, k: nat) -> Seq<char>
    decreases k,
{
    if k == 0 {
        Seq::empty()
    } else {
        edges_out(a, first, (k - 1) as nat) + edge_line(a, (first + k - 1) as nat)
    }
}

/// Edges from the `k` nodes numbered from `first` to node `b`.
pub open spec fn edges_in(first: nat, k: nat, b: nat) -> Seq<char>
    decreases k,
{
    if k == 0 {
        Seq::empty()
    } else {
        edges_in(first, (k - 1) as nat, b) + edge_line((first + k - 1) as nat, b)
    }
}

/// One directory as a subgraph, appended to `out` with nodes numbered from
/// `next`: the subgraph is named by how many subgraphs `out` already holds;
/// setup leads to every test and every test to teardown, setup straight to
/// teardown when there are no tests. Returns the text and the next free number.
pub open spec fn group_mermaid(out: Seq<char>, g: GroupView, next: nat) -> (Seq<char>, nat) {
    let o1 = out + "  subgraph s"@ + decimal(count_occ(out, "subgraph"@)) + "[\""@ + mermaid_text(
        dir_display(g.dir),
    ) + "\"]\n"@;
    let first: nat = if g.setup is Some {
        next + 1
    } else {
        next
    };
    let o2 = o1 + match g.setup {
        Some(l) => node_line(next, l),
        None => Seq::empty(),
    };
    let o3 = o2 + nodes_text(g.tests, first);
    let after = first + g.tests.len();
    let o4 = o3 + match g.teardown {
        Some(l) => node_line(after, l),
        None => Seq::empty(),
    };
    let o5 = o4 + if g.setup is Some {
        edges_out(next, first, g.tests.len())
    } else {
        Seq::empty()
    };
    let o6 = o5 + if g.teardown is Some {
        edges_in(first, g.tests.len(), after) + if g.tests.len() == 0 && g.setup is Some {
            edge_line(next, after)
        } else {
            Seq::empty()
        }
    } else {
        Seq::empty()
    };
    (o6 + "  end\n"@, if g.teardown is Some {
        after + 1
    } else {
        after
    })
}

/// `e` occurs in `s` as a run of characters.
pub open spec fn occurs(s: Seq<char>, e: Seq<char>) -> bool {
    exists|p: int| 0 <= p && p + e.len() <= s.len() && #[trigger] s.subrange(p, p + e.len()) == e
}

proof fn lemma_occurs_left(x: Seq<char>, a: Seq<char>, e: Seq<char>)
    requires
        occurs(a, e),
    ensures
        occurs(x + a, e),
{
    let p = choose|p: int| 0 <= p && p + e.len() <= a.len() && #[trigger] a.subrange(p, p + e.len()) == e;
    assert((x + a).subrange(x.len() + p, x.len() + p + e.len()) =~= a.subrange(p, p + e.len()));
}

proof fn lemma_occurs_right(a: Seq<char>, y: Seq<char>, e: Seq<char>)
    requires
        occurs(a, e),
    ensures
        occurs(a + y, e),
{
    let p = choose|p: int| 0 <= p && p + e.len() <= a.len() && #[trigger] a.subrange(p, p + e.len()) == e;
    assert((a + y).subrange(p, p + e.len()) =~= a.subrange(p, p + e.len()));
}

proof fn lemma_occurs_self(e: Seq<char>)
    ensures
        occurs(e, e),
{
    let p: int = 0;
    assert(e.subrange(p, p + e.len()) =~= e);
}

proof fn lemma_edges_in_each(first: nat, m: nat, b: nat, k: nat)
    requires
        k < m,
    ensures
        occurs(edges_in(first, m, b), edge_line(first + k, b)),
    decreases m,
{
    if k == m - 1 {
        lemma_occurs_self(edge_line(first + k, b));
        lemma_occurs_left(edges_in(first, (m - 1) as nat, b), edge_line(first + k, b), edge_line(first + k, b));
    } else {
        lemma_edges_in_each(first, (m - 1) as nat, b, k);
        lemma_occurs_right(edges_in(first, (m - 1) as nat, b), edge_line((first + m - 1) as nat, b), edge_line(first + k, b));
    }
}

proof fn lemma_edges_out_each(a: nat, first: nat, m: nat, k: nat)
    requires
        k < m,
    ensures
        occurs(edges_out(a, first, m), edge_line(a, first + k)),
    decreases m,
{
    if k == m - 1 {
        lemma_occurs_self(edge_line(a, first + k));
        lemma_occurs_left(edges_out(a, first, (m - 1) as nat), edge_line(a, first + k), edge_line(a, first + k));
    } else {
        lemma_edges_out_each(a, first, (m - 1) as nat, k);
        lemma_occurs_right(edges_out(a, first, (m - 1) as nat), edge_line(a, (first + m - 1) as nat), edge_line(a, first + k));
    }
}

/// In a directory's subgraph, the setup leads to every test and every test
/// leads to the teardown: for each test numbered `k` (counted from the first
/// test's node), the edge from the setup node to it and the edge from it to
/// the teardown node are written; and what came before is kept.
pub proof fn lemma_every_test_is_linked(out: Seq<char>, g: GroupView, next: nat, k: nat)
    requires
        k < g.tests.len(),
    ensures
        ({
            let (text, n) = group_mermaid(out, g, next);
            let first: nat = if g.setup is Some { next + 1 } else { next };
            let after: nat = first + g.tests.len();
            &&& text.take(out.len() as int) == out
            &&& (g.setup is Some ==> occurs(text, edge_line(next, first + k)))
            &&& (g.teardown is Some ==> occurs(text, edge_line(first + k, after)))
            &&& n == if g.teardown is Some { after + 1 } else { after }
        }),
{
    let first: nat = if g.setup is Some { next + 1 } else { next };
    let after: nat = first + g.tests.len();
    let o1 = out + "  subgraph s"@ + decimal(count_occ(out, "subgraph"@)) + "[\""@ + mermaid_text(
        dir_display(g.dir),
    ) + "\"]\n"@;
    let o2 = o1 + match g.setup {
        Some(l) => node_line(next, l),
        None => Seq::empty(),
    };
    let o3 = o2 + nodes_text(g.tests, first);
    let o4 = o3 + match g.teardown {
        Some(l) => node_line(after, l),
        None => Seq::empty(),
    };
    let eo: Seq<char> = if g.setup is Some {
        edges_out(next, first, g.tests.len())
    } else {
        Seq::empty()
    };
    let o5 = o4 + eo;
    let ei: Seq<char> = if g.teardown is Some {
        edges_in(first, g.tests.len(), after) + if g.tests.len() == 0 && g.setup is Some {
            edge_line(next, after)
        } else {
            Seq::empty()
        }
    } else {
        Seq::empty()
    };
    let o6 = o5 + ei;
    let (text, n) = group_mermaid(out, g, next);
    assert(text == o6 + "  end\n"@);
    assert(text.take(out.len() as int) =~= out);
    if g.setup is Some {
        lemma_edges_out_each(next, first, g.tests.len(), k);
        lemma_occurs_left(o4, eo, edge_line(next, first + k));
        lemma_occurs_right(o5, ei, edge_line(next, first + k));
        lemma_occurs_right(o6, "  end\n"@, edge_line(next, first + k));
    }
    if g.teardown is Some {
        lemma_edges_in_each(first, g.tests.len(), after, k);
        let extra: Seq<char> = if g.tests.len() == 0 && g.setup is Some {
            edge_line(next, after)
        } else {
            Seq::empty()
        };
        lemma_occurs_right(edges_in(first, g.tests.len(), after), extra, edge_line(first + k, after));
        lemma_occurs_left(o5, ei, edge_line(first + k, after));
        lemma_occurs_right(o6, "  end\n"@, edge_line(first + k, after));
    }
}

/// A directory with a setup and a teardown but no tests links the setup
/// straight to the teardown.
pub proof fn lemma_setup_leads_to_teardown_without_tests(out: Seq<char>, g: GroupView, next: nat)
    requires
        g.tests.len() == 0,
        g.setup is Some,
        g.teardown is Some,
    ensures
        occurs(group_mermaid(out, g, next).0, edge_line(next, next + 1)),
{
    let first: nat = next + 1;
    let after: nat = first;
    let o1 = out + "  subgraph s"@ + decimal(count_occ(out, "subgraph"@)) + "[\""@ + mermaid_text(
        dir_display(g.dir),
    ) + "\"]\n"@;
    let o2 = o1 + node_line(next, g.setup->0);
    let o3 = o2 + nodes_text(g.tests, first);
    let o4 = o3 + node_line(after, g.teardown->0);
    let o5 = o4 + edges_out(next, first, 0);
    let ei = edges_in(first, 0, after) + edge_line(next, after);
    let o6 = o5 + ei;
    assert(group_mermaid(out, g, next).0 == o6 + "  end\n"@);
    lemma_occurs_self(edge_line(next, after));
    lemma_occurs_left(edges_in(first, 0, after), edge_line(next, after), edge_line(next, after));
    lemma_occurs_left(o5, ei, edge_line(next, after));
    lemma_occurs_right(o6, "  end\n"@, edge_line(next, after));
}

pub open spec fn mermaid_from(gs: Seq<GroupView>, out: Seq<char>, next: nat) -> Seq<char>
    decreases gs.len(),
{
    if gs.len() == 0 {
        out
    } else {
        let (o, n) = group_mermaid(out, gs[0], next);
        mermaid_from(gs.drop_first(), o, n)
    }
}

/// The suite as a Mermaid flowchart, fenced for Markdown.
pub open spec fn mermaid_of(gs: Seq<GroupView>) -> Seq<char> {
    mermaid_from(gs, "```mermaid\nflowchart TD\n"@, 0) + "```\n"@
}

fn push_node(out: &mut Vec<char>, id: usize, label: &str)
    ensures
        final(out)@ == old(out)@ + node_line(id as nat, label@),
{
    push_str(out, "    n");
    push_all(out, &decimal_chars(id as u64));
    push_str(out, "[\"");
    push_all(out, &mermaid_escape_chars(&chars_of(label)));
    push_str(out, "\"]\n");
}

fn push_edge(out: &mut Vec<char>, a: usize, b: usize)
    ensures
        final(out)@ == old(out)@ + edge_line(a as nat, b as nat),
{
    push_str(out, "    n");
    push_all(out, &decimal_chars(a as u64));
    push_str(out, " --> n");
    push_all(out, &decimal_chars(b as u64));
    push_str(out, "\n");
}

fn push_group(out: &mut Vec<char>, g: &GraphGroup, next: usize) -> (n: usize)
    requires
        next + g.tests@.len() + 2 <= usize::MAX,
    ensures
        (final(out)@, n as nat) == group_mermaid(old(out)@, group_view(*g), next as nat),
{
    let ghost gv = group_view(*g);
    let sid = count_occ_exec(out, "subgraph");
    push_str(out, "  subgraph s");
    push_all(out, &decimal_chars(sid as u64));
    push_str(out, "[\"");
    let dir = if g.dir.as_str().is_empty() {
        chars_of(".")
    } else {
        chars_of(g.dir.as_str())
    };
    proof {
        reveal_strlit(".");
    }
    push_all(out, &mermaid_escape_chars(&dir));
    push_str(out, "\"]\n");
    let mut id = next;
    let setup_id: Option<usize> = match &g.setup {
        Some(l) => {
            push_node(out, id, l.as_str());
            id = id + 1;
            Some(next)
        },
        None => None,
    };
    let first = id;
    let ghost o2 = out@;
    let mut k: usize = 0;
    while k < g.tests.len()
        invariant
            k <= g.tests@.len(),
            first + g.tests@.len() + 1 <= usize::MAX,
            gv == group_view(*g),
            out@ == o2 + nodes_text(gv.tests.take(k as int), first as nat),
        decreases g.tests@.len() - k,
    {
        push_node(out, first + k, g.tests[k].as_str());
        proof {
            assert(gv.tests.take(k + 1).drop_last() =~= gv.tests.take(k as int));
            assert(gv.tests.take(k + 1).last() == g.tests@[k as int]@);
        }
        k = k + 1;
    }
    assert(gv.tests.take(k as int) =~= gv.tests);
    let after = first + g.tests.len();
    let teardown_id: Option<usize> = match &g.teardown {
        Some(l) => {
            push_node(out, after, l.as_str());
            Some(after)
        },
        None => None,
    };
    if let Some(s) = setup_id {
        let ghost o4 = out@;
        let mut k: usize = 0;
        while k < g.tests.len()
            invariant
                k <= g.tests@.len(),
                first + g.tests@.len() + 1 <= usize::MAX,
                out@ == o4 + edges_out(s as nat, first as nat, k as nat),
            decreases g.tests@.len() - k,
        {
            push_edge(out, s, first + k);
            k = k + 1;
        }
    }
    if let Some(t) = teardown_id {
        let ghost o5 = out@;
        let mut k: usize = 0;
        while k < g.tests.len()
            invariant
                k <= g.tests@.len(),
                first + g.tests@.len() + 1 <= usize::MAX,
                out@ == o5 + edges_in(first as nat, k as nat, t as nat),
            decreases g.tests@.len() - k,
        {
            push_edge(out, first + k, t);
            k = k + 1;
        }
        if g.tests.len() == 0 {
            if let Some(s) = setup_id {
                push_edge(out, s, t);
            }
        }
    }
    push_str(out, "  end\n");
    let n = if teardown_id.is_some() {
        after + 1
    } else {
        after
    };
    proof {
        assert((out@, n as nat) =~~= group_mermaid(old(out)@, gv, next as nat));
    }
    n
}

/// Room for the node numbers of `gs`: two fixtures and the tests per directory.
pub open spec fn node_budget(gs: Seq<GraphGroup>) -> nat
    decreases gs.len(),
{
    if gs.len() == 0 {
        0
    } else {
        gs[0].tests@.len() + 2 + node_budget(gs.drop_first())
    }
}

/// The suite as a Mermaid flowchart.
pub fn render_mermaid(groups: &Vec<GraphGroup>) -> (out: String)
    requires
        node_budget(groups@) <= usize::MAX,
    ensures
        out@ == mermaid_of(groups_view(groups@)),
{
    let ghost gv = groups_view(groups@);
    let mut out = chars_of("```mermaid\nflowchart TD\n");
    let mut next: usize = 0;
    let mut i: usize = 0;
    assert(groups@.skip(0) =~= groups@);
    assert(gv.skip(0) =~= gv);
    while i < groups.len()
        invariant
            i <= groups@.len(),
            gv == groups_view(groups@),
            node_budget(groups@) <= usize::MAX,
            next + node_budget(groups@.skip(i as int)) <= node_budget(groups@),
            mermaid_from(gv, "```mermaid\nflowchart TD\n"@, 0) == mermaid_from(
                gv.skip(i as int),
                out@,
                next as nat,
            ),
        decreases groups@.len() - i,
    {
        proof {
            assert(groups@.skip(i as int).drop_first() =~= groups@.skip(i + 1));
            assert(gv.skip(i as int).drop_first() =~= gv.skip(i + 1));
            assert(gv.skip(i as int)[0] == group_view(groups@[i as int]));
        }
        next = push_group(&mut out, &groups[i], next);
        i = i + 1;
    }
    assert(gv.skip(i as int) =~= Seq::<GroupView>::empty());
    push_str(&mut out, "```\n");
    string_from_chars(out.as_slice())
}

} // verus!
