//! A page lists its files by title: a stable sort of file positions by the
//! titles of the files they point at.
use crate::commands::docs_group::FlowSource;
use crate::sort::{lex_le, lex_le_exec};
use crate::text::chars_of;
use vstd::prelude::*;

verus! {

broadcast use vstd::string::group_string_axioms;

/// The title of the file at position `i`.
pub open spec fn title_of(srcs: Seq<FlowSource>, i: usize) -> Seq<char> {
    srcs[i as int].flow.title@
}

/// `x` placed after every position of `s` whose title is not after its own.
pub open spec fn insert_by_title(srcs: Seq<FlowSource>, s: Seq<usize>, x: usize) -> Seq<usize>
    decreases s.len(),
{
    if s.len() == 0 {
        seq![x]
    } else if lex_le(title_of(srcs, s.last()), title_of(srcs, x)) {
        s.push(x)
    } else {
        insert_by_title(srcs, s.drop_last(), x).push(s.last())
    }
}

/// The stable sort of `s` by title.
pub open spec fn by_title(srcs: Seq<FlowSource>, s: Seq<usize>) -> Seq<usize>
    decreases s.len(),
{
    if s.len() == 0 {
        s
    } else {
        insert_by_title(srcs, by_title(srcs, s.drop_last()), s.last())
    }
}

proof fn lemma_insert_at(srcs: Seq<FlowSource>, s: Seq<usize>, x: usize, p: int)
    requires
        0 <= p <= s.len(),
        p > 0 ==> lex_le(title_of(srcs, s[p - 1]), title_of(srcs, x)),
        forall|j: int| p <= j < s.len() ==> !lex_le(title_of(srcs, #[trigger] s[j]), title_of(srcs, x)),
    ensures
        insert_by_title(srcs, s, x) == s.take(p) + seq![x] + s.skip(p),
    decreases s.len(),
{
    if s.len() == 0 {
        assert(s.take(p) + seq![x] + s.skip(p) =~= seq![x]);
    } else if p == s.len() {
        assert(s.take(p) + seq![x] + s.skip(p) =~= s.push(x));
    } else {
        assert(!lex_le(title_of(srcs, s[s.len() - 1]), title_of(srcs, x)));
        assert forall|j: int| p <= j < s.drop_last().len() implies !lex_le(
            title_of(srcs, #[trigger] s.drop_last()[j]),
            title_of(srcs, x),
        ) by {
            assert(s.drop_last()[j] == s[j]);
        }
        if p > 0 {
            assert(s.drop_last()[p - 1] == s[p - 1]);
        }
        lemma_insert_at(srcs, s.drop_last(), x, p);
        assert(s.drop_last().take(p) + seq![x] + s.drop_last().skip(p) + seq![s.last()] =~= s.take(
            p,
        ) + seq![x] + s.skip(p));
    }
}

/// A copy of a list of positions.
pub fn copy_positions(v: &Vec<usize>) -> (out: Vec<usize>)
    ensures
        out@ == v@,
{
    let mut out: Vec<usize> = Vec::new();
    let mut i: usize = 0;
    while i < v.len()
        invariant
            i <= v@.len(),
            out@ == v@.take(i as int),
        decreases v@.len() - i,
    {
        out.push(v[i]);
        i = i + 1;
        assert(out@ =~= v@.take(i as int));
    }
    assert(v@.take(v@.len() as int) =~= v@);
    out
}

fn title_le(srcs: &Vec<FlowSource>, a: usize, b: usize) -> (r: bool)
    requires
        a < srcs@.len(),
        b < srcs@.len(),
    ensures
        r == lex_le(title_of(srcs@, a), title_of(srcs@, b)),
{
    let ta = chars_of(srcs[a].flow.title.as_str());
    let tb = chars_of(srcs[b].flow.title.as_str());
    lex_le_exec(&ta, &tb)
}

/// Positions ordered by the titles of their files, positions of one title in
/// the order given.
pub fn sort_by_title(srcs: &Vec<FlowSource>, files: Vec<usize>) -> (out: Vec<usize>)
    requires
        forall|a: int| 0 <= a < files@.len() ==> #[trigger] files@[a] < srcs@.len(),
    ensures
        out@ == by_title(srcs@, files@),
{
    let ghost all = files@;
    let mut out: Vec<usize> = Vec::new();
    let mut k: usize = 0;
    assert(out@ =~= by_title(srcs@, all.take(0)));
    while k < files.len()
        invariant
            k <= files@.len(),
            files@ == all,
            forall|a: int| 0 <= a < all.len() ==> #[trigger] all[a] < srcs@.len(),
            out@ == by_title(srcs@, all.take(k as int)),
            forall|a: int| 0 <= a < out@.len() ==> #[trigger] out@[a] < srcs@.len(),
            out@.len() == k,
        decreases files@.len() - k,
    {
        let x = files[k];
        let mut p = out.len();
        while p > 0 && !title_le(srcs, out[p - 1], x)
            invariant
                p <= out@.len(),
                x < srcs@.len(),
                forall|a: int| 0 <= a < out@.len() ==> #[trigger] out@[a] < srcs@.len(),
                forall|j: int|
                    p <= j < out@.len() ==> !lex_le(title_of(srcs@, #[trigger] out@[j]), title_of(srcs@, x)),
            decreases p,
        {
            p = p - 1;
        }
        let ghost before = out@;
        proof {
            lemma_insert_at(srcs@, before, x, p as int);
        }
        out.insert(p, x);
        proof {
            assert(out@ =~= before.take(p as int) + seq![x] + before.skip(p as int));
            assert(all.take(k + 1).drop_last() =~= all.take(k as int));
            assert(all.take(k + 1).last() == x);
            assert forall|a: int| 0 <= a < out@.len() implies #[trigger] out@[a] < srcs@.len() by {
                if a < p {
                    assert(out@[a] == before[a]);
                } else if a > p {
                    assert(out@[a] == before[a - 1]);
                }
            }
        }
        k = k + 1;
    }
    assert(all.take(k as int) =~= all);
    out
}

} // verus!
