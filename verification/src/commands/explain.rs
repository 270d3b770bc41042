//! The orderings `explain` prints configuration in: key-value sections sorted
//! by key, the BENCH section by its canonical key order then by key. The
//! entries come from a map walked in any order; equal keys keep their order.
use crate::commands::fmt::{bench_key_rank, bench_key_rank_exec};
use crate::sort::{lemma_lex_antisym, lemma_lex_total, lemma_lex_trans, lex_le, lex_le_exec};
use vstd::multiset::Multiset;
use vstd::prelude::*;

verus! {

broadcast use vstd::string::group_string_axioms;

pub open spec fn pair_view(p: (String, String)) -> (Seq<char>, Seq<char>) {
    (p.0@, p.1@)
}

pub open spec fn pairs_view(s: Seq<(String, String)>) -> Seq<(Seq<char>, Seq<char>)> {
    s.map_values(|p: (String, String)| pair_view(p))
}

/// `a`'s key does not come after `b`'s: by canonical BENCH rank first when
/// `ranked`, then in code-point order.
pub open spec fn key_le(a: Seq<char>, b: Seq<char>, ranked: bool) -> bool {
    if ranked {
        bench_key_rank(a) < bench_key_rank(b) || (bench_key_rank(a) == bench_key_rank(b) && lex_le(
            a,
            b,
        ))
    } else {
        lex_le(a, b)
    }
}

pub open spec fn insert_pair(
    s: Seq<(Seq<char>, Seq<char>)>,
    x: (Seq<char>, Seq<char>),
    ranked: bool,
) -> Seq<(Seq<char>, Seq<char>)>
    decreases s.len(),
{
    if s.len() == 0 {
        seq![x]
    } else if key_le(s.last().0, x.0, ranked) {
        s.push(x)
    } else {
        insert_pair(s.drop_last(), x, ranked).push(s.last())
    }
}

/// The stable sort of `s` by key.
pub open spec fn sort_pairs(s: Seq<(Seq<char>, Seq<char>)>, ranked: bool) -> Seq<
    (Seq<char>, Seq<char>),
>
    decreases s.len(),
{
    if s.len() == 0 {
        s
    } else {
        insert_pair(sort_pairs(s.drop_last(), ranked), s.last(), ranked)
    }
}

proof fn lemma_insert_pair_at(
    s: Seq<(Seq<char>, Seq<char>)>,
    x: (Seq<char>, Seq<char>),
    p: int,
    ranked: bool,
)
    requires
        0 <= p <= s.len(),
        p > 0 ==> key_le(s[p - 1].0, x.0, ranked),
        forall|j: int| p <= j < s.len() ==> !key_le((#[trigger] s[j]).0, x.0, ranked),
    ensures
        insert_pair(s, x, ranked) == s.take(p) + seq![x] + s.skip(p),
    decreases s.len(),
{
    if s.len() == 0 {
        assert(s.take(p) + seq![x] + s.skip(p) =~= seq![x]);
    } else if p == s.len() {
        assert(s.take(p) + seq![x] + s.skip(p) =~= s.push(x));
    } else {
        assert(!key_le(s.last().0, x.0, ranked));
        assert forall|j: int| p <= j < s.drop_last().len() implies !key_le(
            (#[trigger] s.drop_last()[j]).0,
            x.0,
            ranked,
        ) by {
            assert(s.drop_last()[j] == s[j]);
        }
        if p > 0 {
            assert(s.drop_last()[p - 1] == s[p - 1]);
        }
        lemma_insert_pair_at(s.drop_last(), x, p, ranked);
        assert(s.drop_last().take(p) + seq![x] + s.drop_last().skip(p) + seq![s.last()] =~= s.take(
            p,
        ) + seq![x] + s.skip(p));
    }
}

type Pair = (Seq<char>, Seq<char>);

proof fn lemma_key_le_total(a: Seq<char>, b: Seq<char>, ranked: bool)
    ensures
        key_le(a, b, ranked) || key_le(b, a, ranked),
{
    lemma_lex_total(a, b);
}

proof fn lemma_key_le_trans(a: Seq<char>, b: Seq<char>, c: Seq<char>, ranked: bool)
    requires
        key_le(a, b, ranked),
        key_le(b, c, ranked),
    ensures
        key_le(a, c, ranked),
{
    if !ranked || (bench_key_rank(a) == bench_key_rank(b) && bench_key_rank(b) == bench_key_rank(c)) {
        lemma_lex_trans(a, b, c);
    }
}

/// No entry's key comes after a later entry's.
pub open spec fn pairs_sorted(s: Seq<(Seq<char>, Seq<char>)>, ranked: bool) -> bool {
    forall|i: int, j: int| 0 <= i < j < s.len() ==> key_le(s[i].0, s[j].0, ranked)
}

proof fn lemma_insert_pair_len(s: Seq<Pair>, x: Pair, ranked: bool)
    ensures
        insert_pair(s, x, ranked).len() == s.len() + 1,
    decreases s.len(),
{
    if s.len() > 0 && !key_le(s.last().0, x.0, ranked) {
        lemma_insert_pair_len(s.drop_last(), x, ranked);
    }
}

proof fn lemma_insert_pair_bounded(s: Seq<Pair>, x: Pair, u: Seq<char>, ranked: bool)
    requires
        forall|i: int| 0 <= i < s.len() ==> key_le((#[trigger] s[i]).0, u, ranked),
        key_le(x.0, u, ranked),
    ensures
        forall|i: int|
            0 <= i < insert_pair(s, x, ranked).len() ==> key_le(
                (#[trigger] insert_pair(s, x, ranked)[i]).0,
                u,
                ranked,
            ),
    decreases s.len(),
{
    if s.len() == 0 {
        assert(insert_pair(s, x, ranked) == seq![x]);
    } else if key_le(s.last().0, x.0, ranked) {
        let r = s.push(x);
        assert forall|i: int| 0 <= i < r.len() implies key_le((#[trigger] r[i]).0, u, ranked) by {
            if i < s.len() {
                assert(r[i] == s[i]);
            }
        }
    } else {
        let t = s.drop_last();
        assert forall|i: int| 0 <= i < t.len() implies key_le((#[trigger] t[i]).0, u, ranked) by {
            assert(t[i] == s[i]);
        }
        assert(key_le(s[s.len() - 1].0, u, ranked));
        lemma_insert_pair_bounded(t, x, u, ranked);
        let q = insert_pair(t, x, ranked);
        let r = q.push(s.last());
        assert forall|i: int| 0 <= i < r.len() implies key_le((#[trigger] r[i]).0, u, ranked) by {
            if i < q.len() {
                assert(r[i] == q[i]);
            }
        }
    }
}

proof fn lemma_insert_pair_sorted(s: Seq<Pair>, x: Pair, ranked: bool)
    requires
        pairs_sorted(s, ranked),
    ensures
        pairs_sorted(insert_pair(s, x, ranked), ranked),
    decreases s.len(),
{
    if s.len() == 0 {
    } else if key_le(s.last().0, x.0, ranked) {
        assert forall|i: int, j: int| 0 <= i < j < s.push(x).len() implies key_le(
            s.push(x)[i].0,
            s.push(x)[j].0,
            ranked,
        ) by {
            if j == s.len() && i < s.len() - 1 {
                lemma_key_le_trans(s[i].0, s.last().0, x.0, ranked);
            }
        }
    } else {
        let t = s.drop_last();
        let last = s.last();
        assert(pairs_sorted(t, ranked));
        lemma_insert_pair_sorted(t, x, ranked);
        lemma_key_le_total(last.0, x.0, ranked);
        assert forall|i: int| 0 <= i < t.len() implies key_le((#[trigger] t[i]).0, last.0, ranked) by {
            assert(s[i] == t[i]);
        }
        lemma_insert_pair_bounded(t, x, last.0, ranked);
        let r = insert_pair(t, x, ranked);
        lemma_insert_pair_len(t, x, ranked);
        assert forall|i: int, j: int| 0 <= i < j < r.push(last).len() implies key_le(
            r.push(last)[i].0,
            r.push(last)[j].0,
            ranked,
        ) by {
            if j == r.len() {
                assert(key_le(r[i].0, last.0, ranked));
            } else {
                assert(key_le(r[i].0, r[j].0, ranked));
            }
        }
    }
}

proof fn lemma_insert_pair_multiset(s: Seq<Pair>, x: Pair, ranked: bool)
    ensures
        insert_pair(s, x, ranked).to_multiset() == s.to_multiset().insert(x),
    decreases s.len(),
{
    broadcast use vstd::seq_lib::to_multiset_build;
    broadcast use vstd::multiset::group_multiset_axioms;

    if s.len() == 0 {
        assert(s.push(x) =~= seq![x]);
    } else if key_le(s.last().0, x.0, ranked) {
    } else {
        let t = s.drop_last();
        lemma_insert_pair_multiset(t, x, ranked);
        assert(s =~= t.push(s.last()));
        assert(t.to_multiset().insert(x).insert(s.last()) =~= t.to_multiset().insert(s.last()).insert(
            x,
        ));
    }
}

/// Listing entries in key order keeps every entry: the result is ordered by
/// key and holds each entry as often as the input did.
pub proof fn lemma_sorted_entries_are_an_ordered_reordering(s: Seq<Pair>, ranked: bool)
    ensures
        pairs_sorted(sort_pairs(s, ranked), ranked),
        sort_pairs(s, ranked).to_multiset() == s.to_multiset(),
    decreases s.len(),
{
    broadcast use vstd::seq_lib::to_multiset_build;

    if s.len() > 0 {
        lemma_sorted_entries_are_an_ordered_reordering(s.drop_last(), ranked);
        lemma_insert_pair_sorted(sort_pairs(s.drop_last(), ranked), s.last(), ranked);
        lemma_insert_pair_multiset(sort_pairs(s.drop_last(), ranked), s.last(), ranked);
        assert(s =~= s.drop_last().push(s.last()));
    }
}

/// Entries with the same key are the same entry, as in a map.
pub open spec fn one_entry_per_key(m: Multiset<Pair>) -> bool {
    forall|a: Pair, b: Pair| #[trigger] m.contains(a) && #[trigger] m.contains(b) && a.0 == b.0 ==> a == b
}

proof fn lemma_key_le_antisym(a: Seq<char>, b: Seq<char>, ranked: bool)
    requires
        key_le(a, b, ranked),
        key_le(b, a, ranked),
    ensures
        a == b,
{
    lemma_lex_antisym(a, b);
}

/// The entry listed last is not before any entry listed.
proof fn lemma_last_is_greatest(t: Seq<Pair>, x: Pair, ranked: bool)
    requires
        pairs_sorted(t, ranked),
        t.contains(x),
    ensures
        key_le(x.0, t.last().0, ranked),
{
    let i = choose|i: int| 0 <= i < t.len() && t[i] == x;
    if i == t.len() - 1 {
        lemma_key_le_total(x.0, x.0, ranked);
    }
}

/// Two key-ordered listings of the same entries, with one entry per key, are
/// the same listing.
proof fn lemma_sorted_listing_unique(t1: Seq<Pair>, t2: Seq<Pair>, ranked: bool)
    requires
        pairs_sorted(t1, ranked),
        pairs_sorted(t2, ranked),
        t1.to_multiset() == t2.to_multiset(),
        one_entry_per_key(t1.to_multiset()),
    ensures
        t1 == t2,
    decreases t1.len(),
{
    broadcast use vstd::seq_lib::group_to_multiset_ensures;
    broadcast use vstd::multiset::group_multiset_axioms;

    assert(t1.to_multiset().len() == t1.len());
    assert(t2.to_multiset().len() == t2.len());
    if t1.len() == 0 {
        assert(t2.len() == 0);
        assert(t1 =~= t2);
    } else {
        assert(t2.len() == t1.len());
        let a = t1.last();
        let b = t2.last();
        let m = t1.to_multiset();
        assert(t1 =~= t1.drop_last().push(a));
        assert(t2 =~= t2.drop_last().push(b));
        assert(m =~= t1.drop_last().to_multiset().insert(a));
        assert(m =~= t2.drop_last().to_multiset().insert(b));
        assert(m.contains(a));
        assert(m.contains(b));
        assert(t1.contains(b));
        assert(t2.contains(a));
        lemma_last_is_greatest(t1, b, ranked);
        lemma_last_is_greatest(t2, a, ranked);
        lemma_key_le_antisym(a.0, b.0, ranked);
        assert(a == b);
        let d1 = t1.drop_last();
        let d2 = t2.drop_last();
        assert(d1.to_multiset() =~= m.remove(a));
        assert(d2.to_multiset() =~= m.remove(a));
        assert forall|x: Pair, y: Pair| #[trigger] d1.to_multiset().contains(x) && #[trigger] d1.to_multiset().contains(y) && x.0 == y.0 implies x == y by {
            assert(m.contains(x) && m.contains(y));
        }
        assert(pairs_sorted(d1, ranked));
        assert(pairs_sorted(d2, ranked));
        lemma_sorted_listing_unique(d1, d2, ranked);
        assert(t1 =~= t2);
    }
}

/// Listing a map's entries does not depend on the order the map is walked
/// in: any two walks of the same entries, one entry per key, give the same
/// listing.
pub proof fn lemma_listing_ignores_walk_order(s1: Seq<Pair>, s2: Seq<Pair>, ranked: bool)
    requires
        s1.to_multiset() == s2.to_multiset(),
        one_entry_per_key(s1.to_multiset()),
    ensures
        sort_pairs(s1, ranked) == sort_pairs(s2, ranked),
{
    lemma_sorted_entries_are_an_ordered_reordering(s1, ranked);
    lemma_sorted_entries_are_an_ordered_reordering(s2, ranked);
    lemma_sorted_listing_unique(sort_pairs(s1, ranked), sort_pairs(s2, ranked), ranked);
}

fn key_le_exec(a: &String, b: &String, ranked: bool) -> (r: bool)
    ensures
        r == key_le(a@, b@, ranked),
{
    let ka = crate::text::chars_of(a.as_str());
    let kb = crate::text::chars_of(b.as_str());
    if ranked {
        let ra = bench_key_rank_exec(&ka);
        let rb = bench_key_rank_exec(&kb);
        ra < rb || (ra == rb && lex_le_exec(&ka, &kb))
    } else {
        lex_le_exec(&ka, &kb)
    }
}

fn sort_pairs_exec(v: Vec<(String, String)>, ranked: bool) -> (out: Vec<(String, String)>)
    ensures
        pairs_view(out@) == sort_pairs(pairs_view(v@), ranked),
{
    let mut rest = v;
    let ghost all = pairs_view(rest@);
    let n0 = rest.len();
    assert(all.len() == n0);
    let mut out: Vec<(String, String)> = Vec::new();
    let mut k: usize = 0;
    assert(pairs_view(out@) =~= sort_pairs(all.take(0), ranked));
    while rest.len() > 0
        invariant
            k <= all.len(),
            all.len() <= usize::MAX,
            pairs_view(rest@) == all.skip(k as int),
            pairs_view(out@) == sort_pairs(all.take(k as int), ranked),
        decreases rest.len(),
    {
        let ghost r0 = rest@;
        let x = rest.remove(0);
        proof {
            assert(pairs_view(r0).len() == r0.len());
            assert(all.skip(k as int).len() == all.len() - k);
            assert(pairs_view(r0)[0] == pair_view(r0[0]));
            assert(all.skip(k as int)[0] == all[k as int]);
            assert(rest@ =~= r0.subrange(1, r0.len() as int));
            assert(pairs_view(rest@) =~= pairs_view(r0).subrange(1, r0.len() as int));
            assert(all.skip(k as int).subrange(1, r0.len() as int) =~= all.skip(k + 1));
            assert(pairs_view(rest@) =~= all.skip(k + 1));
            assert(pair_view(x) == all[k as int]);
        }
        let mut p = out.len();
        while p > 0 && !key_le_exec(&out[p - 1].0, &x.0, ranked)
            invariant
                p <= out.len(),
                forall|j: int|
                    p <= j < out.len() ==> !key_le(
                        (#[trigger] pairs_view(out@)[j]).0,
                        pair_view(x).0,
                        ranked,
                    ),
            decreases p,
        {
            p = p - 1;
        }
        let ghost before = pairs_view(out@);
        proof {
            if p > 0 {
                assert(key_le(before[p - 1].0, pair_view(x).0, ranked));
            }
            lemma_insert_pair_at(before, pair_view(x), p as int, ranked);
        }
        out.insert(p, x);
        proof {
            assert(pairs_view(out@) =~= before.take(p as int) + seq![all[k as int]] + before.skip(
                p as int,
            ));
            assert(all.take(k + 1).drop_last() =~= all.take(k as int));
        }
        k = k + 1;
    }
    proof {
        assert(all.take(k as int) =~= all);
    }
    out
}

/// A section's entries sorted by key (entries of one key keep their order).
pub fn sorted_key_values(entries: Vec<(String, String)>) -> (out: Vec<(String, String)>)
    ensures
        pairs_view(out@) == sort_pairs(pairs_view(entries@), false),
{
    sort_pairs_exec(entries, false)
}

/// BENCH entries in canonical key order, keys of one rank by key.
pub fn sorted_bench_key_values(entries: Vec<(String, String)>) -> (out: Vec<(String, String)>)
    ensures
        pairs_view(out@) == sort_pairs(pairs_view(entries@), true),
{
    sort_pairs_exec(entries, true)
}

} // verus!
