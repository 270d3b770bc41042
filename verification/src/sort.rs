//! Stable ordering of keyed blocks of lines: sections, key-value entries and
//! inline options all sort this way, so equal keys keep their written order.
use crate::text::views;
use vstd::prelude::*;

verus! {

/// Code-point lexicographic order (`str`'s `Ord`: UTF-8 byte order is
/// code-point order): `a` is not after `b`.
pub open spec fn lex_le(a: Seq<char>, b: Seq<char>) -> bool
    decreases a.len(),
{
    if a.len() == 0 {
        true
    } else if b.len() == 0 {
        false
    } else if a[0] != b[0] {
        (a[0] as u32) < (b[0] as u32)
    } else {
        lex_le(a.drop_first(), b.drop_first())
    }
}

/// Any two texts are ordered one way or the other.
pub proof fn lemma_lex_total(a: Seq<char>, b: Seq<char>)
    ensures
        lex_le(a, b) || lex_le(b, a),
    decreases a.len(),
{
    if a.len() > 0 && b.len() > 0 {
        if a[0] == b[0] {
            lemma_lex_total(a.drop_first(), b.drop_first());
        } else {
            vstd::utf8::char_u32_cast(a[0], a[0] as u32);
            vstd::utf8::char_u32_cast(b[0], b[0] as u32);
        }
    }
}

/// The order is transitive.
pub proof fn lemma_lex_trans(a: Seq<char>, b: Seq<char>, c: Seq<char>)
    requires
        lex_le(a, b),
        lex_le(b, c),
    ensures
        lex_le(a, c),
    decreases a.len(),
{
    if a.len() > 0 && b.len() > 0 && c.len() > 0 && a[0] == b[0] && b[0] == c[0] {
        lemma_lex_trans(a.drop_first(), b.drop_first(), c.drop_first());
    }
}

/// Texts ordered both ways are equal.
pub proof fn lemma_lex_antisym(a: Seq<char>, b: Seq<char>)
    requires
        lex_le(a, b),
        lex_le(b, a),
    ensures
        a == b,
    decreases a.len(),
{
    if a.len() > 0 && b.len() > 0 {
        lemma_lex_antisym(a.drop_first(), b.drop_first());
        assert(a =~= seq![a[0]] + a.drop_first());
        assert(b =~= seq![b[0]] + b.drop_first());
    }
}

pub fn lex_le_exec(a: &Vec<char>, b: &Vec<char>) -> (r: bool)
    ensures
        r == lex_le(a@, b@),
{
    let mut i: usize = 0;
    assert(a@.skip(0) =~= a@);
    assert(b@.skip(0) =~= b@);
    while i < a.len() && i < b.len() && a[i] == b[i]
        invariant
            i <= a.len(),
            i <= b.len(),
            lex_le(a@.skip(i as int), b@.skip(i as int)) == lex_le(a@, b@),
        decreases a.len() - i,
    {
        proof {
            assert(a@.skip(i as int).drop_first() =~= a@.skip(i + 1));
            assert(b@.skip(i as int).drop_first() =~= b@.skip(i + 1));
        }
        i = i + 1;
    }
    proof {
        assert(a@.skip(0) =~= a@);
        assert(b@.skip(0) =~= b@);
    }
    if i >= a.len() {
        true
    } else if i >= b.len() {
        false
    } else {
        (a[i] as u32) < (b[i] as u32)
    }
}

/// Something to sort: a rank, then a key, ordering a block of lines.
pub struct SortItem {
    pub rank: usize,
    pub key: Vec<char>,
    pub lines: Vec<Vec<char>>,
}

pub type ItemView = (nat, Seq<char>, Seq<Seq<char>>);

pub open spec fn item_view(i: SortItem) -> ItemView {
    (i.rank as nat, i.key@, views(i.lines@))
}

pub open spec fn items_view(s: Seq<SortItem>) -> Seq<ItemView> {
    s.map_values(|i: SortItem| item_view(i))
}

/// Order by rank, then by key.
pub open spec fn item_le(a: ItemView, b: ItemView) -> bool {
    a.0 < b.0 || (a.0 == b.0 && lex_le(a.1, b.1))
}

/// `x` placed after every element of the sorted `s` that is not after it.
pub open spec fn insert_item(s: Seq<ItemView>, x: ItemView) -> Seq<ItemView>
    decreases s.len(),
{
    if s.len() == 0 {
        seq![x]
    } else if item_le(s.last(), x) {
        s.push(x)
    } else {
        insert_item(s.drop_last(), x).push(s.last())
    }
}

/// The stable sort of `s` by rank, then key.
pub open spec fn sort_items(s: Seq<ItemView>) -> Seq<ItemView>
    decreases s.len(),
{
    if s.len() == 0 {
        s
    } else {
        insert_item(sort_items(s.drop_last()), s.last())
    }
}

/// The lines of the items, one block after the other.
pub open spec fn flatten(s: Seq<ItemView>) -> Seq<Seq<char>>
    decreases s.len(),
{
    if s.len() == 0 {
        Seq::empty()
    } else {
        flatten(s.drop_last()) + s.last().2
    }
}

proof fn lemma_insert_at(s: Seq<ItemView>, x: ItemView, p: int)
    requires
        0 <= p <= s.len(),
        p > 0 ==> item_le(s[p - 1], x),
        forall|j: int| p <= j < s.len() ==> !item_le(#[trigger] s[j], x),
    ensures
        insert_item(s, x) == s.take(p) + seq![x] + s.skip(p),
    decreases s.len(),
{
    if s.len() == 0 {
        assert(s.take(p) + seq![x] + s.skip(p) =~= seq![x]);
    } else if p == s.len() {
        assert(item_le(s.last(), x));
        assert(s.take(p) + seq![x] + s.skip(p) =~= s.push(x));
    } else {
        assert(!item_le(s.last(), x));
        assert forall|j: int| p <= j < s.drop_last().len() implies !item_le(
            #[trigger] s.drop_last()[j],
            x,
        ) by {
            assert(s.drop_last()[j] == s[j]);
        }
        if p > 0 {
            assert(s.drop_last()[p - 1] == s[p - 1]);
        }
        lemma_insert_at(s.drop_last(), x, p);
        assert(s.drop_last().take(p) + seq![x] + s.drop_last().skip(p) + seq![s.last()] =~= s.take(
            p,
        ) + seq![x] + s.skip(p));
    }
}

proof fn lemma_item_le_total(a: ItemView, b: ItemView)
    ensures
        item_le(a, b) || item_le(b, a),
{
    lemma_lex_total(a.1, b.1);
}

proof fn lemma_item_le_trans(a: ItemView, b: ItemView, c: ItemView)
    requires
        item_le(a, b),
        item_le(b, c),
    ensures
        item_le(a, c),
{
    if a.0 == b.0 && b.0 == c.0 {
        lemma_lex_trans(a.1, b.1, c.1);
    }
}

/// No item comes after a later one.
pub open spec fn items_sorted(s: Seq<ItemView>) -> bool {
    forall|i: int, j: int| 0 <= i < j < s.len() ==> item_le(s[i], s[j])
}

proof fn lemma_insert_item_len(s: Seq<ItemView>, x: ItemView)
    ensures
        insert_item(s, x).len() == s.len() + 1,
    decreases s.len(),
{
    if s.len() > 0 && !item_le(s.last(), x) {
        lemma_insert_item_len(s.drop_last(), x);
    }
}

proof fn lemma_insert_item_bounded(s: Seq<ItemView>, x: ItemView, u: ItemView)
    requires
        forall|i: int| 0 <= i < s.len() ==> item_le(#[trigger] s[i], u),
        item_le(x, u),
    ensures
        forall|i: int| 0 <= i < insert_item(s, x).len() ==> item_le(#[trigger] insert_item(s, x)[i], u),
    decreases s.len(),
{
    if s.len() == 0 {
        assert(insert_item(s, x) == seq![x]);
    } else if item_le(s.last(), x) {
        let r = s.push(x);
        assert forall|i: int| 0 <= i < r.len() implies item_le(#[trigger] r[i], u) by {
            if i < s.len() {
                assert(r[i] == s[i]);
            }
        }
    } else {
        let t = s.drop_last();
        assert forall|i: int| 0 <= i < t.len() implies item_le(#[trigger] t[i], u) by {
            assert(t[i] == s[i]);
        }
        assert(item_le(s[s.len() - 1], u));
        lemma_insert_item_bounded(t, x, u);
        let q = insert_item(t, x);
        let r = q.push(s.last());
        assert forall|i: int| 0 <= i < r.len() implies item_le(#[trigger] r[i], u) by {
            if i < q.len() {
                assert(r[i] == q[i]);
            }
        }
    }
}

proof fn lemma_insert_item_sorted(s: Seq<ItemView>, x: ItemView)
    requires
        items_sorted(s),
    ensures
        items_sorted(insert_item(s, x)),
    decreases s.len(),
{
    if s.len() == 0 {
    } else if item_le(s.last(), x) {
        assert forall|i: int, j: int| 0 <= i < j < s.push(x).len() implies item_le(
            s.push(x)[i],
            s.push(x)[j],
        ) by {
            if j == s.len() && i < s.len() - 1 {
                lemma_item_le_trans(s[i], s.last(), x);
            }
        }
    } else {
        let t = s.drop_last();
        let last = s.last();
        assert(items_sorted(t));
        lemma_insert_item_sorted(t, x);
        lemma_item_le_total(last, x);
        assert forall|i: int| 0 <= i < t.len() implies item_le(#[trigger] t[i], last) by {
            assert(s[i] == t[i]);
        }
        lemma_insert_item_bounded(t, x, last);
        let r = insert_item(t, x);
        lemma_insert_item_len(t, x);
        assert forall|i: int, j: int| 0 <= i < j < r.push(last).len() implies item_le(
            r.push(last)[i],
            r.push(last)[j],
        ) by {
            if j == r.len() {
                assert(item_le(r[i], last));
            } else {
                assert(item_le(r[i], r[j]));
            }
        }
    }
}

proof fn lemma_insert_item_multiset(s: Seq<ItemView>, x: ItemView)
    ensures
        insert_item(s, x).to_multiset() == s.to_multiset().insert(x),
    decreases s.len(),
{
    broadcast use vstd::seq_lib::to_multiset_build;
    broadcast use vstd::multiset::group_multiset_axioms;

    if s.len() == 0 {
        assert(s.push(x) =~= seq![x]);
    } else if item_le(s.last(), x) {
    } else {
        let t = s.drop_last();
        lemma_insert_item_multiset(t, x);
        assert(s =~= t.push(s.last()));
        assert(t.to_multiset().insert(x).insert(s.last()) =~= t.to_multiset().insert(s.last()).insert(
            x,
        ));
    }
}

/// The stable sort orders its items by rank, then key, and keeps every item:
/// the result is ordered and holds each item as often as the input did.
pub proof fn lemma_sort_items_is_an_ordered_reordering(s: Seq<ItemView>)
    ensures
        items_sorted(sort_items(s)),
        sort_items(s).to_multiset() == s.to_multiset(),
    decreases s.len(),
{
    broadcast use vstd::seq_lib::to_multiset_build;

    if s.len() > 0 {
        lemma_sort_items_is_an_ordered_reordering(s.drop_last());
        lemma_insert_item_sorted(sort_items(s.drop_last()), s.last());
        lemma_insert_item_multiset(sort_items(s.drop_last()), s.last());
        assert(s =~= s.drop_last().push(s.last()));
    }
}

fn item_le_exec(a: &SortItem, b: &SortItem) -> (r: bool)
    ensures
        r == item_le(item_view(*a), item_view(*b)),
{
    a.rank < b.rank || (a.rank == b.rank && lex_le_exec(&a.key, &b.key))
}

/// Stable sort by rank, then key.
pub fn sort_items_exec(v: Vec<SortItem>) -> (out: Vec<SortItem>)
    ensures
        items_view(out@) == sort_items(items_view(v@)),
{
    let mut rest = v;
    let ghost all = items_view(rest@);
    let n0 = rest.len();
    assert(all.len() == n0);
    let mut out: Vec<SortItem> = Vec::new();
    let mut k: usize = 0;
    assert(items_view(out@) =~= sort_items(all.take(0)));
    while rest.len() > 0
        invariant
            k <= all.len(),
            all.len() <= usize::MAX,
            items_view(rest@) == all.skip(k as int),
            items_view(out@) == sort_items(all.take(k as int)),
        decreases rest.len(),
    {
        let ghost r0 = rest@;
        let x = rest.remove(0);
        proof {
            assert(items_view(r0).len() == r0.len());
            assert(all.skip(k as int).len() == all.len() - k);
            assert(items_view(r0)[0] == item_view(r0[0]));
            assert(all.skip(k as int)[0] == all[k as int]);
            assert(rest@ =~= r0.subrange(1, r0.len() as int));
            assert(items_view(rest@) =~= items_view(r0).subrange(1, r0.len() as int));
            assert(all.skip(k as int).subrange(1, r0.len() as int) =~= all.skip(k + 1));
            assert(items_view(rest@) =~= all.skip(k + 1));
            assert(item_view(x) == all[k as int]);
        }
        let mut p = out.len();
        while p > 0 && !item_le_exec(&out[p - 1], &x)
            invariant
                p <= out.len(),
                forall|j: int| p <= j < out.len() ==> !item_le(#[trigger] items_view(out@)[j], item_view(x)),
            decreases p,
        {
            p = p - 1;
        }
        let ghost before = items_view(out@);
        proof {
            if p > 0 {
                assert(item_le(before[p - 1], item_view(x)));
            }
            lemma_insert_at(before, item_view(x), p as int);
        }
        out.insert(p, x);
        proof {
            assert(items_view(out@) =~= before.take(p as int) + seq![item_view(x)] + before.skip(p as int));
            assert(all.take(k + 1).drop_last() =~= all.take(k as int));
        }
        k = k + 1;
    }
    proof {
        assert(all.take(k as int) =~= all);
    }
    out
}

/// The items' lines, one block after another.
pub fn flatten_exec(v: Vec<SortItem>) -> (out: Vec<Vec<char>>)
    ensures
        views(out@) == flatten(items_view(v@)),
{
    let mut rest = v;
    let ghost all = items_view(rest@);
    let n0 = rest.len();
    assert(all.len() == n0);
    let mut out: Vec<Vec<char>> = Vec::new();
    let mut k: usize = 0;
    while rest.len() > 0
        invariant
            k <= all.len(),
            all.len() <= usize::MAX,
            items_view(rest@) == all.skip(k as int),
            views(out@) == flatten(all.take(k as int)),
        decreases rest.len(),
    {
        let ghost r0 = rest@;
        let x = rest.remove(0);
        proof {
            assert(items_view(r0).len() == r0.len());
            assert(all.skip(k as int).len() == all.len() - k);
            assert(items_view(r0)[0] == item_view(r0[0]));
            assert(all.skip(k as int)[0] == all[k as int]);
            assert(rest@ =~= r0.subrange(1, r0.len() as int));
            assert(items_view(rest@) =~= items_view(r0).subrange(1, r0.len() as int));
            assert(all.skip(k as int).subrange(1, r0.len() as int) =~= all.skip(k + 1));
            assert(items_view(rest@) =~= all.skip(k + 1));
            assert(item_view(x) == all[k as int]);
        }
        let ghost before = views(out@);
        let mut lines = x.lines;
        let ghost ls = views(lines@);
        let m0 = lines.len();
        assert(ls.len() == m0);
        let mut m: usize = 0;
        while lines.len() > 0
            invariant
                m <= ls.len(),
                ls.len() <= usize::MAX,
                views(lines@) == ls.skip(m as int),
                views(out@) == before + ls.take(m as int),
            decreases lines.len(),
        {
            let ghost l0 = lines@;
            let l = lines.remove(0);
            proof {
                assert(views(l0).len() == l0.len());
                assert(ls.skip(m as int).len() == ls.len() - m);
                assert(views(l0)[0] == l0[0]@);
                assert(ls.skip(m as int)[0] == ls[m as int]);
                assert(lines@ =~= l0.subrange(1, l0.len() as int));
                assert(views(lines@) =~= views(l0).subrange(1, l0.len() as int));
                assert(ls.skip(m as int).subrange(1, l0.len() as int) =~= ls.skip(m + 1));
                assert(views(lines@) =~= ls.skip(m + 1));
                assert(l@ == ls[m as int]);
            }
            let ghost o0 = out@;
            out.push(l);
            proof {
                assert(out@ =~= o0.push(l));
                assert(views(out@) =~= views(o0).push(l@));
                assert(ls.take(m + 1) =~= ls.take(m as int).push(ls[m as int]));
                assert(views(out@) =~= before + ls.take(m + 1));
            }
            m = m + 1;
        }
        proof {
            assert(ls.take(m as int) =~= ls);
            assert(all.take(k + 1).drop_last() =~= all.take(k as int));
        }
        k = k + 1;
    }
    proof {
        assert(all.take(k as int) =~= all);
    }
    out
}

} // verus!
