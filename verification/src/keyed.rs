//! Values kept under string labels in a `Vec`, most recent entry first to be
//! found, with the invariant that no label occurs twice.
use vstd::prelude::*;

verus! {

/// The value under `key`, looking from the most recent entry back.
pub open spec fn value_in<V>(s: Seq<(String, V)>, key: Seq<char>) -> Option<V>
    decreases s.len(),
{
    if s.len() == 0 {
        None
    } else if s.last().0@ == key {
        Some(s.last().1)
    } else {
        value_in(s.drop_last(), key)
    }
}

/// No label occurs twice.
pub open spec fn keys_distinct<V>(s: Seq<(String, V)>) -> bool {
    forall|i: int, j: int| 0 <= i < j < s.len() ==> #[trigger] s[i].0@ != #[trigger] s[j].0@
}

pub proof fn lemma_value_at<V>(s: Seq<(String, V)>, i: int)
    requires
        keys_distinct(s),
        0 <= i < s.len(),
    ensures
        value_in(s, s[i].0@) == Some(s[i].1),
    decreases s.len(),
{
    if i < s.len() - 1 {
        assert(s[i].0@ != s[s.len() - 1].0@);
        assert(s.drop_last()[i] == s[i]);
        lemma_value_at(s.drop_last(), i);
    }
}

pub proof fn lemma_value_absent<V>(s: Seq<(String, V)>, key: Seq<char>)
    requires
        forall|i: int| 0 <= i < s.len() ==> (#[trigger] s[i]).0@ != key,
    ensures
        value_in(s, key) is None,
    decreases s.len(),
{
    if s.len() > 0 {
        assert(s[s.len() - 1].0@ != key);
        assert forall|i: int| 0 <= i < s.drop_last().len() implies (
        #[trigger] s.drop_last()[i]).0@ != key by {
            assert(s.drop_last()[i] == s[i]);
        }
        lemma_value_absent(s.drop_last(), key);
    }
}

/// Replacing entry `i`'s value changes the value of its label only.
pub proof fn lemma_value_update<V>(s: Seq<(String, V)>, i: int, x: (String, V), key: Seq<char>)
    requires
        keys_distinct(s),
        0 <= i < s.len(),
        x.0@ == s[i].0@,
    ensures
        keys_distinct(s.update(i, x)),
        value_in(s.update(i, x), key) == if key == s[i].0@ {
            Some(x.1)
        } else {
            value_in(s, key)
        },
{
    let t = s.update(i, x);
    assert forall|a: int, b: int| 0 <= a < b < t.len() implies #[trigger] t[a].0@ != #[trigger] t[b].0@ by {
        assert(s[a].0@ != s[b].0@);
    }
    if key == s[i].0@ {
        lemma_value_at(t, i);
    } else if exists|j: int| 0 <= j < s.len() && (#[trigger] s[j]).0@ == key {
        let j = choose|j: int| 0 <= j < s.len() && (#[trigger] s[j]).0@ == key;
        lemma_value_at(s, j);
        lemma_value_at(t, j);
    } else {
        lemma_value_absent(s, key);
        assert forall|j: int| 0 <= j < t.len() implies (#[trigger] t[j]).0@ != key by {
            if j != i {
                assert(t[j] == s[j]);
            }
        }
        lemma_value_absent(t, key);
    }
}

/// Position of the first entry labelled `key`, if any.
pub fn find_key<V>(entries: &Vec<(String, V)>, key: &str) -> (r: Option<usize>)
    ensures
        match r {
            Some(i) => i < entries@.len() && entries@[i as int].0@ == key@ && forall|j: int|
                0 <= j < i ==> (#[trigger] entries@[j]).0@ != key@,
            None => forall|i: int| 0 <= i < entries@.len() ==> (#[trigger] entries@[i]).0@ != key@,
        },
{
    let mut i: usize = 0;
    while i < entries.len()
        invariant
            i <= entries@.len(),
            forall|j: int| 0 <= j < i ==> (#[trigger] entries@[j]).0@ != key@,
        decreases entries@.len() - i,
    {
        if crate::text::str_eq(entries[i].0.as_str(), key) {
            return Some(i);
        }
        i = i + 1;
    }
    None
}

/// A value found under a label is one of the entries' values.
pub proof fn lemma_value_is_entry<V>(s: Seq<(String, V)>, key: Seq<char>)
    ensures
        value_in(s, key) matches Some(v) ==> exists|i: int|
            0 <= i < s.len() && (#[trigger] s[i]).1 == v && s[i].0@ == key,
    decreases s.len(),
{
    if s.len() > 0 && s.last().0@ != key {
        lemma_value_is_entry(s.drop_last(), key);
        if let Some(v) = value_in(s.drop_last(), key) {
            let i = choose|i: int|
                0 <= i < s.drop_last().len() && (#[trigger] s.drop_last()[i]).1 == v
                    && s.drop_last()[i].0@ == key;
            assert(s[i] == s.drop_last()[i]);
        }
    }
}


} // verus!
