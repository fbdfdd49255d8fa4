//! Sequences of keyed entries kept in strictly ascending key order.

use vstd::prelude::*;

verus! {

/// Keys strictly ascending: each key appears once, in canonical order.
pub open spec fn ascending<T>(s: Seq<(u16, T)>) -> bool {
    forall|i: int, j: int| 0 <= i < j < s.len() ==> s[i].0 < s[j].0
}

/// Keys pairwise distinct.
pub open spec fn distinct_keys<T>(s: Seq<(u16, T)>) -> bool {
    forall|i: int, j: int| 0 <= i < s.len() && 0 <= j < s.len() && i != j ==> s[i].0 != s[j].0
}

/// What the sequence maps `k` to: the value of its first entry for `k`.
pub open spec fn value_of<T>(s: Seq<(u16, T)>, k: u16) -> Option<T>
    decreases s.len(),
{
    if s.len() == 0 {
        None
    } else if s[0].0 == k {
        Some(s[0].1)
    } else {
        value_of(s.drop_first(), k)
    }
}

/// What the sequence maps `k` to when its entries are applied in order, a
/// later entry replacing an earlier one: the value of its last entry for `k`.
pub open spec fn last_value_of<T>(s: Seq<(u16, T)>, k: u16) -> Option<T>
    decreases s.len(),
{
    if s.len() == 0 {
        None
    } else if s.last().0 == k {
        Some(s.last().1)
    } else {
        last_value_of(s.drop_last(), k)
    }
}

/// With distinct keys, the sequence maps `k` to `v` exactly when it holds
/// the entry `(k, v)`.
pub proof fn lemma_last_value_of_contains<T>(s: Seq<(u16, T)>, k: u16, v: T)
    requires
        distinct_keys(s),
    ensures
        last_value_of(s, k) == Some(v) <==> s.contains((k, v)),
    decreases s.len(),
{
    if s.len() > 0 {
        let init = s.drop_last();
        let n = s.len() - 1;
        assert forall|i: int, j: int| 0 <= i < init.len() && 0 <= j < init.len() && i != j implies init[i].0 != init[j].0 by {
            assert(init[i] == s[i] && init[j] == s[j]);
        }
        lemma_last_value_of_contains(init, k, v);
        if s.contains((k, v)) {
            let i = choose|i: int| 0 <= i < s.len() && s[i] == (k, v);
            if i < n {
                assert(init[i] == s[i]);
                assert(s[i].0 != s[n].0);
            }
        }
        if init.contains((k, v)) {
            let i = choose|i: int| 0 <= i < init.len() && init[i] == (k, v);
            assert(s[i] == init[i]);
            assert(s[i].0 != s[n].0);
        }
        if s.last().0 == k && last_value_of(s, k) == Some(v) {
            assert(s[n] == (k, v));
        }
        if s.last().0 != k && init.contains((k, v)) {
            let i = choose|i: int| 0 <= i < init.len() && init[i] == (k, v);
            assert(s[i] == init[i]);
        }
        if s.last().0 != k && s.contains((k, v)) {
            let i = choose|i: int| 0 <= i < s.len() && s[i] == (k, v);
            assert(i != n);
            assert(init[i] == s[i]);
        }
    }
}

/// In a sequence with ascending keys, each entry is what its key maps to.
pub proof fn lemma_value_of_index<T>(s: Seq<(u16, T)>, i: int)
    requires
        ascending(s),
        0 <= i < s.len(),
    ensures
        value_of(s, s[i].0) == Some(s[i].1),
    decreases s.len(),
{
    if i > 0 {
        assert(s[0].0 < s[i].0);
        assert(s.drop_first()[i - 1] == s[i]);
        lemma_value_of_index(s.drop_first(), i - 1);
    }
}

/// A key maps to nothing exactly when no entry has it.
pub proof fn lemma_value_of_none<T>(s: Seq<(u16, T)>, k: u16)
    ensures
        value_of(s, k) is None <==> forall|i: int| 0 <= i < s.len() ==> s[i].0 != k,
    decreases s.len(),
{
    if s.len() > 0 {
        lemma_value_of_none(s.drop_first(), k);
        assert forall|i: int| 0 <= i < s.drop_first().len() implies s.drop_first()[i] == s[i + 1] by {}
        if value_of(s, k) is None {
            assert forall|i: int| 0 <= i < s.len() implies s[i].0 != k by {
                if i > 0 {
                    assert(s.drop_first()[i - 1] == s[i]);
                }
            }
        }
    }
}

/// Two sequences with ascending keys that map every key alike are equal:
/// the order of the entries is fixed by their keys.
pub proof fn lemma_ascending_same_mapping<T>(s1: Seq<(u16, T)>, s2: Seq<(u16, T)>)
    requires
        ascending(s1),
        ascending(s2),
        forall|k: u16| #[trigger] value_of(s1, k) == value_of(s2, k),
    ensures
        s1 == s2,
    decreases s1.len(),
{
    if s1.len() == 0 {
        if s2.len() > 0 {
            lemma_value_of_index(s2, 0);
            assert(value_of(s1, s2[0].0) == value_of(s2, s2[0].0));
        }
        assert(s1 =~= s2);
    } else if s2.len() == 0 {
        lemma_value_of_index(s1, 0);
        assert(value_of(s1, s1[0].0) == value_of(s2, s1[0].0));
    } else {
        let a = s1[0].0;
        let b = s2[0].0;
        lemma_value_of_index(s1, 0);
        lemma_value_of_index(s2, 0);
        assert(value_of(s1, a) == value_of(s2, a));
        assert(value_of(s1, b) == value_of(s2, b));
        lemma_value_of_none(s2, a);
        lemma_value_of_none(s1, b);
        let j2 = choose|j: int| 0 <= j < s2.len() && s2[j].0 == a;
        let j1 = choose|j: int| 0 <= j < s1.len() && s1[j].0 == b;
        assert(b <= a) by {
            if j2 > 0 {
                assert(s2[0].0 < s2[j2].0);
            }
        }
        assert(a <= b) by {
            if j1 > 0 {
                assert(s1[0].0 < s1[j1].0);
            }
        }
        let t1 = s1.drop_first();
        let t2 = s2.drop_first();
        assert forall|i: int, j: int| 0 <= i < j < t1.len() implies t1[i].0 < t1[j].0 by {
            assert(s1[i + 1].0 < s1[j + 1].0);
        }
        assert forall|i: int, j: int| 0 <= i < j < t2.len() implies t2[i].0 < t2[j].0 by {
            assert(s2[i + 1].0 < s2[j + 1].0);
        }
        assert forall|k: u16| #[trigger] value_of(t1, k) == value_of(t2, k) by {
            assert(value_of(s1, k) == value_of(s2, k));
            if k == a {
                lemma_value_of_none(t1, k);
                lemma_value_of_none(t2, k);
                assert forall|i: int| 0 <= i < t1.len() implies t1[i].0 != k by {
                    assert(s1[0].0 < s1[i + 1].0);
                }
                assert forall|i: int| 0 <= i < t2.len() implies t2[i].0 != k by {
                    assert(s2[0].0 < s2[i + 1].0);
                }
            }
        }
        lemma_ascending_same_mapping(t1, t2);
        assert forall|i: int| 0 <= i < s1.len() implies s1[i] == s2[i] by {
            if i > 0 {
                assert(s1[i] == t1[i - 1]);
                assert(s2[i] == t2[i - 1]);
            }
        }
        assert(s1 =~= s2);
    }
}

/// Whether the keys of `s` are strictly ascending.
pub fn is_ascending<T>(s: &Vec<(u16, T)>) -> (r: bool)
    ensures
        r == ascending(s@),
{
    let mut i: usize = 1;
    if s.len() == 0 {
        return true;
    }
    while i < s.len()
        invariant
            1 <= i <= s@.len(),
            forall|a: int, b: int| 0 <= a < b < i ==> s@[a].0 < s@[b].0,
        decreases s@.len() - i,
    {
        if s[i - 1].0 >= s[i].0 {
            return false;
        }
        assert forall|a: int, b: int| 0 <= a < b < i + 1 implies s@[a].0 < s@[b].0 by {
            if b == i && a < i - 1 {
                assert(s@[a].0 < s@[i - 1].0);
            }
        }
        i = i + 1;
    }
    true
}

} // verus!
