//! Rearrangements of a sequence ordered by an integer key.
use vstd::prelude::*;
use vstd::multiset::Multiset;

verus! {

/// No two positions of `s` carry the same key.
pub open spec fn keys_distinct<T>(s: Seq<T>, key: spec_fn(T) -> int) -> bool {
    forall|i: int, j: int| 0 <= i < j < s.len() ==> key(#[trigger] s[i]) != key(#[trigger] s[j])
}

/// Keys strictly increase along `s`.
pub open spec fn strictly_sorted<T>(s: Seq<T>, key: spec_fn(T) -> int) -> bool {
    forall|i: int, j: int| 0 <= i < j < s.len() ==> key(#[trigger] s[i]) < key(#[trigger] s[j])
}

/// `s` holds the elements of `t`, in strictly increasing key order.
pub open spec fn is_key_sorting<T>(s: Seq<T>, t: Seq<T>, key: spec_fn(T) -> int) -> bool {
    s.to_multiset() == t.to_multiset() && strictly_sorted(s, key)
}

/// An arrangement of the elements `m` in strictly increasing key order.
pub open spec fn key_arrangement<T>(m: Multiset<T>, key: spec_fn(T) -> int) -> Seq<T> {
    choose|s: Seq<T>| s.to_multiset() == m && strictly_sorted(s, key)
}

/// The elements of `t` in increasing key order. Where the keys of `t` are
/// distinct there is exactly one such arrangement (`lemma_key_sorting_unique`).
pub open spec fn sorted_by_key<T>(t: Seq<T>, key: spec_fn(T) -> int) -> Seq<T> {
    key_arrangement(t.to_multiset(), key)
}

/// Exchanging two positions keeps the elements.
pub proof fn lemma_swap_to_multiset<T>(s: Seq<T>, i: int, j: int)
    requires
        0 <= i < s.len(),
        0 <= j < s.len(),
    ensures
        s.update(i, s[j]).update(j, s[i]).to_multiset() == s.to_multiset(),
{
    broadcast use {
        vstd::seq_lib::to_multiset_update,
        vstd::seq_lib::to_multiset_contains,
        vstd::multiset::group_multiset_axioms,
        vstd::multiset::group_multiset_properties,
    };

    let m = s.to_multiset();
    let s1 = s.update(i, s[j]);
    assert(s1.to_multiset() == m.insert(s[j]).remove(s[i]));
    let s2 = s1.update(j, s[i]);
    assert(s2.to_multiset() == s1.to_multiset().insert(s[i]).remove(s1[j]));
    if i == j {
        assert(s2 =~= s);
    } else {
        assert(s1[j] == s[j]);
        assert(s.contains(s[i]));
        assert(s.contains(s[j]));
        assert(m.count(s[i]) > 0);
        assert(m.count(s[j]) > 0);
        assert forall|x: T| #[trigger] s2.to_multiset().count(x) == m.count(x) by {
            if x == s[i] && x == s[j] {
            } else if x == s[i] {
            } else if x == s[j] {
            } else {
            }
        }
        assert(s2.to_multiset() =~= m);
    }
}

/// Two arrangements of the same elements, both strictly increasing in key,
/// agree at every position.
pub proof fn lemma_key_sorting_unique<T>(a: Seq<T>, b: Seq<T>, key: spec_fn(T) -> int)
    requires
        a.to_multiset() == b.to_multiset(),
        strictly_sorted(a, key),
        strictly_sorted(b, key),
    ensures
        a == b,
{
    broadcast use vstd::seq_lib::group_to_multiset_ensures;

    assert(a.len() == a.to_multiset().len());
    assert(b.len() == b.to_multiset().len());
    lemma_sorted_prefix_agrees(a, b, key, a.len() as int);
    assert(a =~= b);
}

proof fn lemma_sorted_prefix_agrees<T>(a: Seq<T>, b: Seq<T>, key: spec_fn(T) -> int, p: int)
    requires
        a.to_multiset() == b.to_multiset(),
        a.len() == b.len(),
        strictly_sorted(a, key),
        strictly_sorted(b, key),
        0 <= p <= a.len(),
    ensures
        forall|q: int| 0 <= q < p ==> #[trigger] a[q] == b[q],
    decreases p,
{
    broadcast use vstd::seq_lib::group_to_multiset_ensures;

    if p > 0 {
        let k = p - 1;
        lemma_sorted_prefix_agrees(a, b, key, k);
        assert(a.contains(a[k]));
        assert(b.to_multiset().count(a[k]) > 0);
        assert(b.contains(a[k]));
        let q = choose|q: int| 0 <= q < b.len() && b[q] == a[k];
        assert(b.contains(b[k]));
        assert(a.to_multiset().count(b[k]) > 0);
        assert(a.contains(b[k]));
        let q2 = choose|q2: int| 0 <= q2 < a.len() && a[q2] == b[k];
        if q != k && q2 != k {
            if q < k {
                assert(a[q] == b[q]);
                assert(key(a[q]) < key(a[k]));
            } else if q2 < k {
                assert(a[q2] == b[q2]);
                assert(key(b[q2]) < key(b[k]));
            } else {
                assert(key(b[k]) < key(b[q]));
                assert(key(a[k]) < key(a[q2]));
            }
        }
    }
}

/// Keys that are distinct in one arrangement are distinct in every other.
pub proof fn lemma_keys_distinct_rearranged<T>(s: Seq<T>, t: Seq<T>, key: spec_fn(T) -> int)
    requires
        s.to_multiset() == t.to_multiset(),
        keys_distinct(t, key),
    ensures
        keys_distinct(s, key),
{
    broadcast use vstd::seq_lib::group_to_multiset_ensures;
    broadcast use vstd::multiset::group_multiset_axioms;

    assert(t.no_duplicates()) by {
        assert forall|i: int, j: int| 0 <= i < t.len() && 0 <= j < t.len() && i != j implies t[i]
            != t[j] by {
            if i < j {
                assert(key(t[i]) != key(t[j]));
            } else {
                assert(key(t[j]) != key(t[i]));
            }
        }
    }
    t.lemma_multiset_has_no_duplicates();
    s.lemma_multiset_has_no_duplicates_conv();
    assert forall|i: int, j: int| 0 <= i < j < s.len() implies key(#[trigger] s[i]) != key(
        #[trigger] s[j],
    ) by {
        assert(s.contains(s[i]));
        assert(s.contains(s[j]));
        assert(t.to_multiset().count(s[i]) > 0);
        assert(t.to_multiset().count(s[j]) > 0);
        assert(t.contains(s[i]));
        assert(t.contains(s[j]));
        let a = choose|a: int| 0 <= a < t.len() && t[a] == s[i];
        let b = choose|b: int| 0 <= b < t.len() && t[b] == s[j];
        assert(s[i] != s[j]);
        if a < b {
            assert(key(t[a]) != key(t[b]));
        } else {
            assert(a != b);
            assert(key(t[b]) != key(t[a]));
        }
    }
}

/// A strictly sorted arrangement of `t` is the one `sorted_by_key` names.
pub proof fn lemma_sorted_by_key_is<T>(s: Seq<T>, t: Seq<T>, key: spec_fn(T) -> int)
    requires
        is_key_sorting(s, t, key),
    ensures
        sorted_by_key(t, key) == s,
{
    let c = sorted_by_key(t, key);
    assert(s.to_multiset() == t.to_multiset() && strictly_sorted(s, key));
    assert(is_key_sorting(c, t, key));
    lemma_key_sorting_unique(c, s, key);
}

/// Two arrangements of the same elements have distinct keys alike and sort
/// to the same sequence: the order in which elements arrive, or how they
/// were split before being put together, does not show in the result.
pub proof fn lemma_rearranged_sorts_alike<T>(a: Seq<T>, b: Seq<T>, key: spec_fn(T) -> int)
    requires
        a.to_multiset() == b.to_multiset(),
    ensures
        keys_distinct(a, key) == keys_distinct(b, key),
        sorted_by_key(a, key) == sorted_by_key(b, key),
{
    if keys_distinct(a, key) {
        lemma_keys_distinct_rearranged(b, a, key);
    }
    if keys_distinct(b, key) {
        lemma_keys_distinct_rearranged(a, b, key);
    }
}

} // verus!
