//! Stable sorting, stated as insertion: each element goes after every element
//! already placed that it does not sort strictly before.
use vstd::prelude::*;

verus! {

/// `x` placed into `s` after the last element that it does not sort before.
pub open spec fn insert_sorted<A>(s: Seq<A>, x: A, lt: spec_fn(A, A) -> bool) -> Seq<A>
    decreases s.len(),
{
    if s.len() == 0 {
        seq![x]
    } else if lt(x, s.last()) {
        insert_sorted(s.drop_last(), x, lt).push(s.last())
    } else {
        s.push(x)
    }
}

/// `s` sorted by `lt`, elements that neither sorts before keeping their order.
pub open spec fn stable_sort<A>(s: Seq<A>, lt: spec_fn(A, A) -> bool) -> Seq<A>
    decreases s.len(),
{
    if s.len() == 0 {
        s
    } else {
        insert_sorted(stable_sort(s.drop_last(), lt), s.last(), lt)
    }
}

/// No element sorts strictly before one to its left.
pub open spec fn is_sorted<A>(s: Seq<A>, lt: spec_fn(A, A) -> bool) -> bool {
    forall|i: int, j: int| 0 <= i < j < s.len() ==> !lt(#[trigger] s[j], #[trigger] s[i])
}

/// `lt` is a strict weak order: asymmetric, and "not before" is transitive.
pub open spec fn is_strict_weak_order<A>(lt: spec_fn(A, A) -> bool) -> bool {
    &&& forall|a: A, b: A| #[trigger] lt(a, b) ==> !lt(b, a)
    &&& forall|a: A, b: A, c: A|
        !#[trigger] lt(b, a) && !#[trigger] lt(c, b) ==> !#[trigger] lt(c, a)
}

/// Inserting at the place found by scanning from the right is `insert_sorted`.
pub proof fn lemma_insert_at<A>(s: Seq<A>, x: A, lt: spec_fn(A, A) -> bool, j: int)
    requires
        0 <= j <= s.len(),
        forall|k: int| j <= k < s.len() ==> lt(x, #[trigger] s[k]),
        j == 0 || !lt(x, s[j - 1]),
    ensures
        insert_sorted(s, x, lt) == s.insert(j, x),
    decreases s.len(),
{
    if s.len() == 0 {
        assert(s.insert(j, x) =~= seq![x]);
    } else if j == s.len() {
        assert(s.insert(j, x) =~= s.push(x));
    } else {
        let d = s.drop_last();
        assert forall|k: int| j <= k < d.len() implies lt(x, #[trigger] d[k]) by {
            assert(d[k] == s[k]);
        }
        lemma_insert_at(d, x, lt, j);
        assert(d.insert(j, x).push(s.last()) =~= s.insert(j, x));
    }
}

/// Inserting adds `x` and keeps every element of `s`, nothing else.
pub proof fn lemma_insert_contents<A>(s: Seq<A>, x: A, lt: spec_fn(A, A) -> bool)
    ensures
        insert_sorted(s, x, lt).to_multiset() == s.to_multiset().insert(x),
        insert_sorted(s, x, lt).len() == s.len() + 1,
    decreases s.len(),
{
    broadcast use vstd::seq_lib::group_to_multiset_ensures;

    if s.len() == 0 {
        assert(seq![x] =~= Seq::<A>::empty().push(x));
    } else {
        let d = s.drop_last();
        assert(s =~= d.push(s.last()));
        if lt(x, s.last()) {
            lemma_insert_contents(d, x, lt);
        }
    }
}

/// Sorting keeps the elements, with their multiplicities.
pub proof fn lemma_sort_contents<A>(s: Seq<A>, lt: spec_fn(A, A) -> bool)
    ensures
        stable_sort(s, lt).to_multiset() == s.to_multiset(),
        stable_sort(s, lt).len() == s.len(),
    decreases s.len(),
{
    broadcast use vstd::seq_lib::group_to_multiset_ensures;

    if s.len() > 0 {
        let d = s.drop_last();
        assert(s =~= d.push(s.last()));
        lemma_sort_contents(d, lt);
        lemma_insert_contents(stable_sort(d, lt), s.last(), lt);
    }
}

pub proof fn lemma_insert_is_sorted<A>(s: Seq<A>, x: A, lt: spec_fn(A, A) -> bool)
    requires
        is_strict_weak_order(lt),
        is_sorted(s, lt),
    ensures
        is_sorted(insert_sorted(s, x, lt), lt),
    decreases s.len(),
{
    broadcast use vstd::seq_lib::group_to_multiset_ensures;

    if s.len() > 0 {
        let d = s.drop_last();
        let r = insert_sorted(s, x, lt);
        if lt(x, s.last()) {
            let inner = insert_sorted(d, x, lt);
            lemma_insert_is_sorted(d, x, lt);
            lemma_insert_contents(d, x, lt);
            assert forall|i: int| 0 <= i < inner.len() implies !lt(s.last(), #[trigger] inner[i]) by {
                assert(inner.to_multiset().count(inner[i]) > 0);
                if inner[i] != x {
                    assert(d.to_multiset().count(inner[i]) > 0);
                    let k = choose|k: int| 0 <= k < d.len() && d[k] == inner[i];
                    assert(s[k] == d[k]);
                }
            }
            assert forall|i: int, j: int| 0 <= i < j < r.len() implies !lt(#[trigger] r[j], #[trigger] r[i]) by {
                if j == r.len() - 1 {
                    assert(r[i] == inner[i]);
                } else {
                    assert(r[i] == inner[i] && r[j] == inner[j]);
                }
            }
        } else {
            assert forall|i: int, j: int| 0 <= i < j < r.len() implies !lt(#[trigger] r[j], #[trigger] r[i]) by {
                if j == r.len() - 1 {
                    if i < s.len() - 1 {
                        assert(!lt(s[s.len() - 1], s[i]));
                    }
                }
            }
        }
    }
}

/// A stable sort by a strict weak order is sorted.
pub proof fn lemma_sort_is_sorted<A>(s: Seq<A>, lt: spec_fn(A, A) -> bool)
    requires
        is_strict_weak_order(lt),
    ensures
        is_sorted(stable_sort(s, lt), lt),
    decreases s.len(),
{
    if s.len() > 0 {
        lemma_sort_is_sorted(s.drop_last(), lt);
        lemma_insert_is_sorted(stable_sort(s.drop_last(), lt), s.last(), lt);
    }
}

/// No two positions of `s` hold elements with the same key.
pub open spec fn distinct_keys<A, K>(s: Seq<A>, key: spec_fn(A) -> K) -> bool {
    forall|i: int, j: int| 0 <= i < j < s.len() ==> key(#[trigger] s[i]) != key(#[trigger] s[j])
}

pub proof fn lemma_insert_distinct<A, K>(
    s: Seq<A>,
    x: A,
    lt: spec_fn(A, A) -> bool,
    key: spec_fn(A) -> K,
)
    requires
        distinct_keys(s, key),
        forall|k: int| 0 <= k < s.len() ==> key(#[trigger] s[k]) != key(x),
    ensures
        distinct_keys(insert_sorted(s, x, lt), key),
    decreases s.len(),
{
    broadcast use vstd::seq_lib::group_to_multiset_ensures;

    if s.len() > 0 {
        let d = s.drop_last();
        let r = insert_sorted(s, x, lt);
        if lt(x, s.last()) {
            let inner = insert_sorted(d, x, lt);
            lemma_insert_distinct(d, x, lt, key);
            lemma_insert_contents(d, x, lt);
            assert forall|i: int| 0 <= i < inner.len() implies key(#[trigger] inner[i]) != key(
                s.last(),
            ) by {
                assert(inner.to_multiset().count(inner[i]) > 0);
                if inner[i] != x {
                    assert(d.to_multiset().count(inner[i]) > 0);
                    let k = choose|k: int| 0 <= k < d.len() && d[k] == inner[i];
                    assert(s[k] == d[k]);
                }
            }
            assert forall|i: int, j: int| 0 <= i < j < r.len() implies key(#[trigger] r[i]) != key(
                #[trigger] r[j],
            ) by {
                assert(r[i] == inner[i]);
                if j < r.len() - 1 {
                    assert(r[j] == inner[j]);
                }
            }
        }
    }
}

/// Sorting keeps keys distinct.
pub proof fn lemma_sort_distinct<A, K>(s: Seq<A>, lt: spec_fn(A, A) -> bool, key: spec_fn(A) -> K)
    requires
        distinct_keys(s, key),
    ensures
        distinct_keys(stable_sort(s, lt), key),
    decreases s.len(),
{
    broadcast use vstd::seq_lib::group_to_multiset_ensures;

    if s.len() > 0 {
        let d = s.drop_last();
        let inner = stable_sort(d, lt);
        assert(distinct_keys(d, key)) by {
            assert forall|i: int, j: int| 0 <= i < j < d.len() implies key(#[trigger] d[i]) != key(
                #[trigger] d[j],
            ) by {
                assert(d[i] == s[i] && d[j] == s[j]);
            }
        }
        lemma_sort_distinct(d, lt, key);
        lemma_sort_contents(d, lt);
        assert forall|k: int| 0 <= k < inner.len() implies key(#[trigger] inner[k]) != key(
            s.last(),
        ) by {
            assert(inner.to_multiset().count(inner[k]) > 0);
            assert(d.to_multiset().count(inner[k]) > 0);
            let m = choose|m: int| 0 <= m < d.len() && d[m] == inner[k];
            assert(s[m] == d[m]);
        }
        lemma_insert_distinct(inner, s.last(), lt, key);
    }
}

} // verus!
