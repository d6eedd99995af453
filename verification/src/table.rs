use vstd::prelude::*;

verus! {

/// No two rows of `s` share a key.
pub open spec fn keys_unique<A, K>(s: Seq<A>, key: spec_fn(A) -> K) -> bool {
    forall|i: int, j: int| 0 <= i < j < s.len() ==> key(#[trigger] s[i]) != key(#[trigger] s[j])
}

/// Some row of `s` has the key `x`.
pub open spec fn has_key<A, K>(s: Seq<A>, key: spec_fn(A) -> K, x: K) -> bool {
    exists|k: int| 0 <= k < s.len() && key(#[trigger] s[k]) == x
}

/// The step by which a filter over a growing prefix grows.
pub proof fn lemma_filter_prefix_step<A>(s: Seq<A>, pred: spec_fn(A) -> bool, i: int)
    requires
        0 <= i < s.len(),
    ensures
        s.take(i + 1).filter(pred) == if pred(s[i]) {
            s.take(i).filter(pred).push(s[i])
        } else {
            s.take(i).filter(pred)
        },
{
    reveal(Seq::filter);
    assert(s.take(i + 1).drop_last() =~= s.take(i));
}

/// A filter over the whole of `s`.
pub proof fn lemma_filter_whole<A>(s: Seq<A>, pred: spec_fn(A) -> bool)
    ensures
        s.take(s.len() as int).filter(pred) == s.filter(pred),
{
    assert(s.take(s.len() as int) =~= s);
}

/// Every row that a filter keeps is a row of `s` that satisfies the predicate.
pub proof fn lemma_filter_rows<A>(s: Seq<A>, pred: spec_fn(A) -> bool)
    ensures
        forall|i: int|
            0 <= i < s.filter(pred).len() ==> pred(#[trigger] s.filter(pred)[i]) && s.contains(
                s.filter(pred)[i],
            ),
    decreases s.len(),
{
    reveal(Seq::filter);
    if s.len() > 0 {
        let d = s.drop_last();
        lemma_filter_rows(d, pred);
        let f = s.filter(pred);
        assert forall|i: int| 0 <= i < f.len() implies pred(#[trigger] f[i]) && s.contains(
            f[i],
        ) by {
            if i < d.filter(pred).len() {
                assert(f[i] == d.filter(pred)[i]);
                let j = choose|j: int| 0 <= j < d.len() && d[j] == f[i];
                assert(s[j] == f[i]);
            } else {
                assert(f[i] == s[s.len() - 1]);
            }
        }
    }
}

/// A row of `s` that satisfies the predicate is kept by the filter.
pub proof fn lemma_filter_keeps<A>(s: Seq<A>, pred: spec_fn(A) -> bool, k: int)
    requires
        0 <= k < s.len(),
        pred(s[k]),
    ensures
        s.filter(pred).contains(s[k]),
{
    s.lemma_filter_contains(pred, k);
}

/// A filter keeps keys unique.
pub proof fn lemma_filter_keys_unique<A, K>(s: Seq<A>, pred: spec_fn(A) -> bool, key: spec_fn(A) -> K)
    requires
        keys_unique(s, key),
    ensures
        keys_unique(s.filter(pred), key),
    decreases s.len(),
{
    reveal(Seq::filter);
    if s.len() > 0 {
        let d = s.drop_last();
        assert(keys_unique(d, key)) by {
            assert forall|i: int, j: int| 0 <= i < j < d.len() implies key(#[trigger] d[i]) != key(
                #[trigger] d[j],
            ) by {
                assert(d[i] == s[i] && d[j] == s[j]);
            }
        }
        lemma_filter_keys_unique(d, pred, key);
        lemma_filter_rows(d, pred);
        let df = d.filter(pred);
        let f = s.filter(pred);
        if pred(s.last()) {
            assert forall|i: int, j: int| 0 <= i < j < f.len() implies key(#[trigger] f[i]) != key(
                #[trigger] f[j],
            ) by {
                if j == f.len() - 1 {
                    assert(d.contains(df[i]));
                    let k = choose|k: int| 0 <= k < d.len() && d[k] == df[i];
                    assert(s[k] == f[i]);
                    assert(f[j] == s[s.len() - 1]);
                } else {
                    assert(f[i] == df[i] && f[j] == df[j]);
                }
            }
        }
    }
}

/// A row of `s` that satisfies the predicate keeps its key in the filter.
pub proof fn lemma_filter_keeps_key<A, K>(s: Seq<A>, pred: spec_fn(A) -> bool, key: spec_fn(A) -> K, k: int)
    requires
        0 <= k < s.len(),
        pred(s[k]),
    ensures
        has_key(s.filter(pred), key, key(s[k])),
{
    lemma_filter_keeps(s, pred, k);
    let f = s.filter(pred);
    let i = choose|i: int| 0 <= i < f.len() && f[i] == s[k];
    assert(key(f[i]) == key(s[k]));
}

/// Rewriting rows without touching their keys keeps the keys as they were.
pub proof fn lemma_same_keys<A, K>(s: Seq<A>, t: Seq<A>, key: spec_fn(A) -> K)
    requires
        s.len() == t.len(),
        forall|i: int| 0 <= i < s.len() ==> key(#[trigger] t[i]) == key(s[i]),
    ensures
        keys_unique(s, key) ==> keys_unique(t, key),
        forall|x: K| has_key(s, key, x) <==> #[trigger] has_key(t, key, x),
{
    assert forall|x: K| has_key(s, key, x) <==> #[trigger] has_key(t, key, x) by {
        if has_key(s, key, x) {
            let k = choose|k: int| 0 <= k < s.len() && key(#[trigger] s[k]) == x;
            assert(key(t[k]) == x);
        }
        if has_key(t, key, x) {
            let k = choose|k: int| 0 <= k < t.len() && key(#[trigger] t[k]) == x;
            assert(key(s[k]) == x);
        }
    }
    if keys_unique(s, key) {
        assert forall|i: int, j: int| 0 <= i < j < t.len() implies key(#[trigger] t[i]) != key(
            #[trigger] t[j],
        ) by {
            assert(key(s[i]) != key(s[j]));
        }
    }
}

/// Appending a row with a new key keeps keys unique, and adds that key.
pub proof fn lemma_push_key<A, K>(s: Seq<A>, a: A, key: spec_fn(A) -> K)
    requires
        !has_key(s, key, key(a)),
    ensures
        keys_unique(s, key) ==> keys_unique(s.push(a), key),
        forall|x: K|
            #[trigger] has_key(s.push(a), key, x) <==> (has_key(s, key, x) || x == key(a)),
{
    let t = s.push(a);
    assert forall|x: K| #[trigger] has_key(t, key, x) <==> (has_key(s, key, x) || x == key(a)) by {
        if has_key(t, key, x) {
            let k = choose|k: int| 0 <= k < t.len() && key(#[trigger] t[k]) == x;
            if k < s.len() {
                assert(t[k] == s[k]);
            }
        }
        if has_key(s, key, x) {
            let k = choose|k: int| 0 <= k < s.len() && key(#[trigger] s[k]) == x;
            assert(t[k] == s[k]);
        }
        if x == key(a) {
            assert(t[s.len() as int] == a);
        }
    }
    if keys_unique(s, key) {
        assert forall|i: int, j: int| 0 <= i < j < t.len() implies key(#[trigger] t[i]) != key(
            #[trigger] t[j],
        ) by {
            if j == s.len() {
                assert(t[i] == s[i]);
            } else {
                assert(t[i] == s[i] && t[j] == s[j]);
            }
        }
    }
}


/// How often a row occurs in a filter: as often as in `s` when it satisfies
/// the predicate, else never.
pub proof fn lemma_filter_count<A>(s: Seq<A>, pred: spec_fn(A) -> bool, x: A)
    ensures
        s.filter(pred).to_multiset().count(x) == if pred(x) {
            s.to_multiset().count(x)
        } else {
            0
        },
    decreases s.len(),
{
    broadcast use vstd::seq_lib::group_to_multiset_ensures;
    reveal(Seq::filter);
    if s.len() == 0 {
        assert(s.filter(pred).len() == 0);
    } else {
        let d = s.drop_last();
        lemma_filter_count(d, pred, x);
        assert(d.push(s.last()) =~= s);
        if pred(s.last()) {
            assert(s.filter(pred) == d.filter(pred).push(s.last()));
        }
    }
}

/// A row of a listing is a row of what it lists, and back.
pub proof fn lemma_same_rows<A>(s: Seq<A>, r: Seq<A>, x: A)
    requires
        r.to_multiset() == s.to_multiset(),
    ensures
        r.contains(x) <==> s.contains(x),
{
    broadcast use vstd::seq_lib::group_to_multiset_ensures;
    assert(r.to_multiset().count(x) == s.to_multiset().count(x));
    assert(r.contains(x) <==> r.to_multiset().count(x) > 0);
    assert(s.contains(x) <==> s.to_multiset().count(x) > 0);
}

/// Listing the rows of a table in another order keeps their keys unique.
pub proof fn lemma_listing_keys_unique<A, K>(s: Seq<A>, r: Seq<A>, key: spec_fn(A) -> K)
    requires
        keys_unique(s, key),
        r.to_multiset() == s.to_multiset(),
    ensures
        keys_unique(r, key),
{
    broadcast use vstd::seq_lib::group_to_multiset_ensures;
    assert(s.no_duplicates()) by {
        assert forall|i: int, j: int| 0 <= i < s.len() && 0 <= j < s.len() && i != j implies s[i]
            != s[j] by {
            if i < j {
                assert(key(s[i]) != key(s[j]));
            } else {
                assert(key(s[j]) != key(s[i]));
            }
        }
    }
    s.lemma_multiset_has_no_duplicates();
    r.lemma_multiset_has_no_duplicates_conv();
    assert forall|i: int, j: int| 0 <= i < j < r.len() implies key(#[trigger] r[i]) != key(
        #[trigger] r[j],
    ) by {
        if key(r[i]) == key(r[j]) {
            lemma_same_rows(s, r, r[i]);
            lemma_same_rows(s, r, r[j]);
            let a = choose|a: int| 0 <= a < s.len() && s[a] == r[i];
            let b = choose|b: int| 0 <= b < s.len() && s[b] == r[j];
            if a < b {
                assert(key(s[a]) != key(s[b]));
            } else if b < a {
                assert(key(s[b]) != key(s[a]));
            }
            assert(r[i] == r[j]);
        }
    }
}


/// What a listing of a filter holds: only rows of `s` that satisfy the
/// predicate, and every such row.
pub proof fn lemma_listing_of_filter<A>(s: Seq<A>, pred: spec_fn(A) -> bool, r: Seq<A>)
    requires
        r.to_multiset() == s.filter(pred).to_multiset(),
    ensures
        forall|i: int| 0 <= i < r.len() ==> s.contains(#[trigger] r[i]) && pred(r[i]),
        forall|k: int| 0 <= k < s.len() && pred(#[trigger] s[k]) ==> r.contains(s[k]),
{
    let f = s.filter(pred);
    lemma_filter_rows(s, pred);
    assert forall|i: int| 0 <= i < r.len() implies s.contains(#[trigger] r[i]) && pred(r[i]) by {
        lemma_same_rows(f, r, r[i]);
        let j = choose|j: int| 0 <= j < f.len() && f[j] == r[i];
        assert(pred(f[j]) && s.contains(f[j]));
    }
    assert forall|k: int| 0 <= k < s.len() && pred(#[trigger] s[k]) implies r.contains(s[k]) by {
        lemma_filter_keeps(s, pred, k);
        lemma_same_rows(f, r, s[k]);
    }
}

/// A filter of a listed sequence is listed in the same order.
pub proof fn lemma_filter_listed<T, O: crate::order::ListingOrder<T>>(s: Seq<T>, pred: spec_fn(T) -> bool)
    requires
        crate::order::is_listed_in::<T, O>(s),
    ensures
        crate::order::is_listed_in::<T, O>(s.filter(pred)),
    decreases s.len(),
{
    reveal(Seq::filter);
    if s.len() > 0 {
        let d = s.drop_last();
        assert(crate::order::is_listed_in::<T, O>(d)) by {
            assert forall|i: int, j: int| 0 <= i < j < d.len() implies #[trigger] O::before(d[i], d[j]) by {
                assert(O::before(s[i], s[j]));
            }
        }
        lemma_filter_listed::<T, O>(d, pred);
        lemma_filter_rows(d, pred);
        let df = d.filter(pred);
        let f = s.filter(pred);
        if pred(s.last()) {
            assert forall|i: int, j: int| 0 <= i < j < f.len() implies #[trigger] O::before(f[i], f[j]) by {
                if j == f.len() - 1 {
                    assert(d.contains(df[i]));
                    let k = choose|k: int| 0 <= k < d.len() && d[k] == df[i];
                    assert(O::before(s[k], s[s.len() - 1]));
                    assert(f[i] == df[i]);
                } else {
                    assert(f[i] == df[i] && f[j] == df[j]);
                }
            }
        }
    }
}

} // verus!
