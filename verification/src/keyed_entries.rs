//! Association lists keyed by `usize`: the mathematical model behind item
//! counts, recipe usage tables and similar small maps that keep insertion order.
use vstd::prelude::*;

verus! {

/// Index of the first entry whose key is `k`, or `-1` when there is none.
pub open spec fn key_index<V>(s: Seq<(usize, V)>, k: usize) -> int
    decreases s.len(),
{
    if s.len() == 0 {
        -1
    } else if s[0].0 == k {
        0
    } else {
        let rest = key_index(s.drop_first(), k);
        if rest < 0 {
            -1
        } else {
            rest + 1
        }
    }
}

/// Whether some entry has key `k`.
pub open spec fn has_key<V>(s: Seq<(usize, V)>, k: usize) -> bool {
    exists|i: int| 0 <= i < s.len() && #[trigger] s[i].0 == k
}

/// The keys of the entries, in order.
pub open spec fn keys_of<V>(s: Seq<(usize, V)>) -> Seq<usize> {
    s.map_values(|e: (usize, V)| e.0)
}

/// No key occurs twice.
pub open spec fn keys_distinct<V>(s: Seq<(usize, V)>) -> bool {
    forall|i: int, j: int| 0 <= i < j < s.len() ==> s[i].0 != s[j].0
}

/// The count stored under `k` (first entry wins), 0 when absent.
pub open spec fn count_of(s: Seq<(usize, usize)>, k: usize) -> nat {
    let i = key_index(s, k);
    if i < 0 {
        0
    } else {
        s[i].1 as nat
    }
}

/// The signed value stored under `k` (first entry wins), 0 when absent.
pub open spec fn value_of(s: Seq<(usize, i64)>, k: usize) -> int {
    let i = key_index(s, k);
    if i < 0 {
        0
    } else {
        s[i].1 as int
    }
}

/// Adds `c` to the entry of `k`, or appends a new entry `(k, c)`.
pub open spec fn add_entry(s: Seq<(usize, usize)>, k: usize, c: usize) -> Seq<(usize, usize)> {
    let i = key_index(s, k);
    if i < 0 {
        s.push((k, c))
    } else {
        s.update(i, (k, (s[i].1 + c) as usize))
    }
}

/// Removes `c` from the count of `k`; an absent key gets an entry with count 0.
pub open spec fn sub_entry(s: Seq<(usize, usize)>, k: usize, c: usize) -> Seq<(usize, usize)> {
    let i = key_index(s, k);
    if i < 0 {
        s.push((k, 0))
    } else {
        s.update(i, (k, (s[i].1 - c) as usize))
    }
}

/// The entries obtained by adding every pair of `v`, in order, to an empty list.
pub open spec fn merged(v: Seq<(usize, usize)>) -> Seq<(usize, usize)>
    decreases v.len(),
{
    if v.len() == 0 {
        Seq::empty()
    } else {
        add_entry(merged(v.drop_last()), v.last().0, v.last().1)
    }
}

/// Sum of the counts given for `k` in `v`.
pub open spec fn total_for(v: Seq<(usize, usize)>, k: usize) -> nat
    decreases v.len(),
{
    if v.len() == 0 {
        0
    } else {
        total_for(v.drop_last(), k) + if v.last().0 == k {
            v.last().1 as nat
        } else {
            0nat
        }
    }
}

/// Every partial sum that merging `v` computes fits in a `usize`.
pub open spec fn totals_fit(v: Seq<(usize, usize)>) -> bool {
    forall|n: int, k: usize|
        0 <= n <= v.len() ==> #[trigger] total_for(v.take(n), k) <= usize::MAX
}

/// Characterisation of `key_index`.
pub proof fn lemma_key_index<V>(s: Seq<(usize, V)>, k: usize)
    ensures
        -1 <= key_index(s, k) < s.len(),
        key_index(s, k) < 0 <==> !has_key(s, k),
        key_index(s, k) >= 0 ==> s[key_index(s, k)].0 == k,
        forall|j: int| 0 <= j < key_index(s, k) ==> s[j].0 != k,
        key_index(s, k) < 0 ==> forall|j: int| 0 <= j < s.len() ==> s[j].0 != k,
    decreases s.len(),
{
    if s.len() > 0 {
        lemma_key_index(s.drop_first(), k);
        if s[0].0 != k {
            assert forall|j: int| 1 <= j < s.len() implies s[j] == s.drop_first()[j - 1] by {}
            if has_key(s, k) {
                let j = choose|j: int| 0 <= j < s.len() && #[trigger] s[j].0 == k;
                assert(s.drop_first()[j - 1].0 == k);
            }
            if has_key(s.drop_first(), k) {
                let j = choose|j: int| 0 <= j < s.drop_first().len() && #[trigger] s.drop_first()[j].0 == k;
                assert(s[j + 1].0 == k);
            }
        }
    }
}

/// The first index with key `k` is determined by the keys before it.
pub proof fn lemma_key_index_at<V>(s: Seq<(usize, V)>, k: usize, i: int)
    requires
        0 <= i < s.len(),
        s[i].0 == k,
        forall|j: int| 0 <= j < i ==> s[j].0 != k,
    ensures
        key_index(s, k) == i,
{
    lemma_key_index(s, k);
    assert(has_key(s, k));
}

/// `key_index` is `-1` when no entry has key `k`.
pub proof fn lemma_key_index_absent<V>(s: Seq<(usize, V)>, k: usize)
    requires
        forall|j: int| 0 <= j < s.len() ==> s[j].0 != k,
    ensures
        key_index(s, k) == -1,
{
    lemma_key_index(s, k);
}

/// Key lookups in a pushed sequence.
pub proof fn lemma_key_index_push<V>(s: Seq<(usize, V)>, e: (usize, V), k: usize)
    ensures
        key_index(s, k) >= 0 ==> key_index(s.push(e), k) == key_index(s, k),
        key_index(s, k) < 0 && e.0 == k ==> key_index(s.push(e), k) == s.len(),
        key_index(s, k) < 0 && e.0 != k ==> key_index(s.push(e), k) == -1,
{
    lemma_key_index(s, k);
    let t = s.push(e);
    if key_index(s, k) >= 0 {
        lemma_key_index_at(t, k, key_index(s, k));
    } else if e.0 == k {
        lemma_key_index_at(t, k, s.len() as int);
    } else {
        lemma_key_index_absent(t, k);
    }
}

/// Key lookups after updating one entry without changing its key.
pub proof fn lemma_key_index_update_same_key<V>(s: Seq<(usize, V)>, i: int, e: (usize, V), k: usize)
    requires
        0 <= i < s.len(),
        e.0 == s[i].0,
    ensures
        key_index(s.update(i, e), k) == key_index(s, k),
{
    lemma_key_index(s, k);
    let t = s.update(i, e);
    if key_index(s, k) >= 0 {
        lemma_key_index_at(t, k, key_index(s, k));
    } else {
        lemma_key_index_absent(t, k);
    }
}

/// `add_entry` adds `c` to the count of `k` and leaves the other counts alone.
pub proof fn lemma_add_entry(s: Seq<(usize, usize)>, k: usize, c: usize, q: usize)
    requires
        count_of(s, k) + c <= usize::MAX,
    ensures
        count_of(add_entry(s, k, c), q) == if q == k {
            count_of(s, k) + c
        } else {
            count_of(s, q) as int
        },
        keys_distinct(s) ==> keys_distinct(add_entry(s, k, c)),
        has_key(add_entry(s, k, c), q) <==> (has_key(s, q) || q == k),
        add_entry(s, k, c).len() >= s.len(),
{
    lemma_key_index(s, k);
    lemma_key_index(s, q);
    let i = key_index(s, k);
    let t = add_entry(s, k, c);
    if i < 0 {
        lemma_key_index_push(s, (k, c), q);
        lemma_key_index(t, q);
        if has_key(t, q) && !has_key(s, q) {
            let j = choose|j: int| 0 <= j < t.len() && #[trigger] t[j].0 == q;
            if j < s.len() {
                assert(s[j].0 == q);
            }
        }
        if has_key(s, q) {
            let j = choose|j: int| 0 <= j < s.len() && #[trigger] s[j].0 == q;
            assert(t[j].0 == q);
        }
        if q == k {
            assert(t[s.len() as int].0 == q);
        }
    } else {
        lemma_key_index_update_same_key(s, i, (k, (s[i].1 + c) as usize), q);
        lemma_key_index(t, q);
        if has_key(s, q) {
            let j = choose|j: int| 0 <= j < s.len() && #[trigger] s[j].0 == q;
            assert(t[j].0 == q);
        }
        if has_key(t, q) {
            let j = choose|j: int| 0 <= j < t.len() && #[trigger] t[j].0 == q;
            assert(s[j].0 == q);
        }
    }
}

/// `sub_entry` removes `c` from the count of `k` and leaves the other counts alone.
pub proof fn lemma_sub_entry(s: Seq<(usize, usize)>, k: usize, c: usize, q: usize)
    requires
        c <= count_of(s, k),
    ensures
        count_of(sub_entry(s, k, c), q) == if q == k {
            count_of(s, k) - c
        } else {
            count_of(s, q) as int
        },
        keys_distinct(s) ==> keys_distinct(sub_entry(s, k, c)),
        has_key(sub_entry(s, k, c), q) <==> (has_key(s, q) || q == k),
{
    lemma_key_index(s, k);
    let i = key_index(s, k);
    if i < 0 {
        assert(sub_entry(s, k, c) == add_entry(s, k, 0));
        lemma_add_entry(s, k, 0, q);
    } else {
        assert(sub_entry(s, k, c) == s.update(i, (k, (s[i].1 - c) as usize)));
        assert(add_entry(s, k, 0) == s.update(i, (k, (s[i].1 + 0) as usize)));
        lemma_add_entry(s, k, 0, q);
        lemma_key_index_update_same_key(s, i, (k, (s[i].1 - c) as usize), q);
        lemma_key_index_update_same_key(s, i, (k, (s[i].1 + 0) as usize), q);
        lemma_key_index(s, q);
        let t = sub_entry(s, k, c);
        if keys_distinct(s) {
            assert(keys_distinct(t));
        }
        if has_key(s, q) {
            let j = choose|j: int| 0 <= j < s.len() && #[trigger] s[j].0 == q;
            assert(t[j].0 == q);
        }
        if has_key(t, q) {
            let j = choose|j: int| 0 <= j < t.len() && #[trigger] t[j].0 == q;
            assert(s[j].0 == q);
        }
    }
}

/// The totals of a prefix extended by one pair.
pub proof fn lemma_total_for_take(v: Seq<(usize, usize)>, n: int, k: usize)
    requires
        0 <= n < v.len(),
    ensures
        total_for(v.take(n + 1), k) == total_for(v.take(n), k) + if v[n].0 == k {
            v[n].1 as nat
        } else {
            0nat
        },
        merged(v.take(n + 1)) == add_entry(merged(v.take(n)), v[n].0, v[n].1),
{
    assert(v.take(n + 1).drop_last() =~= v.take(n));
}

/// Merging keeps counts equal to the totals, and keys distinct.
pub proof fn lemma_merged(v: Seq<(usize, usize)>)
    requires
        totals_fit(v),
    ensures
        forall|k: usize| #[trigger] count_of(merged(v), k) == total_for(v, k),
        keys_distinct(merged(v)),
        forall|k: usize| #[trigger] has_key(merged(v), k) <==> has_key(v, k),
    decreases v.len(),
{
    if v.len() == 0 {
        assert forall|k: usize| #[trigger] count_of(merged(v), k) == total_for(v, k) by {
            lemma_key_index(merged(v), k);
        }
    } else {
        let w = v.drop_last();
        assert(totals_fit(w)) by {
            assert forall|n: int, k: usize| 0 <= n <= w.len() implies #[trigger] total_for(w.take(n), k)
                <= usize::MAX by {
                assert(w.take(n) =~= v.take(n));
                assert(total_for(v.take(n), k) <= usize::MAX);
            }
        }
        lemma_merged(w);
        let (k0, c0) = v.last();
        assert(v.take(v.len() as int) =~= v);
        assert(total_for(v.take(v.len() as int), k0) <= usize::MAX);
        lemma_add_entry(merged(w), k0, c0, k0);
        assert forall|k: usize| #[trigger] count_of(merged(v), k) == total_for(v, k) by {
            lemma_add_entry(merged(w), k0, c0, k);
        }
        assert forall|k: usize| #[trigger] has_key(merged(v), k) <==> has_key(v, k) by {
            lemma_add_entry(merged(w), k0, c0, k);
            if has_key(w, k) {
                let j = choose|j: int| 0 <= j < w.len() && #[trigger] w[j].0 == k;
                assert(v[j].0 == k);
            }
            if has_key(v, k) && k != k0 {
                let j = choose|j: int| 0 <= j < v.len() && #[trigger] v[j].0 == k;
                assert(w[j].0 == k);
            }
            if k == k0 {
                assert(v[v.len() - 1].0 == k);
            }
        }
    }
}

/// Sum of all counts.
pub open spec fn sum_counts(s: Seq<(usize, usize)>) -> nat
    decreases s.len(),
{
    if s.len() == 0 {
        0
    } else {
        sum_counts(s.drop_last()) + s.last().1 as nat
    }
}

/// Each count is at most the sum of all counts.
pub proof fn lemma_count_le_sum(s: Seq<(usize, usize)>, i: int)
    requires
        0 <= i < s.len(),
    ensures
        s[i].1 <= sum_counts(s),
    decreases s.len(),
{
    if i < s.len() - 1 {
        lemma_count_le_sum(s.drop_last(), i);
    }
}

/// Replacing one count changes the sum by the difference.
pub proof fn lemma_sum_update(s: Seq<(usize, usize)>, i: int, e: (usize, usize))
    requires
        0 <= i < s.len(),
    ensures
        sum_counts(s.update(i, e)) == sum_counts(s) - s[i].1 + e.1,
    decreases s.len(),
{
    let t = s.update(i, e);
    if i == s.len() - 1 {
        assert(t.drop_last() =~= s.drop_last());
    } else {
        assert(t.drop_last() =~= s.drop_last().update(i, e));
        lemma_sum_update(s.drop_last(), i, e);
    }
}

/// Stores `v` under `k`: the first entry of `k` is replaced, or one is appended.
pub open spec fn put<V>(s: Seq<(usize, V)>, k: usize, v: V) -> Seq<(usize, V)> {
    if has_key(s, k) {
        s.update(key_index(s, k), (k, v))
    } else {
        s.push((k, v))
    }
}

/// What `put` does to keys and lookups.
pub proof fn lemma_put<V>(s: Seq<(usize, V)>, k: usize, v: V, q: usize)
    ensures
        has_key(put(s, k, v), q) == (has_key(s, q) || q == k),
        (has_key(s, q) || q == k) ==> key_index(put(s, k, v), q) >= 0,
        q == k ==> put(s, k, v)[key_index(put(s, k, v), q)].1 == v,
        q != k && has_key(s, q) ==> put(s, k, v)[key_index(put(s, k, v), q)] == s[key_index(s, q)],
        keys_distinct(s) ==> keys_distinct(put(s, k, v)),
{
    lemma_key_index(s, k);
    lemma_key_index(s, q);
    let t = put(s, k, v);
    if has_key(s, k) {
        let i = key_index(s, k);
        lemma_key_index_update_same_key(s, i, (k, v), q);
        lemma_key_index(t, q);
        if has_key(s, q) {
            assert(t[key_index(s, q)].0 == q);
        }
        if q == k {
            assert(t[i].0 == k);
        }
        if keys_distinct(s) {
            assert forall|a: int, b: int| 0 <= a < b < t.len() implies t[a].0 != t[b].0 by {
                if a == i {
                    assert(s[i].0 == k);
                }
                if b == i {
                    assert(s[i].0 == k);
                }
            }
        }
    } else {
        lemma_key_index_push(s, (k, v), q);
        lemma_key_index(t, q);
        if has_key(s, q) {
            assert(t[key_index(s, q)].0 == q);
        }
        if q == k {
            assert(t[s.len() as int].0 == k);
        }
        if keys_distinct(s) {
            assert forall|a: int, b: int| 0 <= a < b < t.len() implies t[a].0 != t[b].0 by {
                if b == s.len() {
                    assert(s[a].0 != k);
                }
            }
        }
        if has_key(t, q) && q != k {
            let w = choose|w: int| 0 <= w < t.len() && #[trigger] t[w].0 == q;
            assert(s[w].0 == q);
        }
    }
}

/// Stores `v` under `k`, replacing the entry of `k` or appending one.
pub fn put_entry<V>(s: &mut Vec<(usize, V)>, k: usize, v: V)
    ensures
        final(s)@ == put(old(s)@, k, v),
{
    proof {
        lemma_key_index(s@, k);
    }
    match find_key(s, k) {
        Some(i) => {
            s.set(i, (k, v));
        },
        None => {
            s.push((k, v));
        },
    }
}

/// The value stored under `k`, if any.
pub fn lookup_entry<V: Copy>(s: &Vec<(usize, V)>, k: usize) -> (r: Option<V>)
    ensures
        r == if key_index(s@, k) >= 0 {
            Some(s@[key_index(s@, k)].1)
        } else {
            None
        },
{
    match find_key(s, k) {
        Some(i) => Some(s[i].1),
        None => None,
    }
}

/// Position of the first entry with key `k`.
pub fn find_key<V>(s: &Vec<(usize, V)>, k: usize) -> (r: Option<usize>)
    ensures
        r is Some <==> key_index(s@, k) >= 0,
        r matches Some(i) ==> i == key_index(s@, k) && i < s@.len(),
{
    let mut i: usize = 0;
    while i < s.len()
        invariant
            i <= s.len(),
            forall|j: int| 0 <= j < i ==> s@[j].0 != k,
        decreases s.len() - i,
    {
        if s[i].0 == k {
            proof {
                lemma_key_index_at(s@, k, i as int);
            }
            return Some(i);
        }
        i = i + 1;
    }
    proof {
        lemma_key_index_absent(s@, k);
    }
    None
}

/// The count stored under `k`, 0 when absent.
pub fn lookup_count(s: &Vec<(usize, usize)>, k: usize) -> (c: usize)
    ensures
        c == count_of(s@, k),
{
    match find_key(s, k) {
        Some(i) => s[i].1,
        None => 0,
    }
}

/// The signed value stored under `k`, 0 when absent.
pub fn lookup_value(s: &Vec<(usize, i64)>, k: usize) -> (v: i64)
    ensures
        v as int == value_of(s@, k),
{
    match find_key(s, k) {
        Some(i) => s[i].1,
        None => 0,
    }
}

} // verus!
