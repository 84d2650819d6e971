//! A mathematical model of association sequences: sequences of key-value
//! pairs, used to model the ledger's holdings, pool and registry maps.

use vstd::prelude::*;

verus! {

/// Whether some entry of `s` has key `k`.
pub open spec fn map_contains<K, V>(s: Seq<(K, V)>, k: K) -> bool {
    exists|i: int| 0 <= i < s.len() && s[i].0 == k
}

/// An index of an entry of `s` whose key is `k` (meaningful only when
/// `map_contains` holds; unique when the keys are distinct).
pub open spec fn map_at<K, V>(s: Seq<(K, V)>, k: K) -> int {
    choose|i: int| 0 <= i < s.len() && s[i].0 == k
}

/// The value stored under key `k` (meaningful only when `map_contains` holds).
pub open spec fn map_get<K, V>(s: Seq<(K, V)>, k: K) -> V {
    s[map_at(s, k)].1
}

/// The value stored under key `k`, or 0 if `k` is absent: an absent entry is
/// equivalent to a zero balance.
pub open spec fn bal<K>(s: Seq<(K, u64)>, k: K) -> u64 {
    if map_contains(s, k) {
        map_get(s, k)
    } else {
        0
    }
}

/// All entries of `s` carry pairwise distinct keys.
pub open spec fn map_distinct<K, V>(s: Seq<(K, V)>) -> bool {
    forall|i: int, j: int| 0 <= i < j < s.len() ==> s[i].0 != s[j].0
}

/// Stores `v` under `k`: replaces the entry holding `k`, or appends a new
/// entry if `k` is absent.
pub open spec fn map_set<K, V>(s: Seq<(K, V)>, k: K, v: V) -> Seq<(K, V)> {
    if map_contains(s, k) {
        s.update(map_at(s, k), (k, v))
    } else {
        s.push((k, v))
    }
}

/// Removes the entry holding `k`, if any.
pub open spec fn map_remove<K, V>(s: Seq<(K, V)>, k: K) -> Seq<(K, V)> {
    if map_contains(s, k) {
        s.remove(map_at(s, k))
    } else {
        s
    }
}

/// Under distinct keys, any index holding key `k` is `map_at`.
pub proof fn lemma_map_at_unique<K, V>(s: Seq<(K, V)>, i: int)
    requires
        map_distinct(s),
        0 <= i < s.len(),
    ensures
        map_contains(s, s[i].0),
        map_at(s, s[i].0) == i,
{
    assert(map_contains(s, s[i].0));
    let j = map_at(s, s[i].0);
    if j < i {
        assert(s[j].0 != s[i].0);
    } else if i < j {
        assert(s[i].0 != s[j].0);
    }
}

/// What `map_set` does to membership, lookup and length.
pub proof fn lemma_map_set<K, V>(s: Seq<(K, V)>, k: K, v: V)
    requires
        map_distinct(s),
    ensures
        map_distinct(map_set(s, k, v)),
        map_contains(map_set(s, k, v), k),
        map_get(map_set(s, k, v), k) == v,
        forall|k2: K| k2 != k ==> #[trigger] map_contains(map_set(s, k, v), k2) == map_contains(
            s,
            k2,
        ),
        forall|k2: K| k2 != k && map_contains(s, k2) ==> #[trigger] map_get(map_set(s, k, v), k2)
            == map_get(s, k2),
        map_set(s, k, v).len() == s.len() + (if map_contains(s, k) {
            0int
        } else {
            1int
        }),
    decreases 0int,
{
    let t = map_set(s, k, v);
    if map_contains(s, k) {
        let i = map_at(s, k);
        assert(0 <= i < s.len() && s[i].0 == k);
        assert(map_distinct(t));
        lemma_map_at_unique(t, i);
        assert forall|k2: K| k2 != k implies #[trigger] map_contains(t, k2) == map_contains(
            s,
            k2,
        ) by {
            if map_contains(s, k2) {
                let j = map_at(s, k2);
                assert(t[j].0 == k2);
            }
            if map_contains(t, k2) {
                let j = map_at(t, k2);
                assert(s[j].0 == k2);
            }
        }
        assert forall|k2: K| k2 != k && map_contains(s, k2) implies #[trigger] map_get(t, k2)
            == map_get(s, k2) by {
            let j = map_at(s, k2);
            assert(0 <= j < s.len() && s[j].0 == k2);
            assert(j != i);
            assert(t[j].0 == k2);
            lemma_map_at_unique(t, j);
        }
    } else {
        assert forall|a: int, b: int| 0 <= a < b < t.len() implies t[a].0 != t[b].0 by {
            if b < s.len() {
                assert(s[a].0 != s[b].0);
            } else {
                if t[a].0 == k {
                    assert(map_contains(s, k));
                }
            }
        }
        lemma_map_at_unique(t, s.len() as int);
        assert forall|k2: K| k2 != k implies #[trigger] map_contains(t, k2) == map_contains(
            s,
            k2,
        ) by {
            if map_contains(s, k2) {
                let j = map_at(s, k2);
                assert(t[j].0 == k2);
            }
            if map_contains(t, k2) {
                let j = map_at(t, k2);
                assert(j < s.len());
                assert(s[j].0 == k2);
            }
        }
        assert forall|k2: K| k2 != k && map_contains(s, k2) implies #[trigger] map_get(t, k2)
            == map_get(s, k2) by {
            let j = map_at(s, k2);
            assert(0 <= j < s.len() && s[j].0 == k2);
            assert(t[j].0 == k2);
            lemma_map_at_unique(t, j);
        }
    }
}

/// What `map_remove` does to membership, lookup and length.
pub proof fn lemma_map_remove<K, V>(s: Seq<(K, V)>, k: K)
    requires
        map_distinct(s),
    ensures
        map_distinct(map_remove(s, k)),
        !map_contains(map_remove(s, k), k),
        forall|k2: K| k2 != k ==> #[trigger] map_contains(map_remove(s, k), k2) == map_contains(
            s,
            k2,
        ),
        forall|k2: K| k2 != k && map_contains(s, k2) ==> #[trigger] map_get(map_remove(s, k), k2)
            == map_get(s, k2),
        map_remove(s, k).len() == s.len() - (if map_contains(s, k) {
            1int
        } else {
            0int
        }),
{
    if map_contains(s, k) {
        let i = map_at(s, k);
        assert(0 <= i < s.len() && s[i].0 == k);
        let t = s.remove(i);
        assert forall|a: int, b: int| 0 <= a < b < t.len() implies t[a].0 != t[b].0 by {
            let a0 = if a < i { a } else { a + 1 };
            let b0 = if b < i { b } else { b + 1 };
            assert(t[a] == s[a0]);
            assert(t[b] == s[b0]);
            assert(s[a0].0 != s[b0].0);
        }
        assert forall|j: int| 0 <= j < t.len() implies t[j].0 != k by {
            let j0 = if j < i { j } else { j + 1 };
            assert(t[j] == s[j0]);
            if j0 != i {
                assert(s[j0].0 != s[i].0);
            }
        }
        assert forall|k2: K| k2 != k implies #[trigger] map_contains(t, k2) == map_contains(
            s,
            k2,
        ) by {
            if map_contains(s, k2) {
                let j = map_at(s, k2);
                assert(0 <= j < s.len() && s[j].0 == k2);
                assert(j != i);
                if j < i {
                    assert(t[j].0 == k2);
                } else {
                    assert(t[j - 1] == s[j]);
                }
            }
            if map_contains(t, k2) {
                let j = map_at(t, k2);
                let j0 = if j < i { j } else { j + 1 };
                assert(t[j] == s[j0]);
            }
        }
        assert forall|k2: K| k2 != k && map_contains(s, k2) implies #[trigger] map_get(t, k2)
            == map_get(s, k2) by {
            let j = map_at(s, k2);
            assert(0 <= j < s.len() && s[j].0 == k2);
            assert(j != i);
            let j1 = if j < i { j } else { j - 1 };
            assert(t[j1] == s[j]);
            lemma_map_at_unique(t, j1);
        }
    }
}

/// What inserting a fresh key at position `i` does to membership and lookup.
pub proof fn lemma_map_insert<K, V>(s: Seq<(K, V)>, i: int, e: (K, V))
    requires
        map_distinct(s),
        !map_contains(s, e.0),
        0 <= i <= s.len(),
    ensures
        map_distinct(s.insert(i, e)),
        map_contains(s.insert(i, e), e.0),
        map_get(s.insert(i, e), e.0) == e.1,
        forall|k2: K| k2 != e.0 ==> #[trigger] map_contains(s.insert(i, e), k2) == map_contains(
            s,
            k2,
        ),
        forall|k2: K| k2 != e.0 && map_contains(s, k2) ==> #[trigger] map_get(s.insert(i, e), k2)
            == map_get(s, k2),
        s.insert(i, e).len() == s.len() + 1,
{
    let t = s.insert(i, e);
    s.insert_ensures(i, e);
    assert forall|a: int, b: int| 0 <= a < b < t.len() implies t[a].0 != t[b].0 by {
        if a == i {
            assert(t[b] == s[b - 1]);
            if t[a].0 == t[b].0 {
                assert(map_contains(s, e.0));
            }
        } else if b == i {
            assert(t[a] == s[a]);
            if t[a].0 == t[b].0 {
                assert(map_contains(s, e.0));
            }
        } else {
            let a0 = if a < i { a } else { a - 1 };
            let b0 = if b < i { b } else { b - 1 };
            assert(t[a] == s[a0]);
            assert(t[b] == s[b0]);
            assert(s[a0].0 != s[b0].0);
        }
    }
    lemma_map_at_unique(t, i);
    assert forall|k2: K| k2 != e.0 implies #[trigger] map_contains(t, k2) == map_contains(
        s,
        k2,
    ) by {
        if map_contains(s, k2) {
            let j = map_at(s, k2);
            assert(0 <= j < s.len() && s[j].0 == k2);
            if j < i {
                assert(t[j] == s[j]);
            } else {
                assert(t[j + 1] == s[j]);
            }
        }
        if map_contains(t, k2) {
            let j = map_at(t, k2);
            assert(j != i);
            let j0 = if j < i { j } else { j - 1 };
            assert(t[j] == s[j0]);
        }
    }
    assert forall|k2: K| k2 != e.0 && map_contains(s, k2) implies #[trigger] map_get(t, k2)
        == map_get(s, k2) by {
        let j = map_at(s, k2);
        assert(0 <= j < s.len() && s[j].0 == k2);
        let j1 = if j < i { j } else { j + 1 };
        assert(t[j1] == s[j]);
        lemma_map_at_unique(t, j1);
    }
}

/// The sum of the values of an association sequence with 64-bit values.
pub open spec fn map_sum<K>(s: Seq<(K, u64)>) -> nat
    decreases s.len(),
{
    if s.len() == 0 {
        0
    } else {
        (s[0].1 + map_sum(s.drop_first())) as nat
    }
}

/// Appending an entry adds its value to the sum.
pub proof fn lemma_sum_push<K>(s: Seq<(K, u64)>, e: (K, u64))
    ensures
        map_sum(s.push(e)) == map_sum(s) + e.1,
    decreases s.len(),
{
    if s.len() == 0 {
        assert(s.push(e).drop_first() =~= s);
    } else {
        assert(s.push(e).drop_first() =~= s.drop_first().push(e));
        lemma_sum_push(s.drop_first(), e);
    }
}

/// Replacing the entry at `i` shifts the sum by the difference of the values.
pub proof fn lemma_sum_update<K>(s: Seq<(K, u64)>, i: int, e: (K, u64))
    requires
        0 <= i < s.len(),
    ensures
        map_sum(s.update(i, e)) + s[i].1 == map_sum(s) + e.1,
    decreases s.len(),
{
    if i == 0 {
        assert(s.update(0, e).drop_first() =~= s.drop_first());
    } else {
        assert(s.update(i, e).drop_first() =~= s.drop_first().update(i - 1, e));
        lemma_sum_update(s.drop_first(), i - 1, e);
    }
}

/// Removing the entry at `i` subtracts its value from the sum.
pub proof fn lemma_sum_remove<K>(s: Seq<(K, u64)>, i: int)
    requires
        0 <= i < s.len(),
    ensures
        map_sum(s.remove(i)) + s[i].1 == map_sum(s),
    decreases s.len(),
{
    if i == 0 {
        assert(s.remove(0) =~= s.drop_first());
    } else {
        assert(s.remove(i).drop_first() =~= s.drop_first().remove(i - 1));
        lemma_sum_remove(s.drop_first(), i - 1);
    }
}

/// Inserting an entry adds its value to the sum.
pub proof fn lemma_sum_insert<K>(s: Seq<(K, u64)>, i: int, e: (K, u64))
    requires
        0 <= i <= s.len(),
    ensures
        map_sum(s.insert(i, e)) == map_sum(s) + e.1,
    decreases s.len(),
{
    if i == 0 {
        assert(s.insert(0, e).drop_first() =~= s);
        assert(s.insert(0, e)[0] == e);
    } else {
        assert(s.insert(i, e).drop_first() =~= s.drop_first().insert(i - 1, e));
        assert(s.insert(i, e)[0] == s[0]);
        lemma_sum_insert(s.drop_first(), i - 1, e);
    }
}


/// What `map_set` does to the sum of the values.
pub proof fn lemma_map_set_sum<K>(s: Seq<(K, u64)>, k: K, v: u64)
    requires
        map_distinct(s),
    ensures
        map_sum(map_set(s, k, v)) + bal(s, k) == map_sum(s) + v,
{
    if map_contains(s, k) {
        let i = map_at(s, k);
        assert(0 <= i < s.len() && s[i].0 == k);
        assert(bal(s, k) == s[i].1);
        lemma_sum_update(s, i, (k, v));
    } else {
        lemma_sum_push(s, (k, v));
    }
}

/// What `map_remove` does to the sum of the values.
pub proof fn lemma_map_remove_sum<K>(s: Seq<(K, u64)>, k: K)
    requires
        map_distinct(s),
    ensures
        map_sum(map_remove(s, k)) + bal(s, k) == map_sum(s),
{
    if map_contains(s, k) {
        let i = map_at(s, k);
        assert(0 <= i < s.len() && s[i].0 == k);
        assert(bal(s, k) == s[i].1);
        lemma_sum_remove(s, i);
    }
}

} // verus!
