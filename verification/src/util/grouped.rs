//! A log of entries kept grouped by key.
//!
//! Each group holds, in the order they were logged, a value taken from
//! every logged entry with that key; a key has a group exactly when some
//! logged entry has it.

use vstd::prelude::*;

verus! {

/// The values of the logged entries whose key is `k`, in log order.
pub open spec fn group_of<T, K, V>(log: Seq<T>, key_of: spec_fn(T) -> Option<K>, val_of: spec_fn(T) -> V, k: K) -> Seq<V> {
    log.filter(|y: T| key_of(y) == Some(k)).map_values(val_of)
}

/// Whether some logged entry has key `k`.
pub open spec fn has_key<T, K>(log: Seq<T>, key_of: spec_fn(T) -> Option<K>, k: K) -> bool {
    exists|t: int| 0 <= t < log.len() && #[trigger] key_of(log[t]) == Some(k)
}

/// Whether `keys` and `groups` hold the log grouped by key: each key once,
/// with its group, and every key of the log among them.
pub open spec fn groups_match<T, K, V>(
    log: Seq<T>,
    key_of: spec_fn(T) -> Option<K>,
    val_of: spec_fn(T) -> V,
    keys: Seq<K>,
    groups: Seq<Seq<V>>,
) -> bool {
    &&& keys.no_duplicates()
    &&& groups.len() == keys.len()
    &&& forall|i: int| 0 <= i < keys.len() ==> #[trigger] groups[i] == group_of(log, key_of, val_of, keys[i])
    &&& forall|i: int| 0 <= i < keys.len() ==> has_key(log, key_of, #[trigger] keys[i])
    &&& forall|k: K| has_key(log, key_of, k) ==> #[trigger] keys.contains(k)
}

/// A filter keeps something only when some element passes it.
proof fn lemma_filter_nonempty<T>(log: Seq<T>, p: spec_fn(T) -> bool)
    requires
        log.filter(p).len() > 0,
    ensures
        exists|t: int| 0 <= t < log.len() && #[trigger] p(log[t]),
    decreases log.len(),
{
    reveal(Seq::filter);
    if log.len() > 0 {
        let rest = log.drop_last();
        if p(log.last()) {
            assert(p(log[log.len() - 1]));
        } else {
            lemma_filter_nonempty(rest, p);
            let t = choose|t: int| 0 <= t < rest.len() && #[trigger] p(rest[t]);
            assert(log[t] == rest[t]);
        }
    }
}

pub proof fn lemma_filter_push<T>(log: Seq<T>, p: spec_fn(T) -> bool, x: T)
    ensures
        log.push(x).filter(p) == if p(x) {
            log.filter(p).push(x)
        } else {
            log.filter(p)
        },
{
    reveal(Seq::filter);
    assert(log.push(x).drop_last() =~= log);
}

/// The group of `k` after logging `x`.
pub proof fn lemma_group_push<T, K, V>(
    log: Seq<T>,
    key_of: spec_fn(T) -> Option<K>,
    val_of: spec_fn(T) -> V,
    x: T,
    k: K,
)
    ensures
        group_of(log.push(x), key_of, val_of, k) == if key_of(x) == Some(k) {
            group_of(log, key_of, val_of, k).push(val_of(x))
        } else {
            group_of(log, key_of, val_of, k)
        },
{
    let p = |y: T| key_of(y) == Some(k);
    lemma_filter_push(log, p, x);
    if key_of(x) == Some(k) {
        assert(log.filter(p).push(x).map_values(val_of) =~= log.filter(p).map_values(val_of).push(
            val_of(x),
        ));
    }
}

/// An empty log has no groups.
pub proof fn lemma_groups_empty<T, K, V>(key_of: spec_fn(T) -> Option<K>, val_of: spec_fn(T) -> V)
    ensures
        groups_match(Seq::<T>::empty(), key_of, val_of, Seq::<K>::empty(), Seq::<Seq<V>>::empty()),
{
}

/// Logging an entry whose key has a group adds its value to that group.
pub proof fn lemma_groups_push_existing<T, K, V>(
    log: Seq<T>,
    key_of: spec_fn(T) -> Option<K>,
    val_of: spec_fn(T) -> V,
    keys: Seq<K>,
    groups: Seq<Seq<V>>,
    x: T,
    i: int,
)
    requires
        groups_match(log, key_of, val_of, keys, groups),
        0 <= i < keys.len(),
        key_of(x) == Some(keys[i]),
    ensures
        groups_match(log.push(x), key_of, val_of, keys, groups.update(i, groups[i].push(val_of(x)))),
{
    let log2 = log.push(x);
    let groups2 = groups.update(i, groups[i].push(val_of(x)));
    assert forall|j: int| 0 <= j < keys.len() implies #[trigger] groups2[j] == group_of(log2, key_of, val_of, keys[j]) by {
        lemma_group_push(log, key_of, val_of, x, keys[j]);
        if j != i {
            assert(keys[j] != keys[i]);
        }
    }
    assert forall|j: int| 0 <= j < keys.len() implies has_key(log2, key_of, #[trigger] keys[j]) by {
        assert(has_key(log, key_of, keys[j]));
        let t = choose|t: int| 0 <= t < log.len() && #[trigger] key_of(log[t]) == Some(keys[j]);
        assert(log2[t] == log[t]);
    }
    assert forall|k: K| has_key(log2, key_of, k) implies #[trigger] keys.contains(k) by {
        let t = choose|t: int| 0 <= t < log2.len() && #[trigger] key_of(log2[t]) == Some(k);
        if t < log.len() {
            assert(log2[t] == log[t]);
            assert(has_key(log, key_of, k));
        } else {
            assert(keys[i] == k);
        }
    }
}

/// Logging an entry with a new key adds a group for it.
pub proof fn lemma_groups_push_new<T, K, V>(
    log: Seq<T>,
    key_of: spec_fn(T) -> Option<K>,
    val_of: spec_fn(T) -> V,
    keys: Seq<K>,
    groups: Seq<Seq<V>>,
    x: T,
    k: K,
)
    requires
        groups_match(log, key_of, val_of, keys, groups),
        !keys.contains(k),
        key_of(x) == Some(k),
    ensures
        groups_match(log.push(x), key_of, val_of, keys.push(k), groups.push(seq![val_of(x)])),
{
    let log2 = log.push(x);
    let keys2 = keys.push(k);
    let groups2 = groups.push(seq![val_of(x)]);
    assert forall|a: int, b: int| 0 <= a < b < keys2.len() implies keys2[a] != keys2[b] by {
        if b == keys.len() {
            assert(keys.contains(keys2[a]));
        }
    }
    assert(!has_key(log, key_of, k));
    assert forall|j: int| 0 <= j < keys2.len() implies #[trigger] groups2[j] == group_of(log2, key_of, val_of, keys2[j]) by {
        lemma_group_push(log, key_of, val_of, x, keys2[j]);
        if j < keys.len() {
            assert(keys[j] != k) by {
                assert(keys.contains(keys[j]));
            }
        } else {
            let p = |y: T| key_of(y) == Some(k);
            assert(log.filter(p).len() == 0) by {
                if log.filter(p).len() > 0 {
                    lemma_filter_nonempty(log, p);
                    let t = choose|t: int| 0 <= t < log.len() && #[trigger] p(log[t]);
                    assert(key_of(log[t]) == Some(k));
                }
            }
            assert(group_of(log, key_of, val_of, k) =~= Seq::<V>::empty());
            assert(Seq::<V>::empty().push(val_of(x)) =~= seq![val_of(x)]);
        }
    }
    assert forall|j: int| 0 <= j < keys2.len() implies has_key(log2, key_of, #[trigger] keys2[j]) by {
        if j < keys.len() {
            assert(has_key(log, key_of, keys[j]));
            let t = choose|t: int| 0 <= t < log.len() && #[trigger] key_of(log[t]) == Some(keys[j]);
            assert(log2[t] == log[t]);
        } else {
            assert(key_of(log2[log.len() as int]) == Some(k));
        }
    }
    assert forall|kk: K| has_key(log2, key_of, kk) implies #[trigger] keys2.contains(kk) by {
        let t = choose|t: int| 0 <= t < log2.len() && #[trigger] key_of(log2[t]) == Some(kk);
        if t < log.len() {
            assert(log2[t] == log[t]);
            assert(has_key(log, key_of, kk));
            assert(keys.contains(kk));
            let u = choose|u: int| 0 <= u < keys.len() && keys[u] == kk;
            assert(keys2[u] == kk);
        } else {
            assert(keys2[keys.len() as int] == kk);
        }
    }
}

/// Logging an entry without a key leaves the groups as they are.
pub proof fn lemma_groups_push_keyless<T, K, V>(
    log: Seq<T>,
    key_of: spec_fn(T) -> Option<K>,
    val_of: spec_fn(T) -> V,
    keys: Seq<K>,
    groups: Seq<Seq<V>>,
    x: T,
)
    requires
        groups_match(log, key_of, val_of, keys, groups),
        key_of(x) is None,
    ensures
        groups_match(log.push(x), key_of, val_of, keys, groups),
{
    let log2 = log.push(x);
    assert forall|j: int| 0 <= j < keys.len() implies #[trigger] groups[j] == group_of(log2, key_of, val_of, keys[j]) by {
        lemma_group_push(log, key_of, val_of, x, keys[j]);
    }
    assert forall|j: int| 0 <= j < keys.len() implies has_key(log2, key_of, #[trigger] keys[j]) by {
        assert(has_key(log, key_of, keys[j]));
        let t = choose|t: int| 0 <= t < log.len() && #[trigger] key_of(log[t]) == Some(keys[j]);
        assert(log2[t] == log[t]);
    }
    assert forall|k: K| has_key(log2, key_of, k) implies #[trigger] keys.contains(k) by {
        let t = choose|t: int| 0 <= t < log2.len() && #[trigger] key_of(log2[t]) == Some(k);
        if t < log.len() {
            assert(log2[t] == log[t]);
            assert(has_key(log, key_of, k));
        }
    }
}

/// A key without a group has no entries.
pub proof fn lemma_group_absent<T, K, V>(
    log: Seq<T>,
    key_of: spec_fn(T) -> Option<K>,
    val_of: spec_fn(T) -> V,
    keys: Seq<K>,
    groups: Seq<Seq<V>>,
    k: K,
)
    requires
        groups_match(log, key_of, val_of, keys, groups),
        !keys.contains(k),
    ensures
        !has_key(log, key_of, k),
        group_of(log, key_of, val_of, k) == Seq::<V>::empty(),
{
    let p = |y: T| key_of(y) == Some(k);
    if log.filter(p).len() > 0 {
        lemma_filter_nonempty(log, p);
        let t = choose|t: int| 0 <= t < log.len() && #[trigger] p(log[t]);
        assert(key_of(log[t]) == Some(k));
        assert(has_key(log, key_of, k));
    }
    assert(group_of(log, key_of, val_of, k) =~= Seq::<V>::empty());
}

/// The total of `f` over the groups.
pub open spec fn sum_of<V>(groups: Seq<Seq<V>>, f: spec_fn(Seq<V>) -> nat) -> nat
    decreases groups.len(),
{
    if groups.len() == 0 {
        0
    } else {
        sum_of(groups.drop_last(), f) + f(groups.last())
    }
}

/// Adding a group adds its amount to the total.
pub proof fn lemma_sum_push<V>(groups: Seq<Seq<V>>, f: spec_fn(Seq<V>) -> nat, g: Seq<V>)
    ensures
        sum_of(groups.push(g), f) == sum_of(groups, f) + f(g),
{
    assert(groups.push(g).drop_last() =~= groups);
}

/// Replacing a group changes the total by the difference of the amounts.
pub proof fn lemma_sum_update<V>(groups: Seq<Seq<V>>, f: spec_fn(Seq<V>) -> nat, i: int, g: Seq<V>)
    requires
        0 <= i < groups.len(),
    ensures
        sum_of(groups.update(i, g), f) + f(groups[i]) == sum_of(groups, f) + f(g),
    decreases groups.len(),
{
    let u = groups.update(i, g);
    if i == groups.len() - 1 {
        assert(u.drop_last() =~= groups.drop_last());
    } else {
        lemma_sum_update(groups.drop_last(), f, i, g);
        assert(u.drop_last() =~= groups.drop_last().update(i, g));
    }
}

/// The elements that pass a test and those that fail it make up the whole.
pub proof fn lemma_filter_split<T>(s: Seq<T>, p: spec_fn(T) -> bool)
    ensures
        s.filter(p).len() + s.filter(|x: T| !p(x)).len() == s.len(),
    decreases s.len(),
{
    reveal(Seq::filter);
    if s.len() > 0 {
        lemma_filter_split(s.drop_last(), p);
    }
}

/// An element is in a group of whole entries exactly when it was logged
/// with that key.
pub proof fn lemma_group_contains<T, K>(log: Seq<T>, key_of: spec_fn(T) -> Option<K>, k: K, y: T)
    ensures
        group_of(log, key_of, |x: T| x, k).contains(y) <==> log.contains(y) && key_of(y) == Some(k),
{
    let p = |x: T| key_of(x) == Some(k);
    let f = log.filter(p);
    assert(group_of(log, key_of, |x: T| x, k) =~= f);
    if f.contains(y) {
        log.lemma_filter_contains_rev(p, y);
        let t = choose|t: int| 0 <= t < f.len() && f[t] == y;
        log.lemma_filter_pred(p, t);
    }
    if log.contains(y) && key_of(y) == Some(k) {
        let t = choose|t: int| 0 <= t < log.len() && log[t] == y;
        #[allow(deprecated)]
        log.filter_lemma(p);
        assert(p(log[t]));
    }
}

/// A filter that every element passes keeps the whole sequence.
pub proof fn lemma_filter_all<T>(s: Seq<T>, p: spec_fn(T) -> bool)
    requires
        forall|t: int| 0 <= t < s.len() ==> #[trigger] p(s[t]),
    ensures
        s.filter(p) == s,
    decreases s.len(),
{
    reveal(Seq::filter);
    if s.len() > 0 {
        lemma_filter_all(s.drop_last(), p);
        assert(p(s[s.len() - 1]));
        assert(s.drop_last().push(s.last()) =~= s);
    }
}

/// A filter that no element passes keeps nothing.
pub proof fn lemma_filter_none<T>(s: Seq<T>, p: spec_fn(T) -> bool)
    requires
        forall|t: int| 0 <= t < s.len() ==> !#[trigger] p(s[t]),
    ensures
        s.filter(p) == Seq::<T>::empty(),
    decreases s.len(),
{
    reveal(Seq::filter);
    if s.len() > 0 {
        lemma_filter_none(s.drop_last(), p);
        assert(!p(s[s.len() - 1]));
    } else {
        assert(s =~= Seq::<T>::empty());
    }
}

/// The first `n` groups one after the other.
pub open spec fn flatten_upto<T>(groups: Seq<Seq<T>>, n: int) -> Seq<T>
    decreases n,
{
    if n <= 0 {
        Seq::empty()
    } else {
        flatten_upto(groups, n - 1) + groups[n - 1]
    }
}

/// When every element of group `i` has key `keys[i]` and no key repeats,
/// the elements with key `s` among the first `n` groups are the group of
/// `s`, or nothing when `s` is not among the first `n` keys.
pub proof fn lemma_flatten_select<T, K>(
    groups: Seq<Seq<T>>,
    keys: Seq<K>,
    key_of: spec_fn(T) -> Option<K>,
    n: int,
    s: K,
)
    requires
        0 <= n <= groups.len(),
        groups.len() == keys.len(),
        keys.no_duplicates(),
        forall|i: int, t: int|
            0 <= i < groups.len() && 0 <= t < groups[i].len() ==> #[trigger] key_of(groups[i][t]) == Some(
                keys[i],
            ),
    ensures
        forall|j: int|
            0 <= j < n && keys[j] == s ==> flatten_upto(groups, n).filter(|x: T| key_of(x) == Some(s))
                == groups[j],
        (forall|j: int| 0 <= j < n ==> keys[j] != s) ==> flatten_upto(groups, n).filter(
            |x: T| key_of(x) == Some(s),
        ) == Seq::<T>::empty(),
    decreases n,
{
    let p = |x: T| key_of(x) == Some(s);
    if n == 0 {
        reveal(Seq::filter);
    } else {
        lemma_flatten_select(groups, keys, key_of, n - 1, s);
        let g = groups[n - 1];
        Seq::filter_distributes_over_add(flatten_upto(groups, n - 1), g, p);
        if keys[n - 1] == s {
            assert forall|t: int| 0 <= t < g.len() implies #[trigger] p(g[t]) by {
                assert(key_of(groups[n - 1][t]) == Some(keys[n - 1]));
            }
            lemma_filter_all(g, p);
            assert forall|j: int| 0 <= j < n - 1 implies keys[j] != s by {
                assert(keys[j] != keys[n - 1]);
            }
            assert(flatten_upto(groups, n - 1).filter(p) + g =~= g);
        } else {
            assert forall|t: int| 0 <= t < g.len() implies !#[trigger] p(g[t]) by {
                assert(key_of(groups[n - 1][t]) == Some(keys[n - 1]));
            }
            lemma_filter_none(g, p);
            assert(flatten_upto(groups, n - 1).filter(p) + Seq::<T>::empty() =~= flatten_upto(
                groups,
                n - 1,
            ).filter(p));
        }
    }
}

/// Every element of a group of whole entries has the group's key.
pub proof fn lemma_group_keys<T, K>(log: Seq<T>, key_of: spec_fn(T) -> Option<K>, whole: spec_fn(T) -> T, k: K)
    requires
        forall|x: T| #[trigger] whole(x) == x,
    ensures
        forall|t: int|
            0 <= t < group_of(log, key_of, whole, k).len() ==> #[trigger] key_of(
                group_of(log, key_of, whole, k)[t],
            ) == Some(k),
{
    let p = |y: T| key_of(y) == Some(k);
    assert(group_of(log, key_of, whole, k) =~= log.filter(p));
    assert forall|t: int| 0 <= t < log.filter(p).len() implies #[trigger] key_of(log.filter(p)[t]) == Some(k) by {
        log.lemma_filter_pred(p, t);
    }
}

} // verus!
