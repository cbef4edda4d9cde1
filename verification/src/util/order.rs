//! Stable ordering of items by a key made of a flag and a text.
//!
//! Texts compare character by character by code point, a proper prefix
//! first; for UTF-8 strings this is the order of `str`'s `Ord`.

use vstd::prelude::*;
use crate::util::text::chars_of;

verus! {

/// Whether `a` comes before `b`: at the first place where they differ the
/// character of `a` has the smaller code point, or `a` is a proper prefix of
/// `b`.
pub open spec fn text_lt(a: Seq<char>, b: Seq<char>) -> bool
    decreases a.len(),
{
    if a.len() == 0 {
        b.len() > 0
    } else if b.len() == 0 {
        false
    } else if a[0] != b[0] {
        (a[0] as u32) < (b[0] as u32)
    } else {
        text_lt(a.drop_first(), b.drop_first())
    }
}

/// Whether `a` comes before `b`.
pub fn text_less(a: &str, b: &str) -> (res: bool)
    ensures
        res == text_lt(a@, b@),
{
    let x = chars_of(a);
    let y = chars_of(b);
    let mut i: usize = 0;
    proof {
        assert(a@.skip(0) =~= a@);
        assert(b@.skip(0) =~= b@);
    }
    while i < x.len() && i < y.len() && x[i] == y[i]
        invariant
            x@ == a@,
            y@ == b@,
            i <= x.len(),
            i <= y.len(),
            text_lt(a@, b@) == text_lt(a@.skip(i as int), b@.skip(i as int)),
        decreases x.len() - i,
    {
        proof {
            assert(a@.skip(i as int).drop_first() =~= a@.skip(i + 1));
            assert(b@.skip(i as int).drop_first() =~= b@.skip(i + 1));
            assert(a@.skip(i as int)[0] == b@.skip(i as int)[0]);
        }
        i = i + 1;
    }
    if i == x.len() {
        proof {
            assert(a@.skip(i as int).len() == 0);
        }
        i < y.len()
    } else if i == y.len() {
        proof {
            assert(b@.skip(i as int).len() == 0);
        }
        false
    } else {
        proof {
            assert(a@.skip(i as int)[0] == x@[i as int]);
            assert(b@.skip(i as int)[0] == y@[i as int]);
        }
        (x[i] as u32) < (y[i] as u32)
    }
}

/// Whether key `a` sorts strictly before key `b`: a set flag first, then by
/// text.
pub open spec fn key_before(a: (bool, Seq<char>), b: (bool, Seq<char>)) -> bool {
    (a.0 && !b.0) || (a.0 == b.0 && text_lt(a.1, b.1))
}

/// Whether key `a` sorts strictly before key `b`.
fn key_less(a: &(bool, String), b: &(bool, String)) -> (res: bool)
    ensures
        res == key_before(a.deep_view(), b.deep_view()),
{
    (a.0 && !b.0) || (a.0 == b.0 && text_less(a.1.as_str(), b.1.as_str()))
}

/// The first position at or after `k` in `order` whose key sorts after `x`,
/// or the length of `order`.
pub open spec fn insert_pos(
    order: Seq<usize>,
    keys: Seq<(bool, Seq<char>)>,
    x: (bool, Seq<char>),
    k: int,
) -> int
    decreases order.len() - k,
{
    if k >= order.len() {
        order.len() as int
    } else if k >= 0 && key_before(x, keys[order[k] as int]) {
        k
    } else {
        insert_pos(order, keys, x, k + 1)
    }
}

/// The positions of the first `n` keys, sorted by key; keys that sort
/// alike keep their order.
pub open spec fn sort_order(keys: Seq<(bool, Seq<char>)>, n: nat) -> Seq<usize>
    decreases n,
{
    if n == 0 {
        Seq::empty()
    } else {
        let o = sort_order(keys, (n - 1) as nat);
        o.insert(insert_pos(o, keys, keys[n - 1], 0), (n - 1) as usize)
    }
}

/// Where an insertion position lies.
pub proof fn lemma_insert_pos(order: Seq<usize>, keys: Seq<(bool, Seq<char>)>, x: (bool, Seq<char>), k: int)
    requires
        0 <= k <= order.len(),
    ensures
        k <= insert_pos(order, keys, x, k) <= order.len(),
    decreases order.len() - k,
{
    if k < order.len() && !key_before(x, keys[order[k] as int]) {
        lemma_insert_pos(order, keys, x, k + 1);
    }
}

/// The sorted positions are each of `0..n` once.
pub proof fn lemma_sort_order(keys: Seq<(bool, Seq<char>)>, n: nat)
    requires
        n <= keys.len(),
        n <= usize::MAX,
    ensures
        sort_order(keys, n).len() == n,
        sort_order(keys, n).no_duplicates(),
        forall|k: int| 0 <= k < n ==> sort_order(keys, n)[k] < n,
        forall|i: usize| i < n ==> sort_order(keys, n).contains(i),
    decreases n,
{
    if n > 0 {
        let m = (n - 1) as nat;
        lemma_sort_order(keys, m);
        let o = sort_order(keys, m);
        let p = insert_pos(o, keys, keys[n - 1], 0);
        lemma_insert_pos(o, keys, keys[n - 1], 0);
        let t = o.insert(p, (n - 1) as usize);
        o.insert_ensures(p, (n - 1) as usize);
        assert(t[p] == (n - 1) as usize);
        assert forall|k: int| 0 <= k < n implies t[k] < n by {
            if k < p {
            } else if k > p {
                assert(t[k] == o[k - 1]);
            }
        }
        assert forall|a: int, b: int| 0 <= a < b < t.len() implies t[a] != t[b] by {
            let oa = if a < p { a } else { a - 1 };
            let ob = if b < p { b } else { b - 1 };
            if a == p {
                assert(t[b] == o[ob]);
            } else if b == p {
                assert(t[a] == o[oa]);
            } else {
                assert(t[a] == o[oa]);
                assert(t[b] == o[ob]);
            }
        }
        assert forall|i: usize| i < n implies t.contains(i) by {
            if i == n - 1 {
                assert(t[p] == i);
            } else {
                assert(o.contains(i));
                let k = choose|k: int| 0 <= k < o.len() && o[k] == i;
                if k < p {
                    assert(t[k] == i);
                } else {
                    assert(t[k + 1] == i);
                }
            }
        }
    }
}

/// The positions of `keys`, sorted by key; keys that sort alike keep their
/// order.
pub fn stable_order(keys: &Vec<(bool, String)>) -> (res: Vec<usize>)
    ensures
        res@ == sort_order(keys.deep_view(), keys.len() as nat),
{
    let ghost kv = keys.deep_view();
    let mut order: Vec<usize> = Vec::new();
    let mut i: usize = 0;
    while i < keys.len()
        invariant
            kv == keys.deep_view(),
            i <= keys.len(),
            order@ == sort_order(kv, i as nat),
        decreases keys.len() - i,
    {
        proof {
            lemma_sort_order(kv, i as nat);
        }
        let mut p: usize = 0;
        while p < order.len() && !key_less(&keys[i], &keys[order[p]])
            invariant
                kv == keys.deep_view(),
                i < keys.len(),
                p <= order.len(),
                order@ == sort_order(kv, i as nat),
                order@.len() == i,
                forall|k: int| 0 <= k < i ==> order@[k] < i,
                insert_pos(order@, kv, kv[i as int], 0) == insert_pos(order@, kv, kv[i as int], p as int),
            decreases order.len() - p,
        {
            p = p + 1;
        }
        proof {
            if p < order.len() {
                assert(key_before(kv[i as int], kv[order@[p as int] as int]));
            }
            assert(insert_pos(order@, kv, kv[i as int], p as int) == p);
        }
        order.insert(p, i);
        i = i + 1;
    }
    order
}

} // verus!
