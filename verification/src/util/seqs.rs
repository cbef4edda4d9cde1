//! Small facts about sequences.

use vstd::prelude::*;

verus! {

/// An element is in `s` after a push exactly when it was there before or is
/// the pushed one.
pub proof fn lemma_push_contains<A>(s: Seq<A>, x: A, f: A)
    ensures
        s.push(x).contains(f) <==> (s.contains(f) || f == x),
{
    let t = s.push(x);
    if t.contains(f) && f != x {
        let k = choose|k: int| 0 <= k < t.len() && t[k] == f;
        assert(k < s.len());
        assert(s[k] == f);
    }
    if s.contains(f) {
        let k = choose|k: int| 0 <= k < s.len() && s[k] == f;
        assert(t[k] == f);
    }
    if f == x {
        assert(t[s.len() as int] == f);
    }
}

/// Pushing an element not yet in a sequence without repeats keeps it
/// without repeats.
pub proof fn lemma_push_no_duplicates<A>(s: Seq<A>, x: A)
    requires
        s.no_duplicates(),
        !s.contains(x),
    ensures
        s.push(x).no_duplicates(),
{
    let t = s.push(x);
    assert forall|a: int, b: int| 0 <= a < b < t.len() implies t[a] != t[b] by {
        if b == s.len() {
            assert(s.contains(t[a]));
        }
    }
}

/// The values of the `Some` elements of `s`, in order.
pub open spec fn somes<A>(s: Seq<Option<A>>) -> Seq<A>
    decreases s.len(),
{
    if s.len() == 0 {
        Seq::empty()
    } else {
        match s.last() {
            Some(a) => somes(s.drop_last()).push(a),
            None => somes(s.drop_last()),
        }
    }
}

/// Pushing an element adds its value, if it has one.
pub proof fn lemma_somes_push<A>(s: Seq<Option<A>>, x: Option<A>)
    ensures
        somes(s.push(x)) == match x {
            Some(a) => somes(s).push(a),
            None => somes(s),
        },
{
    assert(s.push(x).drop_last() =~= s);
}

/// The pieces one after the other, with `sep` between each two.
pub open spec fn joined(parts: Seq<Seq<char>>, sep: Seq<char>) -> Seq<char>
    decreases parts.len(),
{
    if parts.len() == 0 {
        Seq::empty()
    } else if parts.len() == 1 {
        parts[0]
    } else {
        joined(parts.drop_last(), sep) + sep + parts.last()
    }
}

} // verus!
