//! Graphs whose nodes are values (names, file ids) and whose edges are given
//! by a relation, and how they correspond to the index graphs of
//! `util::graph` that the algorithms run on.

use vstd::prelude::*;
use crate::util::graph::{
    covered, edge, has_cycle, is_cycle, is_path, is_rotation, meets, reachable, rows_distinct, wf_adj,
};

verus! {

/// Whether `p` is a non-empty walk along the relation.
pub open spec fn rel_path<T>(rel: spec_fn(T, T) -> bool, p: Seq<T>) -> bool {
    &&& p.len() > 0
    &&& forall|i: int| 0 <= i < p.len() - 1 ==> #[trigger] rel(p[i], p[i + 1])
}

/// Whether `t` can be reached from `s` along at least one step.
pub open spec fn rel_reachable<T>(rel: spec_fn(T, T) -> bool, s: T, t: T) -> bool {
    exists|p: Seq<T>| #[trigger]
        rel_path(rel, p) && p.len() >= 2 && p[0] == s && p[p.len() - 1] == t
}

/// Whether `c` is a cycle: a walk whose last node steps back to its first.
pub open spec fn rel_cycle<T>(rel: spec_fn(T, T) -> bool, c: Seq<T>) -> bool {
    rel_path(rel, c) && rel(c[c.len() - 1], c[0])
}

/// Whether the relation has a cycle.
pub open spec fn rel_has_cycle<T>(rel: spec_fn(T, T) -> bool) -> bool {
    exists|c: Seq<T>| #[trigger] rel_cycle(rel, c)
}

/// Whether the index graph `adj`, whose node `i` stands for `names[i]`, has
/// exactly the edges of `rel`, and every node that `rel` relates is named.
pub open spec fn indexes<T>(adj: Seq<Seq<usize>>, names: Seq<T>, rel: spec_fn(T, T) -> bool) -> bool {
    &&& wf_adj(adj)
    &&& adj.len() == names.len()
    &&& names.len() <= usize::MAX
    &&& names.no_duplicates()
    &&& forall|i: usize, j: usize|
        i < names.len() && j < names.len() ==> (#[trigger] edge(adj, i, j) <==> rel(
            names[i as int],
            names[j as int],
        ))
    &&& forall|a: T, b: T| #[trigger] rel(a, b) ==> names.contains(a) && names.contains(b)
}

/// The names of the nodes of an index walk.
pub open spec fn name_walk<T>(names: Seq<T>, p: Seq<usize>) -> Seq<T> {
    p.map_values(|i: usize| names[i as int])
}

/// The nodes of a walk over named values.
pub open spec fn index_walk<T>(names: Seq<T>, q: Seq<T>) -> Seq<usize> {
    q.map_values(|x: T| names.index_of(x) as usize)
}

/// An index walk names a walk of the relation.
pub proof fn lemma_walk_down<T>(adj: Seq<Seq<usize>>, names: Seq<T>, rel: spec_fn(T, T) -> bool, p: Seq<usize>)
    requires
        indexes(adj, names, rel),
        is_path(adj, p),
        forall|k: int| 0 <= k < p.len() ==> p[k] < names.len(),
    ensures
        rel_path(rel, name_walk(names, p)),
        name_walk(names, p).len() == p.len(),
        forall|k: int| 0 <= k < p.len() ==> #[trigger] name_walk(names, p)[k] == names[p[k] as int],
{
    let q = name_walk(names, p);
    assert forall|i: int| 0 <= i < q.len() - 1 implies #[trigger] rel(q[i], q[i + 1]) by {
        assert(edge(adj, p[i], p[i + 1]));
    }
}

/// A walk of the relation whose nodes are all named is an index walk.
pub proof fn lemma_walk_up<T>(adj: Seq<Seq<usize>>, names: Seq<T>, rel: spec_fn(T, T) -> bool, q: Seq<T>)
    requires
        indexes(adj, names, rel),
        rel_path(rel, q),
        forall|k: int| 0 <= k < q.len() ==> names.contains(#[trigger] q[k]),
    ensures
        is_path(adj, index_walk(names, q)),
        index_walk(names, q).len() == q.len(),
        forall|k: int|
            0 <= k < q.len() ==> #[trigger] index_walk(names, q)[k] < names.len() && names[index_walk(
                names,
                q,
            )[k] as int] == q[k],
{
    let p = index_walk(names, q);
    assert forall|k: int| 0 <= k < q.len() implies #[trigger] p[k] < names.len() && names[p[k] as int]
        == q[k] by {
        assert(names.contains(q[k]));
        let j = names.index_of(q[k]);
        assert(0 <= j < names.len() && names[j] == q[k]);
        assert(p[k] == j as usize);
    }
    assert forall|i: int| 0 <= i < p.len() - 1 implies #[trigger] edge(adj, p[i], p[i + 1]) by {
        assert(rel(q[i], q[i + 1]));
        assert(p[i] < names.len() && names[p[i] as int] == q[i]);
        assert(p[i + 1] < names.len() && names[p[i + 1] as int] == q[i + 1]);
    }
}

/// Every node of a walk of at least two steps' worth of nodes is named.
proof fn lemma_walk_named<T>(adj: Seq<Seq<usize>>, names: Seq<T>, rel: spec_fn(T, T) -> bool, q: Seq<T>)
    requires
        indexes(adj, names, rel),
        rel_path(rel, q),
        q.len() >= 2,
    ensures
        forall|k: int| 0 <= k < q.len() ==> names.contains(#[trigger] q[k]),
{
    assert forall|k: int| 0 <= k < q.len() implies names.contains(#[trigger] q[k]) by {
        if k < q.len() - 1 {
            assert(rel(q[k], q[k + 1]));
        } else {
            let j = k - 1;
            assert(rel(q[j], q[j + 1]));
        }
    }
}

/// Reachability in the index graph is reachability of the names.
pub proof fn lemma_reachable_names<T>(
    adj: Seq<Seq<usize>>,
    names: Seq<T>,
    rel: spec_fn(T, T) -> bool,
    i: usize,
    j: usize,
)
    requires
        indexes(adj, names, rel),
        i < names.len(),
        j < names.len(),
    ensures
        reachable(adj, i, j) <==> rel_reachable(rel, names[i as int], names[j as int]),
{
    if reachable(adj, i, j) {
        let p = choose|p: Seq<usize>| #[trigger]
            is_path(adj, p) && p.len() >= 2 && p[0] == i && p[p.len() - 1] == j;
        assert forall|k: int| 0 <= k < p.len() implies p[k] < names.len() by {
            if k < p.len() - 1 {
                assert(edge(adj, p[k], p[k + 1]));
            } else {
                let j = k - 1;
                assert(edge(adj, p[j], p[j + 1]));
                assert(adj[p[j] as int].contains(p[k]));
            }
        }
        lemma_walk_down(adj, names, rel, p);
        let q = name_walk(names, p);
        assert(rel_path(rel, q) && q.len() >= 2 && q[0] == names[i as int] && q[q.len() - 1]
            == names[j as int]);
    }
    if rel_reachable(rel, names[i as int], names[j as int]) {
        let q = choose|q: Seq<T>| #[trigger]
            rel_path(rel, q) && q.len() >= 2 && q[0] == names[i as int] && q[q.len() - 1]
                == names[j as int];
        lemma_walk_named(adj, names, rel, q);
        lemma_walk_up(adj, names, rel, q);
        let p = index_walk(names, q);
        assert(p[0] < names.len() && names[p[0] as int] == names[i as int]);
        assert(p[0] == i) by {
            if p[0] != i {
                assert(names[p[0] as int] == names[i as int]);
            }
        }
        let last = p.len() - 1;
        assert(p[last] < names.len() && names[p[last] as int] == names[j as int]);
        assert(p[last] == j);
        assert(is_path(adj, p) && p.len() >= 2 && p[0] == i && p[p.len() - 1] == j);
    }
}

/// Nothing unnamed can be reached.
pub proof fn lemma_reach_named<T>(adj: Seq<Seq<usize>>, names: Seq<T>, rel: spec_fn(T, T) -> bool, a: T, b: T)
    requires
        indexes(adj, names, rel),
        rel_reachable(rel, a, b),
    ensures
        names.contains(a),
        names.contains(b),
{
    let q = choose|q: Seq<T>| #[trigger]
        rel_path(rel, q) && q.len() >= 2 && q[0] == a && q[q.len() - 1] == b;
    lemma_walk_named(adj, names, rel, q);
    assert(names.contains(q[0]));
    assert(names.contains(q[q.len() - 1]));
}

/// An index cycle names a cycle of the relation, which repeats no name
/// when the index cycle repeats no index.
pub proof fn lemma_cycle_down<T>(adj: Seq<Seq<usize>>, names: Seq<T>, rel: spec_fn(T, T) -> bool, c: Seq<usize>)
    requires
        indexes(adj, names, rel),
        is_cycle(adj, c),
    ensures
        rel_cycle(rel, name_walk(names, c)),
        c.no_duplicates() ==> name_walk(names, c).no_duplicates(),
{
    assert forall|k: int| 0 <= k < c.len() implies c[k] < names.len() by {
        if k < c.len() - 1 {
            assert(edge(adj, c[k], c[k + 1]));
        } else {
            assert(edge(adj, c[k], c[0]));
        }
    }
    lemma_walk_down(adj, names, rel, c);
    let q = name_walk(names, c);
    assert(edge(adj, c[c.len() - 1], c[0]));
    assert(q[q.len() - 1] == names[c[c.len() - 1] as int]);
    assert(q[0] == names[c[0] as int]);
    if c.no_duplicates() {
        assert forall|a: int, b: int| 0 <= a < b < q.len() implies q[a] != q[b] by {
            assert(c[a] != c[b]);
            assert(q[a] == names[c[a] as int]);
            assert(q[b] == names[c[b] as int]);
        }
    }
}

/// A cycle of the relation gives a cycle of the index graph.
pub proof fn lemma_cycle_up<T>(adj: Seq<Seq<usize>>, names: Seq<T>, rel: spec_fn(T, T) -> bool)
    requires
        indexes(adj, names, rel),
        rel_has_cycle(rel),
    ensures
        has_cycle(adj),
{
    let q = choose|c: Seq<T>| #[trigger] rel_cycle(rel, c);
    assert forall|k: int| 0 <= k < q.len() implies names.contains(#[trigger] q[k]) by {
        if k < q.len() - 1 {
            assert(rel(q[k], q[k + 1]));
        } else {
            assert(rel(q[k], q[0]));
        }
    }
    lemma_walk_up(adj, names, rel, q);
    let p = index_walk(names, q);
    let l = p.len() - 1;
    assert(p[l] < names.len() && names[p[l] as int] == q[l]);
    assert(p[0] < names.len() && names[p[0] as int] == q[0]);
    assert(rel(q[l], q[0]));
    assert(edge(adj, p[l], p[0]));
    assert(is_cycle(adj, p));
}

/// A walk that repeats no index names a walk that repeats no name.
pub proof fn lemma_simple_walk_down<T>(
    adj: Seq<Seq<usize>>,
    names: Seq<T>,
    rel: spec_fn(T, T) -> bool,
    p: Seq<usize>,
)
    requires
        indexes(adj, names, rel),
        is_path(adj, p),
        p.no_duplicates(),
        forall|k: int| 0 <= k < p.len() ==> p[k] < names.len(),
    ensures
        rel_path(rel, name_walk(names, p)),
        name_walk(names, p).no_duplicates(),
        name_walk(names, p).len() == p.len(),
        forall|k: int| 0 <= k < p.len() ==> #[trigger] name_walk(names, p)[k] == names[p[k] as int],
{
    lemma_walk_down(adj, names, rel, p);
    let q = name_walk(names, p);
    assert forall|a: int, b: int| 0 <= a < b < q.len() implies q[a] != q[b] by {
        assert(p[a] != p[b]);
        assert(q[a] == names[p[a] as int]);
        assert(q[b] == names[p[b] as int]);
    }
}

/// Whether `p` is a walk of the relation from `s` that repeats no node.
pub open spec fn rel_simple_walk<T>(rel: spec_fn(T, T) -> bool, s: T, p: Seq<T>) -> bool {
    rel_path(rel, p) && p.no_duplicates() && p[0] == s
}

/// A walk of the relation that repeats no name and starts at a named node
/// is an index walk that repeats no index.
pub proof fn lemma_simple_walk_up<T>(adj: Seq<Seq<usize>>, names: Seq<T>, rel: spec_fn(T, T) -> bool, q: Seq<T>)
    requires
        indexes(adj, names, rel),
        rel_path(rel, q),
        q.no_duplicates(),
        names.contains(q[0]),
    ensures
        is_path(adj, index_walk(names, q)),
        index_walk(names, q).no_duplicates(),
        index_walk(names, q).len() == q.len(),
        index_walk(names, q)[0] == names.index_of(q[0]) as usize,
{
    if q.len() >= 2 {
        lemma_walk_named(adj, names, rel, q);
    }
    lemma_walk_up(adj, names, rel, q);
    let p = index_walk(names, q);
    assert forall|a: int, c: int| 0 <= a < c < p.len() implies p[a] != p[c] by {
        assert(names[p[a] as int] == q[a]);
        assert(names[p[c] as int] == q[c]);
    }
}

/// Index cycles whose named cycles are rotations of each other are
/// rotations of each other.
pub proof fn lemma_rotation_names<T>(names: Seq<T>, c1: Seq<usize>, c2: Seq<usize>)
    requires
        names.no_duplicates(),
        forall|k: int| 0 <= k < c1.len() ==> c1[k] < names.len(),
        forall|k: int| 0 <= k < c2.len() ==> c2[k] < names.len(),
        is_rotation(name_walk(names, c1), name_walk(names, c2)),
    ensures
        is_rotation(c1, c2),
{
    let q1 = name_walk(names, c1);
    let q2 = name_walk(names, c2);
    let r = choose|r: int| 0 <= r < q1.len() && q2 == #[trigger] q1.subrange(r, q1.len() as int) + q1.subrange(0, r);
    let c = c1.subrange(r, c1.len() as int) + c1.subrange(0, r);
    assert(q2.len() == c2.len());
    assert forall|j: int| 0 <= j < c2.len() implies c2[j] == c[j] by {
        assert(q2[j] == names[c2[j] as int]);
        if j < c1.len() - r {
            assert(c[j] == c1[r + j]);
            assert(q2[j] == q1[r + j]);
        } else {
            assert(c[j] == c1[j - (c1.len() - r)]);
            assert(q2[j] == q1[j - (c1.len() - r)]);
        }
        assert(names[c[j] as int] == names[c2[j] as int]);
    }
    assert(c2 =~= c);
}

/// Whether some node of `c` lies on one of `cycles`.
pub open spec fn cycle_meets<T>(cycles: Seq<Seq<T>>, c: Seq<T>) -> bool {
    exists|k: int, j: int, t: int|
        0 <= k < cycles.len() && 0 <= j < cycles[k].len() && 0 <= t < c.len() && #[trigger] cycles[k][j]
            == #[trigger] c[t]
}

/// When every index cycle meets one of `found`, every cycle of the relation
/// meets one of the named cycles of `found`.
pub proof fn lemma_cycles_meet_names<T>(
    adj: Seq<Seq<usize>>,
    names: Seq<T>,
    rel: spec_fn(T, T) -> bool,
    found: Seq<Seq<usize>>,
    named: Seq<Seq<T>>,
    q: Seq<T>,
)
    requires
        indexes(adj, names, rel),
        rel_cycle(rel, q),
        forall|c: Seq<usize>| #[trigger] is_cycle(adj, c) ==> meets(found, c),
        named.len() == found.len(),
        forall|k: int| 0 <= k < found.len() ==> #[trigger] named[k] == name_walk(names, found[k]),
    ensures
        cycle_meets(named, q),
{
    assert forall|k: int| 0 <= k < q.len() implies names.contains(#[trigger] q[k]) by {
        if k < q.len() - 1 {
            assert(rel(q[k], q[k + 1]));
        } else {
            assert(rel(q[k], q[0]));
        }
    }
    lemma_walk_up(adj, names, rel, q);
    let p = index_walk(names, q);
    let l = p.len() - 1;
    assert(p[l] < names.len() && names[p[l] as int] == q[l]);
    assert(p[0] < names.len() && names[p[0] as int] == q[0]);
    assert(rel(q[l], q[0]));
    assert(edge(adj, p[l], p[0]));
    assert(is_cycle(adj, p));
    assert(meets(found, p));
    let t = choose|t: int| 0 <= t < p.len() && covered(found, #[trigger] p[t]);
    let (k, j) = choose|k: int, j: int| 0 <= k < found.len() && 0 <= j < found[k].len() && #[trigger] found[k][j] == p[t];
    assert(p[t] < names.len() && names[p[t] as int] == q[t]);
    assert(named[k][j] == names[found[k][j] as int]);
    assert(named[k][j] == q[t]);
}

/// The cycles the index search found, read through the names, are cycles
/// of the relation with the same guarantees.
pub proof fn lemma_named_cycles<T>(
    adj: Seq<Seq<usize>>,
    names: Seq<T>,
    rel: spec_fn(T, T) -> bool,
    found: Seq<Seq<usize>>,
    named: Seq<Seq<T>>,
)
    requires
        indexes(adj, names, rel),
        forall|k: int| 0 <= k < found.len() ==> is_cycle(adj, #[trigger] found[k]) && found[k].no_duplicates(),
        found.len() == 0 <==> !has_cycle(adj),
        rows_distinct(adj) ==> forall|k1: int, k2: int|
            0 <= k1 < found.len() && 0 <= k2 < found.len() && k1 != k2 ==> !is_rotation(
                #[trigger] found[k1],
                #[trigger] found[k2],
            ),
        forall|c: Seq<usize>| #[trigger] is_cycle(adj, c) ==> meets(found, c),
        named.len() == found.len(),
        forall|k: int| 0 <= k < found.len() ==> #[trigger] named[k] == name_walk(names, found[k]),
    ensures
        forall|k: int| 0 <= k < named.len() ==> rel_cycle(rel, #[trigger] named[k]) && named[k].no_duplicates(),
        named.len() == 0 <==> !rel_has_cycle(rel),
        rows_distinct(adj) ==> forall|k1: int, k2: int|
            0 <= k1 < named.len() && 0 <= k2 < named.len() && k1 != k2 ==> !is_rotation(
                #[trigger] named[k1],
                #[trigger] named[k2],
            ),
        forall|q: Seq<T>| #[trigger] rel_cycle(rel, q) ==> cycle_meets(named, q),
{
    assert forall|k: int| 0 <= k < named.len() implies rel_cycle(rel, #[trigger] named[k]) && named[k].no_duplicates() by {
        lemma_cycle_down(adj, names, rel, found[k]);
    }
    if named.len() == 0 {
        if rel_has_cycle(rel) {
            lemma_cycle_up(adj, names, rel);
        }
    } else {
        assert(rel_cycle(rel, named[0]));
    }
    assert forall|q: Seq<T>| #[trigger] rel_cycle(rel, q) implies cycle_meets(named, q) by {
        lemma_cycles_meet_names(adj, names, rel, found, named, q);
    }
    if rows_distinct(adj) {
        assert forall|k1: int, k2: int|
            0 <= k1 < named.len() && 0 <= k2 < named.len() && k1 != k2 implies !is_rotation(
            #[trigger] named[k1],
            #[trigger] named[k2],
        ) by {
            assert(!is_rotation(found[k1], found[k2]));
            assert forall|t: int| 0 <= t < found[k1].len() implies found[k1][t] < names.len() by {
                if t < found[k1].len() - 1 {
                    assert(edge(adj, found[k1][t], found[k1][t + 1]));
                } else {
                    assert(edge(adj, found[k1][t], found[k1][0]));
                }
            }
            assert forall|t: int| 0 <= t < found[k2].len() implies found[k2][t] < names.len() by {
                if t < found[k2].len() - 1 {
                    assert(edge(adj, found[k2][t], found[k2][t + 1]));
                } else {
                    assert(edge(adj, found[k2][t], found[k2][0]));
                }
            }
            if is_rotation(named[k1], named[k2]) {
                lemma_rotation_names(names, found[k1], found[k2]);
            }
        }
    }
}

} // verus!
