//! Directed graphs over node indices: paths, reachability, and cycles.
//!
//! The dependency graphs of the library name their nodes by files or by
//! module names; they number those nodes and run the searches here.

use vstd::prelude::*;

verus! {

/// Whether the adjacency lists only name nodes of the graph.
pub open spec fn wf_adj(adj: Seq<Seq<usize>>) -> bool {
    forall|i: int, k: int| 0 <= i < adj.len() && 0 <= k < adj[i].len() ==> adj[i][k] < adj.len()
}

/// Whether the graph has an edge from `u` to `v`.
pub open spec fn edge(adj: Seq<Seq<usize>>, u: usize, v: usize) -> bool {
    u < adj.len() && adj[u as int].contains(v)
}

/// Whether `p` is a non-empty walk along edges of the graph.
pub open spec fn is_path(adj: Seq<Seq<usize>>, p: Seq<usize>) -> bool {
    &&& p.len() > 0
    &&& forall|i: int| 0 <= i < p.len() - 1 ==> #[trigger] edge(adj, p[i], p[i + 1])
}

/// Whether `t` can be reached from `s` along at least one edge.
pub open spec fn reachable(adj: Seq<Seq<usize>>, s: usize, t: usize) -> bool {
    exists|p: Seq<usize>| #[trigger]
        is_path(adj, p) && p.len() >= 2 && p[0] == s && p[p.len() - 1] == t
}

/// Whether `c` is a cycle: a walk whose last node has an edge back to its first.
pub open spec fn is_cycle(adj: Seq<Seq<usize>>, c: Seq<usize>) -> bool {
    is_path(adj, c) && edge(adj, c[c.len() - 1], c[0])
}

/// Whether the graph has a cycle.
pub open spec fn has_cycle(adj: Seq<Seq<usize>>) -> bool {
    exists|c: Seq<usize>| #[trigger] is_cycle(adj, c)
}

/// The number of `true` entries.
pub open spec fn num_true(s: Seq<bool>) -> nat
    decreases s.len(),
{
    if s.len() == 0 {
        0
    } else {
        num_true(s.drop_last()) + if s.last() {
            1nat
        } else {
            0nat
        }
    }
}

proof fn lemma_num_true_bound(s: Seq<bool>)
    ensures
        num_true(s) <= s.len(),
    decreases s.len(),
{
    if s.len() > 0 {
        lemma_num_true_bound(s.drop_last());
    }
}

proof fn lemma_num_true_mono(a: Seq<bool>, b: Seq<bool>)
    requires
        a.len() == b.len(),
        forall|i: int| 0 <= i < a.len() && a[i] ==> b[i],
    ensures
        num_true(a) <= num_true(b),
    decreases a.len(),
{
    if a.len() > 0 {
        lemma_num_true_mono(a.drop_last(), b.drop_last());
    }
}

proof fn lemma_num_true_set(a: Seq<bool>, i: int)
    requires
        0 <= i < a.len(),
        !a[i],
    ensures
        num_true(a.update(i, true)) == num_true(a) + 1,
    decreases a.len(),
{
    if i < a.len() - 1 {
        lemma_num_true_set(a.drop_last(), i);
        assert(a.update(i, true).drop_last() =~= a.drop_last().update(i, true));
    } else {
        assert(a.update(i, true).drop_last() =~= a.drop_last());
    }
}

/// Extending a walk by an edge gives a walk.
proof fn lemma_path_push(adj: Seq<Seq<usize>>, p: Seq<usize>, v: usize)
    requires
        is_path(adj, p),
        edge(adj, p[p.len() - 1], v),
    ensures
        is_path(adj, p.push(v)),
{
    let q = p.push(v);
    assert forall|i: int| 0 <= i < q.len() - 1 implies #[trigger] edge(adj, q[i], q[i + 1]) by {
        if i < p.len() - 1 {
            assert(edge(adj, p[i], p[i + 1]));
        }
    }
}

/// A piece of a walk is a walk.
proof fn lemma_path_subrange(adj: Seq<Seq<usize>>, p: Seq<usize>, a: int, b: int)
    requires
        is_path(adj, p),
        0 <= a < b <= p.len(),
    ensures
        is_path(adj, p.subrange(a, b)),
{
    let q = p.subrange(a, b);
    assert forall|i: int| 0 <= i < q.len() - 1 implies #[trigger] edge(adj, q[i], q[i + 1]) by {
        assert(edge(adj, p[a + i], p[a + i + 1]));
    }
}

/// When every edge lowers a rank, ranks fall strictly along a walk.
proof fn lemma_rank_falls(adj: Seq<Seq<usize>>, rank: Seq<int>, p: Seq<usize>, k: int)
    requires
        wf_adj(adj),
        rank.len() == adj.len(),
        forall|u: usize, v: usize| #[trigger] edge(adj, u, v) ==> rank[v as int] < rank[u as int],
        is_path(adj, p),
        0 < k < p.len(),
    ensures
        rank[p[k] as int] < rank[p[0] as int],
    decreases k,
{
    let j = k - 1;
    assert(edge(adj, p[j], p[j + 1]));
    if k > 1 {
        lemma_rank_falls(adj, rank, p, k - 1);
    }
}

/// A graph whose every edge lowers a rank has no cycle.
proof fn lemma_ranked_acyclic(adj: Seq<Seq<usize>>, rank: Seq<int>)
    requires
        wf_adj(adj),
        rank.len() == adj.len(),
        forall|u: usize, v: usize| #[trigger] edge(adj, u, v) ==> rank[v as int] < rank[u as int],
    ensures
        !has_cycle(adj),
{
    if has_cycle(adj) {
        let c = choose|c: Seq<usize>| #[trigger] is_cycle(adj, c);
        assert(edge(adj, c[c.len() - 1], c[0]));
        if c.len() > 1 {
            lemma_rank_falls(adj, rank, c, c.len() - 1);
        }
    }
}

/// Whether `v` lies on one of `cycles`.
pub open spec fn covered(cycles: Seq<Seq<usize>>, v: usize) -> bool {
    exists|k: int, j: int| 0 <= k < cycles.len() && 0 <= j < cycles[k].len() && #[trigger] cycles[k][j] == v
}

/// Extending the list of cycles keeps every covered node covered.
proof fn lemma_covered_prefix(a: Seq<Seq<usize>>, b: Seq<Seq<usize>>, v: usize)
    requires
        a.is_prefix_of(b),
        covered(a, v),
    ensures
        covered(b, v),
{
    let (k, j) = choose|k: int, j: int| 0 <= k < a.len() && 0 <= j < a[k].len() && #[trigger] a[k][j] == v;
    assert(b[k] == a[k]);
    assert(b[k][j] == v);
}

/// The state shared by the cycle search: `visited`, the search stack
/// `path` (with `on_stack` marking its nodes), and the cycles found.
spec fn search_ok(
    adj: Seq<Seq<usize>>,
    visited: Seq<bool>,
    on_stack: Seq<bool>,
    path: Seq<usize>,
    cycles: Seq<Seq<usize>>,
    rank: Seq<int>,
    counter: int,
) -> bool {
    let n = adj.len();
    &&& wf_adj(adj)
    &&& visited.len() == n
    &&& on_stack.len() == n
    &&& rank.len() == n
    &&& path.no_duplicates()
    &&& forall|k: int| 0 <= k < path.len() ==> path[k] < n
    &&& forall|x: int| 0 <= x < n ==> (on_stack[x] <==> path.contains(x as usize))
    &&& forall|x: int| 0 <= x < n && on_stack[x] ==> visited[x]
    &&& path.len() > 0 ==> is_path(adj, path)
    &&& forall|k: int| 0 <= k < cycles.len() ==> is_cycle(adj, #[trigger] cycles[k]) && cycles[k].no_duplicates()
    &&& forall|x: int| 0 <= x < n && visited[x] && !on_stack[x] ==> rank[x] < counter
    &&& forall|u: usize, v: usize|
        #![trigger edge(adj, u, v)]
        u < n && visited[u as int] && !on_stack[u as int] && edge(adj, u, v) ==> (visited[v as int]
            && !on_stack[v as int] && rank[v as int] < rank[u as int]) || covered(cycles, v)
}

/// Whether node `x` was entered through the edge `x` is the target of in
/// `entered[x]`: an edge of an already visited node, among those it has
/// examined, that closes no recorded cycle.
spec fn entry_ok(
    adj: Seq<Seq<usize>>,
    visited: Seq<bool>,
    ex: Seq<int>,
    entered: Seq<Option<(usize, int)>>,
    back: Seq<(usize, int)>,
    x: int,
) -> bool {
    entered[x] matches Some(e) ==> {
        &&& e.0 < adj.len()
        &&& visited[e.0 as int]
        &&& 0 <= e.1 < ex[e.0 as int]
        &&& adj[e.0 as int][e.1] == x
        &&& forall|k: int| 0 <= k < back.len() ==> back[k] != e
    }
}

/// The examined edges, the edges nodes were reached by, and the closing
/// edges of the recorded cycles.
type Stamps = (Seq<int>, Seq<Option<(usize, int)>>, Seq<(usize, int)>);

/// Whether `x` was entered from `p`.
spec fn enters(entered: Seq<Option<(usize, int)>>, x: int, p: usize) -> bool {
    entered[x] matches Some(e) && e.0 == p
}

/// The edges the cycle search has examined and how: `ex[x]` of the edges
/// of each node are examined, `entered[x]` is the edge a node was first
/// reached by, and `back[k]` the edge that closed the `k`-th recorded
/// cycle.  Every edge of a recorded cycle but its closing one is an edge
/// its target was reached by.
spec fn stamps_ok(
    adj: Seq<Seq<usize>>,
    visited: Seq<bool>,
    path: Seq<usize>,
    cycles: Seq<Seq<usize>>,
    ex: Seq<int>,
    entered: Seq<Option<(usize, int)>>,
    back: Seq<(usize, int)>,
) -> bool {
    let n = adj.len();
    &&& ex.len() == n
    &&& entered.len() == n
    &&& back.len() == cycles.len()
    &&& forall|x: int| 0 <= x < n ==> 0 <= #[trigger] ex[x] <= adj[x].len()
    &&& forall|x: int| 0 <= x < n && !visited[x] ==> #[trigger] ex[x] == 0
    &&& forall|x: int| 0 <= x < n && visited[x] ==> #[trigger] entry_ok(adj, visited, ex, entered, back, x)
    &&& forall|k: int|
        0 <= k < back.len() ==> {
            &&& (#[trigger] back[k]).0 < n
            &&& 0 <= back[k].1 < ex[back[k].0 as int]
            &&& adj[back[k].0 as int][back[k].1] == cycles[k][0]
            &&& back[k].0 == cycles[k][cycles[k].len() - 1]
        }
    &&& forall|k1: int, k2: int| 0 <= k1 < k2 < back.len() ==> #[trigger] back[k1] != #[trigger] back[k2]
    &&& forall|k: int, j: int|
        0 <= k < cycles.len() && 0 <= j < cycles[k].len() ==> #[trigger] cycles[k][j] < n && visited[cycles[k][j] as int]
    &&& forall|k: int, j: int|
        0 <= k < cycles.len() && 0 <= j < cycles[k].len() - 1 ==> enters(
            entered,
            #[trigger] cycles[k][j + 1] as int,
            cycles[k][j],
        )
    &&& forall|j: int| 0 <= j < path.len() - 1 ==> enters(entered, #[trigger] path[j + 1] as int, path[j])
}

/// Depth-first search from `u`, recording every back edge as a cycle.
fn dfs_cycles(
    adj: &Vec<Vec<usize>>,
    u: usize,
    visited: &mut Vec<bool>,
    on_stack: &mut Vec<bool>,
    path: &mut Vec<usize>,
    cycles: &mut Vec<Vec<usize>>,
    Ghost(rank0): Ghost<Seq<int>>,
    Ghost(counter0): Ghost<int>,
    Ghost(st0): Ghost<Stamps>,
) -> (out: Ghost<(Seq<int>, int, Stamps)>)
    requires
        u < adj.len(),
        !old(visited)@[u as int],
        search_ok(
            adj.deep_view(),
            old(visited)@,
            old(on_stack)@,
            old(path)@,
            old(cycles).deep_view(),
            rank0,
            counter0,
        ),
        old(path)@.len() > 0 ==> edge(adj.deep_view(), old(path)@.last(), u),
        stamps_ok(adj.deep_view(), old(visited)@, old(path)@, old(cycles).deep_view(), st0.0, st0.1, st0.2),
        entry_ok(adj.deep_view(), old(visited)@, st0.0, st0.1, st0.2, u as int),
        old(path)@.len() > 0 ==> enters(st0.1, u as int, old(path)@.last()),
    ensures
        search_ok(
            adj.deep_view(),
            final(visited)@,
            final(on_stack)@,
            final(path)@,
            final(cycles).deep_view(),
            out@.0,
            out@.1,
        ),
        stamps_ok(
            adj.deep_view(),
            final(visited)@,
            final(path)@,
            final(cycles).deep_view(),
            out@.2.0,
            out@.2.1,
            out@.2.2,
        ),
        forall|x: int| 0 <= x < adj.len() && old(visited)@[x] ==> #[trigger] out@.2.0[x] == st0.0[x],
        forall|x: int| 0 <= x < adj.len() && old(visited)@[x] ==> #[trigger] out@.2.1[x] == st0.1[x],
        st0.2.is_prefix_of(out@.2.2),
        final(visited)@[u as int],
        final(path)@ == old(path)@,
        final(on_stack)@ == old(on_stack)@,
        forall|x: int| 0 <= x < adj.len() && old(visited)@[x] ==> final(visited)@[x],
        forall|x: int|
            0 <= x < adj.len() && old(visited)@[x] && !old(on_stack)@[x] ==> out@.0[x] == rank0[x],
        out@.1 >= counter0,
        old(cycles).deep_view().is_prefix_of(final(cycles).deep_view()),
    decreases adj.len() - num_true(old(visited)@),
{
    let ghost g = adj.deep_view();
    let ghost n = adj.len() as int;
    let ghost path0 = path@;
    let ghost on0 = on_stack@;
    let ghost vis0 = visited@;
    let ghost cyc0 = cycles.deep_view();
    proof {
        lemma_num_true_set(visited@, u as int);
        lemma_num_true_bound(visited@.update(u as int, true));
        if path@.len() > 0 {
            lemma_path_push(g, path@, u);
        } else {
            assert(is_path(g, path@.push(u)));
        }
        assert(!path@.contains(u)) by {
            if path@.contains(u) {
                assert(on_stack@[u as int]);
            }
        }
    }
    visited.set(u, true);
    on_stack.set(u, true);
    path.push(u);
    let ghost mut rank = rank0;
    let ghost mut counter = counter0;
    let ghost mut ex = st0.0;
    let ghost mut entered = st0.1;
    let ghost mut back = st0.2;
    proof {
        let vis = visited@;
        let on = on_stack@;
        let pth = path@;
        assert(pth == path0.push(u));
        assert(pth.no_duplicates()) by {
            assert forall|a: int, b: int| 0 <= a < b < pth.len() implies pth[a] != pth[b] by {
                if b == pth.len() - 1 {
                    assert(path0.contains(pth[a]));
                }
            }
        }
        assert forall|x: int| 0 <= x < n implies (on[x] <==> pth.contains(x as usize)) by {
            if x != u as int {
                if path0.contains(x as usize) {
                    let k = choose|k: int| 0 <= k < path0.len() && path0[k] == x as usize;
                    assert(pth[k] == x as usize);
                }
                if pth.contains(x as usize) {
                    let k = choose|k: int| 0 <= k < pth.len() && pth[k] == x as usize;
                    assert(path0[k] == x as usize);
                }
            } else {
                assert(pth[pth.len() - 1] == u);
            }
        }
        assert(search_ok(g, vis, on, pth, cycles.deep_view(), rank, counter));
        assert forall|x: int| 0 <= x < n && vis[x] implies #[trigger] entry_ok(g, vis, ex, entered, back, x) by {
            if x != u as int {
                assert(entry_ok(g, vis0, ex, entered, back, x));
            }
        }
        assert forall|j: int| 0 <= j < pth.len() - 1 implies enters(entered, #[trigger] pth[j + 1] as int, pth[j]) by {
            if j < path0.len() - 1 {
                assert(pth[j + 1] == path0[j + 1]);
            }
        }
        assert forall|k: int, j: int|
            0 <= k < cycles.deep_view().len() && 0 <= j < cycles.deep_view()[k].len() implies #[trigger] cycles.deep_view()[k][j] < n
            && vis[cycles.deep_view()[k][j] as int] by {
            assert(cycles.deep_view()[k][j] < n && vis0[cycles.deep_view()[k][j] as int]);
        }
        assert(stamps_ok(g, vis, pth, cycles.deep_view(), ex, entered, back));
    }
    let deps = &adj[u];
    assert(deps@ == g[u as int]);
    let mut i: usize = 0;
    while i < deps.len()
        invariant
            g == adj.deep_view(),
            n == adj.len(),
            u < n,
            vis0.len() == n,
            vis0 == old(visited)@,
            on0.len() == n,
            !vis0[u as int],
            !path0.contains(u),
            forall|x: int| 0 <= x < n ==> (on0[x] <==> path0.contains(x as usize)),
            deps@ == g[u as int],
            i <= deps.len(),
            path@ == path0.push(u),
            on_stack@ == on0.update(u as int, true),
            visited@[u as int],
            forall|x: int| 0 <= x < n && vis0[x] ==> visited@[x],
            forall|x: int| 0 <= x < n && vis0[x] && !on0[x] ==> rank[x] == rank0[x],
            counter >= counter0,
            cyc0.is_prefix_of(cycles.deep_view()),
            search_ok(g, visited@, on_stack@, path@, cycles.deep_view(), rank, counter),
            forall|k: int|
                0 <= k < i ==> visited@[deps@[k] as int] && ((!on_stack@[deps@[k] as int] && rank[deps@[k]
                    as int] < counter) || covered(cycles.deep_view(), deps@[k])),
            stamps_ok(g, visited@, path@, cycles.deep_view(), ex, entered, back),
            ex[u as int] == i,
            forall|x: int| 0 <= x < n && vis0[x] ==> ex[x] == st0.0[x] && entered[x] == st0.1[x],
            st0.2.is_prefix_of(back),
        decreases deps.len() - i,
    {
        let v = deps[i];
        assert(g[u as int].contains(v));
        assert(edge(g, u, v));
        let ghost ex_i = ex;
        let ghost cyc_i = cycles.deep_view();
        let ghost rank_i = rank;
        let ghost vis_i = visited@;
        let ghost on_i = on_stack@;
        proof {
            ex = ex.update(u as int, i + 1);
            assert forall|x: int| 0 <= x < n && visited@[x] implies #[trigger] entry_ok(g, visited@, ex, entered, back, x) by {
                assert(entry_ok(g, visited@, ex_i, entered, back, x));
            }
            assert(stamps_ok(g, visited@, path@, cycles.deep_view(), ex, entered, back));
        }
        if !visited[v] {
            proof {
                lemma_num_true_mono(vis0.update(u as int, true), visited@);
                lemma_num_true_set(vis0, u as int);
                lemma_num_true_bound(visited@);
                assert(num_true(vis0) < num_true(visited@));
                assert(visited@.len() == adj.len());
                assert(0 <= adj.len() - num_true(visited@) < adj.len() - num_true(vis0));
                assert(path@.last() == u);
            }
            let ghost vis_before = visited@;
            let ghost rank_before = rank;
            let ghost cyc_before = cycles.deep_view();
            let ghost ex_before = ex;
            let ghost back_before = back;
            let ghost entered_i = entered;
            proof {
                entered = entered.update(v as int, Some((u, i as int)));
                assert forall|x: int| 0 <= x < n && visited@[x] implies #[trigger] entry_ok(g, visited@, ex, entered, back, x) by {
                    assert(x != v as int);
                    assert(entry_ok(g, visited@, ex, entered_i, back, x));
                }
                assert forall|j: int| 0 <= j < path@.len() - 1 implies enters(entered, #[trigger] path@[j + 1] as int, path@[j]) by {
                    assert(enters(entered_i, path@[j + 1] as int, path@[j]));
                    assert(visited@[path@[j + 1] as int]);
                }
                assert forall|k: int, j: int|
                    0 <= k < cycles.deep_view().len() && 0 <= j < cycles.deep_view()[k].len() - 1 implies enters(
                    entered,
                    #[trigger] cycles.deep_view()[k][j + 1] as int,
                    cycles.deep_view()[k][j],
                ) by {
                    assert(enters(entered_i, cycles.deep_view()[k][j + 1] as int, cycles.deep_view()[k][j]));
                    assert(cycles.deep_view()[k][j + 1] < n && visited@[cycles.deep_view()[k][j + 1] as int]);
                }
                assert(stamps_ok(g, visited@, path@, cycles.deep_view(), ex, entered, back));
                assert forall|k: int| 0 <= k < back.len() implies back[k] != (u, i as int) by {
                    if back[k].0 == u {
                        assert(back[k].1 < ex_i[u as int]);
                    }
                }
                assert(entry_ok(g, visited@, ex, entered, back, v as int));
                assert(enters(entered, v as int, path@.last()));
            }
            let Ghost(out) = dfs_cycles(
                adj,
                v,
                visited,
                on_stack,
                path,
                cycles,
                Ghost(rank),
                Ghost(counter),
                Ghost((ex, entered, back)),
            );
            proof {
                rank = out.0;
                counter = out.1;
                ex = out.2.0;
                entered = out.2.1;
                back = out.2.2;
                assert(vis_before[u as int]);
                assert(st0.2.is_prefix_of(back)) by {
                    assert forall|k: int| 0 <= k < st0.2.len() implies st0.2[k] == back[k] by {
                        assert(back_before[k] == back[k]);
                    }
                }
                assert forall|x: int| 0 <= x < n && vis0[x] implies ex[x] == st0.0[x] && entered[x] == st0.1[x] by {
                    assert(vis_before[x]);
                    assert(x != v as int);
                    assert(x != u as int);
                    assert(ex_i[x] == st0.0[x]);
                    assert(entered_i[x] == st0.1[x]);
                    assert(ex_before[x] == ex_i[x]);
                    assert(ex[x] == ex_before[x]);
                    assert(entered[x] == entered_i[x]);
                }
                lemma_num_true_set(vis_before, v as int);
                lemma_num_true_mono(vis_before.update(v as int, true), visited@);
                assert(cyc0.is_prefix_of(cycles.deep_view())) by {
                    assert forall|k: int| 0 <= k < cyc0.len() implies cyc0[k]
                        == cycles.deep_view()[k] by {
                        assert(cyc0[k] == cyc_before[k]);
                    }
                }
            }
        } else if on_stack[v] {
            // A back edge closes a cycle through the search stack.
            let mut pos: usize = 0;
            while path[pos] != v
                invariant
                    pos < path.len(),
                    path@.contains(v),
                    forall|k: int| 0 <= k < pos ==> path@[k] != v,
                decreases path.len() - pos,
            {
                pos = pos + 1;
                proof {
                    if pos == path.len() {
                        let j = choose|j: int| 0 <= j < path@.len() && path@[j] == v;
                        assert(false);
                    }
                }
            }
            let mut cycle: Vec<usize> = Vec::new();
            let mut j = pos;
            while j < path.len()
                invariant
                    pos <= j <= path.len(),
                    cycle@ == path@.subrange(pos as int, j as int),
                decreases path.len() - j,
            {
                cycle.push(path[j]);
                j = j + 1;
            }
            proof {
                lemma_path_subrange(g, path@, pos as int, path@.len() as int);
                assert(cycle@ == path@.subrange(pos as int, path@.len() as int));
                assert(cycle@[cycle@.len() - 1] == u);
                assert(cycle@[0] == v);
                assert(is_cycle(g, cycle@));
                assert(cycle@.no_duplicates()) by {
                    assert forall|a: int, b: int| 0 <= a < b < cycle@.len() implies cycle@[a] != cycle@[b] by {
                        assert(cycle@[a] == path@[pos + a] && cycle@[b] == path@[pos + b]);
                    }
                }
            }
            let ghost cyc_before = cycles.deep_view();
            let ghost cyc = cycle@;
            assert(cycle.deep_view() =~= cycle@);
            cycles.push(cycle);
            proof {
                assert(cycles.deep_view() =~= cyc_before.push(cyc));
                let back_before = back;
                back = back.push((u, i as int));
                let cs = cycles.deep_view();
                assert forall|k: int| 0 <= k < back_before.len() implies back_before[k] != (u, i as int) by {
                    if back_before[k].0 == u {
                        assert(back_before[k].1 < ex_i[u as int]);
                    }
                }
                assert forall|x: int| 0 <= x < n && visited@[x] implies #[trigger] entry_ok(g, visited@, ex, entered, back, x) by {
                    assert(entry_ok(g, visited@, ex, entered, back_before, x));
                    if entered[x] is Some {
                        let e = entered[x]->Some_0;
                        assert(entry_ok(g, visited@, ex_i, entered, back_before, x));
                        if e.0 == u {
                            assert(e.1 < ex_i[u as int]);
                        }
                        assert forall|k: int| 0 <= k < back.len() implies back[k] != e by {
                            if k < back_before.len() {
                                assert(back[k] == back_before[k]);
                            }
                        }
                    }
                }
                assert forall|k: int|
                    0 <= k < back.len() implies {
                        &&& (#[trigger] back[k]).0 < n
                        &&& 0 <= back[k].1 < ex[back[k].0 as int]
                        &&& g[back[k].0 as int][back[k].1] == cs[k][0]
                        &&& back[k].0 == cs[k][cs[k].len() - 1]
                    } by {
                    if k < back_before.len() {
                        assert(back[k] == back_before[k]);
                        assert(cs[k] == cyc_before[k]);
                    } else {
                        assert(cs[k] == cyc);
                        assert(deps@[i as int] == v);
                    }
                }
                assert forall|k1: int, k2: int| 0 <= k1 < k2 < back.len() implies #[trigger] back[k1] != #[trigger] back[k2] by {
                    if k2 < back_before.len() {
                        assert(back[k1] == back_before[k1] && back[k2] == back_before[k2]);
                    } else {
                        assert(back[k1] == back_before[k1]);
                    }
                }
                assert forall|k: int, j: int|
                    0 <= k < cs.len() && 0 <= j < cs[k].len() implies #[trigger] cs[k][j] < n && visited@[cs[k][j] as int] by {
                    if k < cyc_before.len() {
                        assert(cs[k] == cyc_before[k]);
                    } else {
                        assert(cs[k][j] == path@[pos + j]);
                    }
                }
                assert forall|k: int, j: int|
                    0 <= k < cs.len() && 0 <= j < cs[k].len() - 1 implies enters(
                    entered,
                    #[trigger] cs[k][j + 1] as int,
                    cs[k][j],
                ) by {
                    if k < cyc_before.len() {
                        assert(cs[k] == cyc_before[k]);
                    } else {
                        assert(cs[k][j] == path@[pos + j]);
                        assert(cs[k][j + 1] == path@[pos + j + 1]);
                        assert(enters(entered, path@[(pos + j) + 1] as int, path@[pos + j]));
                    }
                }
                assert(stamps_ok(g, visited@, path@, cs, ex, entered, back));
                assert(cyc_before.is_prefix_of(cs));
                assert forall|a: usize, b: usize|
                    #![trigger edge(g, a, b)]
                    a < n && visited@[a as int] && !on_stack@[a as int] && edge(g, a, b) implies (visited@[b as int]
                    && !on_stack@[b as int] && rank[b as int] < rank[a as int]) || covered(cs, b) by {
                    if covered(cyc_before, b) {
                        lemma_covered_prefix(cyc_before, cs, b);
                    }
                }
                assert(cs[cs.len() - 1][0] == v);
                assert(covered(cs, v));
                assert(st0.2.is_prefix_of(back)) by {
                    assert forall|k: int| 0 <= k < st0.2.len() implies st0.2[k] == back[k] by {
                        assert(back[k] == back_before[k]);
                    }
                }
                assert(cyc0.is_prefix_of(cycles.deep_view())) by {
                    assert forall|k: int| 0 <= k < cyc0.len() implies cyc0[k]
                        == cycles.deep_view()[k] by {
                        assert(cyc0[k] == cyc_before[k]);
                    }
                }
            }
        }
        proof {
            assert(cyc_i.is_prefix_of(cycles.deep_view())) by {
                assert forall|k: int| 0 <= k < cyc_i.len() implies cyc_i[k] == cycles.deep_view()[k] by {
                    assert(cyc0[k] == cycles.deep_view()[k] || k >= cyc0.len());
                }
            }
            assert forall|k: int| 0 <= k < i + 1 implies visited@[deps@[k] as int] && ((!on_stack@[deps@[k] as int]
                && rank[deps@[k] as int] < counter) || covered(cycles.deep_view(), deps@[k])) by {
                if k < i {
                    assert(vis_i[deps@[k] as int]);
                    if covered(cyc_i, deps@[k]) {
                        lemma_covered_prefix(cyc_i, cycles.deep_view(), deps@[k]);
                    } else {
                        assert(!on_i[deps@[k] as int]);
                    }
                } else {
                    assert(deps@[k] == v);
                }
            }
        }
        i = i + 1;
    }
    let ghost before_pop = path@;
    path.pop();
    on_stack.set(u, false);
    proof {
        assert(path@ =~= path0);
        assert(on_stack@ =~= on0);
        rank = rank.update(u as int, counter);
        counter = counter + 1;
        // Every edge out of `u` now leads to a finished node of lower rank.
        assert forall|x: int| 0 <= x < n implies (on_stack@[x] <==> path@.contains(x as usize)) by {
            if x == u as int {
                assert(!path0.contains(u));
            } else {
                assert(before_pop.contains(x as usize) <==> path0.contains(x as usize));
            }
        }
        assert forall|a: usize, b: usize|
            #![trigger edge(g, a, b)]
            a < n && visited@[a as int] && !on_stack@[a as int] && edge(g, a, b) implies (visited@[b as int]
            && !on_stack@[b as int] && rank[b as int] < rank[a as int]) || covered(cycles.deep_view(), b) by {
            if a == u {
                let k = choose|k: int| 0 <= k < g[u as int].len() && g[u as int][k] == b;
                assert(deps@[k] == b);
            }
        }
    }
    proof {
        assert forall|j: int| 0 <= j < path@.len() - 1 implies enters(entered, #[trigger] path@[j + 1] as int, path@[j]) by {
            assert(path@[j + 1] == before_pop[j + 1] && path@[j] == before_pop[j]);
        }
    }
    Ghost((rank, counter, (ex, entered, back)))
}

/// Whether some node of `c` lies on one of `cycles`.
pub open spec fn meets(cycles: Seq<Seq<usize>>, c: Seq<usize>) -> bool {
    exists|t: int| 0 <= t < c.len() && covered(cycles, #[trigger] c[t])
}

/// Ranks that fall along every step of a sequence fall from its start.
proof fn lemma_ranks_fall(rank: Seq<int>, c: Seq<usize>, k: int)
    requires
        forall|j: int| 0 <= j < c.len() - 1 ==> rank[#[trigger] c[j + 1] as int] < rank[c[j] as int],
        0 < k < c.len(),
    ensures
        rank[c[k] as int] < rank[c[0] as int],
    decreases k,
{
    if k > 1 {
        lemma_ranks_fall(rank, c, k - 1);
        assert(rank[c[(k - 1) + 1] as int] < rank[c[k - 1] as int]);
    } else {
        assert(rank[c[0int + 1] as int] < rank[c[0] as int]);
    }
}

/// When the search has visited every node and finished them all, every
/// cycle of the graph meets a recorded one: along a cycle that met none,
/// the rank would fall at every step and come back to where it started.
proof fn lemma_search_complete(
    g: Seq<Seq<usize>>,
    visited: Seq<bool>,
    on_stack: Seq<bool>,
    path: Seq<usize>,
    cycles: Seq<Seq<usize>>,
    rank: Seq<int>,
    counter: int,
)
    requires
        search_ok(g, visited, on_stack, path, cycles, rank, counter),
        forall|x: int| 0 <= x < g.len() ==> visited[x] && !on_stack[x],
    ensures
        forall|c: Seq<usize>| #[trigger] is_cycle(g, c) ==> meets(cycles, c),
{
    let n = g.len();
    assert forall|c: Seq<usize>| #[trigger] is_cycle(g, c) implies meets(cycles, c) by {
        if !meets(cycles, c) {
            assert forall|j: int| 0 <= j < c.len() - 1 implies rank[#[trigger] c[j + 1] as int] < rank[c[j] as int] by {
                assert(edge(g, c[j], c[j + 1]));
                assert(!covered(cycles, c[j + 1]));
            }
            let l = c.len() - 1;
            assert(edge(g, c[l], c[0]));
            assert(!covered(cycles, c[0]));
            if l > 0 {
                lemma_ranks_fall(rank, c, l);
            }
        }
    }
}

/// Whether `b` is `a` rotated: `a` from some index on, then the part of
/// `a` before it.
pub open spec fn is_rotation<T>(a: Seq<T>, b: Seq<T>) -> bool {
    exists|r: int| 0 <= r < a.len() && b == #[trigger] a.subrange(r, a.len() as int) + a.subrange(0, r)
}

/// Whether no adjacency list names a node twice.
pub open spec fn rows_distinct(adj: Seq<Seq<usize>>) -> bool {
    forall|x: int| 0 <= x < adj.len() ==> #[trigger] adj[x].no_duplicates()
}

/// In a list without repeats, an entry's index is where it stands.
proof fn lemma_row_index(row: Seq<usize>, t1: int, t2: int)
    requires
        row.no_duplicates(),
        0 <= t1 < row.len(),
        0 <= t2 < row.len(),
        row[t1] == row[t2],
    ensures
        t1 == t2,
{
}

/// Two recorded cycles are never rotations of each other when no node
/// lists an edge twice: the closing edge of one would be the closing edge
/// or an entering edge of the other.
proof fn lemma_no_rotation(
    adj: Seq<Seq<usize>>,
    visited: Seq<bool>,
    path: Seq<usize>,
    cycles: Seq<Seq<usize>>,
    st: Stamps,
    k1: int,
    k2: int,
)
    requires
        stamps_ok(adj, visited, path, cycles, st.0, st.1, st.2),
        rows_distinct(adj),
        forall|k: int| 0 <= k < cycles.len() ==> (#[trigger] cycles[k]).len() > 0,
        0 <= k1 < cycles.len(),
        0 <= k2 < cycles.len(),
        k1 != k2,
    ensures
        !is_rotation(cycles[k1], cycles[k2]),
{
    let c1 = cycles[k1];
    let c2 = cycles[k2];
    let back = st.2;
    if is_rotation(c1, c2) {
        let r = choose|r: int| 0 <= r < c1.len() && c2 == #[trigger] c1.subrange(r, c1.len() as int) + c1.subrange(0, r);
        let l = c1.len();
        let b2 = back[k2];
        let b1 = back[k1];
        assert(c2[0] == c1[r]);
        if r == 0 {
            assert(c2 =~= c1);
            lemma_row_index(adj[b1.0 as int], b1.1, b2.1);
            if k1 < k2 {
                assert(back[k1] != back[k2]);
            } else {
                assert(back[k2] != back[k1]);
            }
        } else {
            assert(c2[c2.len() - 1] == c1[r - 1]);
            assert(enters(st.1, c1[(r - 1) + 1] as int, c1[r - 1]));
            assert(c1[r] < adj.len() && visited[c1[r] as int]);
            assert(entry_ok(adj, visited, st.0, st.1, back, c1[r] as int));
            let e = st.1[c1[r] as int]->Some_0;
            lemma_row_index(adj[e.0 as int], e.1, b2.1);
            assert(back[k2] != e);
        }
    }
}

/// Every cycle that a depth-first search of the whole graph meets through a
/// back edge, in the order the search meets them; no cycle passes a node
/// twice, and when no node lists an edge twice, no cycle is listed twice,
/// not even rotated.  The result is empty exactly when the graph has no
/// cycle.
pub fn find_cycles(adj: &Vec<Vec<usize>>) -> (cycles: Vec<Vec<usize>>)
    requires
        wf_adj(adj.deep_view()),
    ensures
        forall|k: int| 0 <= k < cycles.len() ==> is_cycle(adj.deep_view(), #[trigger] cycles.deep_view()[k])
            && cycles.deep_view()[k].no_duplicates(),
        cycles.len() == 0 <==> !has_cycle(adj.deep_view()),
        rows_distinct(adj.deep_view()) ==> forall|k1: int, k2: int|
            0 <= k1 < cycles.len() && 0 <= k2 < cycles.len() && k1 != k2 ==> !is_rotation(
                #[trigger] cycles.deep_view()[k1],
                #[trigger] cycles.deep_view()[k2],
            ),
        forall|c: Seq<usize>| #[trigger] is_cycle(adj.deep_view(), c) ==> meets(cycles.deep_view(), c),
{
    let ghost g = adj.deep_view();
    let n = adj.len();
    let mut visited: Vec<bool> = Vec::new();
    let mut on_stack: Vec<bool> = Vec::new();
    let mut k: usize = 0;
    while k < n
        invariant
            k <= n,
            visited@ == Seq::new(k as nat, |i: int| false),
            on_stack@ == Seq::new(k as nat, |i: int| false),
        decreases n - k,
    {
        visited.push(false);
        on_stack.push(false);
        k = k + 1;
    }
    let mut path: Vec<usize> = Vec::new();
    let mut cycles: Vec<Vec<usize>> = Vec::new();
    let ghost mut rank: Seq<int> = Seq::new(n as nat, |i: int| 0);
    let ghost mut counter: int = 0;
    let ghost mut st: Stamps = (
        Seq::new(n as nat, |i: int| 0int),
        Seq::new(n as nat, |i: int| None::<(usize, int)>),
        Seq::<(usize, int)>::empty(),
    );
    proof {
        assert(cycles.deep_view() =~= Seq::<Seq<usize>>::empty());
        assert(stamps_ok(g, visited@, path@, cycles.deep_view(), st.0, st.1, st.2));
    }
    let mut u: usize = 0;
    while u < n
        invariant
            g == adj.deep_view(),
            n == adj.len(),
            u <= n,
            path@.len() == 0,
            on_stack@ == Seq::new(n as nat, |i: int| false),
            forall|x: int| 0 <= x < u ==> visited@[x],
            search_ok(g, visited@, on_stack@, path@, cycles.deep_view(), rank, counter),
            stamps_ok(g, visited@, path@, cycles.deep_view(), st.0, st.1, st.2),
        decreases n - u,
    {
        if !visited[u] {
            proof {
                let st1 = (st.0, st.1.update(u as int, None), st.2);
                assert forall|x: int| 0 <= x < n && visited@[x] implies #[trigger] entry_ok(g, visited@, st1.0, st1.1, st1.2, x) by {
                    assert(entry_ok(g, visited@, st.0, st.1, st.2, x));
                }
                assert forall|k: int, j: int|
                    0 <= k < cycles.deep_view().len() && 0 <= j < cycles.deep_view()[k].len() - 1 implies enters(
                    st1.1,
                    #[trigger] cycles.deep_view()[k][j + 1] as int,
                    cycles.deep_view()[k][j],
                ) by {
                    assert(enters(st.1, cycles.deep_view()[k][j + 1] as int, cycles.deep_view()[k][j]));
                    assert(cycles.deep_view()[k][j + 1] < n && visited@[cycles.deep_view()[k][j + 1] as int]);
                }
                st = st1;
            }
            let Ghost(out) = dfs_cycles(
                adj,
                u,
                &mut visited,
                &mut on_stack,
                &mut path,
                &mut cycles,
                Ghost(rank),
                Ghost(counter),
                Ghost(st),
            );
            proof {
                rank = out.0;
                counter = out.1;
                st = out.2;
            }
        }
        u = u + 1;
    }
    proof {
        assert forall|x: int| 0 <= x < n implies visited@[x] && !on_stack@[x] by {}
        lemma_search_complete(g, visited@, on_stack@, path@, cycles.deep_view(), rank, counter);
        if cycles.len() == 0 {
            assert forall|a: usize, b: usize| #[trigger] edge(g, a, b) implies rank[b as int]
                < rank[a as int] by {
                assert(visited@[a as int]);
                assert(!on_stack@[a as int]);
            }
            lemma_ranked_acyclic(g, rank);
        } else {
            assert(is_cycle(g, cycles.deep_view()[0]));
        }
        if rows_distinct(g) {
            assert forall|k1: int, k2: int|
                0 <= k1 < cycles.len() && 0 <= k2 < cycles.len() && k1 != k2 implies !is_rotation(
                #[trigger] cycles.deep_view()[k1],
                #[trigger] cycles.deep_view()[k2],
            ) by {
                assert forall|k: int| 0 <= k < cycles.deep_view().len() implies (#[trigger] cycles.deep_view()[k]).len() > 0 by {
                    assert(is_cycle(g, cycles.deep_view()[k]));
                }
                lemma_no_rotation(g, visited@, path@, cycles.deep_view(), st, k1, k2);
            }
        }
    }
    cycles
}


/// Every node reached along a walk from `s` inside a set that holds `s` and
/// is closed under edges lies in the set.
proof fn lemma_closed_walk(adj: Seq<Seq<usize>>, vis: Seq<bool>, p: Seq<usize>, k: int)
    requires
        wf_adj(adj),
        vis.len() == adj.len(),
        is_path(adj, p),
        p[0] < adj.len(),
        vis[p[0] as int],
        forall|x: usize, y: usize|
            #![trigger edge(adj, x, y)]
            x < adj.len() && vis[x as int] && edge(adj, x, y) ==> vis[y as int],
        0 <= k < p.len(),
    ensures
        p[k] < adj.len() && vis[p[k] as int],
    decreases k,
{
    if k > 0 {
        lemma_closed_walk(adj, vis, p, k - 1);
        let j = k - 1;
        assert(edge(adj, p[j], p[j + 1]));
    }
}

/// A node is reachable from `s` when it has an edge from `s` or from a node
/// reachable from `s`.
proof fn lemma_reach_step(adj: Seq<Seq<usize>>, s: usize, u: usize, v: usize)
    requires
        u == s || reachable(adj, s, u),
        edge(adj, u, v),
    ensures
        reachable(adj, s, v),
{
    if u == s {
        let p = seq![s, v];
        assert(edge(adj, p[0], p[1]));
        assert(is_path(adj, p));
    } else {
        let p = choose|p: Seq<usize>| #[trigger]
            is_path(adj, p) && p.len() >= 2 && p[0] == s && p[p.len() - 1] == u;
        lemma_path_push(adj, p, v);
        assert(is_path(adj, p.push(v)));
    }
}

/// A walk of at least one edge from `s` ends at a node with an edge from
/// `s` or from a node reachable from `s`.
proof fn lemma_reach_last_step(adj: Seq<Seq<usize>>, s: usize, t: usize) -> (y: usize)
    requires
        reachable(adj, s, t),
    ensures
        y == s || reachable(adj, s, y),
        edge(adj, y, t),
{
    let p = choose|p: Seq<usize>| #[trigger]
        is_path(adj, p) && p.len() >= 2 && p[0] == s && p[p.len() - 1] == t;
    let j = p.len() - 2;
    assert(edge(adj, p[j], p[j + 1]));
    if p.len() > 2 {
        lemma_path_subrange(adj, p, 0, p.len() - 1);
        assert(is_path(adj, p.subrange(0, p.len() - 1)));
    }
    p[j]
}

/// The state of a reachability search from `s`.
spec fn reach_ok(adj: Seq<Seq<usize>>, s: usize, visited: Seq<bool>, order: Seq<usize>) -> bool {
    let n = adj.len();
    &&& wf_adj(adj)
    &&& s < n
    &&& visited.len() == n
    &&& order.no_duplicates()
    &&& forall|k: int| 0 <= k < order.len() ==> order[k] < n
    &&& forall|x: usize| x < n ==> (order.contains(x) <==> visited[x as int] && x != s)
    &&& forall|x: usize| x < n && visited[x as int] ==> x == s || reachable(adj, s, x)
}

/// Visiting a reachable node keeps the search state consistent.
proof fn lemma_reach_ok_visit(g: Seq<Seq<usize>>, s: usize, vis0: Seq<bool>, ord0: Seq<usize>, u: usize)
    requires
        reach_ok(g, s, vis0, ord0),
        u < g.len(),
        !vis0[u as int],
        u == s || reachable(g, s, u),
    ensures
        reach_ok(g, s, vis0.update(u as int, true), if u == s { ord0 } else { ord0.push(u) }),
{
    let n = g.len() as int;
    let vis = vis0.update(u as int, true);
    let ord = if u == s { ord0 } else { ord0.push(u) };
    assert(!ord0.contains(u));
        assert(vis == vis0.update(u as int, true));
        assert(reach_ok(g, s, vis0, ord0));
        assert forall|x: usize| x < n && vis[x as int] implies x == s || reachable(g, s, x) by {
            
        }
        if u == s {
            assert(ord == ord0);
            assert forall|x: usize| x < n implies (ord.contains(x) <==> vis[x as int] && x != s) by {
                assert(ord0.contains(x) <==> vis0[x as int] && x != s);
                if x != u {
                    assert(vis[x as int] == vis0[x as int]);
                }
            }
            assert(reach_ok(g, s, vis, ord));
        } else {
            assert(ord == ord0.push(u));
            assert forall|x: usize| x < n implies (ord.contains(x) <==> vis[x as int] && x != s) by {
                if x == u {
                    assert(ord[ord.len() - 1] == u);
                } else {
                    assert(vis[x as int] == vis0[x as int]);
                    assert(ord0.contains(x) <==> vis0[x as int] && x != s);
                    if ord.contains(x) {
                        let k = choose|k: int| 0 <= k < ord.len() && ord[k] == x;
                        assert(ord[ord.len() - 1] == u);
                        assert(k != ord.len() - 1);
                        assert(ord0[k] == x);
                        assert(ord0.contains(x));
                    }
                    if ord0.contains(x) {
                        let k = choose|k: int| 0 <= k < ord0.len() && ord0[k] == x;
                        assert(ord[k] == x);
                    }
                }
            }
            assert(ord.no_duplicates()) by {
                assert forall|a: int, b: int| 0 <= a < b < ord.len() implies ord[a] != ord[b] by {
                    if b == ord.len() - 1 {
                        assert(ord0.contains(ord[a]));
                    }
                }
            }
            assert(reach_ok(g, s, vis, ord));
        }
}

/// The depth-first walk from `u` in a search started at `s`, over the marks
/// `vis` and the list `ord` of nodes met so far; `fuel` bounds how deep
/// visits may nest.  A marked node is left at once; otherwise it is marked,
/// listed unless it is `s`, and its edges are followed in order.  The result
/// is the marks and the list afterwards.
pub open spec fn pre_visit(adj: Seq<Seq<usize>>, s: usize, u: usize, vis: Seq<bool>, ord: Seq<usize>, fuel: nat) -> (Seq<
    bool,
>, Seq<usize>)
    decreases fuel, 0int,
{
    if fuel == 0 || vis[u as int] {
        (vis, ord)
    } else {
        pre_kids(
            adj,
            s,
            u,
            0,
            vis.update(u as int, true),
            if u == s { ord } else { ord.push(u) },
            (fuel - 1) as nat,
        )
    }
}

/// The walk along the edges of `u` from its `i`-th on.
pub open spec fn pre_kids(adj: Seq<Seq<usize>>, s: usize, u: usize, i: nat, vis: Seq<bool>, ord: Seq<usize>, fuel: nat) -> (Seq<
    bool,
>, Seq<usize>)
    decreases fuel, adj[u as int].len() - i + 1,
{
    if i >= adj[u as int].len() {
        (vis, ord)
    } else {
        let r = pre_visit(adj, s, adj[u as int][i as int], vis, ord, fuel);
        pre_kids(adj, s, u, i + 1, r.0, r.1, fuel)
    }
}

/// A walk given at least one more unit of fuel than there are unmarked
/// nodes never runs out: any two such amounts give the same result, which
/// keeps every mark.
pub proof fn lemma_pre_fuel(adj: Seq<Seq<usize>>, s: usize, u: usize, vis: Seq<bool>, ord: Seq<usize>, f1: nat, f2: nat)
    requires
        wf_adj(adj),
        u < adj.len(),
        vis.len() == adj.len(),
        f1 >= adj.len() + 1 - num_true(vis),
        f2 >= adj.len() + 1 - num_true(vis),
    ensures
        pre_visit(adj, s, u, vis, ord, f1) == pre_visit(adj, s, u, vis, ord, f2),
        pre_visit(adj, s, u, vis, ord, f1).0.len() == vis.len(),
        forall|x: int| 0 <= x < vis.len() && vis[x] ==> pre_visit(adj, s, u, vis, ord, f1).0[x],
    decreases f1 + f2, 0int,
{
    lemma_num_true_bound(vis);
    if !vis[u as int] {
        lemma_num_true_set(vis, u as int);
        let vis1 = vis.update(u as int, true);
        let ord1 = if u == s { ord } else { ord.push(u) };
        lemma_pre_kids_fuel(adj, s, u, 0, vis1, ord1, (f1 - 1) as nat, (f2 - 1) as nat);
        assert forall|x: int| 0 <= x < vis.len() && vis[x] implies pre_visit(adj, s, u, vis, ord, f1).0[x] by {
            assert(vis1[x]);
        }
    }
}

/// The walk along the edges of a node, given fuel as in `lemma_pre_fuel`.
pub proof fn lemma_pre_kids_fuel(
    adj: Seq<Seq<usize>>,
    s: usize,
    u: usize,
    i: nat,
    vis: Seq<bool>,
    ord: Seq<usize>,
    f1: nat,
    f2: nat,
)
    requires
        wf_adj(adj),
        u < adj.len(),
        i <= adj[u as int].len(),
        vis.len() == adj.len(),
        f1 >= adj.len() + 1 - num_true(vis),
        f2 >= adj.len() + 1 - num_true(vis),
    ensures
        pre_kids(adj, s, u, i, vis, ord, f1) == pre_kids(adj, s, u, i, vis, ord, f2),
        pre_kids(adj, s, u, i, vis, ord, f1).0.len() == vis.len(),
        forall|x: int| 0 <= x < vis.len() && vis[x] ==> pre_kids(adj, s, u, i, vis, ord, f1).0[x],
    decreases f1 + f2, adj[u as int].len() - i + 1,
{
    if i < adj[u as int].len() {
        let c = adj[u as int][i as int];
        lemma_pre_fuel(adj, s, c, vis, ord, f1, f2);
        let r = pre_visit(adj, s, c, vis, ord, f1);
        lemma_num_true_mono(vis, r.0);
        lemma_pre_kids_fuel(adj, s, u, i + 1, r.0, r.1, f1, f2);
    }
}

/// No node is marked in a list of no marks.
pub proof fn lemma_num_true_none(s: Seq<bool>)
    requires
        forall|i: int| 0 <= i < s.len() ==> !s[i],
    ensures
        num_true(s) == 0,
    decreases s.len(),
{
    if s.len() > 0 {
        lemma_num_true_none(s.drop_last());
    }
}

/// Depth-first walk from `u` that lists the newly reached nodes in the order
/// the walk first meets them.
fn dfs_collect(
    adj: &Vec<Vec<usize>>,
    s: usize,
    u: usize,
    visited: &mut Vec<bool>,
    order: &mut Vec<usize>,
)
    requires
        u < adj.len(),
        !old(visited)@[u as int],
        u == s || reachable(adj.deep_view(), s, u),
        reach_ok(adj.deep_view(), s, old(visited)@, old(order)@),
    ensures
        reach_ok(adj.deep_view(), s, final(visited)@, final(order)@),
        final(visited)@[u as int],
        forall|x: int| 0 <= x < adj.len() && old(visited)@[x] ==> final(visited)@[x],
        forall|x: usize, y: usize|
            #![trigger edge(adj.deep_view(), x, y)]
            x < adj.len() && final(visited)@[x as int] && !old(visited)@[x as int] && edge(
                adj.deep_view(),
                x,
                y,
            ) ==> final(visited)@[y as int],
        (final(visited)@, final(order)@) == pre_visit(
            adj.deep_view(),
            s,
            u,
            old(visited)@,
            old(order)@,
            (adj.len() + 1 - num_true(old(visited)@)) as nat,
        ),
    decreases adj.len() - num_true(old(visited)@),
{
    let ghost g = adj.deep_view();
    let ghost n = adj.len() as int;
    let ghost vis0 = visited@;
    let ghost ord0 = order@;
    let ghost fuel: nat = (n - num_true(vis0)) as nat;
    let ghost ord1 = if u == s { ord0 } else { ord0.push(u) };
    proof {
        lemma_num_true_bound(vis0);
        lemma_num_true_set(vis0, u as int);
        lemma_num_true_bound(vis0.update(u as int, true));
    }
    proof {
        lemma_num_true_set(visited@, u as int);
    }
    visited.set(u, true);
    if u != s {
        proof {
            assert(!ord0.contains(u));
        }
        order.push(u);
    }
    proof {
        assert(visited@ == vis0.update(u as int, true));
        lemma_reach_ok_visit(g, s, vis0, ord0, u);
        if u == s {
            assert(order@ == ord0);
        } else {
            assert(order@ == ord0.push(u));
        }
    }
    let deps = &adj[u];
    assert(deps@ == g[u as int]);
    let mut i: usize = 0;
    while i < deps.len()
        invariant
            g == adj.deep_view(),
            n == adj.len(),
            u < n,
            vis0.len() == n,
            vis0 == old(visited)@,
            !vis0[u as int],
            u == s || reachable(g, s, u),
            deps@ == g[u as int],
            i <= deps.len(),
            visited@[u as int],
            forall|x: int| 0 <= x < n && vis0[x] ==> visited@[x],
            reach_ok(g, s, visited@, order@),
            forall|k: int| 0 <= k < i ==> visited@[deps@[k] as int],
            forall|x: usize, y: usize|
                #![trigger edge(g, x, y)]
                x < n && x != u && visited@[x as int] && !vis0[x as int] && edge(g, x, y)
                    ==> visited@[y as int],
            fuel == n - num_true(vis0),
            fuel >= 1,
            ord1 == (if u == s { ord0 } else { ord0.push(u) }),
            num_true(visited@) >= num_true(vis0) + 1,
            visited@.len() == n,
            pre_kids(g, s, u, 0, vis0.update(u as int, true), ord1, fuel) == pre_kids(
                g,
                s,
                u,
                i as nat,
                visited@,
                order@,
                fuel,
            ),
        decreases deps.len() - i,
    {
        let v = deps[i];
        let ghost vis_i = visited@;
        let ghost ord_i = order@;
        proof {
            assert(v == g[u as int][i as int]);
        }
        assert(g[u as int].contains(v));
        assert(edge(g, u, v));
        if !visited[v] {
            proof {
                lemma_num_true_mono(vis0.update(u as int, true), visited@);
                lemma_num_true_set(vis0, u as int);
                lemma_num_true_bound(visited@);
                assert(0 <= adj.len() - num_true(visited@) < adj.len() - num_true(vis0));
                lemma_reach_step(g, s, u, v);
            }
            dfs_collect(adj, s, v, visited, order);
            proof {
                lemma_pre_fuel(g, s, v, vis_i, ord_i, fuel, (n + 1 - num_true(vis_i)) as nat);
                lemma_num_true_mono(vis_i, visited@);
            }
        } else {
            proof {
                assert(pre_visit(g, s, v, vis_i, ord_i, fuel) == (vis_i, ord_i));
            }
        }
        proof {
            assert(pre_kids(g, s, u, i as nat, vis_i, ord_i, fuel) == pre_kids(
                g,
                s,
                u,
                (i + 1) as nat,
                visited@,
                order@,
                fuel,
            ));
        }
        i = i + 1;
    }
    proof {
        assert forall|x: usize, y: usize|
            #![trigger edge(g, x, y)]
            x < n && visited@[x as int] && !vis0[x as int] && edge(g, x, y) implies visited@[y as int] by {
            if x == u {
                let k = choose|k: int| 0 <= k < g[u as int].len() && g[u as int][k] == y;
                assert(deps@[k] == y);
            }
        }
    }
}

/// Marks every node reachable from `s` (and `s` itself), and lists the
/// reachable nodes other than `s` in depth-first order.
fn reach_search(adj: &Vec<Vec<usize>>, s: usize) -> (res: (Vec<bool>, Vec<usize>))
    requires
        wf_adj(adj.deep_view()),
        s < adj.len(),
    ensures
        reach_ok(adj.deep_view(), s, res.0@, res.1@),
        res.0@[s as int],
        forall|x: int| 0 <= x < adj.len() ==> (res.0@[x] <==> x == s as int || reachable(adj.deep_view(), s, x as usize)),
        res.1@ == pre_visit(
            adj.deep_view(),
            s,
            s,
            Seq::new(adj.len() as nat, |i: int| false),
            Seq::empty(),
            (adj.len() + 1) as nat,
        ).1,
{
    let ghost g = adj.deep_view();
    let n = adj.len();
    let mut visited: Vec<bool> = Vec::new();
    let mut k: usize = 0;
    while k < n
        invariant
            k <= n,
            visited@ == Seq::new(k as nat, |i: int| false),
        decreases n - k,
    {
        visited.push(false);
        k = k + 1;
    }
    let mut order: Vec<usize> = Vec::new();
    proof {
        lemma_num_true_none(visited@);
        assert(order@ =~= Seq::<usize>::empty());
    }
    dfs_collect(adj, s, s, &mut visited, &mut order);
    proof {
        assert forall|x: int| 0 <= x < n implies (visited@[x] <==> x == s as int || reachable(g, s, x as usize)) by {
            if reachable(g, s, x as usize) {
                let p = choose|p: Seq<usize>| #[trigger]
                    is_path(g, p) && p.len() >= 2 && p[0] == s && p[p.len() - 1] == x as usize;
                lemma_closed_walk(g, visited@, p, p.len() - 1);
            }
        }
    }
    (visited, order)
}

/// The nodes reachable from `s` along at least one edge, other than `s`
/// itself, each listed once, in the order a depth-first walk from `s` first
/// meets them.
pub fn reachable_from(adj: &Vec<Vec<usize>>, s: usize) -> (res: Vec<usize>)
    requires
        wf_adj(adj.deep_view()),
        s < adj.len(),
    ensures
        res@.no_duplicates(),
        forall|k: int| 0 <= k < res.len() ==> res@[k] < adj.len(),
        forall|x: usize| x < adj.len() ==> (res@.contains(x) <==> x != s && reachable(adj.deep_view(), s, x)),
        res@ == pre_visit(
            adj.deep_view(),
            s,
            s,
            Seq::new(adj.len() as nat, |i: int| false),
            Seq::empty(),
            (adj.len() + 1) as nat,
        ).1,
{
    let (visited, order) = reach_search(adj, s);
    proof {
        assert forall|x: usize| x < adj.len() implies (order@.contains(x) <==> x != s && reachable(adj.deep_view(), s, x)) by {
            let xi = x as int;
            assert(xi as usize == x);
            assert(order@.contains(xi as usize) <==> visited@[xi] && xi != s as int);
            assert(visited@[xi] <==> xi == s as int || reachable(adj.deep_view(), s, xi as usize));
        }
    }
    order
}

/// The nodes reachable from `s` along at least one edge, `s` included when
/// it lies on a cycle, each listed once.
pub fn reachable_set(adj: &Vec<Vec<usize>>, s: usize) -> (res: Vec<usize>)
    requires
        wf_adj(adj.deep_view()),
        s < adj.len(),
    ensures
        res@.no_duplicates(),
        forall|k: int| 0 <= k < res.len() ==> res@[k] < adj.len(),
        forall|x: usize| x < adj.len() ==> (res@.contains(x) <==> reachable(adj.deep_view(), s, x)),
{
    let ghost g = adj.deep_view();
    let (visited, mut order) = reach_search(adj, s);
    // `s` is reachable from itself when some marked node has an edge to it.
    let n = adj.len();
    let mut back = false;
    let mut x: usize = 0;
    while x < n
        invariant
            g == adj.deep_view(),
            n == adj.len(),
            x <= n,
            visited@.len() == n,
            back ==> reachable(g, s, s),
            !back ==> forall|y: usize| y < x && visited@[y as int] ==> !edge(g, y, s),
            forall|y: int| 0 <= y < n ==> (visited@[y] <==> y == s as int || reachable(g, s, y as usize)),
        decreases n - x,
    {
        if visited[x] && !back {
            let deps = &adj[x];
            let mut j: usize = 0;
            while j < deps.len()
                invariant
                    x < n,
                    g.len() == n,
                    deps@ == g[x as int],
                    j <= deps.len(),
                    g == adj.deep_view(),
                    back ==> edge(g, x, s),
                    !back ==> forall|k: int| 0 <= k < j ==> deps@[k] != s,
                decreases deps.len() - j,
            {
                if deps[j] == s {
                    back = true;
                    assert(deps@[j as int] == s);
                    assert(g[x as int].contains(s));
                }
                j = j + 1;
            }
            proof {
                if back {
                    assert((x as int) as usize == x);
                    lemma_reach_step(g, s, x, s);
                }
            }
        }
        x = x + 1;
    }
    proof {
        if reachable(g, s, s) {
            let y = lemma_reach_last_step(g, s, s);
            assert(visited@[y as int]);
            assert(back);
        }
        assert(!order@.contains(s));
    }
    let ghost ord0 = order@;
    if back {
        order.push(s);
    }
    proof {
        assert forall|x: usize| x < n implies (order@.contains(x) <==> reachable(g, s, x)) by {
            let xi = x as int;
            assert(xi as usize == x);
            assert(ord0.contains(xi as usize) <==> visited@[xi] && xi != s as int);
            if x == s {
                if back {
                    assert(order@[order@.len() - 1] == s);
                }
            } else {
                if order@.contains(x) {
                    let k = choose|k: int| 0 <= k < order@.len() && order@[k] == x;
                    assert(ord0[k] == x);
                }
                if ord0.contains(x) {
                    let k = choose|k: int| 0 <= k < ord0.len() && ord0[k] == x;
                    assert(order@[k] == x);
                }
            }
        }
    }
    order
}


/// A sequence of distinct nodes below `n` has at most `n` entries.
proof fn lemma_distinct_bounded(p: Seq<usize>, n: nat)
    requires
        p.no_duplicates(),
        forall|k: int| 0 <= k < p.len() ==> p[k] < n,
    ensures
        p.len() <= n,
    decreases n,
{
    if n == 0 {
        if p.len() > 0 {
            assert(p[0] < n);
        }
    } else {
        let top = (n - 1) as usize;
        if p.contains(top) {
            let j = choose|j: int| 0 <= j < p.len() && p[j] == top;
            let q = p.remove(j);
            assert forall|k: int| 0 <= k < q.len() implies q[k] < n - 1 by {
                if k < j {
                    assert(q[k] == p[k]);
                } else {
                    assert(q[k] == p[k + 1]);
                }
            }
            assert(q.no_duplicates()) by {
                assert forall|a: int, b: int| 0 <= a < b < q.len() implies q[a] != q[b] by {
                    let pa = if a < j { a } else { a + 1 };
                    let pb = if b < j { b } else { b + 1 };
                    assert(q[a] == p[pa] && q[b] == p[pb]);
                }
            }
            lemma_distinct_bounded(q, (n - 1) as nat);
        } else {
            assert forall|k: int| 0 <= k < p.len() implies p[k] < n - 1 by {
                assert(p[k] != top);
            }
            lemma_distinct_bounded(p, (n - 1) as nat);
        }
    }
}

/// Whether every node of `p` is a node of the graph that `blocked` leaves
/// open.
pub open spec fn avoids(p: Seq<usize>, blocked: Seq<bool>) -> bool {
    forall|k: int| 0 <= k < p.len() ==> p[k] < blocked.len() && !blocked[p[k] as int]
}

/// Whether `p` is a walk from `u` that repeats no node and passes no node
/// marked in `blocked`.
pub open spec fn open_walk(adj: Seq<Seq<usize>>, blocked: Seq<bool>, u: usize, p: Seq<usize>) -> bool {
    &&& is_path(adj, p)
    &&& p.no_duplicates()
    &&& p[0] == u
    &&& avoids(p, blocked)
}

/// Whether `p` is a walk from `s` that repeats no node.
pub open spec fn simple_walk(adj: Seq<Seq<usize>>, s: usize, p: Seq<usize>) -> bool {
    is_path(adj, p) && p.no_duplicates() && p[0] == s
}

/// Every node of a walk that starts in the graph is in the graph.
pub proof fn lemma_path_nodes(adj: Seq<Seq<usize>>, p: Seq<usize>)
    requires
        wf_adj(adj),
        is_path(adj, p),
        p[0] < adj.len(),
    ensures
        forall|k: int| 0 <= k < p.len() ==> p[k] < adj.len(),
{
    assert forall|k: int| 0 <= k < p.len() implies p[k] < adj.len() by {
        if k > 0 {
            let j = k - 1;
            assert(edge(adj, p[j], p[j + 1]));
            let t = choose|t: int| 0 <= t < adj[p[j] as int].len() && adj[p[j] as int][t] == p[k];
        }
    }
}

/// The number of edges of the longest walk from `u` that repeats no node
/// and passes no node marked in `blocked`; `blocked` is the same afterwards.
fn longest_from(adj: &Vec<Vec<usize>>, u: usize, blocked: &mut Vec<bool>) -> (res: usize)
    requires
        wf_adj(adj.deep_view()),
        u < adj.len(),
        old(blocked)@.len() == adj.len(),
        !old(blocked)@[u as int],
    ensures
        final(blocked)@ == old(blocked)@,
        res < adj.len(),
        exists|p: Seq<usize>| #[trigger] open_walk(adj.deep_view(), old(blocked)@, u, p) && p.len() == res + 1,
        forall|p: Seq<usize>| #[trigger] open_walk(adj.deep_view(), old(blocked)@, u, p) ==> p.len() <= res + 1,
    decreases adj.len() - num_true(old(blocked)@),
{
    let ghost g = adj.deep_view();
    let ghost n = adj.len() as int;
    let ghost b0 = blocked@;
    proof {
        lemma_num_true_set(b0, u as int);
        lemma_num_true_bound(b0.update(u as int, true));
        let p1 = seq![u];
        assert(open_walk(g, b0, u, p1));
    }
    blocked.set(u, true);
    let ghost b1 = blocked@;
    let mut best: usize = 0;
    let deps = &adj[u];
    assert(deps@ == g[u as int]);
    let mut i: usize = 0;
    while i < deps.len()
        invariant
            g == adj.deep_view(),
            n == adj.len(),
            wf_adj(g),
            u < n,
            deps@ == g[u as int],
            b0.len() == n,
            b0 == old(blocked)@,
            !b0[u as int],
            b1 == b0.update(u as int, true),
            blocked@ == b1,
            num_true(b1) == num_true(b0) + 1,
            num_true(b1) <= n,
            i <= deps.len(),
            best < n,
            exists|p: Seq<usize>| #[trigger] open_walk(g, b0, u, p) && p.len() == best + 1,
            forall|k: int, p: Seq<usize>|
                0 <= k < i && #[trigger] open_walk(g, b1, deps@[k], p) ==> p.len() <= best,
        decreases deps.len() - i,
    {
        let v = deps[i];
        proof {
            assert(g[u as int].contains(v));
            assert(edge(g, u, v));
        }
        if !blocked[v] {
            let r = longest_from(adj, v, blocked);
            proof {
                let q = choose|q: Seq<usize>| #[trigger] open_walk(g, b1, v, q) && q.len() == r + 1;
                let p = seq![u] + q;
                assert(p[0] == u);
                assert forall|j: int| 0 <= j < p.len() - 1 implies #[trigger] edge(g, p[j], p[j + 1]) by {
                    if j == 0 {
                        assert(p[1] == q[0]);
                    } else {
                        assert(p[j] == q[j - 1] && p[j + 1] == q[j]);
                        assert(edge(g, q[j - 1], q[(j - 1) + 1]));
                    }
                }
                assert(!q.contains(u)) by {
                    if q.contains(u) {
                        let t = choose|t: int| 0 <= t < q.len() && q[t] == u;
                        assert(b1[q[t] as int]);
                    }
                }
                assert(p.no_duplicates()) by {
                    assert forall|a: int, c: int| 0 <= a < c < p.len() implies p[a] != p[c] by {
                        if a == 0 {
                            assert(p[c] == q[c - 1]);
                        } else {
                            assert(p[a] == q[a - 1] && p[c] == q[c - 1]);
                        }
                    }
                }
                assert(avoids(p, b0)) by {
                    assert forall|k: int| 0 <= k < p.len() implies p[k] < b0.len() && !b0[p[k] as int] by {
                        if k > 0 {
                            assert(p[k] == q[k - 1]);
                            assert(!b1[q[k - 1] as int]);
                            if q[k - 1] == u {
                                assert(q.contains(u));
                            }
                        }
                    }
                }
                assert(open_walk(g, b0, u, p));
                assert forall|k: int| 0 <= k < p.len() implies p[k] < n by {}
                lemma_distinct_bounded(p, n as nat);
            }
            if r + 1 > best {
                best = r + 1;
            }
        } else {
            proof {
                assert forall|p: Seq<usize>| #[trigger] open_walk(g, b1, v, p) implies p.len() <= best by {
                    assert(p[0] == v);
                }
            }
        }
        i = i + 1;
    }
    proof {
        assert forall|p: Seq<usize>| #[trigger] open_walk(g, b0, u, p) implies p.len() <= best + 1 by {
            if p.len() >= 2 {
                let v = p[1];
                assert(edge(g, p[0], p[0int + 1]));
                let k = choose|k: int| 0 <= k < g[u as int].len() && g[u as int][k] == v;
                let q = p.subrange(1, p.len() as int);
                lemma_path_subrange(g, p, 1, p.len() as int);
                assert(q.no_duplicates()) by {
                    assert forall|a: int, c: int| 0 <= a < c < q.len() implies q[a] != q[c] by {
                        assert(q[a] == p[a + 1] && q[c] == p[c + 1]);
                    }
                }
                assert(avoids(q, b1)) by {
                    assert forall|t: int| 0 <= t < q.len() implies q[t] < b1.len() && !b1[q[t] as int] by {
                        assert(q[t] == p[t + 1]);
                        assert(p[t + 1] != p[0]);
                    }
                }
                assert(open_walk(g, b1, deps@[k], q));
            }
        }
    }
    blocked.set(u, false);
    proof {
        assert(blocked@ =~= b0);
    }
    best
}

/// The number of edges of the longest walk from `s` that repeats no node.
pub fn longest_simple_walk(adj: &Vec<Vec<usize>>, s: usize) -> (res: usize)
    requires
        wf_adj(adj.deep_view()),
        s < adj.len(),
    ensures
        exists|p: Seq<usize>| #[trigger] simple_walk(adj.deep_view(), s, p) && p.len() == res + 1,
        forall|p: Seq<usize>| #[trigger] simple_walk(adj.deep_view(), s, p) ==> p.len() <= res + 1,
{
    let ghost g = adj.deep_view();
    let n = adj.len();
    let mut blocked: Vec<bool> = Vec::new();
    let mut k: usize = 0;
    while k < n
        invariant
            k <= n,
            n == adj.len(),
            blocked@.len() == k,
            forall|t: int| 0 <= t < k ==> !blocked@[t],
        decreases n - k,
    {
        blocked.push(false);
        k = k + 1;
    }
    let ghost b0 = blocked@;
    let res = longest_from(adj, s, &mut blocked);
    proof {
        let p = choose|p: Seq<usize>| #[trigger] open_walk(g, b0, s, p) && p.len() == res + 1;
        assert(simple_walk(g, s, p));
        assert forall|p: Seq<usize>| #[trigger] simple_walk(g, s, p) implies p.len() <= res + 1 by {
            lemma_path_nodes(g, p);
            assert(open_walk(g, b0, s, p));
        }
    }
    res
}

} // verus!
