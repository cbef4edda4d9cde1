//! A directed graph over named nodes, kept as a table of names and an
//! adjacency list of indices into it.
//!
//! Node `i` is named `names[i]`; a node is a key when an entry was recorded
//! for it, and only keys have outgoing edges.  Seen from outside the graph
//! is the map from each key's name to the names its edges lead to, in the
//! order they were recorded.

use vstd::prelude::*;
use crate::util::graph::{edge, pre_kids, pre_visit, rows_distinct, wf_adj};
use crate::util::relation::{indexes, name_walk};

verus! {

/// Adjacency rows and key marks of a named graph.
#[derive(Debug, Clone)]
pub struct IndexGraph {
    pub rows: Vec<Vec<usize>>,
    pub is_key: Vec<bool>,
}

/// Whether names, key marks and rows fit together: one of each per node,
/// no name twice, every edge inside the table, no edge out of a non-key.
pub open spec fn graph_wf<K>(names: Seq<K>, is_key: Seq<bool>, rows: Seq<Seq<usize>>) -> bool {
    &&& names.len() == is_key.len()
    &&& names.len() == rows.len()
    &&& names.len() <= usize::MAX
    &&& names.no_duplicates()
    &&& forall|i: int, k: int| 0 <= i < rows.len() && 0 <= k < rows[i].len() ==> rows[i][k] < names.len()
    &&& forall|i: int| 0 <= i < rows.len() && !is_key[i] ==> rows[i].len() == 0
}

/// The names that the index list `row` stands for.
pub open spec fn row_names<K>(names: Seq<K>, row: Seq<usize>) -> Seq<K> {
    row.map_values(|j: usize| names[j as int])
}

/// The map from each key's name to the names its edges lead to.
pub open spec fn graph_map<K>(names: Seq<K>, is_key: Seq<bool>, rows: Seq<Seq<usize>>) -> Map<K, Seq<K>> {
    Map::new(
        |a: K| names.contains(a) && is_key[names.index_of(a)],
        |a: K| row_names(names, rows[names.index_of(a)]),
    )
}

/// The edge relation of a map from names to the names they lead to.
pub open spec fn map_rel<K>(m: Map<K, Seq<K>>) -> spec_fn(K, K) -> bool {
    |a: K, b: K| m.dom().contains(a) && m[a].contains(b)
}

/// The entry of a map, or the empty sequence when the key is absent.
pub open spec fn entry_or_empty<K, V>(m: Map<K, Seq<V>>, k: K) -> Seq<V> {
    if m.dom().contains(k) {
        m[k]
    } else {
        Seq::empty()
    }
}


/// The depth-first walk from `u` in a search started at `s`, over the map
/// `m` from each name to the names it leads to, the names marked `vis` and
/// the list `ord` of names met so far; `fuel` bounds how deep visits may
/// nest.  A marked name is left at once; otherwise it is marked, listed
/// unless it is `s`, and the names it leads to are visited in order.  The
/// result is the marks and the list afterwards.
pub open spec fn name_pre<K>(m: Map<K, Seq<K>>, s: K, u: K, vis: Set<K>, ord: Seq<K>, fuel: nat) -> (Set<K>, Seq<K>)
    decreases fuel, 0int,
{
    if fuel == 0 || vis.contains(u) {
        (vis, ord)
    } else {
        name_pre_kids(
            m,
            s,
            entry_or_empty(m, u),
            0,
            vis.insert(u),
            if u == s { ord } else { ord.push(u) },
            (fuel - 1) as nat,
        )
    }
}

/// The walk through `kids` from the `i`-th on.
pub open spec fn name_pre_kids<K>(
    m: Map<K, Seq<K>>,
    s: K,
    kids: Seq<K>,
    i: nat,
    vis: Set<K>,
    ord: Seq<K>,
    fuel: nat,
) -> (Set<K>, Seq<K>)
    decreases fuel, kids.len() - i + 1,
{
    if i >= kids.len() {
        (vis, ord)
    } else {
        let r = name_pre(m, s, kids[i as int], vis, ord, fuel);
        name_pre_kids(m, s, kids, i + 1, r.0, r.1, fuel)
    }
}

/// The names, other than `u`, that a depth-first walk from `u` over `m`
/// meets, in the order it first meets them: the list that the walk gives
/// once it has fuel enough to run to its end.
pub open spec fn preorder_settles<K>(m: Map<K, Seq<K>>, u: K, f0: nat, order: Seq<K>) -> bool {
    forall|f: nat| f >= f0 ==> #[trigger] name_pre(m, u, u, Set::<K>::empty(), Seq::<K>::empty(), f).1 == order
}

/// The names whose nodes are marked.
pub open spec fn marked_names<K>(names: Seq<K>, vis: Seq<bool>) -> Set<K> {
    Set::new(|a: K| names.contains(a) && vis[names.index_of(a)])
}

/// A node's entry in the map is the names of its row.
proof fn lemma_entry_row<K>(names: Seq<K>, is_key: Seq<bool>, rows: Seq<Seq<usize>>, u: int)
    requires
        graph_wf(names, is_key, rows),
        0 <= u < names.len(),
    ensures
        entry_or_empty(graph_map(names, is_key, rows), names[u]) == row_names(names, rows[u]),
{
    lemma_index_of_unique(names, u);
    if !is_key[u] {
        assert(row_names(names, rows[u]) =~= Seq::<K>::empty());
    }
}

/// Whether no entry of a map lists a name twice.
pub open spec fn entries_distinct<K>(m: Map<K, Seq<K>>) -> bool {
    forall|a: K| #[trigger] m.dom().contains(a) ==> m[a].no_duplicates()
}

/// When no entry lists a name twice, no row lists a node twice.
pub proof fn lemma_rows_distinct<K>(names: Seq<K>, is_key: Seq<bool>, rows: Seq<Seq<usize>>)
    requires
        graph_wf(names, is_key, rows),
        entries_distinct(graph_map(names, is_key, rows)),
    ensures
        rows_distinct(rows),
{
    assert forall|x: int| 0 <= x < rows.len() implies #[trigger] rows[x].no_duplicates() by {
        if is_key[x] {
            lemma_index_of_unique(names, x);
            let m = graph_map(names, is_key, rows);
            assert(m.dom().contains(names[x]));
            let r = row_names(names, rows[x]);
            assert(r.no_duplicates());
            assert forall|a: int, b: int| 0 <= a < b < rows[x].len() implies rows[x][a] != rows[x][b] by {
                assert(r[a] == names[rows[x][a] as int]);
                assert(r[b] == names[rows[x][b] as int]);
            }
        }
    }
}

/// Marking a node marks its name.
proof fn lemma_mark<K>(names: Seq<K>, vis: Seq<bool>, u: int)
    requires
        names.no_duplicates(),
        vis.len() == names.len(),
        0 <= u < names.len(),
    ensures
        marked_names(names, vis.update(u, true)) == marked_names(names, vis).insert(names[u]),
        marked_names(names, vis).contains(names[u]) == vis[u],
{
    lemma_index_of_unique(names, u);
    assert forall|a: K| #[trigger] marked_names(names, vis.update(u, true)).contains(a)
        == marked_names(names, vis).insert(names[u]).contains(a) by {
        if names.contains(a) {
            lemma_index_of_unique(names, names.index_of(a));
        }
    }
    assert(marked_names(names, vis.update(u, true)) =~= marked_names(names, vis).insert(names[u]));
}

/// The walk over the names of a well-formed table is the walk over its
/// nodes, read through the names.
pub proof fn lemma_name_pre<K>(
    names: Seq<K>,
    is_key: Seq<bool>,
    rows: Seq<Seq<usize>>,
    s: usize,
    u: usize,
    vis: Seq<bool>,
    ord: Seq<usize>,
    fuel: nat,
)
    requires
        graph_wf(names, is_key, rows),
        s < names.len(),
        u < names.len(),
        vis.len() == names.len(),
    ensures
        ({
            let r = pre_visit(rows, s, u, vis, ord, fuel);
            &&& r.0.len() == vis.len()
            &&& name_pre(
                graph_map(names, is_key, rows),
                names[s as int],
                names[u as int],
                marked_names(names, vis),
                name_walk(names, ord),
                fuel,
            ) == (marked_names(names, r.0), name_walk(names, r.1))
        }),
    decreases fuel, 0int,
{
    lemma_mark(names, vis, u as int);
    if fuel > 0 && !vis[u as int] {
        lemma_entry_row(names, is_key, rows, u as int);
        let ord1 = if u == s { ord } else { ord.push(u) };
        assert(name_walk(names, ord.push(u)) =~= name_walk(names, ord).push(names[u as int]));
        if u != s {
            assert(names[u as int] != names[s as int]);
        }
        lemma_name_pre_kids(names, is_key, rows, s, u, 0, vis.update(u as int, true), ord1, (fuel - 1) as nat);
    }
}

/// The walk through a node's row, read through the names.
pub proof fn lemma_name_pre_kids<K>(
    names: Seq<K>,
    is_key: Seq<bool>,
    rows: Seq<Seq<usize>>,
    s: usize,
    u: usize,
    i: nat,
    vis: Seq<bool>,
    ord: Seq<usize>,
    fuel: nat,
)
    requires
        graph_wf(names, is_key, rows),
        s < names.len(),
        u < names.len(),
        i <= rows[u as int].len(),
        vis.len() == names.len(),
    ensures
        ({
            let r = pre_kids(rows, s, u, i, vis, ord, fuel);
            &&& r.0.len() == vis.len()
            &&& name_pre_kids(
                graph_map(names, is_key, rows),
                names[s as int],
                row_names(names, rows[u as int]),
                i,
                marked_names(names, vis),
                name_walk(names, ord),
                fuel,
            ) == (marked_names(names, r.0), name_walk(names, r.1))
        }),
    decreases fuel, rows[u as int].len() - i + 1,
{
    if i < rows[u as int].len() {
        let c = rows[u as int][i as int];
        assert(row_names(names, rows[u as int])[i as int] == names[c as int]);
        lemma_name_pre(names, is_key, rows, s, c, vis, ord, fuel);
        let r = pre_visit(rows, s, c, vis, ord, fuel);
        lemma_name_pre_kids(names, is_key, rows, s, u, i + 1, r.0, r.1, fuel);
    }
}

/// In a table without repeats, a name's index is where it stands.
pub proof fn lemma_index_of_unique<K>(names: Seq<K>, i: int)
    requires
        names.no_duplicates(),
        0 <= i < names.len(),
    ensures
        names.index_of(names[i]) == i,
{
    assert(names.contains(names[i]));
    let j = names.index_of(names[i]);
    assert(0 <= j < names.len() && names[j] == names[i]);
}

/// A well-formed table gives an index graph with exactly the edges of its map.
pub proof fn lemma_graph_indexes<K>(names: Seq<K>, is_key: Seq<bool>, rows: Seq<Seq<usize>>)
    requires
        graph_wf(names, is_key, rows),
    ensures
        indexes(rows, names, map_rel(graph_map(names, is_key, rows))),
{
    let m = graph_map(names, is_key, rows);
    let rel = map_rel(m);
    assert(wf_adj(rows));
    assert forall|i: usize, j: usize| i < names.len() && j < names.len() implies (#[trigger] edge(
        rows,
        i,
        j,
    ) <==> rel(names[i as int], names[j as int])) by {
        lemma_index_of_unique(names, i as int);
        let r = rows[i as int];
        if edge(rows, i, j) {
            let k = choose|k: int| 0 <= k < r.len() && r[k] == j;
            assert(row_names(names, r)[k] == names[j as int]);
            assert(m[names[i as int]].contains(names[j as int]));
        }
        if rel(names[i as int], names[j as int]) {
            assert(is_key[i as int]);
            let rn = row_names(names, r);
            let k = choose|k: int| 0 <= k < rn.len() && rn[k] == names[j as int];
            assert(names[r[k] as int] == names[j as int]);
            assert(r[k] < names.len());
            assert(r[k] == j);
            assert(r.contains(j));
        }
    }
    assert forall|a: K, b: K| #[trigger] rel(a, b) implies names.contains(a) && names.contains(b) by {
        let i = names.index_of(a);
        let rn = row_names(names, rows[i]);
        let k = choose|k: int| 0 <= k < rn.len() && rn[k] == b;
        assert(rows[i][k] < names.len());
        assert(names[rows[i][k] as int] == b);
    }
}

/// Recording a key's row replaces the key's entry in the map.
pub proof fn lemma_set_row<K>(names: Seq<K>, is_key: Seq<bool>, rows: Seq<Seq<usize>>, k: int, row: Seq<usize>)
    requires
        graph_wf(names, is_key, rows),
        0 <= k < names.len(),
        forall|t: int| 0 <= t < row.len() ==> row[t] < names.len(),
    ensures
        graph_wf(names, is_key.update(k, true), rows.update(k, row)),
        graph_map(names, is_key.update(k, true), rows.update(k, row)) == graph_map(
            names,
            is_key,
            rows,
        ).insert(names[k], row_names(names, row)),
{
    let m0 = graph_map(names, is_key, rows);
    let m1 = graph_map(names, is_key.update(k, true), rows.update(k, row));
    lemma_index_of_unique(names, k);
    assert forall|a: K| #[trigger] m1.dom().contains(a) <==> m0.insert(names[k], row_names(names, row)).dom().contains(a) by {
        if names.contains(a) {
            let i = names.index_of(a);
            lemma_index_of_unique(names, i);
        }
    }
    assert(m1.dom() =~= m0.insert(names[k], row_names(names, row)).dom());
    assert forall|a: K| #[trigger] m1.dom().contains(a) implies m1[a] == m0.insert(
        names[k],
        row_names(names, row),
    )[a] by {
        let i = names.index_of(a);
        if i != k {
            assert(a != names[k]);
        }
    }
    assert(m1 =~= m0.insert(names[k], row_names(names, row)));
}

/// A new name enters as a node without edges; the map stays.
pub proof fn lemma_add_name<K>(names: Seq<K>, is_key: Seq<bool>, rows: Seq<Seq<usize>>, x: K)
    requires
        graph_wf(names, is_key, rows),
        !names.contains(x),
        names.len() < usize::MAX,
    ensures
        graph_wf(names.push(x), is_key.push(false), rows.push(Seq::empty())),
        graph_map(names.push(x), is_key.push(false), rows.push(Seq::empty())) == graph_map(
            names,
            is_key,
            rows,
        ),
{
    let n2 = names.push(x);
    let m0 = graph_map(names, is_key, rows);
    let m1 = graph_map(n2, is_key.push(false), rows.push(Seq::empty()));
    assert forall|a: int, b: int| 0 <= a < b < n2.len() implies n2[a] != n2[b] by {
        if b == names.len() {
            assert(names.contains(n2[a]));
        }
    }
    assert(n2.no_duplicates());
    assert forall|a: K| #[trigger] m1.dom().contains(a) <==> m0.dom().contains(a) by {
        if names.contains(a) {
            let i = names.index_of(a);
            lemma_index_of_unique(names, i);
            lemma_index_of_unique(n2, i);
            assert(n2.contains(a));
        }
        if n2.contains(a) {
            let i = n2.index_of(a);
            lemma_index_of_unique(n2, i);
            if i == names.len() {
                assert(a == x);
            } else {
                assert(names[i] == a);
            }
        }
    }
    assert(m1.dom() =~= m0.dom());
    assert forall|a: K| #[trigger] m1.dom().contains(a) implies m1[a] == m0[a] by {
        let i = names.index_of(a);
        lemma_index_of_unique(names, i);
        lemma_index_of_unique(n2, i);
        assert(n2.index_of(a) == i);
        assert(row_names(n2, rows[i]) =~= row_names(names, rows[i]));
    }
    assert(m1 =~= m0);
}

impl IndexGraph {
    /// A graph without nodes.
    pub fn empty() -> (g: Self)
        ensures
            g.rows@.len() == 0,
            g.is_key@.len() == 0,
    {
        IndexGraph { rows: Vec::new(), is_key: Vec::new() }
    }

    /// Adds a node without edges.
    pub fn add_node(&mut self)
        requires
            old(self).rows.len() < usize::MAX,
        ensures
            final(self).rows.deep_view() == old(self).rows.deep_view().push(Seq::empty()),
            final(self).is_key@ == old(self).is_key@.push(false),
    {
        let ghost before = self.rows.deep_view();
        let row: Vec<usize> = Vec::new();
        assert(row.deep_view() =~= Seq::<usize>::empty());
        self.rows.push(row);
        self.is_key.push(false);
        proof {
            assert(self.rows.deep_view() =~= before.push(Seq::empty()));
        }
    }

    /// Marks node `k` as a key with the edges `row`.
    pub fn set_row(&mut self, k: usize, row: Vec<usize>)
        requires
            k < old(self).rows.len(),
            k < old(self).is_key.len(),
        ensures
            final(self).rows.deep_view() == old(self).rows.deep_view().update(k as int, row@),
            final(self).is_key@ == old(self).is_key@.update(k as int, true),
    {
        let ghost before = self.rows.deep_view();
        assert(row.deep_view() =~= row@);
        self.rows.set(k, row);
        self.is_key.set(k, true);
        proof {
            assert(self.rows.deep_view() =~= before.update(k as int, row@));
        }
    }
}

} // verus!
