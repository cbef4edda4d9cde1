//! The dependency graph of a project's modules.
//!
//! Each module of the project is a key with edges to the modules it names
//! as dependencies; a later module of the same name replaces an earlier
//! one.  Names that are only depended on are nodes without edges.

use vstd::prelude::*;
use vstd::string::StringExecFns;
use crate::ue::module::UEModule;
use crate::ue::project::UEProject;
use crate::util::graph::{
    find_cycles, is_rotation, lemma_num_true_none, lemma_path_nodes, lemma_pre_fuel, longest_simple_walk,
    reachable_from, simple_walk,
};
use crate::util::named_graph::{
    entry_or_empty, graph_map, graph_wf, lemma_add_name, lemma_graph_indexes, lemma_index_of_unique,
    entries_distinct, lemma_name_pre, lemma_rows_distinct, lemma_set_row, map_rel, marked_names,
    name_pre, preorder_settles, row_names, IndexGraph,
};
use crate::util::relation::{
    indexes, lemma_cycle_down, lemma_cycle_up, lemma_reach_named, lemma_reachable_names,
    cycle_meets, lemma_cycles_meet_names, lemma_rotation_names, lemma_simple_walk_down, lemma_simple_walk_up, name_walk, rel_cycle, rel_has_cycle, rel_path,
    rel_reachable, rel_simple_walk,
};
use crate::util::text::str_eq;

verus! {

broadcast use {vstd::seq_lib::group_to_multiset_ensures, vstd::multiset::group_multiset_axioms};

/// Kind of module dependency.
#[derive(Debug, Clone, Copy, PartialEq, Eq, Hash, Structural)]
pub enum DependencyKind {
    /// Public dependency (PublicDependencyModuleNames).
    Public,
    /// Private dependency (PrivateDependencyModuleNames).
    Private,
    /// Dynamic load dependency.
    Dynamic,
    /// Circular dependency (an error).
    Circular,
}

/// One dependency edge between modules.
#[derive(Debug, Clone)]
pub struct ModuleDependency {
    pub from_module: String,
    pub to_module: String,
    pub kind: DependencyKind,
    pub depth: usize,
}

/// The dependency graph of a project's modules, with the reverse edges and
/// the cycles found in it.
pub struct ModuleDependencyGraph {
    names: Vec<String>,
    graph: IndexGraph,
    dependencies: Vec<Vec<ModuleDependency>>,
    reverse_deps: Vec<Vec<String>>,
    circular_deps: Vec<Vec<String>>,
}

/// The map from module name to the names of its dependencies that a list
/// of modules gives; a later module of the same name replaces an earlier one.
pub open spec fn modules_graph(ms: Seq<UEModule>) -> Map<Seq<char>, Seq<Seq<char>>>
    decreases ms.len(),
{
    if ms.len() == 0 {
        Map::empty()
    } else {
        modules_graph(ms.drop_last()).insert(ms.last().name@, ms.last().dependencies.deep_view())
    }
}

/// Whether `recs` are the dependency records from `from` to each of `to`,
/// in order: public, at depth 0.
pub open spec fn records_match(recs: Seq<ModuleDependency>, from: Seq<char>, to: Seq<Seq<char>>) -> bool {
    &&& recs.len() == to.len()
    &&& forall|k: int|
        0 <= k < recs.len() ==> (#[trigger] recs[k]).from_module@ == from && recs[k].to_module@
            == to[k] && recs[k].kind == DependencyKind::Public && recs[k].depth == 0
}

/// How often `x` occurs in `s`.
pub open spec fn occurrences<A>(s: Seq<A>, x: A) -> nat {
    s.to_multiset().count(x)
}

/// Mapping indices to names that are all different keeps how often each
/// index occurs.
proof fn lemma_row_names_count(names: Seq<Seq<char>>, r: Seq<usize>, j: usize)
    requires
        names.no_duplicates(),
        j < names.len(),
        forall|t: int| 0 <= t < r.len() ==> r[t] < names.len(),
    ensures
        occurrences(row_names(names, r), names[j as int]) == occurrences(r, j),
    decreases r.len(),
{
    if r.len() > 0 {
        let s = r.drop_last();
        lemma_row_names_count(names, s, j);
        assert(r =~= s.push(r.last()));
        assert(row_names(names, r) =~= row_names(names, s).push(names[r.last() as int]));
        if r.last() != j {
            assert(names[r.last() as int] != names[j as int]);
        }
    }
}

/// How often `names[i]` should occur among the sources recorded for node
/// `j` once rows `0..i` and the first `k` entries of row `i` are done.
spec fn sources_done(names: Seq<Seq<char>>, rows: Seq<Seq<usize>>, i: int, k: int, j: usize, a: Seq<
    char,
>) -> nat {
    if names.contains(a) {
        let t = names.index_of(a);
        if t < i {
            occurrences(rows[t], j)
        } else if t == i {
            occurrences(rows[i].subrange(0, k), j)
        } else {
            0
        }
    } else {
        0
    }
}

impl View for ModuleDependencyGraph {
    type V = Map<Seq<char>, Seq<Seq<char>>>;

    /// The map from each module name to the names of its dependencies.
    closed spec fn view(&self) -> Map<Seq<char>, Seq<Seq<char>>> {
        graph_map(self.names.deep_view(), self.graph.is_key@, self.graph.rows.deep_view())
    }
}

impl ModuleDependencyGraph {
    /// Whether the name table, the edges and the dependency records fit.
    closed spec fn table_wf(&self) -> bool {
        let names = self.names.deep_view();
        let rows = self.graph.rows.deep_view();
        &&& graph_wf(names, self.graph.is_key@, rows)
        &&& self.dependencies.len() == names.len()
        &&& forall|i: int|
            0 <= i < names.len() ==> records_match(
                #[trigger] self.dependencies@[i]@,
                names[i],
                row_names(names, rows[i]),
            )
    }

    /// The sources recorded for each node are those of its incoming edges.
    closed spec fn reverse_wf(&self) -> bool {
        let names = self.names.deep_view();
        let rows = self.graph.rows.deep_view();
        &&& self.reverse_deps.len() == names.len()
        &&& forall|j: int, a: Seq<char>|
            0 <= j < names.len() ==> #[trigger] occurrences(self.reverse_deps@[j].deep_view(), a)
                == sources_done(names, rows, names.len() as int, 0, j as usize, a)
    }

    /// Whether the graph is well formed: the table fits, the reverse edges
    /// match the edges, and the recorded cycles are cycles that pass no
    /// module twice, found whenever there is one.
    pub closed spec fn wf(&self) -> bool {
        &&& self.table_wf()
        &&& self.reverse_wf()
        &&& cycles_ok(self@, self.circular_deps.deep_view())
    }

    /// The cycles recorded by the last build.
    pub closed spec fn cycles(&self) -> Seq<Seq<Seq<char>>> {
        self.circular_deps.deep_view()
    }

    /// An empty graph.
    pub fn new() -> (res: Self)
        ensures
            res.wf(),
            res@ == Map::<Seq<char>, Seq<Seq<char>>>::empty(),
    {
        let res = ModuleDependencyGraph {
            names: Vec::new(),
            graph: IndexGraph::empty(),
            dependencies: Vec::new(),
            reverse_deps: Vec::new(),
            circular_deps: Vec::new(),
        };
        proof {
            assert(res@ =~= Map::<Seq<char>, Seq<Seq<char>>>::empty());
            if rel_has_cycle(map_rel(res@)) {
                let c = choose|c: Seq<Seq<char>>| #[trigger] rel_cycle(map_rel(res@), c);
                assert(map_rel(res@)(c[c.len() - 1], c[0]));
            }
            assert(res.circular_deps.deep_view() =~= Seq::<Seq<Seq<char>>>::empty());
            reveal(cycles_ok);
        }
        res
    }

    /// The index of `name` in the table, if it is there.
    fn find_name(&self, name: &str) -> (res: Option<usize>)
        requires
            self.names.deep_view().no_duplicates(),
        ensures
            res matches Some(i) ==> i < self.names.len() && self.names.deep_view()[i as int] == name@,
            res is None ==> !self.names.deep_view().contains(name@),
    {
        let mut i: usize = 0;
        while i < self.names.len()
            invariant
                i <= self.names.len(),
                forall|t: int| 0 <= t < i ==> self.names.deep_view()[t] != name@,
            decreases self.names.len() - i,
        {
            if str_eq(self.names[i].as_str(), name) {
                return Some(i);
            }
            i = i + 1;
        }
        None
    }

    /// The index of `name`, added to the table as a node without edges when
    /// it is not there yet.
    fn node_of(&mut self, name: &str) -> (res: usize)
        requires
            old(self).table_wf(),
            old(self).names.len() < usize::MAX,
        ensures
            final(self).table_wf(),
            final(self)@ == old(self)@,
            res < final(self).names.len(),
            final(self).names.deep_view()[res as int] == name@,
            final(self).names.len() <= old(self).names.len() + 1,
            old(self).names.deep_view().is_prefix_of(final(self).names.deep_view()),
            final(self).reverse_deps == old(self).reverse_deps,
            final(self).circular_deps == old(self).circular_deps,
    {
        match self.find_name(name) {
            Some(i) => i,
            None => {
                let ghost names0 = self.names.deep_view();
                let ghost rows0 = self.graph.rows.deep_view();
                let ghost keys0 = self.graph.is_key@;
                let ghost deps0 = self.dependencies@;
                proof {
                    lemma_add_name(names0, keys0, rows0, name@);
                }
                let n = self.names.len();
                self.names.push(String::from_str(name));
                self.graph.add_node();
                self.dependencies.push(Vec::new());
                proof {
                    let names1 = self.names.deep_view();
                    assert(names1 =~= names0.push(name@));
                    assert forall|i: int| 0 <= i < names1.len() implies records_match(
                        #[trigger] self.dependencies@[i]@,
                        names1[i],
                        row_names(names1, self.graph.rows.deep_view()[i]),
                    ) by {
                        if i < n {
                            assert(self.dependencies@[i] == deps0[i]);
                            assert(row_names(names1, rows0[i]) =~= row_names(names0, rows0[i]));
                        } else {
                            assert(row_names(names1, self.graph.rows.deep_view()[i]) =~= Seq::<
                                Seq<char>,
                            >::empty());
                        }
                    }
                    assert(names0.is_prefix_of(names1));
                }
                n
            },
        }
    }

    /// Records `module` as the key of its name, with an edge to each of its
    /// dependencies.
    fn add_module_dependencies(&mut self, module: &UEModule)
        requires
            old(self).table_wf(),
            old(self).names.len() + module.dependencies.len() + 1 <= usize::MAX,
        ensures
            final(self).table_wf(),
            final(self)@ == old(self)@.insert(module.name@, module.dependencies.deep_view()),
            final(self).names.len() <= old(self).names.len() + module.dependencies.len() + 1,
            final(self).reverse_deps == old(self).reverse_deps,
            final(self).circular_deps == old(self).circular_deps,
    {
        let ghost m0 = self@;
        let key = self.node_of(module.name.as_str());
        let ghost n_key = self.names.len();
        let mut row: Vec<usize> = Vec::new();
        let mut records: Vec<ModuleDependency> = Vec::new();
        let mut i: usize = 0;
        while i < module.dependencies.len()
            invariant
                self.table_wf(),
                self@ == m0,
                key < self.names.len(),
                self.names.deep_view()[key as int] == module.name@,
                i <= module.dependencies.len(),
                self.names.len() <= n_key + i,
                n_key + module.dependencies.len() <= usize::MAX,
                row.len() == i,
                forall|t: int| 0 <= t < i ==> #[trigger] row@[t] < self.names.len(),
                row_names(self.names.deep_view(), row@) == module.dependencies.deep_view().subrange(
                    0,
                    i as int,
                ),
                records_match(
                    records@,
                    module.name@,
                    module.dependencies.deep_view().subrange(0, i as int),
                ),
                self.reverse_deps == old(self).reverse_deps,
                self.circular_deps == old(self).circular_deps,
            decreases module.dependencies.len() - i,
        {
            let ghost names_before = self.names.deep_view();
            let ghost row_before = row@;
            let target = self.node_of(module.dependencies[i].as_str());
            let ghost names_after = self.names.deep_view();
            row.push(target);
            records.push(
                ModuleDependency {
                    from_module: module.name.clone(),
                    to_module: module.dependencies[i].clone(),
                    kind: DependencyKind::Public,
                    depth: 0,
                },
            );
            proof {
                let ds = module.dependencies.deep_view();
                assert(ds.subrange(0, i + 1) =~= ds.subrange(0, i as int).push(ds[i as int]));
                assert(row@ == row_before.push(target));
                assert(row_names(names_after, row@) =~= ds.subrange(0, i + 1)) by {
                    assert forall|t: int| 0 <= t < i + 1 implies row_names(names_after, row@)[t]
                        == ds.subrange(0, i + 1)[t] by {
                        if t < i {
                            assert(row_before[t] < names_before.len());
                            assert(row_names(names_before, row_before)[t] == ds.subrange(0, i as int)[t]);
                            assert(names_after[row_before[t] as int] == names_before[row_before[t] as int]);
                        }
                    }
                }
            }
            i = i + 1;
        }
        let ghost names = self.names.deep_view();
        let ghost keys = self.graph.is_key@;
        let ghost rows = self.graph.rows.deep_view();
        let ghost deps_before = self.dependencies@;
        proof {
            assert(module.dependencies.deep_view().subrange(0, i as int) =~= module.dependencies.deep_view());
            lemma_set_row(names, keys, rows, key as int, row@);
        }
        self.graph.set_row(key, row);
        self.dependencies.set(key, records);
        proof {
            let rows1 = self.graph.rows.deep_view();
            assert forall|t: int| 0 <= t < names.len() implies records_match(
                #[trigger] self.dependencies@[t]@,
                names[t],
                row_names(names, rows1[t]),
            ) by {
                if t != key as int {
                    assert(self.dependencies@[t] == deps_before[t]);
                }
            }
        }
    }

    /// Records, for every edge, its source among the sources of its target.
    fn build_reverse_dependencies(&mut self)
        requires
            old(self).table_wf(),
        ensures
            final(self).table_wf(),
            final(self).reverse_wf(),
            final(self)@ == old(self)@,
            final(self).circular_deps == old(self).circular_deps,
    {
        let n = self.names.len();
        let ghost names = self.names.deep_view();
        let ghost rows = self.graph.rows.deep_view();
        let mut rev: Vec<Vec<String>> = Vec::new();
        let mut j: usize = 0;
        while j < n
            invariant
                j <= n,
                rev.len() == j,
                forall|t: int| 0 <= t < j ==> #[trigger] rev@[t]@.len() == 0,
            decreases n - j,
        {
            rev.push(Vec::new());
            j = j + 1;
        }
        proof {
            assert forall|t: int, a: Seq<char>| 0 <= t < n implies #[trigger] occurrences(
                rev@[t].deep_view(),
                a,
            ) == sources_done(names, rows, 0, 0, t as usize, a) by {
                assert(rev@[t].deep_view() =~= Seq::<Seq<char>>::empty());
                if names.contains(a) {
                    let u = names.index_of(a);
                    if u == 0 {
                        assert(rows[0].subrange(0, 0) =~= Seq::<usize>::empty());
                    }
                }
            }
        }
        let mut i: usize = 0;
        while i < n
            invariant
                self.table_wf(),
                names == self.names.deep_view(),
                rows == self.graph.rows.deep_view(),
                n == names.len(),
                i <= n,
                rev.len() == n,
                forall|t: int, a: Seq<char>|
                    0 <= t < n ==> #[trigger] occurrences(rev@[t].deep_view(), a) == sources_done(
                        names,
                        rows,
                        i as int,
                        0,
                        t as usize,
                        a,
                    ),
            decreases n - i,
        {
            let row = &self.graph.rows[i];
            assert(row@ == rows[i as int]);
            let mut k: usize = 0;
            while k < row.len()
                invariant
                    self.table_wf(),
                    names == self.names.deep_view(),
                    rows == self.graph.rows.deep_view(),
                    n == names.len(),
                    i < n,
                    row@ == rows[i as int],
                    k <= row.len(),
                    rev.len() == n,
                    forall|t: int, a: Seq<char>|
                        0 <= t < n ==> #[trigger] occurrences(rev@[t].deep_view(), a)
                            == sources_done(names, rows, i as int, k as int, t as usize, a),
                decreases row.len() - k,
            {
                let target = row[k];
                assert(target < n);
                let ghost rev_before = rev@;
                let source = self.names[i].clone();
                rev[target].push(source);
                proof {
                    lemma_index_of_unique(names, i as int);
                    assert(rows[i as int].subrange(0, k + 1) =~= rows[i as int].subrange(
                        0,
                        k as int,
                    ).push(target));
                    assert forall|t: int, a: Seq<char>| 0 <= t < n implies #[trigger] occurrences(
                        rev@[t].deep_view(),
                        a,
                    ) == sources_done(names, rows, i as int, k + 1, t as usize, a) by {
                        assert(occurrences(rev_before[t].deep_view(), a) == sources_done(
                            names,
                            rows,
                            i as int,
                            k as int,
                            t as usize,
                            a,
                        ));
                        if t == target as int {
                            assert(rev@[t].deep_view() =~= rev_before[t].deep_view().push(
                                names[i as int],
                            ));
                        } else {
                            assert(rev@[t] == rev_before[t]);
                        }
                        if names.contains(a) {
                            let u = names.index_of(a);
                            lemma_index_of_unique(names, u);
                        }
                    }
                }
                k = k + 1;
            }
            proof {
                assert(rows[i as int].subrange(0, k as int) =~= rows[i as int]);
                assert forall|t: int, a: Seq<char>| 0 <= t < n implies #[trigger] occurrences(
                    rev@[t].deep_view(),
                    a,
                ) == sources_done(names, rows, i + 1, 0, t as usize, a) by {
                    if names.contains(a) {
                        let u = names.index_of(a);
                        if u == i + 1 {
                            assert(rows[u].subrange(0, 0) =~= Seq::<usize>::empty());
                        }
                    }
                }
            }
            i = i + 1;
        }
        self.reverse_deps = rev;
    }

    /// Records every cycle that a depth-first search of the graph meets.
    fn detect_circular_dependencies(&mut self)
        requires
            old(self).table_wf(),
            old(self).reverse_wf(),
        ensures
            final(self).wf(),
            final(self)@ == old(self)@,
    {
        let ghost names = self.names.deep_view();
        let ghost rel = map_rel(self@);
        proof {
            lemma_graph_indexes(names, self.graph.is_key@, self.graph.rows.deep_view());
        }
        let found = find_cycles(&self.graph.rows);
        let mut out: Vec<Vec<String>> = Vec::new();
        let mut k: usize = 0;
        while k < found.len()
            invariant
                self.table_wf(),
                names == self.names.deep_view(),
                rel == map_rel(self@),
                indexes(self.graph.rows.deep_view(), names, rel),
                k <= found.len(),
                out.len() == k,
                forall|t: int|
                    0 <= t < k ==> #[trigger] out.deep_view()[t] == name_walk(
                        names,
                        found.deep_view()[t],
                    ),
                forall|t: int|
                    0 <= t < found.len() ==> crate::util::graph::is_cycle(
                        self.graph.rows.deep_view(),
                        #[trigger] found.deep_view()[t],
                    ) && found.deep_view()[t].no_duplicates(),
            decreases found.len() - k,
        {
            let cycle = &found[k];
            let ghost c = found.deep_view()[k as int];
            assert(cycle@ == c);
            proof {
                assert forall|t: int| 0 <= t < c.len() implies c[t] < names.len() by {
                    lemma_cycle_down(self.graph.rows.deep_view(), names, rel, c);
                    if t < c.len() - 1 {
                        assert(crate::util::graph::edge(self.graph.rows.deep_view(), c[t], c[t + 1]));
                    } else {
                        assert(crate::util::graph::edge(self.graph.rows.deep_view(), c[t], c[0]));
                    }
                }
            }
            let mut names_out: Vec<String> = Vec::new();
            let mut t: usize = 0;
            while t < cycle.len()
                invariant
                    names == self.names.deep_view(),
                    cycle@ == c,
                    forall|u: int| 0 <= u < c.len() ==> c[u] < names.len(),
                    t <= cycle.len(),
                    names_out.deep_view() == name_walk(names, c.subrange(0, t as int)),
                decreases cycle.len() - t,
            {
                let ghost before = names_out.deep_view();
                names_out.push(self.names[cycle[t]].clone());
                proof {
                    assert(names_out.deep_view() =~= before.push(names[c[t as int] as int]));
                    assert(name_walk(names, c.subrange(0, t + 1)) =~= name_walk(
                        names,
                        c.subrange(0, t as int),
                    ).push(names[c[t as int] as int]));
                }
                t = t + 1;
            }
            proof {
                assert(c.subrange(0, t as int) =~= c);
            }
            let ghost out_before = out.deep_view();
            out.push(names_out);
            proof {
                assert forall|u: int| 0 <= u < k + 1 implies #[trigger] out.deep_view()[u]
                    == name_walk(names, found.deep_view()[u]) by {
                    if u < k {
                        assert(out.deep_view()[u] == out_before[u]);
                    }
                }
            }
            k = k + 1;
        }
        self.circular_deps = out;
        proof {
            reveal(cycles_ok);
            let rows = self.graph.rows.deep_view();
            assert forall|t: int| 0 <= t < self.circular_deps.len() implies rel_cycle(
                map_rel(self@),
                #[trigger] self.circular_deps.deep_view()[t],
            ) && self.circular_deps.deep_view()[t].no_duplicates() by {
                lemma_cycle_down(rows, names, rel, found.deep_view()[t]);
            }
            if self.circular_deps.len() == 0 {
                if rel_has_cycle(rel) {
                    lemma_cycle_up(rows, names, rel);
                }
            } else {
                let c = self.circular_deps.deep_view()[0];
                assert(rel_cycle(rel, c));
            }
            assert forall|q: Seq<Seq<char>>| #[trigger] rel_cycle(rel, q) implies cycle_meets(
                self.circular_deps.deep_view(),
                q,
            ) by {
                lemma_cycles_meet_names(rows, names, rel, found.deep_view(), self.circular_deps.deep_view(), q);
            }
            if entries_distinct(self@) {
                lemma_rows_distinct(names, self.graph.is_key@, rows);
                let cs = self.circular_deps.deep_view();
                assert forall|k1: int, k2: int|
                    0 <= k1 < cs.len() && 0 <= k2 < cs.len() && k1 != k2 implies !is_rotation(
                    #[trigger] cs[k1],
                    #[trigger] cs[k2],
                ) by {
                    let f = found.deep_view();
                    assert(!is_rotation(f[k1], f[k2]));
                    assert forall|t: int| 0 <= t < f[k1].len() implies f[k1][t] < names.len() by {
                        if t < f[k1].len() - 1 {
                            assert(crate::util::graph::edge(rows, f[k1][t], f[k1][t + 1]));
                        } else {
                            assert(crate::util::graph::edge(rows, f[k1][t], f[k1][0]));
                        }
                    }
                    assert forall|t: int| 0 <= t < f[k2].len() implies f[k2][t] < names.len() by {
                        if t < f[k2].len() - 1 {
                            assert(crate::util::graph::edge(rows, f[k2][t], f[k2][t + 1]));
                        } else {
                            assert(crate::util::graph::edge(rows, f[k2][t], f[k2][0]));
                        }
                    }
                    if is_rotation(cs[k1], cs[k2]) {
                        lemma_rotation_names(names, f[k1], f[k2]);
                    }
                }
            }
        }
    }

    /// Rebuilds the graph from the modules of `project`: every module becomes
    /// the key of its name, with an edge to each of its dependencies; then
    /// the reverse edges and the cycles are recorded.
    pub fn build_from_project(&mut self, project: &UEProject)
        requires
            modules_size(project.modules@) < usize::MAX,
        ensures
            final(self).wf(),
            final(self)@ == modules_graph(project.modules@),
    {
        let mut g = ModuleDependencyGraph {
            names: Vec::new(),
            graph: IndexGraph::empty(),
            dependencies: Vec::new(),
            reverse_deps: Vec::new(),
            circular_deps: Vec::new(),
        };
        proof {
            assert(g.names.deep_view() =~= Seq::<Seq<char>>::empty());
            assert(g@ =~= Map::<Seq<char>, Seq<Seq<char>>>::empty());
            assert(project.modules@.subrange(0, 0) =~= Seq::<UEModule>::empty());
        }
        let mut i: usize = 0;
        while i < project.modules.len()
            invariant
                i <= project.modules.len(),
                g.table_wf(),
                g@ == modules_graph(project.modules@.subrange(0, i as int)),
                g.names.len() <= modules_size(project.modules@.subrange(0, i as int)),
                modules_size(project.modules@) < usize::MAX,
            decreases project.modules.len() - i,
        {
            proof {
                lemma_modules_size_prefix(project.modules@, i as int);
            }
            g.add_module_dependencies(&project.modules[i]);
            proof {
                let ms = project.modules@.subrange(0, i + 1);
                assert(ms.drop_last() =~= project.modules@.subrange(0, i as int));
            }
            i = i + 1;
        }
        proof {
            assert(project.modules@.subrange(0, i as int) =~= project.modules@);
        }
        g.build_reverse_dependencies();
        g.detect_circular_dependencies();
        *self = g;
    }

    /// The dependency records of `module`: one per dependency, in order,
    /// from `module`, public, at depth 0; `None` when no module of that name
    /// was recorded.
    pub fn get_dependencies(&self, module: &str) -> (res: Option<&Vec<ModuleDependency>>)
        requires
            self.wf(),
        ensures
            res is Some <==> self@.dom().contains(module@),
            res matches Some(v) ==> records_match(v@, module@, self@[module@]),
    {
        match self.find_name(module) {
            Some(i) => {
                proof {
                    lemma_index_of_unique(self.names.deep_view(), i as int);
                }
                if self.graph.is_key[i] {
                    assert(records_match(self.dependencies@[i as int]@, module@, self@[module@]));
                    Some(&self.dependencies[i])
                } else {
                    None
                }
            },
            None => None,
        }
    }

    /// The modules that depend on `module`, each as often as it names
    /// `module` among its dependencies; `None` when no module does.
    pub fn get_reverse_dependencies(&self, module: &str) -> (res: Option<&Vec<String>>)
        requires
            self.wf(),
        ensures
            res is Some <==> exists|a: Seq<char>|
                self@.dom().contains(a) && #[trigger] self@[a].contains(module@),
            res matches Some(v) ==> forall|a: Seq<char>|
                #[trigger] occurrences(v.deep_view(), a) == if self@.dom().contains(a) {
                    occurrences(self@[a], module@)
                } else {
                    0
                },
    {
        let ghost names = self.names.deep_view();
        let ghost rows = self.graph.rows.deep_view();
        match self.find_name(module) {
            Some(j) => {
                let ghost v = self.reverse_deps@[j as int].deep_view();
                proof {
                    assert forall|a: Seq<char>| #[trigger] occurrences(v, a) == if self@.dom().contains(a) {
                        occurrences(self@[a], module@)
                    } else {
                        0
                    } by {
                        assert(occurrences(v, a) == sources_done(names, rows, names.len() as int, 0, j, a));
                        if names.contains(a) {
                            let t = names.index_of(a);
                            lemma_index_of_unique(names, t);
                            lemma_row_names_count(names, rows[t], j);
                            if !self.graph.is_key@[t] {
                                assert(rows[t] =~= Seq::<usize>::empty());
                            }
                        }
                    }
                    if exists|a: Seq<char>| self@.dom().contains(a) && #[trigger] self@[a].contains(module@) {
                        let a = choose|a: Seq<char>| self@.dom().contains(a) && #[trigger] self@[a].contains(module@);
                        assert(occurrences(self@[a], module@) > 0);
                        assert(occurrences(v, a) > 0);
                        assert(v.len() > 0);
                    }
                    if v.len() > 0 {
                        let a = v[0];
                        assert(v.contains(a));
                        assert(occurrences(v, a) > 0);
                        assert(self@.dom().contains(a));
                        assert(occurrences(self@[a], module@) > 0);
                        assert(self@[a].contains(module@));
                    }
                }
                if self.reverse_deps[j].len() > 0 {
                    Some(&self.reverse_deps[j])
                } else {
                    None
                }
            },
            None => {
                proof {
                    if exists|a: Seq<char>| self@.dom().contains(a) && #[trigger] self@[a].contains(module@) {
                        let a = choose|a: Seq<char>| self@.dom().contains(a) && #[trigger] self@[a].contains(module@);
                        let t = names.index_of(a);
                        let rn = row_names(names, rows[t]);
                        let k = choose|k: int| 0 <= k < rn.len() && rn[k] == module@;
                        assert(rows[t][k] < names.len());
                        assert(names[rows[t][k] as int] == module@);
                        assert(names.contains(module@));
                    }
                }
                None
            },
        }
    }

    /// The cycles that the last build found, none passing a module twice;
    /// when no module lists a dependency twice, none is listed twice, not
    /// even rotated.
    pub fn get_circular_dependencies(&self) -> (res: &Vec<Vec<String>>)
        requires
            self.wf(),
        ensures
            forall|k: int| 0 <= k < res.len() ==> rel_cycle(map_rel(self@), #[trigger] res.deep_view()[k])
                && res.deep_view()[k].no_duplicates(),
            entries_distinct(self@) ==> forall|k1: int, k2: int|
                0 <= k1 < res.len() && 0 <= k2 < res.len() && k1 != k2 ==> !is_rotation(
                    #[trigger] res.deep_view()[k1],
                    #[trigger] res.deep_view()[k2],
                ),
            forall|q: Seq<Seq<char>>| #[trigger] rel_cycle(map_rel(self@), q) ==> cycle_meets(res.deep_view(), q),
            res.len() == 0 <==> !rel_has_cycle(map_rel(self@)),
    {
        proof {
            reveal(cycles_ok);
        }
        &self.circular_deps
    }

    /// Every module that `module` depends on, directly or through others,
    /// once each, in the order a depth-first walk from `module` that follows
    /// each module's dependencies in order first meets them; `module` itself
    /// is not among them.
    pub fn get_transitive_dependencies(&self, module: &str) -> (res: Vec<String>)
        requires
            self.wf(),
        ensures
            res.deep_view().no_duplicates(),
            forall|x: Seq<char>|
                #[trigger] res.deep_view().contains(x) <==> x != module@ && rel_reachable(
                    map_rel(self@),
                    module@,
                    x,
                ),
            exists|f0: nat| preorder_settles(self@, module@, f0, res.deep_view()),
    {
        let ghost names = self.names.deep_view();
        let ghost rows = self.graph.rows.deep_view();
        let ghost rel = map_rel(self@);
        proof {
            lemma_graph_indexes(names, self.graph.is_key@, rows);
        }
        match self.find_name(module) {
            Some(s) => {
                let found = reachable_from(&self.graph.rows, s);
                let mut out: Vec<String> = Vec::new();
                let mut k: usize = 0;
                while k < found.len()
                    invariant
                        names == self.names.deep_view(),
                        k <= found.len(),
                        forall|t: int| 0 <= t < found.len() ==> found@[t] < names.len(),
                        out.deep_view() == name_walk(names, found@.subrange(0, k as int)),
                    decreases found.len() - k,
                {
                    let ghost before = out.deep_view();
                    out.push(self.names[found[k]].clone());
                    proof {
                        assert(out.deep_view() =~= before.push(names[found@[k as int] as int]));
                        assert(name_walk(names, found@.subrange(0, k + 1)) =~= name_walk(
                            names,
                            found@.subrange(0, k as int),
                        ).push(names[found@[k as int] as int]));
                    }
                    k = k + 1;
                }
                proof {
                    assert(found@.subrange(0, k as int) =~= found@);
                    let o = out.deep_view();
                    assert forall|a: int, b: int| 0 <= a < b < o.len() implies o[a] != o[b] by {
                        assert(found@[a] != found@[b]);
                    }
                    assert forall|x: Seq<char>| #[trigger] o.contains(x) <==> x != module@ && rel_reachable(
                        rel,
                        module@,
                        x,
                    ) by {
                        if o.contains(x) {
                            let t = choose|t: int| 0 <= t < o.len() && o[t] == x;
                            let v = found@[t];
                            assert(found@.contains(v));
                            lemma_reachable_names(rows, names, rel, s, v);
                            if x == module@ {
                                assert(names[v as int] == names[s as int]);
                            }
                        }
                        if x != module@ && rel_reachable(rel, module@, x) {
                            lemma_reach_named(rows, names, rel, module@, x);
                            let v = names.index_of(x);
                            lemma_index_of_unique(names, v);
                            lemma_reachable_names(rows, names, rel, s, v as usize);
                            assert(v as usize != s);
                            assert(found@.contains(v as usize));
                            let t = choose|t: int| 0 <= t < found@.len() && found@[t] == v as usize;
                            assert(o[t] == x);
                        }
                    }
                    let n = names.len();
                    let none = Seq::new(n as nat, |i: int| false);
                    lemma_num_true_none(none);
                    assert(marked_names(names, none) =~= Set::<Seq<char>>::empty());
                    assert(name_walk(names, Seq::<usize>::empty()) =~= Seq::<Seq<char>>::empty());
                    assert(o == name_walk(names, found@));
                    assert forall|f: nat| f >= n + 1 implies #[trigger] name_pre(
                        self@,
                        module@,
                        module@,
                        Set::<Seq<char>>::empty(),
                        Seq::<Seq<char>>::empty(),
                        f,
                    ).1 == o by {
                        lemma_pre_fuel(rows, s, s, none, Seq::<usize>::empty(), f, (n + 1) as nat);
                        lemma_name_pre(names, self.graph.is_key@, rows, s, s, none, Seq::<usize>::empty(), f);
                    }
                    assert(preorder_settles(self@, module@, (n + 1) as nat, o));
                }
                out
            },
            None => {
                proof {
                    assert forall|x: Seq<char>| !rel_reachable(rel, module@, x) by {
                        if rel_reachable(rel, module@, x) {
                            lemma_reach_named(rows, names, rel, module@, x);
                        }
                    }
                }
                let out: Vec<String> = Vec::new();
                assert(out.deep_view() =~= Seq::<Seq<char>>::empty());
                proof {
                    assert(!self@.dom().contains(module@));
                    assert forall|f: nat| f >= 1 implies #[trigger] name_pre(
                        self@,
                        module@,
                        module@,
                        Set::<Seq<char>>::empty(),
                        Seq::<Seq<char>>::empty(),
                        f,
                    ).1 == out.deep_view() by {
                        assert(entry_or_empty(self@, module@) =~= Seq::<Seq<char>>::empty());
                    }
                    assert(preorder_settles(self@, module@, 1, out.deep_view()));
                }
                out
            },
        }
    }

    /// The length of the longest dependency path from `module`: the number
    /// of steps of the longest walk along dependencies from `module` that
    /// repeats no module.  It is zero for a module without dependencies and
    /// for a name the graph does not know.
    pub fn get_module_depth(&self, module: &str) -> (res: usize)
        requires
            self.wf(),
        ensures
            exists|p: Seq<Seq<char>>| #[trigger] rel_simple_walk(map_rel(self@), module@, p) && p.len() == res + 1,
            forall|p: Seq<Seq<char>>| #[trigger] rel_simple_walk(map_rel(self@), module@, p) ==> p.len() <= res + 1,
            res >= 1 <==> exists|v: Seq<char>| v != module@ && #[trigger] map_rel(self@)(module@, v),
    {
        let ghost names = self.names.deep_view();
        let ghost rows = self.graph.rows.deep_view();
        let ghost rel = map_rel(self@);
        proof {
            lemma_graph_indexes(names, self.graph.is_key@, rows);
        }
        let res = match self.find_name(module) {
            Some(s) => {
                let d = longest_simple_walk(&self.graph.rows, s);
                proof {
                    let p = choose|p: Seq<usize>| #[trigger] simple_walk(rows, s, p) && p.len() == d + 1;
                    lemma_path_nodes(rows, p);
                    lemma_simple_walk_down(rows, names, rel, p);
                    let q = name_walk(names, p);
                    assert(rel_simple_walk(rel, module@, q));
                    lemma_index_of_unique(names, s as int);
                    assert forall|q: Seq<Seq<char>>| #[trigger] rel_simple_walk(rel, module@, q) implies q.len()
                        <= d + 1 by {
                        assert(names.contains(q[0])) by {
                            assert(names[s as int] == q[0]);
                        }
                        lemma_simple_walk_up(rows, names, rel, q);
                        assert(simple_walk(rows, s, crate::util::relation::index_walk(names, q)));
                    }
                }
                d
            },
            None => {
                proof {
                    let p = seq![module@];
                    assert(rel_simple_walk(rel, module@, p));
                    assert forall|q: Seq<Seq<char>>| #[trigger] rel_simple_walk(rel, module@, q) implies q.len()
                        <= 1 by {
                        if q.len() >= 2 {
                            assert(rel(q[0], q[0int + 1]));
                        }
                    }
                }
                0
            },
        };
        proof {
            if exists|v: Seq<char>| v != module@ && #[trigger] rel(module@, v) {
                let v = choose|v: Seq<char>| v != module@ && #[trigger] rel(module@, v);
                let q = seq![module@, v];
                assert(rel_path(rel, q)) by {
                    assert forall|i: int| 0 <= i < q.len() - 1 implies #[trigger] rel(q[i], q[i + 1]) by {
                        assert(i == 0);
                    }
                }
                assert(rel_simple_walk(rel, module@, q));
            }
            if res >= 1 {
                let p = choose|p: Seq<Seq<char>>| #[trigger] rel_simple_walk(rel, module@, p) && p.len() == res + 1;
                assert(rel(p[0], p[0int + 1]));
                assert(p[1] != p[0]);
            }
        }
        res
    }
}

/// Whether `cycles` are the cycles recorded for the graph `m`: each a cycle
/// that passes no module twice, some whenever the graph has a cycle, one
/// meeting every cycle of the graph, and none a rotation of another when no
/// module lists a dependency twice.
#[verifier::opaque]
pub open spec fn cycles_ok(m: Map<Seq<char>, Seq<Seq<char>>>, cycles: Seq<Seq<Seq<char>>>) -> bool {
    &&& forall|k: int|
        0 <= k < cycles.len() ==> rel_cycle(map_rel(m), #[trigger] cycles[k]) && cycles[k].no_duplicates()
    &&& (cycles.len() == 0 <==> !rel_has_cycle(map_rel(m)))
    &&& forall|q: Seq<Seq<char>>| #[trigger] rel_cycle(map_rel(m), q) ==> cycle_meets(cycles, q)
    &&& entries_distinct(m) ==> forall|k1: int, k2: int|
        0 <= k1 < cycles.len() && 0 <= k2 < cycles.len() && k1 != k2 ==> !is_rotation(
            #[trigger] cycles[k1],
            #[trigger] cycles[k2],
        )
}

/// The graph of a module list maps the name of each module that no later
/// module shares to that module's dependencies.
proof fn lemma_modules_graph_entry(ms: Seq<UEModule>, i: int)
    requires
        0 <= i < ms.len(),
        forall|j: int| i < j < ms.len() ==> ms[j].name@ != ms[i].name@,
    ensures
        modules_graph(ms).dom().contains(ms[i].name@),
        modules_graph(ms)[ms[i].name@] == ms[i].dependencies.deep_view(),
    decreases ms.len(),
{
    if i < ms.len() - 1 {
        assert(ms.last().name@ != ms[i].name@) by {
            assert(ms[ms.len() - 1] == ms.last());
        }
        lemma_modules_graph_entry(ms.drop_last(), i);
    }
}

/// The graph of a module list has exactly the module names as keys.
proof fn lemma_modules_graph_dom(ms: Seq<UEModule>, x: Seq<char>)
    ensures
        modules_graph(ms).dom().contains(x) <==> exists|i: int| 0 <= i < ms.len() && #[trigger] ms[i].name@ == x,
    decreases ms.len(),
{
    if ms.len() > 0 {
        lemma_modules_graph_dom(ms.drop_last(), x);
        if exists|i: int| 0 <= i < ms.drop_last().len() && #[trigger] ms.drop_last()[i].name@ == x {
            let i = choose|i: int| 0 <= i < ms.drop_last().len() && #[trigger] ms.drop_last()[i].name@ == x;
            assert(ms[i].name@ == x);
        }
        if exists|i: int| 0 <= i < ms.len() && #[trigger] ms[i].name@ == x {
            let i = choose|i: int| 0 <= i < ms.len() && #[trigger] ms[i].name@ == x;
            if i < ms.len() - 1 {
                assert(ms.drop_last()[i].name@ == x);
            }
        }
    }
}

/// What a build from a project's modules gives: the names of the modules
/// are exactly the keys; each module that no later module of the same name
/// replaces (every module, when the names are distinct) has its
/// dependencies, in order, as its entry; and each name is depended on by
/// each key as often as it occurs in that key's entry.
pub proof fn lemma_build_from_project_law(ms: Seq<UEModule>)
    ensures
        forall|x: Seq<char>|
            #[trigger] modules_graph(ms).dom().contains(x) <==> exists|i: int| 0 <= i < ms.len() && #[trigger] ms[i].name@ == x,
        forall|i: int|
            0 <= i < ms.len() && (forall|j: int| i < j < ms.len() ==> ms[j].name@ != ms[i].name@) ==> modules_graph(
                ms,
            ).dom().contains(#[trigger] ms[i].name@) && modules_graph(ms)[ms[i].name@] == ms[i].dependencies.deep_view(),
{
    assert forall|x: Seq<char>|
        #[trigger] modules_graph(ms).dom().contains(x) <==> exists|i: int| 0 <= i < ms.len() && #[trigger] ms[i].name@ == x by {
        lemma_modules_graph_dom(ms, x);
    }
    assert forall|i: int|
        0 <= i < ms.len() && (forall|j: int| i < j < ms.len() ==> ms[j].name@ != ms[i].name@) implies modules_graph(
            ms,
        ).dom().contains(#[trigger] ms[i].name@) && modules_graph(ms)[ms[i].name@] == ms[i].dependencies.deep_view() by {
        lemma_modules_graph_entry(ms, i);
    }
}

/// The number of module names and dependency names in a list of modules.
pub open spec fn modules_size(ms: Seq<UEModule>) -> nat
    decreases ms.len(),
{
    if ms.len() == 0 {
        0
    } else {
        modules_size(ms.drop_last()) + ms.last().dependencies@.len() + 1
    }
}

proof fn lemma_modules_size_prefix(ms: Seq<UEModule>, i: int)
    requires
        0 <= i < ms.len(),
    ensures
        modules_size(ms.subrange(0, i + 1)) == modules_size(ms.subrange(0, i)) + ms[i].dependencies.len() + 1,
        modules_size(ms.subrange(0, i + 1)) <= modules_size(ms),
    decreases ms.len() - i,
{
    assert(ms.subrange(0, i + 1).drop_last() =~= ms.subrange(0, i));
    if i + 1 < ms.len() {
        lemma_modules_size_prefix(ms, i + 1);
    } else {
        assert(ms.subrange(0, i + 1) =~= ms);
    }
}

impl Default for ModuleDependencyGraph {
    fn default() -> (res: Self)
        ensures
            res.wf(),
            res@ == Map::<Seq<char>, Seq<Seq<char>>>::empty(),
    {
        Self::new()
    }
}

} // verus!
