//! Project-wide dependency analysis between files.
//!
//! The graph records, for each file, the files it depends on and the files
//! that depend on it, each list in the order the edges were added.

use vstd::prelude::*;
use crate::util::graph::{
    find_cycles, has_cycle, is_cycle, is_rotation, meets, reachable, reachable_set, rows_distinct,
};
use crate::util::named_graph::{
    entries_distinct, entry_or_empty, graph_map, graph_wf, lemma_add_name, lemma_graph_indexes,
    lemma_index_of_unique, lemma_rows_distinct, lemma_set_row, map_rel, row_names, IndexGraph,
};
use crate::util::relation::{
    indexes, lemma_cycle_down, lemma_cycle_up, lemma_reach_named, lemma_reachable_names,
    cycle_meets, lemma_named_cycles, name_walk,
    rel_cycle, rel_has_cycle, rel_reachable,
};
use crate::util::seqs::{lemma_push_contains, lemma_push_no_duplicates};
use crate::util::span::FileId;

verus! {

broadcast use {vstd::seq_lib::group_to_multiset_ensures, vstd::multiset::group_multiset_axioms};

/// How often `x` occurs in `s`.
pub open spec fn count_of(s: Seq<FileId>, x: FileId) -> nat {
    s.to_multiset().count(x)
}


/// The file sequences of a list of cycles.
pub open spec fn file_cycles(v: Seq<Vec<FileId>>) -> Seq<Seq<FileId>> {
    v.map_values(|c: Vec<FileId>| c@)
}

/// The cycles the index search found in a graph's table, read as files,
/// are what `find_cycles` promises.
proof fn lemma_found_cycles(g: DependencyGraph, found: Seq<Seq<usize>>, out: Seq<Vec<FileId>>)
    requires
        g.wf(),
        forall|k: int| 0 <= k < found.len() ==> is_cycle(g.graph.rows.deep_view(), #[trigger] found[k]) && found[k].no_duplicates(),
        found.len() == 0 <==> !has_cycle(g.graph.rows.deep_view()),
        rows_distinct(g.graph.rows.deep_view()) ==> forall|k1: int, k2: int|
            0 <= k1 < found.len() && 0 <= k2 < found.len() && k1 != k2 ==> !is_rotation(
                #[trigger] found[k1],
                #[trigger] found[k2],
            ),
        forall|c: Seq<usize>| #[trigger] is_cycle(g.graph.rows.deep_view(), c) ==> meets(found, c),
        out.len() == found.len(),
        forall|t: int| 0 <= t < out.len() ==> #[trigger] out[t]@ == name_walk(g.files@, found[t]),
    ensures
        forall|k: int| 0 <= k < out.len() ==> rel_cycle(map_rel(g.dependency_map()), #[trigger] out[k]@)
            && out[k]@.no_duplicates(),
        entries_distinct(g.dependency_map()) ==> forall|k1: int, k2: int|
            0 <= k1 < out.len() && 0 <= k2 < out.len() && k1 != k2 ==> !is_rotation(
                #[trigger] out[k1]@,
                #[trigger] out[k2]@,
            ),
        forall|q: Seq<FileId>| #[trigger] rel_cycle(map_rel(g.dependency_map()), q) ==> cycle_meets(
            file_cycles(out),
            q,
        ),
        out.len() == 0 <==> !rel_has_cycle(map_rel(g.dependency_map())),
{
    let files = g.files@;
    let rows = g.graph.rows.deep_view();
    let rel = map_rel(g.dependency_map());
    lemma_graph_indexes(files, g.graph.is_key@, rows);
    let named = file_cycles(out);
    assert forall|k: int| 0 <= k < found.len() implies #[trigger] named[k] == name_walk(files, found[k]) by {
        assert(named[k] == out[k]@);
    }
    lemma_named_cycles(rows, files, rel, found, named);
    if entries_distinct(g.dependency_map()) {
        lemma_rows_distinct(files, g.graph.is_key@, rows);
        assert forall|k1: int, k2: int|
            0 <= k1 < out.len() && 0 <= k2 < out.len() && k1 != k2 implies !is_rotation(
            #[trigger] out[k1]@,
            #[trigger] out[k2]@,
        ) by {
            assert(named[k1] == out[k1]@ && named[k2] == out[k2]@);
        }
    }
    assert forall|k: int| 0 <= k < out.len() implies rel_cycle(rel, #[trigger] out[k]@) && out[k]@.no_duplicates() by {
        assert(named[k] == out[k]@);
    }
}

/// What adding an edge from `from` to `to` does to the lists the graph
/// answers: `to` joins the end of the files `from` depends on, and `from`
/// the end of the files depending on `to` (an edge added twice is listed
/// twice); every other file's lists stay as they were.
pub proof fn lemma_add_dependency_law(before: DependencyGraph, after: DependencyGraph, from: FileId, to: FileId)
    requires
        after.dependency_map() == before.dependency_map().insert(
            from,
            entry_or_empty(before.dependency_map(), from).push(to),
        ),
        after.dependent_map() == before.dependent_map().insert(
            to,
            entry_or_empty(before.dependent_map(), to).push(from),
        ),
    ensures
        entry_or_empty(after.dependency_map(), from) == entry_or_empty(before.dependency_map(), from).push(to),
        entry_or_empty(after.dependent_map(), to) == entry_or_empty(before.dependent_map(), to).push(from),
        forall|x: FileId|
            x != from ==> #[trigger] entry_or_empty(after.dependency_map(), x) == entry_or_empty(
                before.dependency_map(),
                x,
            ),
        forall|y: FileId|
            y != to ==> #[trigger] entry_or_empty(after.dependent_map(), y) == entry_or_empty(
                before.dependent_map(),
                y,
            ),
{
}

/// The dependency graph of a set of files.
#[derive(Debug, Clone)]
pub struct DependencyGraph {
    files: Vec<FileId>,
    graph: IndexGraph,
    dependents: Vec<Vec<FileId>>,
}

impl DependencyGraph {
    /// The files each file depends on, in the order the edges were added.
    pub closed spec fn dependency_map(&self) -> Map<FileId, Seq<FileId>> {
        graph_map(self.files@, self.graph.is_key@, self.graph.rows.deep_view())
    }

    /// The files that depend on each file, in the order the edges were added.
    pub closed spec fn dependent_map(&self) -> Map<FileId, Seq<FileId>> {
        Map::new(
            |f: FileId| self.files@.contains(f) && self.dependents@[self.files@.index_of(f)]@.len() > 0,
            |f: FileId| self.dependents@[self.files@.index_of(f)]@,
        )
    }

    /// The number of files the graph knows of.
    pub closed spec fn node_count(&self) -> nat {
        self.files@.len()
    }

    /// Whether the graph is well formed: the node table fits the edges, and
    /// every file lists as dependents exactly the files that list it as a
    /// dependency, as often as they do.
    pub closed spec fn wf(&self) -> bool {
        let files = self.files@;
        let rows = self.graph.rows.deep_view();
        &&& graph_wf(files, self.graph.is_key@, rows)
        &&& files.len() < usize::MAX
        &&& self.dependents.len() == files.len()
        &&& forall|i: int| 0 <= i < files.len() ==> (self.graph.is_key@[i] <==> rows[i].len() > 0)
        &&& forall|a: FileId, b: FileId|
            #[trigger] count_of(entry_or_empty(self.dependent_map(), b), a) == count_of(
                entry_or_empty(self.dependency_map(), a),
                b,
            )
    }

    /// An empty graph.
    pub fn new() -> (res: Self)
        ensures
            res.wf(),
            res.node_count() == 0,
            res.dependency_map() == Map::<FileId, Seq<FileId>>::empty(),
            res.dependent_map() == Map::<FileId, Seq<FileId>>::empty(),
    {
        let res = DependencyGraph { files: Vec::new(), graph: IndexGraph::empty(), dependents: Vec::new() };
        proof {
            assert(res.dependency_map() =~= Map::<FileId, Seq<FileId>>::empty());
            assert(res.dependent_map() =~= Map::<FileId, Seq<FileId>>::empty());
            assert(res.graph.rows.deep_view() =~= Seq::<Seq<usize>>::empty());
        }
        res
    }

    /// Whether no dependency has been added.
    pub fn is_empty(&self) -> (res: bool)
        requires
            self.wf(),
        ensures
            res == (self.dependency_map().dom() == Set::<FileId>::empty()),
    {
        let mut i: usize = 0;
        while i < self.files.len()
            invariant
                self.wf(),
                i <= self.files.len(),
                forall|t: int| 0 <= t < i ==> !self.graph.is_key@[t],
            decreases self.files.len() - i,
        {
            if self.graph.is_key[i] {
                proof {
                    lemma_index_of_unique(self.files@, i as int);
                    assert(self.dependency_map().dom().contains(self.files@[i as int]));
                }
                return false;
            }
            i = i + 1;
        }
        proof {
            assert forall|f: FileId| !self.dependency_map().dom().contains(f) by {
                if self.files@.contains(f) {
                    let t = self.files@.index_of(f);
                    assert(!self.graph.is_key@[t]);
                }
            }
            assert(self.dependency_map().dom() =~= Set::<FileId>::empty());
        }
        true
    }

    /// The index of `f` in the node table, if it is there.
    fn find_file(&self, f: FileId) -> (res: Option<usize>)
        requires
            self.files@.no_duplicates(),
        ensures
            res matches Some(i) ==> i < self.files.len() && self.files@[i as int] == f,
            res is None ==> !self.files@.contains(f),
    {
        let mut i: usize = 0;
        while i < self.files.len()
            invariant
                i <= self.files.len(),
                forall|t: int| 0 <= t < i ==> self.files@[t] != f,
            decreases self.files.len() - i,
        {
            if self.files[i] == f {
                return Some(i);
            }
            i = i + 1;
        }
        None
    }

    /// The index of `f`, added as a node without edges when it is new.
    fn node_of(&mut self, f: FileId) -> (res: usize)
        requires
            old(self).wf(),
            old(self).files.len() + 1 < usize::MAX,
        ensures
            final(self).wf(),
            final(self).dependency_map() == old(self).dependency_map(),
            final(self).dependent_map() == old(self).dependent_map(),
            res < final(self).files.len(),
            final(self).files@[res as int] == f,
            final(self).files.len() <= old(self).files.len() + 1,
            old(self).files@.is_prefix_of(final(self).files@),
    {
        match self.find_file(f) {
            Some(i) => i,
            None => {
                let ghost files0 = self.files@;
                let ghost rows0 = self.graph.rows.deep_view();
                let ghost keys0 = self.graph.is_key@;
                let ghost fwd0 = self.dependency_map();
                let ghost back0 = self.dependent_map();
                let ghost deps0 = self.dependents@;
                proof {
                    lemma_add_name(files0, keys0, rows0, f);
                }
                let n = self.files.len();
                self.files.push(f);
                self.graph.add_node();
                self.dependents.push(Vec::new());
                proof {
                    let files1 = self.files@;
                    assert(self.dependent_map() =~= back0) by {
                        assert forall|g: FileId| #[trigger] self.dependent_map().dom().contains(g) <==> back0.dom().contains(g) by {
                            if files0.contains(g) {
                                let t = files0.index_of(g);
                                lemma_index_of_unique(files0, t);
                                lemma_index_of_unique(files1, t);
                                assert(files1.contains(g));
                            }
                            if files1.contains(g) {
                                let t = files1.index_of(g);
                                lemma_index_of_unique(files1, t);
                                if t < n {
                                    assert(files0[t] == g);
                                }
                            }
                        }
                        assert forall|g: FileId| #[trigger] self.dependent_map().dom().contains(g) implies self.dependent_map()[g] == back0[g] by {
                            let t = files0.index_of(g);
                            lemma_index_of_unique(files0, t);
                            lemma_index_of_unique(files1, t);
                        }
                    }
                    assert forall|i: int| 0 <= i < files1.len() implies (self.graph.is_key@[i] <==> self.graph.rows.deep_view()[i].len() > 0) by {
                        if i < n {
                            assert(self.graph.rows.deep_view()[i] == rows0[i]);
                        }
                    }
                    assert(files0.is_prefix_of(files1));
                }
                n
            },
        }
    }

    /// Adds an edge from `from` to `to`: `to` joins the end of the files
    /// `from` depends on, and `from` the end of the files depending on `to`.
    pub fn add_dependency(&mut self, from: FileId, to: FileId)
        requires
            old(self).wf(),
            old(self).node_count() + 3 < usize::MAX,
        ensures
            final(self).wf(),
            final(self).node_count() <= old(self).node_count() + 2,
            final(self).dependency_map() == old(self).dependency_map().insert(
                from,
                entry_or_empty(old(self).dependency_map(), from).push(to),
            ),
            final(self).dependent_map() == old(self).dependent_map().insert(
                to,
                entry_or_empty(old(self).dependent_map(), to).push(from),
            ),
    {
        let ghost fwd0 = self.dependency_map();
        let ghost back0 = self.dependent_map();
        let i = self.node_of(from);
        let j = self.node_of(to);
        let ghost files = self.files@;
        let ghost keys = self.graph.is_key@;
        let ghost rows = self.graph.rows.deep_view();
        let ghost deps = self.dependents@;
        let mut row = self.graph.rows[i].clone();
        proof {
            lemma_index_of_unique(files, i as int);
            lemma_index_of_unique(files, j as int);
            assert(row@ == rows[i as int]);
        }
        row.push(j);
        proof {
            lemma_set_row(files, keys, rows, i as int, row@);
            assert(row_names(files, row@) =~= entry_or_empty(fwd0, from).push(to)) by {
                if !keys[i as int] {
                    assert(rows[i as int].len() == 0);
                }
            }
        }
        self.graph.set_row(i, row);
        self.dependents[j].push(from);
        proof {
            let fwd1 = self.dependency_map();
            let back1 = self.dependent_map();
            assert(fwd1 == fwd0.insert(from, entry_or_empty(fwd0, from).push(to)));
            assert(back1 =~= back0.insert(to, entry_or_empty(back0, to).push(from))) by {
                assert forall|g: FileId| #[trigger] back1.dom().contains(g) <==> back0.insert(to, entry_or_empty(back0, to).push(from)).dom().contains(g) by {
                    if files.contains(g) {
                        let t = files.index_of(g);
                        lemma_index_of_unique(files, t);
                    }
                }
                assert forall|g: FileId| #[trigger] back1.dom().contains(g) implies back1[g] == back0.insert(to, entry_or_empty(back0, to).push(from))[g] by {
                    let t = files.index_of(g);
                    lemma_index_of_unique(files, t);
                    if t != j as int {
                        assert(self.dependents@[t] == deps[t]);
                    }
                }
            }
            assert forall|t: int| 0 <= t < files.len() implies (self.graph.is_key@[t] <==> self.graph.rows.deep_view()[t].len() > 0) by {
                if t != i as int {
                    assert(self.graph.rows.deep_view()[t] == rows[t]);
                }
            }
            assert forall|a: FileId, b: FileId| #[trigger] count_of(entry_or_empty(back1, b), a) == count_of(
                entry_or_empty(fwd1, a),
                b,
            ) by {
                assert(count_of(entry_or_empty(back0, b), a) == count_of(entry_or_empty(fwd0, a), b));
                if b == to {
                    assert(entry_or_empty(back1, b) =~= entry_or_empty(back0, to).push(from));
                } else {
                    assert(entry_or_empty(back1, b) == entry_or_empty(back0, b));
                }
                if a == from {
                    assert(entry_or_empty(fwd1, a) =~= entry_or_empty(fwd0, from).push(to));
                } else {
                    assert(entry_or_empty(fwd1, a) == entry_or_empty(fwd0, a));
                }
            }
        }
    }

    /// The files `file_id` depends on, in the order the edges were added.
    pub fn get_dependencies(&self, file_id: FileId) -> (res: Vec<FileId>)
        requires
            self.wf(),
        ensures
            res@ == entry_or_empty(self.dependency_map(), file_id),
    {
        let ghost files = self.files@;
        match self.find_file(file_id) {
            Some(i) => {
                proof {
                    lemma_index_of_unique(files, i as int);
                }
                let row = &self.graph.rows[i];
                let ghost r = self.graph.rows.deep_view()[i as int];
                assert(row@ == r);
                let mut out: Vec<FileId> = Vec::new();
                let mut k: usize = 0;
                while k < row.len()
                    invariant
                        files == self.files@,
                        row@ == r,
                        forall|t: int| 0 <= t < r.len() ==> r[t] < files.len(),
                        k <= row.len(),
                        out@ == row_names(files, r.subrange(0, k as int)),
                    decreases row.len() - k,
                {
                    out.push(self.files[row[k]]);
                    proof {
                        assert(out@ =~= row_names(files, r.subrange(0, k + 1)));
                    }
                    k = k + 1;
                }
                proof {
                    assert(r.subrange(0, k as int) =~= r);
                    if !self.graph.is_key@[i as int] {
                        assert(out@ =~= Seq::<FileId>::empty());
                    }
                }
                out
            },
            None => Vec::new(),
        }
    }

    /// The files that depend on `file_id`, in the order the edges were added.
    pub fn get_dependents(&self, file_id: FileId) -> (res: Vec<FileId>)
        requires
            self.wf(),
        ensures
            res@ == entry_or_empty(self.dependent_map(), file_id),
    {
        match self.find_file(file_id) {
            Some(i) => {
                proof {
                    lemma_index_of_unique(self.files@, i as int);
                }
                let out = self.dependents[i].clone();
                proof {
                    assert(out@ =~= self.dependents@[i as int]@);
                }
                out
            },
            None => Vec::new(),
        }
    }

    /// Every cycle that a depth-first search of the graph meets, none
    /// passing a file twice; when no edge was added twice, none is listed
    /// twice, not even rotated.  Empty exactly when the graph has no cycle.
    pub fn find_cycles(&self) -> (res: Vec<Vec<FileId>>)
        requires
            self.wf(),
        ensures
            forall|k: int| 0 <= k < res.len() ==> rel_cycle(map_rel(self.dependency_map()), #[trigger] res@[k]@)
                && res@[k]@.no_duplicates(),
            entries_distinct(self.dependency_map()) ==> forall|k1: int, k2: int|
                0 <= k1 < res.len() && 0 <= k2 < res.len() && k1 != k2 ==> !is_rotation(
                    #[trigger] res@[k1]@,
                    #[trigger] res@[k2]@,
                ),
            forall|q: Seq<FileId>| #[trigger] rel_cycle(map_rel(self.dependency_map()), q) ==> cycle_meets(
                file_cycles(res@),
                q,
            ),
            res.len() == 0 <==> !rel_has_cycle(map_rel(self.dependency_map())),
    {
        let ghost files = self.files@;
        let ghost rows = self.graph.rows.deep_view();
        let ghost rel = map_rel(self.dependency_map());
        proof {
            lemma_graph_indexes(files, self.graph.is_key@, rows);
        }
        let found = find_cycles(&self.graph.rows);
        let mut out: Vec<Vec<FileId>> = Vec::new();
        let mut k: usize = 0;
        while k < found.len()
            invariant
                files == self.files@,
                rows == self.graph.rows.deep_view(),
                indexes(rows, files, rel),
                k <= found.len(),
                out.len() == k,
                forall|t: int| 0 <= t < k ==> #[trigger] out@[t]@ == name_walk(files, found.deep_view()[t]),
                forall|t: int| 0 <= t < found.len() ==> is_cycle(rows, #[trigger] found.deep_view()[t])
                    && found.deep_view()[t].no_duplicates(),
            decreases found.len() - k,
        {
            let cycle = &found[k];
            let ghost c = found.deep_view()[k as int];
            assert(cycle@ == c);
            proof {
                assert forall|t: int| 0 <= t < c.len() implies c[t] < files.len() by {
                    if t < c.len() - 1 {
                        assert(crate::util::graph::edge(rows, c[t], c[t + 1]));
                    } else {
                        assert(crate::util::graph::edge(rows, c[t], c[0]));
                    }
                }
            }
            let mut ids: Vec<FileId> = Vec::new();
            let mut t: usize = 0;
            while t < cycle.len()
                invariant
                    files == self.files@,
                    cycle@ == c,
                    forall|u: int| 0 <= u < c.len() ==> c[u] < files.len(),
                    t <= cycle.len(),
                    ids@ == name_walk(files, c.subrange(0, t as int)),
                decreases cycle.len() - t,
            {
                ids.push(self.files[cycle[t]]);
                proof {
                    assert(ids@ =~= name_walk(files, c.subrange(0, t + 1)));
                }
                t = t + 1;
            }
            proof {
                assert(c.subrange(0, t as int) =~= c);
            }
            let ghost out_before = out@;
            out.push(ids);
            proof {
                assert forall|u: int| 0 <= u < k + 1 implies #[trigger] out@[u]@ == name_walk(files, found.deep_view()[u]) by {
                    if u < k {
                        assert(out@[u] == out_before[u]);
                    }
                }
            }
            k = k + 1;
        }
        proof {
            lemma_found_cycles(*self, found.deep_view(), out@);
        }
        out
    }

    /// Every file reachable from `file_id` along one or more edges, once
    /// each; `file_id` is among them only when it lies on a cycle.
    pub fn get_transitive_dependencies(&self, file_id: FileId) -> (res: Vec<FileId>)
        requires
            self.wf(),
        ensures
            res@.no_duplicates(),
            forall|x: FileId| #[trigger] res@.contains(x) <==> rel_reachable(map_rel(self.dependency_map()), file_id, x),
    {
        let ghost files = self.files@;
        let ghost rows = self.graph.rows.deep_view();
        let ghost rel = map_rel(self.dependency_map());
        proof {
            lemma_graph_indexes(files, self.graph.is_key@, rows);
        }
        match self.find_file(file_id) {
            Some(s) => {
                let found = reachable_set(&self.graph.rows, s);
                let mut out: Vec<FileId> = Vec::new();
                let mut k: usize = 0;
                while k < found.len()
                    invariant
                        files == self.files@,
                        k <= found.len(),
                        forall|t: int| 0 <= t < found.len() ==> found@[t] < files.len(),
                        out@ == name_walk(files, found@.subrange(0, k as int)),
                    decreases found.len() - k,
                {
                    out.push(self.files[found[k]]);
                    proof {
                        assert(out@ =~= name_walk(files, found@.subrange(0, k + 1)));
                    }
                    k = k + 1;
                }
                proof {
                    assert(found@.subrange(0, k as int) =~= found@);
                    let o = out@;
                    assert forall|a: int, b: int| 0 <= a < b < o.len() implies o[a] != o[b] by {
                        assert(found@[a] != found@[b]);
                    }
                    assert forall|x: FileId| #[trigger] o.contains(x) <==> rel_reachable(rel, file_id, x) by {
                        if o.contains(x) {
                            let t = choose|t: int| 0 <= t < o.len() && o[t] == x;
                            let v = found@[t];
                            assert(found@.contains(v));
                            lemma_reachable_names(rows, files, rel, s, v);
                        }
                        if rel_reachable(rel, file_id, x) {
                            lemma_reach_named(rows, files, rel, file_id, x);
                            let v = files.index_of(x);
                            lemma_index_of_unique(files, v);
                            lemma_reachable_names(rows, files, rel, s, v as usize);
                            assert(found@.contains(v as usize));
                            let t = choose|t: int| 0 <= t < found@.len() && found@[t] == v as usize;
                            assert(o[t] == x);
                        }
                    }
                }
                out
            },
            None => {
                proof {
                    assert forall|x: FileId| !rel_reachable(rel, file_id, x) by {
                        if rel_reachable(rel, file_id, x) {
                            lemma_reach_named(rows, files, rel, file_id, x);
                        }
                    }
                }
                Vec::new()
            },
        }
    }

    /// The coupling of `file_id`: how many edges end at it and how many
    /// start from it.
    pub fn calculate_coupling(&self, file_id: FileId) -> (res: CouplingMetrics)
        requires
            self.wf(),
        ensures
            res.afferent_coupling == entry_or_empty(self.dependent_map(), file_id).len(),
            res.efferent_coupling == entry_or_empty(self.dependency_map(), file_id).len(),
    {
        let afferent = self.get_dependents(file_id).len();
        let efferent = self.get_dependencies(file_id).len();
        CouplingMetrics { afferent_coupling: afferent, efferent_coupling: efferent }
    }

    /// The files that have an entry of their own: those with a dependency.
    fn key_files(&self) -> (res: Vec<FileId>)
        requires
            self.wf(),
        ensures
            res@.no_duplicates(),
            forall|f: FileId| #[trigger] res@.contains(f) <==> self.dependency_map().dom().contains(f),
    {
        let ghost files = self.files@;
        let mut out: Vec<FileId> = Vec::new();
        let mut i: usize = 0;
        while i < self.files.len()
            invariant
                self.wf(),
                files == self.files@,
                i <= self.files.len(),
                out@.no_duplicates(),
                forall|f: FileId| #[trigger] out@.contains(f) <==> exists|t: int| 0 <= t < i && files[t] == f && self.graph.is_key@[t],
            decreases self.files.len() - i,
        {
            if self.graph.is_key[i] {
                let ghost before = out@;
                out.push(self.files[i]);
                proof {
                    let x = files[i as int];
                    assert(!before.contains(x)) by {
                        if before.contains(x) {
                            let t = choose|t: int| 0 <= t < i && files[t] == x && self.graph.is_key@[t];
                        }
                    }
                    lemma_push_no_duplicates(before, x);
                    assert forall|f: FileId| #[trigger] out@.contains(f) <==> exists|t: int| 0 <= t < i + 1 && files[t] == f && self.graph.is_key@[t] by {
                        lemma_push_contains(before, x, f);
                        if f == x {
                            assert(0 <= i < i + 1 && files[i as int] == f && self.graph.is_key@[i as int]);
                        } else if exists|t: int| 0 <= t < i + 1 && files[t] == f && self.graph.is_key@[t] {
                            let t = choose|t: int| 0 <= t < i + 1 && files[t] == f && self.graph.is_key@[t];
                            assert(t < i);
                        }
                    }
                }
            } else {
                proof {
                    assert forall|f: FileId| #[trigger] out@.contains(f) <==> exists|t: int| 0 <= t < i + 1 && files[t] == f && self.graph.is_key@[t] by {
                        if exists|t: int| 0 <= t < i + 1 && files[t] == f && self.graph.is_key@[t] {
                            let t = choose|t: int| 0 <= t < i + 1 && files[t] == f && self.graph.is_key@[t];
                            assert(t < i);
                        }
                    }
                }
            }
            i = i + 1;
        }
        proof {
            assert forall|f: FileId| #[trigger] out@.contains(f) <==> self.dependency_map().dom().contains(f) by {
                if self.dependency_map().dom().contains(f) {
                    let t = files.index_of(f);
                    lemma_index_of_unique(files, t);
                }
                if out@.contains(f) {
                    let t = choose|t: int| 0 <= t < i && files[t] == f && self.graph.is_key@[t];
                    lemma_index_of_unique(files, t);
                }
            }
        }
        out
    }
}

/// Coupling metrics of one file.
#[derive(Debug, Clone, Copy)]
pub struct CouplingMetrics {
    /// Afferent coupling (Ca): the number of files that depend on this file.
    pub afferent_coupling: usize,
    /// Efferent coupling (Ce): the number of files this file depends on.
    pub efferent_coupling: usize,
}

/// Whether the instability `Ce / (Ca + Ce)` exceeds 0.8, in exact
/// arithmetic: `5 * Ce > 4 * (Ca + Ce)`, which is false when both are zero.
pub open spec fn highly_unstable(ca: nat, ce: nat) -> bool {
    5 * ce > 4 * (ca + ce)
}

impl CouplingMetrics {
    /// Whether the file is highly unstable: its instability `Ce / (Ca + Ce)`
    /// is above 0.8.
    pub fn is_highly_unstable(&self) -> (res: bool)
        ensures
            res == highly_unstable(self.afferent_coupling as nat, self.efferent_coupling as nat),
    {
        let ca = self.afferent_coupling as u128;
        let ce = self.efferent_coupling as u128;
        5 * ce > 4 * (ca + ce)
    }
}

/// Analyses a dependency graph for files with many dependents or many
/// dependencies.
pub struct DependencyAnalyzer {
    graph: DependencyGraph,
}

impl DependencyAnalyzer {
    /// Whether the analyzer's graph is well formed.
    pub closed spec fn wf(&self) -> bool {
        self.graph.wf()
    }

    /// The analyzer's graph.
    pub closed spec fn spec_graph(&self) -> DependencyGraph {
        self.graph
    }

    /// An analyzer with an empty graph.
    pub fn new() -> (res: Self)
        ensures
            res.wf(),
            res.spec_graph().dependency_map() == Map::<FileId, Seq<FileId>>::empty(),
            res.spec_graph().dependent_map() == Map::<FileId, Seq<FileId>>::empty(),
    {
        DependencyAnalyzer { graph: DependencyGraph::new() }
    }

    /// Builds the graph from the files' includes.  Include analysis is not
    /// done yet, so the graph stays as it is.
    pub fn build_graph(&mut self, _files: &[FileId])
        ensures
            final(self).spec_graph() == old(self).spec_graph(),
    {
    }

    /// The dependency graph.
    pub fn graph(&self) -> (res: &DependencyGraph)
        ensures
            *res == self.spec_graph(),
    {
        &self.graph
    }

    /// The files that more than `threshold` files depend on, each once.
    pub fn find_high_fan_in(&self, threshold: usize) -> (res: Vec<FileId>)
        requires
            self.wf(),
        ensures
            res@.no_duplicates(),
            forall|f: FileId|
                #[trigger] res@.contains(f) <==> entry_or_empty(self.spec_graph().dependent_map(), f).len()
                    > threshold,
    {
        let files = &self.graph.files;
        let mut out: Vec<FileId> = Vec::new();
        let mut i: usize = 0;
        while i < files.len()
            invariant
                self.wf(),
                files@ == self.graph.files@,
                i <= files.len(),
                out@.no_duplicates(),
                forall|f: FileId| #[trigger] out@.contains(f) <==> (exists|t: int| 0 <= t < i && files@[t] == f)
                    && entry_or_empty(self.graph.dependent_map(), f).len() > threshold,
            decreases files.len() - i,
        {
            let f = files[i];
            if self.graph.get_dependents(f).len() > threshold {
                let ghost before = out@;
                out.push(f);
                proof {
                    assert(!before.contains(f)) by {
                        if before.contains(f) {
                            let t = choose|t: int| 0 <= t < i && files@[t] == f;
                            assert(files@[t] == files@[i as int]);
                        }
                    }
                    lemma_push_no_duplicates(before, f);
                    assert forall|g: FileId| #[trigger] out@.contains(g) <==> (exists|t: int| 0 <= t < i + 1 && files@[t] == g)
                        && entry_or_empty(self.graph.dependent_map(), g).len() > threshold by {
                        lemma_push_contains(before, f, g);
                        if g == f {
                            assert(0 <= i < i + 1 && files@[i as int] == g);
                        } else if exists|t: int| 0 <= t < i + 1 && files@[t] == g {
                            let t = choose|t: int| 0 <= t < i + 1 && files@[t] == g;
                            assert(t < i);
                        }
                    }
                }
            } else {
                proof {
                    assert forall|g: FileId| #[trigger] out@.contains(g) <==> (exists|t: int| 0 <= t < i + 1 && files@[t] == g)
                        && entry_or_empty(self.graph.dependent_map(), g).len() > threshold by {
                        if (exists|t: int| 0 <= t < i + 1 && files@[t] == g) && g != f {
                            let t = choose|t: int| 0 <= t < i + 1 && files@[t] == g;
                            assert(t < i);
                        }
                    }
                }
            }
            i = i + 1;
        }
        proof {
            assert forall|f: FileId| #[trigger] out@.contains(f) <==> entry_or_empty(self.graph.dependent_map(), f).len()
                > threshold by {
                if entry_or_empty(self.graph.dependent_map(), f).len() > threshold {
                    assert(self.graph.dependent_map().dom().contains(f));
                    assert(files@.contains(f));
                    let t = files@.index_of(f);
                    assert(0 <= t < i && files@[t] == f);
                }
            }
        }
        out
    }

    /// The files that depend on more than `threshold` files, each once.
    pub fn find_high_fan_out(&self, threshold: usize) -> (res: Vec<FileId>)
        requires
            self.wf(),
        ensures
            res@.no_duplicates(),
            forall|f: FileId|
                #[trigger] res@.contains(f) <==> self.spec_graph().dependency_map().dom().contains(f)
                    && self.spec_graph().dependency_map()[f].len() > threshold,
    {
        let keys = self.graph.key_files();
        let mut out: Vec<FileId> = Vec::new();
        let mut i: usize = 0;
        while i < keys.len()
            invariant
                self.wf(),
                i <= keys.len(),
                keys@.no_duplicates(),
                forall|f: FileId| #[trigger] keys@.contains(f) <==> self.graph.dependency_map().dom().contains(f),
                out@.no_duplicates(),
                forall|f: FileId| #[trigger] out@.contains(f) <==> (exists|t: int| 0 <= t < i && keys@[t] == f)
                    && entry_or_empty(self.graph.dependency_map(), f).len() > threshold,
            decreases keys.len() - i,
        {
            let f = keys[i];
            if self.graph.get_dependencies(f).len() > threshold {
                let ghost before = out@;
                out.push(f);
                proof {
                    assert(!before.contains(f)) by {
                        if before.contains(f) {
                            let t = choose|t: int| 0 <= t < i && keys@[t] == f;
                            assert(keys@[t] == keys@[i as int]);
                        }
                    }
                    lemma_push_no_duplicates(before, f);
                    assert forall|g: FileId| #[trigger] out@.contains(g) <==> (exists|t: int| 0 <= t < i + 1 && keys@[t] == g)
                        && entry_or_empty(self.graph.dependency_map(), g).len() > threshold by {
                        lemma_push_contains(before, f, g);
                        if g == f {
                            assert(0 <= i < i + 1 && keys@[i as int] == g);
                        } else if exists|t: int| 0 <= t < i + 1 && keys@[t] == g {
                            let t = choose|t: int| 0 <= t < i + 1 && keys@[t] == g;
                            assert(t < i);
                        }
                    }
                }
            } else {
                proof {
                    assert forall|g: FileId| #[trigger] out@.contains(g) <==> (exists|t: int| 0 <= t < i + 1 && keys@[t] == g)
                        && entry_or_empty(self.graph.dependency_map(), g).len() > threshold by {
                        if (exists|t: int| 0 <= t < i + 1 && keys@[t] == g) && g != f {
                            let t = choose|t: int| 0 <= t < i + 1 && keys@[t] == g;
                            assert(t < i);
                        }
                    }
                }
            }
            i = i + 1;
        }
        proof {
            assert forall|f: FileId| #[trigger] out@.contains(f) <==> self.graph.dependency_map().dom().contains(f)
                && self.graph.dependency_map()[f].len() > threshold by {
                if self.graph.dependency_map().dom().contains(f) {
                    assert(keys@.contains(f));
                    let t = choose|t: int| 0 <= t < keys@.len() && keys@[t] == f;
                }
                if exists|t: int| 0 <= t < i && keys@[t] == f {
                    let t = choose|t: int| 0 <= t < i && keys@[t] == f;
                    assert(keys@.contains(f));
                }
            }
        }
        out
    }
}

/// A rule that the dependencies break.
#[derive(Debug, Clone)]
pub struct DependencyViolation {
    pub kind: ViolationKind,
    pub files: Vec<FileId>,
    pub message: String,
}

/// The kind of a dependency violation.
#[derive(Debug, Clone, Copy, PartialEq, Eq, Structural)]
pub enum ViolationKind {
    CircularDependency,
    HighCoupling,
    LayerViolation,
}

/// Each file lists as dependents exactly the files that list it as a
/// dependency, and as often.
pub proof fn lemma_dependents_mirror_dependencies(g: DependencyGraph, a: FileId, b: FileId)
    requires
        g.wf(),
    ensures
        count_of(entry_or_empty(g.dependent_map(), b), a) == count_of(entry_or_empty(g.dependency_map(), a), b),
{
}

impl Default for DependencyGraph {
    fn default() -> (res: Self)
        ensures
            res.wf(),
            res.node_count() == 0,
            res.dependency_map() == Map::<FileId, Seq<FileId>>::empty(),
            res.dependent_map() == Map::<FileId, Seq<FileId>>::empty(),
    {
        Self::new()
    }
}

impl Default for DependencyAnalyzer {
    fn default() -> (res: Self)
        ensures
            res.wf(),
            res.spec_graph().dependency_map() == Map::<FileId, Seq<FileId>>::empty(),
            res.spec_graph().dependent_map() == Map::<FileId, Seq<FileId>>::empty(),
    {
        Self::new()
    }
}

} // verus!
