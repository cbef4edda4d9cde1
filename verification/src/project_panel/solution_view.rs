//! The state of the solution view: which entries are expanded and
//! selected, the solution and project trees it shows, and the entries
//! visible.

use vstd::prelude::*;
use vstd::std_specs::cmp::PartialEqSpecImpl;
use crate::project_panel::solution_tree::{
    dir_entries, dir_keys, dir_of, dirs_upto, file_entries, file_keys, file_label, item_entries,
    items_upto, project_tree, sln_keys, DirectoryItem, EntryView, SlnItem, SolutionEntry,
    SolutionModel,
};
use crate::util::order::{lemma_sort_order, stable_order};
use crate::util::path::{join, parent};
use crate::util::seqs::{lemma_somes_push, somes};
use crate::util::text::str_eq;

verus! {

/// How the project panel shows the workspace.
#[derive(Debug, Clone, Copy, PartialEq, Eq, Structural)]
pub enum ProjectPanelViewMode {
    FileTree,
    SolutionView,
}

impl Default for ProjectPanelViewMode {
    /// The file tree.
    fn default() -> (res: Self)
        ensures
            res == ProjectPanelViewMode::FileTree,
    {
        ProjectPanelViewMode::FileTree
    }
}

/// Unique identifier of an entry of the solution view.
#[derive(Debug, Clone, Hash)]
pub enum SolutionEntryId {
    /// The solution, by path.
    Solution(String),
    /// A solution folder, by GUID.
    Folder(String),
    /// A project, by GUID.
    Project(String),
    /// A source file or directory, by full path.
    SourceFile(String),
}

/// The kind of an identifier and its text, which together identify it.
pub open spec fn id_key(id: SolutionEntryId) -> (nat, Seq<char>) {
    match id {
        SolutionEntryId::Solution(p) => (0, p@),
        SolutionEntryId::Folder(g) => (1, g@),
        SolutionEntryId::Project(g) => (2, g@),
        SolutionEntryId::SourceFile(p) => (3, p@),
    }
}

impl PartialEq for SolutionEntryId {
    fn eq(&self, other: &Self) -> (res: bool) {
        match (self, other) {
            (SolutionEntryId::Solution(a), SolutionEntryId::Solution(b)) => str_eq(a.as_str(), b.as_str()),
            (SolutionEntryId::Folder(a), SolutionEntryId::Folder(b)) => str_eq(a.as_str(), b.as_str()),
            (SolutionEntryId::Project(a), SolutionEntryId::Project(b)) => str_eq(a.as_str(), b.as_str()),
            (SolutionEntryId::SourceFile(a), SolutionEntryId::SourceFile(b)) => str_eq(a.as_str(), b.as_str()),
            _ => false,
        }
    }
}

impl PartialEqSpecImpl for SolutionEntryId {
    open spec fn obeys_eq_spec() -> bool {
        true
    }

    open spec fn eq_spec(&self, other: &Self) -> bool {
        id_key(*self) == id_key(*other)
    }
}

impl Eq for SolutionEntryId {}

/// The keys of a list of identifiers.
pub open spec fn id_keys(ids: Seq<SolutionEntryId>) -> Seq<(nat, Seq<char>)> {
    ids.map_values(|id: SolutionEntryId| id_key(id))
}

/// A copy of an identifier.
fn copy_id(id: &SolutionEntryId) -> (res: SolutionEntryId)
    ensures
        id_key(res) == id_key(*id),
{
    match id {
        SolutionEntryId::Solution(p) => SolutionEntryId::Solution(p.clone()),
        SolutionEntryId::Folder(g) => SolutionEntryId::Folder(g.clone()),
        SolutionEntryId::Project(g) => SolutionEntryId::Project(g.clone()),
        SolutionEntryId::SourceFile(p) => SolutionEntryId::SourceFile(p.clone()),
    }
}

/// The state of the solution view.
pub struct SolutionViewState {
    pub solution_path: Option<String>,
    /// The solution shown, once one is loaded.
    pub parsed_solution: Option<SolutionModel>,
    /// The directory tree of each loaded project, by project path.
    pub parsed_projects: Vec<(String, DirectoryItem)>,
    /// The entries visible since the last update.
    pub visible_entries: Vec<SolutionEntry>,
    /// The expanded entries.
    pub expanded_ids: Vec<SolutionEntryId>,
    pub selection: Option<SolutionEntryId>,
}

impl SolutionViewState {
    /// The expanded entries, by kind and text.
    pub open spec fn expanded(&self) -> Set<(nat, Seq<char>)> {
        id_keys(self.expanded_ids@).to_set()
    }

    /// A state with nothing loaded, expanded or selected.
    pub fn new() -> (res: Self)
        ensures
            res.expanded() == Set::<(nat, Seq<char>)>::empty(),
            res.solution_path is None,
            res.parsed_solution is None,
            res.parsed_projects@.len() == 0,
            res.visible_entries@.len() == 0,
            res.selection is None,
    {
        let res = SolutionViewState {
            solution_path: None,
            parsed_solution: None,
            parsed_projects: Vec::new(),
            visible_entries: Vec::new(),
            expanded_ids: Vec::new(),
            selection: None,
        };
        proof {
            assert(id_keys(res.expanded_ids@) =~= Seq::<(nat, Seq<char>)>::empty());
            assert(res.expanded() =~= Set::<(nat, Seq<char>)>::empty());
        }
        res
    }

    /// The position of `id` among the expanded entries, if it is there.
    fn position(&self, id: &SolutionEntryId) -> (res: Option<usize>)
        ensures
            res matches Some(i) ==> i < self.expanded_ids@.len() && id_key(self.expanded_ids@[i as int]) == id_key(*id),
            res is None ==> !self.expanded().contains(id_key(*id)),
    {
        let mut i: usize = 0;
        while i < self.expanded_ids.len()
            invariant
                i <= self.expanded_ids@.len(),
                forall|t: int| 0 <= t < i ==> id_key(self.expanded_ids@[t]) != id_key(*id),
            decreases self.expanded_ids@.len() - i,
        {
            if self.expanded_ids[i] == *id {
                return Some(i);
            }
            i = i + 1;
        }
        proof {
            let keys = id_keys(self.expanded_ids@);
            if keys.to_set().contains(id_key(*id)) {
                assert(keys.contains(id_key(*id)));
                let t = choose|t: int| 0 <= t < keys.len() && keys[t] == id_key(*id);
                assert(id_key(self.expanded_ids@[t]) == id_key(*id));
            }
        }
        None
    }

    /// Whether the entry `id` is expanded.
    pub fn is_expanded(&self, id: &SolutionEntryId) -> (res: bool)
        ensures
            res == self.expanded().contains(id_key(*id)),
    {
        match self.position(id) {
            Some(i) => {
                proof {
                    let keys = id_keys(self.expanded_ids@);
                    assert(keys[i as int] == id_key(*id));
                    assert(keys.to_set().contains(id_key(*id)));
                }
                true
            },
            None => false,
        }
    }

    /// Expands the entry `id`.
    pub fn expand(&mut self, id: &SolutionEntryId)
        ensures
            final(self).expanded() == old(self).expanded().insert(id_key(*id)),
            final(self).solution_path == old(self).solution_path,
            final(self).parsed_solution == old(self).parsed_solution,
            final(self).parsed_projects == old(self).parsed_projects,
            final(self).visible_entries == old(self).visible_entries,
            final(self).selection == old(self).selection,
    {
        match self.position(id) {
            None => {
                let ghost before = id_keys(self.expanded_ids@);
                self.expanded_ids.push(copy_id(id));
                proof {
                    let after = id_keys(self.expanded_ids@);
                    assert(after =~= before.push(id_key(*id)));
                    assert forall|k: (nat, Seq<char>)| #[trigger] after.to_set().contains(k) <==> before.to_set().insert(id_key(*id)).contains(k) by {
                        crate::util::seqs::lemma_push_contains(before, id_key(*id), k);
                    }
                    assert(after.to_set() =~= before.to_set().insert(id_key(*id)));
                }
            },
            Some(i) => {
                proof {
                    let keys = id_keys(self.expanded_ids@);
                    assert(keys[i as int] == id_key(*id));
                    assert(keys.to_set().contains(id_key(*id)));
                    assert(self.expanded().insert(id_key(*id)) =~= self.expanded());
                }
            },
        }
    }

    /// Collapses the entry `id`.
    pub fn collapse(&mut self, id: &SolutionEntryId)
        ensures
            final(self).expanded() == old(self).expanded().remove(id_key(*id)),
            final(self).solution_path == old(self).solution_path,
            final(self).parsed_solution == old(self).parsed_solution,
            final(self).parsed_projects == old(self).parsed_projects,
            final(self).visible_entries == old(self).visible_entries,
            final(self).selection == old(self).selection,
    {
        let ghost before = id_keys(self.expanded_ids@);
        let mut kept: Vec<SolutionEntryId> = Vec::new();
        let mut i: usize = 0;
        while i < self.expanded_ids.len()
            invariant
                before == id_keys(self.expanded_ids@),
                i <= self.expanded_ids@.len(),
                forall|k: (nat, Seq<char>)|
                    #[trigger] id_keys(kept@).contains(k) <==> k != id_key(*id)
                        && before.subrange(0, i as int).contains(k),
            decreases self.expanded_ids@.len() - i,
        {
            let ghost kept_before = id_keys(kept@);
            let ghost k_i = before[i as int];
            if !(self.expanded_ids[i] == *id) {
                kept.push(copy_id(&self.expanded_ids[i]));
            }
            proof {
                let kept_after = id_keys(kept@);
                if k_i != id_key(*id) {
                    assert(kept_after =~= kept_before.push(k_i));
                } else {
                    assert(kept_after =~= kept_before);
                }
                assert(before.subrange(0, i + 1) =~= before.subrange(0, i as int).push(k_i));
                assert forall|k: (nat, Seq<char>)|
                    #[trigger] kept_after.contains(k) <==> k != id_key(*id) && before.subrange(0, i + 1).contains(k) by {
                    crate::util::seqs::lemma_push_contains(before.subrange(0, i as int), k_i, k);
                    crate::util::seqs::lemma_push_contains(kept_before, k_i, k);
                }
            }
            i = i + 1;
        }
        self.expanded_ids = kept;
        proof {
            assert(before.subrange(0, i as int) =~= before);
            let after = id_keys(self.expanded_ids@);
            assert forall|k: (nat, Seq<char>)| #[trigger] after.to_set().contains(k) <==> before.to_set().remove(id_key(*id)).contains(k) by {}
            assert(after.to_set() =~= before.to_set().remove(id_key(*id)));
        }
    }

    /// Expands the entry `id` when it is collapsed, and collapses it when
    /// it is expanded.
    pub fn toggle_expanded(&mut self, id: &SolutionEntryId)
        ensures
            final(self).expanded() == if old(self).expanded().contains(id_key(*id)) {
                old(self).expanded().remove(id_key(*id))
            } else {
                old(self).expanded().insert(id_key(*id))
            },
            final(self).solution_path == old(self).solution_path,
            final(self).parsed_solution == old(self).parsed_solution,
            final(self).parsed_projects == old(self).parsed_projects,
            final(self).visible_entries == old(self).visible_entries,
            final(self).selection == old(self).selection,
    {
        if self.is_expanded(id) {
            self.collapse(id);
        } else {
            self.expand(id);
        }
    }
}


/// The entries the view shows in state `s`: none before a solution is
/// loaded; otherwise the solution, followed when it is expanded by its
/// top-level folders and projects.
pub open spec fn view_entries(s: SolutionViewState) -> Seq<EntryView> {
    match s.parsed_solution {
        None => Seq::empty(),
        Some(sol) => {
            let sp = match s.solution_path {
                Some(p) => p@,
                None => Seq::empty(),
            };
            let own = seq![(0nat, sol.name@, sp, Seq::<char>::empty(), 0usize)];
            if s.expanded().contains((0nat, sp)) {
                own + items_upto(sol.roots@, sol.roots@.len(), 1, dir_of(sp), s.expanded(), s.parsed_projects@)
            } else {
                own
            }
        },
    }
}

/// The path and GUID of a project to load for entry `e`: an expanded
/// project entry whose directory tree is not loaded.
pub open spec fn wanted_project(
    e: EntryView,
    ex: Set<(nat, Seq<char>)>,
    projects: Seq<(String, DirectoryItem)>,
) -> Option<(Seq<char>, Seq<char>)> {
    if e.0 == 2 && ex.contains((2nat, e.3)) && project_tree(projects, e.2) is None {
        Some((e.2, e.3))
    } else {
        None
    }
}

/// The directory of a file, or `.`.
fn dir_of_path(path: &str) -> (res: String)
    ensures
        res@ == dir_of(path@),
{
    match parent(path) {
        Some(d) => d,
        None => String::from_str("."),
    }
}

/// A copy of a string.
fn copy_text(s: &String) -> (res: String)
    ensures
        res@ == s@,
{
    String::from_str(s.as_str())
}

impl SolutionViewState {
    /// The position of the project loaded for `path`, if any.
    fn find_project(&self, path: &str) -> (res: Option<usize>)
        ensures
            match res {
                Some(i) => i < self.parsed_projects@.len() && project_tree(self.parsed_projects@, path@)
                    == Some(self.parsed_projects@[i as int].1),
                None => project_tree(self.parsed_projects@, path@) is None,
            },
    {
        let ghost ps = self.parsed_projects@;
        let mut i: usize = 0;
        proof {
            assert(ps.skip(0) =~= ps);
        }
        while i < self.parsed_projects.len()
            invariant
                ps == self.parsed_projects@,
                i <= ps.len(),
                project_tree(ps, path@) == project_tree(ps.skip(i as int), path@),
            decreases ps.len() - i,
        {
            proof {
                assert(ps.skip(i as int).drop_first() =~= ps.skip(i + 1));
                assert(ps.skip(i as int)[0] == ps[i as int]);
            }
            if str_eq(self.parsed_projects[i].0.as_str(), path) {
                return Some(i);
            }
            i = i + 1;
        }
        proof {
            assert(ps.skip(i as int).len() == 0);
        }
        None
    }

    /// Appends the entries of a directory's contents.
    fn push_dir_entries(&self, out: &mut Vec<SolutionEntry>, node: &DirectoryItem, depth: usize, pdir: &str)
        ensures
            final(out).deep_view() == old(out).deep_view() + dir_entries(*node, depth, pdir@, self.expanded()),
        decreases *node,
    {
        let ghost ex = self.expanded();
        let ghost start = out.deep_view();
        let ghost ds = node.children@;
        let mut keys: Vec<(bool, String)> = Vec::new();
        let mut i: usize = 0;
        while i < node.children.len()
            invariant
                ds == node.children@,
                i <= ds.len(),
                keys.deep_view() == dir_keys(ds).take(i as int),
            decreases ds.len() - i,
        {
            let ghost before = keys.deep_view();
            let key = (false, copy_text(&node.children[i].name));
            keys.push(key);
            proof {
                assert(key.deep_view() == (false, ds[i as int].name@));
                assert(keys.deep_view() =~= before.push(key.deep_view()));
                assert(keys.deep_view() =~= dir_keys(ds).take(i + 1));
            }
            i = i + 1;
        }
        proof {
            assert(keys.deep_view() =~= dir_keys(ds));
            lemma_sort_order(dir_keys(ds), ds.len());
        }
        let order = stable_order(&keys);
        let mut k: usize = 0;
        while k < order.len()
            invariant
                ds == node.children@,
                ex == self.expanded(),
                order@ == crate::util::order::sort_order(dir_keys(ds), ds.len()),
                order@.len() == ds.len(),
                forall|t: int| 0 <= t < ds.len() ==> order@[t] < ds.len(),
                k <= order.len(),
                out.deep_view() == start + dirs_upto(ds, k as nat, depth, pdir@, ex),
            decreases order.len() - k,
        {
            let j = order[k];
            let d = &node.children[j];
            let path = join(pdir, d.path.as_str());
            let ghost before = out.deep_view();
            let entry = SolutionEntry::Directory { name: copy_text(&d.name), path: copy_text(&path), depth };
            out.push(entry);
            proof {
                assert(out.deep_view() =~= before.push(entry.deep_view()));
            }
            if depth < usize::MAX && self.is_expanded(&SolutionEntryId::SourceFile(copy_text(&path))) {
                proof {
                    assert(decreases_to!(*node => node.children));
                    assert(decreases_to!(node.children => node.children@));
                    assert(decreases_to!(node.children@ => node.children@[j as int]));
                }
                self.push_dir_entries(out, d, depth + 1, pdir);
            }
            proof {
                assert(out.deep_view() =~= start + dirs_upto(ds, (k + 1) as nat, depth, pdir@, ex));
            }
            k = k + 1;
        }
        let ghost mid = out.deep_view();
        let ghost fs = node.files@;
        let mut fkeys: Vec<(bool, String)> = Vec::new();
        let mut i: usize = 0;
        while i < node.files.len()
            invariant
                fs == node.files@,
                i <= fs.len(),
                fkeys.deep_view() == file_keys(fs).take(i as int),
            decreases fs.len() - i,
        {
            let label = match &node.files[i].file_name {
                Some(n) => copy_text(n),
                None => String::new(),
            };
            let ghost before = fkeys.deep_view();
            let key = (false, label);
            fkeys.push(key);
            proof {
                assert(key.deep_view() == (false, file_label(fs[i as int])));
                assert(fkeys.deep_view() =~= before.push(key.deep_view()));
                assert(fkeys.deep_view() =~= file_keys(fs).take(i + 1));
            }
            i = i + 1;
        }
        proof {
            assert(fkeys.deep_view() =~= file_keys(fs));
            lemma_sort_order(file_keys(fs), fs.len());
        }
        let forder = stable_order(&fkeys);
        let mut k: usize = 0;
        while k < forder.len()
            invariant
                fs == node.files@,
                forder@ == crate::util::order::sort_order(file_keys(fs), fs.len()),
                forder@.len() == fs.len(),
                forall|t: int| 0 <= t < fs.len() ==> forder@[t] < fs.len(),
                k <= forder.len(),
                out.deep_view() == mid + file_entries(fs, depth, pdir@).take(k as int),
            decreases forder.len() - k,
        {
            let f = &node.files[forder[k]];
            let label = match &f.file_name {
                Some(n) => copy_text(n),
                None => String::new(),
            };
            let path = join(pdir, f.relative_path.as_str());
            let ghost before = out.deep_view();
            let entry = SolutionEntry::SourceFile { name: label, path, depth };
            out.push(entry);
            proof {
                assert(label@ == file_label(*f));
                assert(out.deep_view() =~= before.push(entry.deep_view()));
                assert(file_entries(fs, depth, pdir@)[k as int] == entry.deep_view());
                assert(out.deep_view() =~= mid + file_entries(fs, depth, pdir@).take(k + 1));
            }
            k = k + 1;
        }
        proof {
            assert(file_entries(fs, depth, pdir@).take(k as int) =~= file_entries(fs, depth, pdir@));
        }
    }

    /// Appends the entries of the folders and projects `items`, in order.
    fn push_items_entries(&self, out: &mut Vec<SolutionEntry>, items: &Vec<SlnItem>, depth: usize, sdir: &str)
        ensures
            final(out).deep_view() == old(out).deep_view() + items_upto(
                items@,
                items@.len(),
                depth,
                sdir@,
                self.expanded(),
                self.parsed_projects@,
            ),
        decreases items@, 1nat,
    {
        let ghost ex = self.expanded();
        let ghost ps = self.parsed_projects@;
        let ghost start = out.deep_view();
        let ghost its = items@;
        let mut keys: Vec<(bool, String)> = Vec::new();
        let mut i: usize = 0;
        while i < items.len()
            invariant
                its == items@,
                i <= its.len(),
                keys.deep_view() == sln_keys(its).take(i as int),
            decreases its.len() - i,
        {
            let ghost before = keys.deep_view();
            let key = (items[i].is_folder, copy_text(&items[i].name));
            keys.push(key);
            proof {
                assert(key.deep_view() == (its[i as int].is_folder, its[i as int].name@));
                assert(keys.deep_view() =~= before.push(key.deep_view()));
                assert(keys.deep_view() =~= sln_keys(its).take(i + 1));
            }
            i = i + 1;
        }
        proof {
            assert(keys.deep_view() =~= sln_keys(its));
            lemma_sort_order(sln_keys(its), its.len());
        }
        let order = stable_order(&keys);
        let mut k: usize = 0;
        while k < order.len()
            invariant
                its == items@,
                ex == self.expanded(),
                ps == self.parsed_projects@,
                order@ == crate::util::order::sort_order(sln_keys(its), its.len()),
                order@.len() == its.len(),
                forall|t: int| 0 <= t < its.len() ==> order@[t] < its.len(),
                k <= order.len(),
                out.deep_view() == start + items_upto(its, k as nat, depth, sdir@, ex, ps),
            decreases order.len() - k,
        {
            let j = order[k];
            proof {
                assert(decreases_to!(items@ => items@[j as int]));
            }
            self.push_item_entries(out, &items[j], depth, sdir);
            proof {
                assert(out.deep_view() =~= start + items_upto(its, (k + 1) as nat, depth, sdir@, ex, ps));
            }
            k = k + 1;
        }
    }

    /// Appends the entries of one folder or project.
    fn push_item_entries(&self, out: &mut Vec<SolutionEntry>, item: &SlnItem, depth: usize, sdir: &str)
        ensures
            final(out).deep_view() == old(out).deep_view() + item_entries(
                *item,
                depth,
                sdir@,
                self.expanded(),
                self.parsed_projects@,
            ),
        decreases *item, 0nat,
    {
        let ghost start = out.deep_view();
        if item.is_folder {
            let entry = SolutionEntry::Folder { name: copy_text(&item.name), guid: copy_text(&item.guid), depth };
            out.push(entry);
            proof {
                assert(out.deep_view() =~= start.push(entry.deep_view()));
            }
            if depth < usize::MAX && self.is_expanded(&SolutionEntryId::Folder(copy_text(&item.guid))) {
                proof {
                    assert(decreases_to!(*item => item.children));
                    assert(decreases_to!(item.children => item.children@));
                }
                self.push_items_entries(out, &item.children, depth + 1, sdir);
            }
            proof {
                assert(out.deep_view() =~= start + item_entries(*item, depth, sdir@, self.expanded(), self.parsed_projects@));
            }
        } else if item.is_project {
            let path = join(sdir, item.relative_path.as_str());
            let entry = SolutionEntry::Project {
                name: copy_text(&item.name),
                path: copy_text(&path),
                guid: copy_text(&item.guid),
                depth,
            };
            out.push(entry);
            proof {
                assert(out.deep_view() =~= start.push(entry.deep_view()));
            }
            if depth < usize::MAX && self.is_expanded(&SolutionEntryId::Project(copy_text(&item.guid))) {
                match self.find_project(path.as_str()) {
                    Some(idx) => {
                        let pdir = dir_of_path(path.as_str());
                        self.push_dir_entries(out, &self.parsed_projects[idx].1, depth + 1, pdir.as_str());
                    },
                    None => {},
                }
            }
            proof {
                assert(out.deep_view() =~= start + item_entries(*item, depth, sdir@, self.expanded(), self.parsed_projects@));
            }
        } else {
            proof {
                assert(out.deep_view() =~= start + item_entries(*item, depth, sdir@, self.expanded(), self.parsed_projects@));
            }
        }
    }

    /// The entries the view shows now.
    fn current_entries(&self) -> (res: Vec<SolutionEntry>)
        ensures
            res.deep_view() == view_entries(*self),
    {
        let mut entries: Vec<SolutionEntry> = Vec::new();
        match &self.parsed_solution {
            None => {
                proof {
                    assert(entries.deep_view() =~= Seq::<EntryView>::empty());
                }
            },
            Some(sol) => {
                let solution_path = match &self.solution_path {
                    Some(p) => copy_text(p),
                    None => String::new(),
                };
                let sdir = dir_of_path(solution_path.as_str());
                let entry = SolutionEntry::Solution { name: copy_text(&sol.name), path: copy_text(&solution_path) };
                entries.push(entry);
                proof {
                    assert(entries.deep_view() =~= seq![entry.deep_view()]);
                }
                if self.is_expanded(&SolutionEntryId::Solution(copy_text(&solution_path))) {
                    self.push_items_entries(&mut entries, &sol.roots, 1, sdir.as_str());
                }
            },
        }
        entries
    }

    /// Lists again the entries the view shows: nothing before a solution is
    /// loaded; otherwise the solution and, when it is expanded, its folders
    /// and projects, depth first, each expanded folder followed by its items
    /// and each expanded loaded project by its directories and files.
    pub fn update_visible_entries(&mut self)
        ensures
            final(self).visible_entries.deep_view() == view_entries(*old(self)),
            final(self).expanded_ids == old(self).expanded_ids,
            final(self).solution_path == old(self).solution_path,
            final(self).parsed_solution == old(self).parsed_solution,
            final(self).parsed_projects == old(self).parsed_projects,
            final(self).selection == old(self).selection,
    {
        let entries = self.current_entries();
        self.visible_entries = entries;
    }

    /// The paths and GUIDs of the projects to load before the visible
    /// entries can show their files: each visible project entry that is
    /// expanded and whose directory tree is not loaded, in order.
    pub fn projects_to_load(&self) -> (res: Vec<(String, String)>)
        ensures
            res.deep_view() == somes(
                self.visible_entries.deep_view().map_values(
                    |e: EntryView| wanted_project(e, self.expanded(), self.parsed_projects@),
                ),
            ),
    {
        let ghost es = self.visible_entries.deep_view();
        let ghost f = |e: EntryView| wanted_project(e, self.expanded(), self.parsed_projects@);
        let mut out: Vec<(String, String)> = Vec::new();
        let mut i: usize = 0;
        while i < self.visible_entries.len()
            invariant
                es == self.visible_entries.deep_view(),
                f == (|e: EntryView| wanted_project(e, self.expanded(), self.parsed_projects@)),
                i <= es.len(),
                out.deep_view() == somes(es.take(i as int).map_values(f)),
            decreases es.len() - i,
        {
            proof {
                assert(es.take(i + 1).map_values(f) =~= es.take(i as int).map_values(f).push(f(es[i as int])));
                lemma_somes_push(es.take(i as int).map_values(f), f(es[i as int]));
                assert(es[i as int] == self.visible_entries@[i as int].deep_view());
            }
            match &self.visible_entries[i] {
                SolutionEntry::Project { path, guid, .. } => {
                    if self.is_expanded(&SolutionEntryId::Project(copy_text(guid))) {
                        match self.find_project(path.as_str()) {
                            None => {
                                let ghost before = out.deep_view();
                                let p = (copy_text(path), copy_text(guid));
                                out.push(p);
                                proof {
                                    assert(out.deep_view() =~= before.push(p.deep_view()));
                                }
                            },
                            Some(_) => {},
                        }
                    }
                },
                _ => {},
            }
            i = i + 1;
        }
        proof {
            assert(es.take(i as int) =~= es);
        }
        out
    }

    /// Keeps the directory tree read for the project at `path`, unless one
    /// is kept for that path already.
    pub fn insert_parsed_project(&mut self, path: String, tree: DirectoryItem)
        ensures
            final(self).parsed_projects@ == if project_tree(old(self).parsed_projects@, path@) is None {
                old(self).parsed_projects@.push((path, tree))
            } else {
                old(self).parsed_projects@
            },
            final(self).expanded_ids == old(self).expanded_ids,
            final(self).solution_path == old(self).solution_path,
            final(self).parsed_solution == old(self).parsed_solution,
            final(self).visible_entries == old(self).visible_entries,
            final(self).selection == old(self).selection,
    {
        if self.find_project(path.as_str()).is_none() {
            self.parsed_projects.push((path, tree));
        }
    }

    /// Shows the solution read from `path`: the solution replaces any
    /// other, projects loaded before are dropped, and only the solution
    /// itself is expanded.
    pub fn load_parsed_solution(&mut self, path: String, solution: SolutionModel)
        ensures
            final(self).solution_path == Some(path),
            final(self).parsed_solution == Some(solution),
            final(self).parsed_projects@.len() == 0,
            final(self).expanded() == Set::<(nat, Seq<char>)>::empty().insert((0nat, path@)),
            final(self).visible_entries == old(self).visible_entries,
            final(self).selection == old(self).selection,
    {
        let id = SolutionEntryId::Solution(copy_text(&path));
        self.solution_path = Some(path);
        self.parsed_solution = Some(solution);
        self.expanded_ids = Vec::new();
        self.parsed_projects = Vec::new();
        proof {
            assert(id_keys(self.expanded_ids@) =~= Seq::<(nat, Seq<char>)>::empty());
            assert(self.expanded() =~= Set::<(nat, Seq<char>)>::empty());
        }
        self.expand(&id);
    }
}
impl Default for SolutionViewState {
    /// A state with nothing loaded, expanded or selected.
    fn default() -> (res: Self)
        ensures
            res.expanded() == Set::<(nat, Seq<char>)>::empty(),
    {
        Self::new()
    }
}

/// Toggling an entry twice leaves the expanded entries as they were.
pub proof fn lemma_toggle_twice(expanded: Set<(nat, Seq<char>)>, key: (nat, Seq<char>))
    ensures
        ({
            let once = if expanded.contains(key) { expanded.remove(key) } else { expanded.insert(key) };
            let twice = if once.contains(key) { once.remove(key) } else { once.insert(key) };
            twice == expanded
        }),
{
    let once = if expanded.contains(key) { expanded.remove(key) } else { expanded.insert(key) };
    let twice = if once.contains(key) { once.remove(key) } else { once.insert(key) };
    assert(twice =~= expanded);
}

} // verus!
