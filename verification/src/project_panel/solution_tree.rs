//! What the solution view shows of a Visual Studio solution.
//!
//! The solution and its projects are read by the panel; the view takes from
//! them the tree of solution folders and projects, and for each loaded
//! project the directory tree of its files.  The view lists, depth first,
//! the entries that expanded ancestors make visible: folders before
//! projects and each group by name, a project's directories before its
//! files and each by name.

use vstd::prelude::*;
use crate::project_panel::solution_view::SolutionEntryId;
use crate::util::order::sort_order;
use crate::util::path::spec_join;

verus! {

/// A solution folder or project as the view reads it.
#[derive(Debug)]
pub struct SlnItem {
    pub name: String,
    pub guid: String,
    /// The project file's path relative to the solution's directory.
    pub relative_path: String,
    /// Whether the item is a solution folder.
    pub is_folder: bool,
    /// Whether the item is a project the view shows.
    pub is_project: bool,
    /// The items nested in a solution folder, in the solution's order.
    pub children: Vec<SlnItem>,
}

/// A parsed solution: its name and its top-level folders and projects.
#[derive(Debug)]
pub struct SolutionModel {
    pub name: String,
    pub roots: Vec<SlnItem>,
}

/// A file of a project's directory tree.
#[derive(Debug, Clone)]
pub struct ProjectFileItem {
    /// The file's path relative to the project's directory.
    pub relative_path: String,
    /// The file's name, when its path has one.
    pub file_name: Option<String>,
}

/// A directory of a project's directory tree.
#[derive(Debug)]
pub struct DirectoryItem {
    pub name: String,
    /// The directory's path relative to the project's directory.
    pub path: String,
    pub children: Vec<DirectoryItem>,
    pub files: Vec<ProjectFileItem>,
}

/// A visible entry of the solution view.
#[derive(Debug, Clone)]
pub enum SolutionEntry {
    Solution { name: String, path: String },
    Folder { name: String, guid: String, depth: usize },
    Project { name: String, path: String, guid: String, depth: usize },
    SourceFile { name: String, path: String, depth: usize },
    Directory { name: String, path: String, depth: usize },
}

/// An entry as values: its kind (0 solution, 1 folder, 2 project, 3 source
/// file, 4 directory), name, path, GUID and depth; what a kind lacks is
/// empty.
pub type EntryView = (nat, Seq<char>, Seq<char>, Seq<char>, usize);

impl DeepView for SolutionEntry {
    type V = EntryView;

    open spec fn deep_view(&self) -> EntryView {
        match self {
            SolutionEntry::Solution { name, path } => (0, name@, path@, Seq::empty(), 0),
            SolutionEntry::Folder { name, guid, depth } => (1, name@, Seq::empty(), guid@, *depth),
            SolutionEntry::Project { name, path, guid, depth } => (2, name@, path@, guid@, *depth),
            SolutionEntry::SourceFile { name, path, depth } => (3, name@, path@, Seq::empty(), *depth),
            SolutionEntry::Directory { name, path, depth } => (4, name@, path@, Seq::empty(), *depth),
        }
    }
}

/// The identifier of an entry, by kind and text: a directory is identified
/// like a source file, by its path.
pub open spec fn entry_key(e: EntryView) -> (nat, Seq<char>) {
    if e.0 == 0 {
        (0, e.2)
    } else if e.0 == 1 {
        (1, e.3)
    } else if e.0 == 2 {
        (2, e.3)
    } else {
        (3, e.2)
    }
}

impl SolutionEntry {
    /// The identifier of the entry.
    pub fn id(&self) -> (res: SolutionEntryId)
        ensures
            crate::project_panel::solution_view::id_key(res) == entry_key(self.deep_view()),
    {
        match self {
            SolutionEntry::Solution { path, .. } => SolutionEntryId::Solution(path.clone()),
            SolutionEntry::Folder { guid, .. } => SolutionEntryId::Folder(guid.clone()),
            SolutionEntry::Project { guid, .. } => SolutionEntryId::Project(guid.clone()),
            SolutionEntry::SourceFile { path, .. } => SolutionEntryId::SourceFile(path.clone()),
            SolutionEntry::Directory { path, .. } => SolutionEntryId::SourceFile(path.clone()),
        }
    }

    /// The name shown for the entry.
    pub fn name(&self) -> (res: &str)
        ensures
            res@ == self.deep_view().1,
    {
        match self {
            SolutionEntry::Solution { name, .. } => name.as_str(),
            SolutionEntry::Folder { name, .. } => name.as_str(),
            SolutionEntry::Project { name, .. } => name.as_str(),
            SolutionEntry::SourceFile { name, .. } => name.as_str(),
            SolutionEntry::Directory { name, .. } => name.as_str(),
        }
    }

    /// How deep the entry is nested; the solution is at depth 0.
    pub fn depth(&self) -> (res: usize)
        ensures
            res == self.deep_view().4,
    {
        match self {
            SolutionEntry::Solution { .. } => 0,
            SolutionEntry::Folder { depth, .. } => *depth,
            SolutionEntry::Project { depth, .. } => *depth,
            SolutionEntry::SourceFile { depth, .. } => *depth,
            SolutionEntry::Directory { depth, .. } => *depth,
        }
    }

    /// Whether the entry can be expanded: all but source files.
    pub fn is_expandable(&self) -> (res: bool)
        ensures
            res == (self.deep_view().0 != 3),
    {
        match self {
            SolutionEntry::SourceFile { .. } => false,
            _ => true,
        }
    }

    /// The path of a source file entry.
    pub fn file_path(&self) -> (res: Option<&str>)
        ensures
            match res {
                Some(p) => self.deep_view().0 == 3 && p@ == self.deep_view().2,
                None => self.deep_view().0 != 3,
            },
    {
        match self {
            SolutionEntry::SourceFile { path, .. } => Some(path.as_str()),
            _ => None,
        }
    }
}

/// The sort key of a folder or project: folders first, then by name.
pub open spec fn sln_keys(items: Seq<SlnItem>) -> Seq<(bool, Seq<char>)> {
    items.map_values(|i: SlnItem| (i.is_folder, i.name@))
}

/// The sort key of a directory: its name.
pub open spec fn dir_keys(ds: Seq<DirectoryItem>) -> Seq<(bool, Seq<char>)> {
    ds.map_values(|d: DirectoryItem| (false, d.name@))
}

/// The name shown for a file: its file name, or nothing.
pub open spec fn file_label(f: ProjectFileItem) -> Seq<char> {
    match f.file_name {
        Some(n) => n@,
        None => Seq::empty(),
    }
}

/// The sort key of a file: the name shown for it.
pub open spec fn file_keys(fs: Seq<ProjectFileItem>) -> Seq<(bool, Seq<char>)> {
    fs.map_values(|f: ProjectFileItem| (false, file_label(f)))
}

/// The entries of a project's files, by name, at `depth` under the
/// project's directory `pdir`.
pub open spec fn file_entries(fs: Seq<ProjectFileItem>, depth: usize, pdir: Seq<char>) -> Seq<EntryView> {
    let order = sort_order(file_keys(fs), fs.len());
    Seq::new(
        fs.len(),
        |k: int| {
            let f = fs[order[k] as int];
            (3nat, file_label(f), spec_join(pdir, f.relative_path@), Seq::<char>::empty(), depth)
        },
    )
}

/// The entries of a directory's contents at `depth`: its subdirectories by
/// name, each followed by its own contents when it is expanded, then its
/// files by name.
pub open spec fn dir_entries(
    node: DirectoryItem,
    depth: usize,
    pdir: Seq<char>,
    ex: Set<(nat, Seq<char>)>,
) -> Seq<EntryView>
    decreases node, 0nat,
{
    proof {
        assert(decreases_to!(node => node.children));
        assert(decreases_to!(node.children => node.children@));
    }
    dirs_upto(node.children@, node.children@.len(), depth, pdir, ex) + file_entries(
        node.files@,
        depth,
        pdir,
    )
}

/// The entries of the first `k` directories of `ds` in name order, each
/// followed by its contents when it is expanded.
pub open spec fn dirs_upto(
    ds: Seq<DirectoryItem>,
    k: nat,
    depth: usize,
    pdir: Seq<char>,
    ex: Set<(nat, Seq<char>)>,
) -> Seq<EntryView>
    decreases ds, k,
{
    if k == 0 {
        Seq::empty()
    } else {
        let j = sort_order(dir_keys(ds), ds.len())[k - 1] as int;
        let before = dirs_upto(ds, (k - 1) as nat, depth, pdir, ex);
        if 0 <= j < ds.len() {
            let d = ds[j];
            let path = spec_join(pdir, d.path@);
            let own = seq![(4nat, d.name@, path, Seq::<char>::empty(), depth)];
            if depth < usize::MAX && ex.contains((3nat, path)) {
                before + own + dir_entries(d, (depth + 1) as usize, pdir, ex)
            } else {
                before + own
            }
        } else {
            before
        }
    }
}

/// The directory tree loaded for the project at `path`, if any.
pub open spec fn project_tree(projects: Seq<(String, DirectoryItem)>, path: Seq<char>) -> Option<DirectoryItem>
    decreases projects.len(),
{
    if projects.len() == 0 {
        None
    } else if projects[0].0@ == path {
        Some(projects[0].1)
    } else {
        project_tree(projects.drop_first(), path)
    }
}

/// The directory of a file, or `.`.
pub open spec fn dir_of(path: Seq<char>) -> Seq<char> {
    match crate::util::path::spec_parent(path) {
        Some(d) => d,
        None => "."@,
    }
}

/// The entries of a folder or project at `depth` in the solution whose
/// directory is `sdir`: a folder followed, when expanded, by its items; a
/// project followed, when expanded and loaded, by its directory tree; other
/// items show nothing.
pub open spec fn item_entries(
    item: SlnItem,
    depth: usize,
    sdir: Seq<char>,
    ex: Set<(nat, Seq<char>)>,
    projects: Seq<(String, DirectoryItem)>,
) -> Seq<EntryView>
    decreases item, 0nat,
{
    if item.is_folder {
        let own = seq![(1nat, item.name@, Seq::<char>::empty(), item.guid@, depth)];
        if depth < usize::MAX && ex.contains((1nat, item.guid@)) {
            proof {
                assert(decreases_to!(item => item.children));
                assert(decreases_to!(item.children => item.children@));
            }
            own + items_upto(
                item.children@,
                item.children@.len(),
                (depth + 1) as usize,
                sdir,
                ex,
                projects,
            )
        } else {
            own
        }
    } else if item.is_project {
        let path = spec_join(sdir, item.relative_path@);
        let own = seq![(2nat, item.name@, path, item.guid@, depth)];
        if depth < usize::MAX && ex.contains((2nat, item.guid@)) {
            match project_tree(projects, path) {
                Some(tree) => own + dir_entries(tree, (depth + 1) as usize, dir_of(path), ex),
                None => own,
            }
        } else {
            own
        }
    } else {
        Seq::empty()
    }
}

/// The entries of the first `k` items of `items` in order (folders first,
/// then by name).
pub open spec fn items_upto(
    items: Seq<SlnItem>,
    k: nat,
    depth: usize,
    sdir: Seq<char>,
    ex: Set<(nat, Seq<char>)>,
    projects: Seq<(String, DirectoryItem)>,
) -> Seq<EntryView>
    decreases items, k,
{
    if k == 0 {
        Seq::empty()
    } else {
        let j = sort_order(sln_keys(items), items.len())[k - 1] as int;
        let before = items_upto(items, (k - 1) as nat, depth, sdir, ex, projects);
        if 0 <= j < items.len() {
            before + item_entries(items[j], depth, sdir, ex, projects)
        } else {
            before
        }
    }
}

} // verus!
