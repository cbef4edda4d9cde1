//! Refactoring operations: text edits grouped by file, and extraction.

pub mod extract;

pub use extract::{ExtractProvider, ExtractionKind};

use vstd::prelude::*;
use crate::util::span::{FileId, Span};

verus! {

/// A replacement of the text in a span of a file.
#[derive(Debug, Clone)]
pub struct TextEdit {
    pub file_id: FileId,
    pub span: Span,
    pub new_text: String,
}

/// Edits across the workspace, grouped by file.
#[derive(Debug, Clone)]
pub struct WorkspaceEdit {
    files: Vec<FileId>,
    changes: Vec<Vec<TextEdit>>,
}

impl WorkspaceEdit {
    /// The edits of each file, in the order they were added.
    pub closed spec fn edit_map(&self) -> Map<FileId, Seq<TextEdit>> {
        Map::new(
            |f: FileId| self.files@.contains(f),
            |f: FileId| self.changes@[self.files@.index_of(f)]@,
        )
    }

    /// Whether every file appears once, with its own edits.
    pub closed spec fn wf(&self) -> bool {
        &&& self.files@.no_duplicates()
        &&& self.changes@.len() == self.files@.len()
        &&& forall|i: int, k: int|
            0 <= i < self.files@.len() && 0 <= k < self.changes@[i]@.len() ==> (
            #[trigger] self.changes@[i]@[k]).file_id == self.files@[i]
    }

    /// A workspace edit without edits.
    pub fn new() -> (res: Self)
        ensures
            res.wf(),
            res.edit_map() == Map::<FileId, Seq<TextEdit>>::empty(),
    {
        let res = WorkspaceEdit { files: Vec::new(), changes: Vec::new() };
        proof {
            assert(res.edit_map() =~= Map::<FileId, Seq<TextEdit>>::empty());
        }
        res
    }

    /// Adds an edit at the end of the edits of its file.
    pub fn add_edit(&mut self, edit: TextEdit)
        requires
            old(self).wf(),
        ensures
            final(self).wf(),
            final(self).edit_map() == old(self).edit_map().insert(
                edit.file_id,
                crate::util::named_graph::entry_or_empty(old(self).edit_map(), edit.file_id).push(edit),
            ),
    {
        let ghost files0 = self.files@;
        let ghost changes0 = self.changes@;
        let ghost m0 = self.edit_map();
        let ghost e = edit;
        let f = edit.file_id;
        let found = self.position(f);
        let i: usize = match found {
            Some(j) => j,
            None => self.files.len(),
        };
        if i < self.files.len() {
            proof {
                crate::util::named_graph::lemma_index_of_unique(files0, i as int);
            }
            self.changes[i].push(edit);
            proof {
                assert(self.edit_map().dom() =~= m0.insert(f, crate::util::named_graph::entry_or_empty(m0, f).push(e)).dom());
                assert forall|g: FileId| #[trigger] self.edit_map().dom().contains(g) implies self.edit_map()[g]
                    == m0.insert(f, crate::util::named_graph::entry_or_empty(m0, f).push(e))[g] by {
                    let t = files0.index_of(g);
                    crate::util::named_graph::lemma_index_of_unique(files0, t);
                    if t != i as int {
                        assert(self.changes@[t] == changes0[t]);
                    } else {
                        assert(self.changes@[t]@ =~= changes0[t]@.push(e));
                    }
                }
                assert(self.edit_map() =~= m0.insert(f, crate::util::named_graph::entry_or_empty(m0, f).push(e)));
                assert forall|a: int, k: int|
                    0 <= a < self.files@.len() && 0 <= k < self.changes@[a]@.len() implies (
                    #[trigger] self.changes@[a]@[k]).file_id == self.files@[a] by {
                    if a != i as int {
                        assert(self.changes@[a] == changes0[a]);
                    }
                }
            }
        } else {
            let mut group: Vec<TextEdit> = Vec::new();
            group.push(edit);
            self.files.push(f);
            self.changes.push(group);
            proof {
                let files1 = self.files@;
                assert(!files0.contains(f));
                crate::util::seqs::lemma_push_no_duplicates(files0, f);
                crate::util::named_graph::lemma_index_of_unique(files1, i as int);
                assert forall|g: FileId| #[trigger] self.edit_map().dom().contains(g) <==> m0.insert(
                    f,
                    crate::util::named_graph::entry_or_empty(m0, f).push(e),
                ).dom().contains(g) by {
                    crate::util::seqs::lemma_push_contains(files0, f, g);
                }
                assert forall|g: FileId| #[trigger] self.edit_map().dom().contains(g) implies self.edit_map()[g]
                    == m0.insert(f, crate::util::named_graph::entry_or_empty(m0, f).push(e))[g] by {
                    let t = files1.index_of(g);
                    crate::util::named_graph::lemma_index_of_unique(files1, t);
                    if t != i as int {
                        crate::util::named_graph::lemma_index_of_unique(files0, t);
                        assert(self.changes@[t] == changes0[t]);
                    } else {
                        assert(crate::util::named_graph::entry_or_empty(m0, f) == Seq::<TextEdit>::empty());
                        assert(self.changes@[t]@ =~= Seq::<TextEdit>::empty().push(e));
                    }
                }
                assert(self.edit_map() =~= m0.insert(f, crate::util::named_graph::entry_or_empty(m0, f).push(e)));
                assert forall|a: int, k: int|
                    0 <= a < self.files@.len() && 0 <= k < self.changes@[a]@.len() implies (
                    #[trigger] self.changes@[a]@[k]).file_id == self.files@[a] by {
                    if a < i as int {
                        assert(self.changes@[a] == changes0[a]);
                    }
                }
            }
        }
    }

    /// The position of `f` among the files, if it has edits.
    fn position(&self, f: FileId) -> (res: Option<usize>)
        ensures
            res matches Some(i) ==> i < self.files@.len() && self.files@[i as int] == f,
            res is None ==> !self.files@.contains(f),
    {
        let mut i: usize = 0;
        while i < self.files.len()
            invariant
                i <= self.files.len(),
                forall|t: int| 0 <= t < i ==> self.files@[t] != f,
            decreases self.files.len() - i,
        {
            if self.files[i] == f {
                return Some(i);
            }
            i = i + 1;
        }
        None
    }

    /// The edits of `file_id`, in the order they were added; `None` when it
    /// has none.
    pub fn edits_for(&self, file_id: FileId) -> (res: Option<&Vec<TextEdit>>)
        requires
            self.wf(),
        ensures
            res is Some <==> self.edit_map().dom().contains(file_id),
            res matches Some(v) ==> v@ == self.edit_map()[file_id],
    {
        match self.position(file_id) {
            Some(i) => {
                proof {
                    crate::util::named_graph::lemma_index_of_unique(self.files@, i as int);
                }
                Some(&self.changes[i])
            },
            None => None,
        }
    }

    /// The number of files with edits.
    pub fn file_count(&self) -> (res: usize)
        requires
            self.wf(),
        ensures
            res == self.edit_map().dom().len(),
    {
        proof {
            self.files@.unique_seq_to_set();
            assert(self.files@.to_set() =~= self.edit_map().dom());
        }
        self.files.len()
    }
}

impl Default for WorkspaceEdit {
    /// A workspace edit without edits.
    fn default() -> (res: Self)
        ensures
            res.wf(),
            res.edit_map() == Map::<FileId, Seq<TextEdit>>::empty(),
    {
        Self::new()
    }
}

} // verus!
