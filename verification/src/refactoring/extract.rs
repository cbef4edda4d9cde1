//! Extracting a selection into a method or a variable.

use vstd::prelude::*;
use vstd::string::StringExecFns;
use crate::refactoring::{TextEdit, WorkspaceEdit};
use crate::util::span::{FileId, Span};

verus! {

/// What a selection is extracted into.
#[derive(Debug, Clone, Copy, PartialEq, Eq, Structural)]
pub enum ExtractionKind {
    Method,
    Variable,
    Constant,
}

/// Provides extract refactorings.
pub struct ExtractProvider;

/// Whether `w` holds exactly one edit, in `file_id`, replacing `selection`
/// with `text`.
pub open spec fn single_replacement(w: WorkspaceEdit, file_id: FileId, selection: Span, text: Seq<char>) -> bool {
    &&& w.wf()
    &&& w.edit_map().dom() == set![file_id]
    &&& w.edit_map()[file_id].len() == 1
    &&& w.edit_map()[file_id][0].file_id == file_id
    &&& w.edit_map()[file_id][0].span == selection
    &&& w.edit_map()[file_id][0].new_text@ == text
}

impl ExtractProvider {
    /// An extract provider.
    pub fn new() -> (res: Self) {
        ExtractProvider
    }

    /// The edit that replaces `selection` by a call `<method_name>()`.
    pub fn extract_method(&self, file_id: FileId, selection: Span, method_name: &str) -> (res: Option<
        WorkspaceEdit,
    >)
        ensures
            res matches Some(w) && single_replacement(w, file_id, selection, method_name@ + "()"@),
    {
        let mut text = String::from_str(method_name);
        text.append("()");
        Some(Self::replacement(file_id, selection, text))
    }

    /// The edit that replaces `selection` by a reference to `variable_name`.
    pub fn extract_variable(&self, file_id: FileId, selection: Span, variable_name: &str) -> (res:
        Option<WorkspaceEdit>)
        ensures
            res matches Some(w) && single_replacement(w, file_id, selection, variable_name@),
    {
        Some(Self::replacement(file_id, selection, String::from_str(variable_name)))
    }

    /// A workspace edit with the one edit replacing `selection` by `text`.
    fn replacement(file_id: FileId, selection: Span, text: String) -> (res: WorkspaceEdit)
        ensures
            single_replacement(res, file_id, selection, text@),
    {
        let mut edits = WorkspaceEdit::new();
        let edit = TextEdit { file_id, span: selection, new_text: text };
        edits.add_edit(edit);
        proof {
            assert(crate::util::named_graph::entry_or_empty(Map::<FileId, Seq<TextEdit>>::empty(), file_id)
                == Seq::<TextEdit>::empty());
            assert(edits.edit_map().dom() =~= set![file_id]);
        }
        edits
    }
}

impl Default for ExtractProvider {
    /// An extract provider.
    fn default() -> (res: Self) {
        Self::new()
    }
}

} // verus!
