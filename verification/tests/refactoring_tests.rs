use cherry_sight::refactoring::{ExtractProvider, TextEdit, WorkspaceEdit};
use cherry_sight::util::{FileId, Span};

#[test]
fn test_extract_method() {
    let provider = ExtractProvider::new();
    let file_id = FileId::new(1);
    let selection = Span::new(file_id, 10, 20);

    let edits = provider.extract_method(file_id, selection, "MyMethod");

    assert!(edits.is_some());
}

#[test]
fn extract_method_replaces_selection_with_call() {
    let provider = ExtractProvider::new();
    let file_id = FileId::new(4);
    let selection = Span::new(file_id, 1, 2);
    let edits = provider.extract_method(file_id, selection, "Run").unwrap();
    assert_eq!(edits.file_count(), 1);
    let file_edits = edits.edits_for(file_id).unwrap();
    assert_eq!(file_edits.len(), 1);
    assert_eq!(file_edits[0].new_text, "Run()");
    assert_eq!(file_edits[0].span, selection);

    let var = provider.extract_variable(file_id, selection, "tmp").unwrap();
    assert_eq!(var.edits_for(file_id).unwrap()[0].new_text, "tmp");
    assert!(var.edits_for(FileId::new(5)).is_none());
}

#[test]
fn workspace_edit_groups_by_file_in_order() {
    let mut edits = WorkspaceEdit::new();
    let (a, b) = (FileId::new(1), FileId::new(2));
    edits.add_edit(TextEdit { file_id: a, span: Span::new(a, 0, 1), new_text: "x".to_string() });
    edits.add_edit(TextEdit { file_id: b, span: Span::new(b, 0, 1), new_text: "y".to_string() });
    edits.add_edit(TextEdit { file_id: a, span: Span::new(a, 2, 3), new_text: "z".to_string() });
    assert_eq!(edits.file_count(), 2);
    let for_a: Vec<&str> = edits.edits_for(a).unwrap().iter().map(|e| e.new_text.as_str()).collect();
    assert_eq!(for_a, vec!["x", "z"]);
}
