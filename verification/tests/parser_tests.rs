use cherry_sight::parser::{Edit, IncrementalParser, TextRangeExt};
use cherry_sight::util::FileId;

#[test]
fn test_incremental_parser_basic() {
    let mut parser = IncrementalParser::new().unwrap();

    let source1 = "int main() { return 0; }";
    let tree1 = parser.parse(source1).unwrap();

    assert!(!tree1.root_node().has_error());
}

#[test]
fn test_incremental_parser_edit() {
    let mut parser = IncrementalParser::new().unwrap();

    let source1 = "int main() { return 0; }";
    let _tree1 = parser.parse(source1).unwrap();

    // Change "int" to "void"
    let edit = Edit::simple(0..3, "void");
    let source2 = "void main() { return 0; }";
    let tree2 = parser.edit(source2, edit).unwrap();

    assert!(!tree2.root_node().has_error());
}

#[test]
fn test_incremental_parser_cache() {
    let mut parser = IncrementalParser::new().unwrap();

    assert!(parser.cached_tree().is_none());

    let source = "int main() {}";
    parser.parse(source);

    assert!(parser.cached_tree().is_some());

    parser.clear_cache();
    assert!(parser.cached_tree().is_none());
}

#[test]
fn test_incremental_parser_edit_without_tree() {
    let mut parser = IncrementalParser::new().unwrap();
    let tree = parser.edit("int x;", Edit::simple(0..0, "")).unwrap();
    assert_eq!(tree.root_node().kind(), "translation_unit");
    assert!(parser.cached_tree().is_some());
}

#[test]
fn incremental_parser_default_keeps_no_tree() {
    let mut parser = IncrementalParser::default();
    assert!(parser.cached_tree().is_none());
    let tree = parser.parse("void f();").unwrap();
    assert!(!tree.root_node().has_error());
    assert!(parser.cached_tree().is_some());
}

#[test]
fn test_text_range_conversion() {
    let mut parser = tree_sitter::Parser::new();
    parser.set_language(&tree_sitter_cpp::LANGUAGE.into()).unwrap();

    let source = "int main() {}";
    let tree = parser.parse(source, None).unwrap();
    let root = tree.root_node();

    let file_id = FileId::new(1);
    let span = root.to_span(file_id);

    assert_eq!(span.file_id, file_id);
    assert_eq!(span.start, 0);
    assert_eq!(span.end, source.len() as u32);
    let range = root.to_text_range();
    assert_eq!((range.start, range.end), (0, source.len() as u32));
}

#[test]
fn edit_moves_the_kept_tree_before_reparsing() {
    let mut parser = IncrementalParser::new().unwrap();
    parser.parse("int x;").unwrap();
    let edit = Edit::simple(0..3, "unsigned long");
    let tree = parser.edit("unsigned long x;", edit).unwrap();
    let root = tree.root_node();
    assert!(!root.has_error());
    assert_eq!(root.end_byte(), 16);
    let decl = root.child(0).unwrap();
    let declarator = decl.child_by_field_name("declarator").unwrap();
    assert_eq!((declarator.start_byte(), declarator.end_byte()), (14, 15));
    // The kept tree is the one returned.
    let kept = parser.cached_tree().unwrap();
    assert_eq!(kept.root_node().to_sexp(), tree.root_node().to_sexp());
}

#[test]
fn node_ranges_are_the_node_bytes() {
    let mut parser = IncrementalParser::new().unwrap();
    let tree = parser.parse("int a; int bc;").unwrap();
    let second = tree.root_node().child(1).unwrap();
    let range = second.to_text_range();
    assert_eq!((range.start, range.end), (7, 14));
    let span = second.to_span(FileId::new(3));
    assert_eq!((span.start, span.end), (7, 14));
    assert_eq!(span.file_id, FileId::new(3));
}
