use cherry_sight::languages::{completion_label, symbol_label, HighlightName, LabelHighlight};

#[test]
fn field_completion_shows_type_then_name() {
    let l = completion_label("•count ", None, Some("int"), Some(5), None);
    assert_eq!(l.text, "int count");
    assert_eq!((l.filter_start, l.filter_end), (4, 9));
    assert_eq!(l.highlight, LabelHighlight::AsField);
}

#[test]
fn function_completion_filters_up_to_the_parenthesis() {
    let l = completion_label("foo", Some("(int a)"), Some("void"), Some(3), None);
    assert_eq!(l.text, "void foo(int a)");
    assert_eq!((l.filter_start, l.filter_end), (5, 8));
    assert_eq!(l.highlight, LabelHighlight::AsCode);
    let with_filter = completion_label("foo", Some("(int a)"), Some("void"), Some(3), Some("oo"));
    assert_eq!((with_filter.filter_start, with_filter.filter_end), (6, 8));
    // A parenthesis inside the detail does not end the filter range.
    let pointer = completion_label("f", None, Some("int(*)(int)"), Some(3), None);
    assert_eq!(pointer.text, "int(*)(int) f");
    assert_eq!((pointer.filter_start, pointer.filter_end), (12, 13));
}

#[test]
fn variable_completion_finds_its_filter_text() {
    let l = completion_label("x", None, Some("float"), Some(6), Some("x"));
    assert_eq!(l.text, "float x");
    assert_eq!((l.filter_start, l.filter_end), (6, 7));
    assert_eq!(l.highlight, LabelHighlight::AsCode);
}

#[test]
fn other_completions_show_the_label() {
    let method = completion_label("bar()", None, None, Some(2), None);
    assert_eq!(method.text, "bar()");
    assert_eq!((method.filter_start, method.filter_end), (0, 5));
    assert_eq!(method.highlight, LabelHighlight::Plain);

    let st = completion_label("Foo", Some(" ns::Foo "), None, Some(22), Some("zzz"));
    assert_eq!(st.text, "Foo ns::Foo");
    assert_eq!((st.filter_start, st.filter_end), (0, 11));
    assert_eq!(st.highlight, LabelHighlight::Named(HighlightName::Type, 11));

    let constant = completion_label("MAX(a)", None, None, Some(21), None);
    assert_eq!(constant.highlight, LabelHighlight::Named(HighlightName::Constant, 3));

    let plain = completion_label("é", None, None, None, Some("é"));
    assert_eq!((plain.filter_start, plain.filter_end), (0, 2));
    assert_eq!(plain.highlight, LabelHighlight::Plain);
}

#[test]
fn symbol_labels_by_kind() {
    let f = symbol_label("foo", 12).unwrap();
    assert_eq!(f.text, "foo");
    assert_eq!(f.code, "void foo () {}");
    assert_eq!((f.filter_start, f.filter_end), (0, 3));
    assert_eq!((f.display_start, f.display_end), (5, 8));

    let s = symbol_label("Bar", 23).unwrap();
    assert_eq!(s.text, "struct Bar");
    assert_eq!(s.code, "struct Bar {}");
    assert_eq!((s.filter_start, s.filter_end), (7, 10));
    assert_eq!((s.display_start, s.display_end), (0, 10));

    let n = symbol_label("N", 2).unwrap();
    assert_eq!(n.text, "namespace N");
    assert_eq!((n.filter_start, n.filter_end), (10, 11));

    let c = symbol_label("K", 14).unwrap();
    assert_eq!(c.code, "const int K = 0;");
    assert_eq!(c.text, "const int K");

    assert!(symbol_label("v", 13).is_none());
}
