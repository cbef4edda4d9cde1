use cherry_sight::util::path::{file_name, file_stem, join, parent};
use cherry_sight::util::text::split_lines;
use cherry_sight::util::{FileId, Position, Span, TextRange};

#[test]
fn test_span_basic() {
    let file = FileId::new(1);
    let span = Span::new(file, 10, 20);

    assert_eq!(span.len(), 10);
    assert!(!span.is_empty());
    assert!(span.contains(15));
    assert!(!span.contains(25));
}

#[test]
fn test_span_overlaps() {
    let file = FileId::new(1);
    let span1 = Span::new(file, 10, 20);
    let span2 = Span::new(file, 15, 25);
    let span3 = Span::new(file, 30, 40);

    assert!(span1.overlaps(&span2));
    assert!(!span1.overlaps(&span3));
}

#[test]
fn test_span_merge() {
    let file = FileId::new(1);
    let span1 = Span::new(file, 10, 20);
    let span2 = Span::new(file, 15, 25);

    let merged = span1.merge(&span2).unwrap();
    assert_eq!(merged.start, 10);
    assert_eq!(merged.end, 25);
}

#[test]
fn test_position() {
    let pos = Position::new(5, 10);
    assert_eq!(pos.to_string(), "6:11"); // 1-based display
}

#[test]
fn test_text_range() {
    let range = TextRange::new(10, 20);
    assert_eq!(range.len(), 10);
    assert!(range.contains(15));
    assert!(!range.contains(25));

    let empty = TextRange::empty(10);
    assert!(empty.is_empty());
}

#[test]
fn span_merge_refuses_other_files() {
    let a = Span::new(FileId::new(1), 0, 5);
    let b = Span::new(FileId::new(2), 3, 9);
    assert!(a.merge(&b).is_none());
}

#[test]
fn span_merge_is_symmetric_and_covers_both() {
    let f = FileId::new(3);
    let a = Span::new(f, 4, 9);
    let b = Span::new(f, 12, 20);
    let ab = a.merge(&b).unwrap();
    let ba = b.merge(&a).unwrap();
    assert_eq!(ab, ba);
    assert_eq!((ab.start, ab.end), (4, 20));
}

#[test]
fn span_overlap_is_symmetric_and_touching_spans_do_not_overlap() {
    let f = FileId::new(1);
    let a = Span::new(f, 0, 10);
    let b = Span::new(f, 10, 20);
    assert!(!a.overlaps(&b));
    assert!(!b.overlaps(&a));
    let c = Span::new(f, 9, 11);
    assert_eq!(a.overlaps(&c), c.overlaps(&a));
    assert!(a.overlaps(&c));
}

#[test]
fn display_texts() {
    assert_eq!(FileId::new(42).to_string(), "FileId(42)");
    assert_eq!(Span::new(FileId::new(7), 3, 8).to_string(), "FileId(7):3..8");
    assert_eq!(TextRange::new(1, 4).to_string(), "1..4");
    assert_eq!(Position::origin().to_string(), "1:1");
}

#[test]
fn text_range_to_std_range() {
    assert_eq!(TextRange::new(2, 6).to_std_range(), 2..6);
    assert_eq!(Span::new(FileId::new(1), 2, 6).to_range(), TextRange::new(2, 6));
}

#[test]
fn path_pieces() {
    assert_eq!(file_name("/a/b/c.txt").as_deref(), Some("c.txt"));
    assert_eq!(file_name("/a/b/").as_deref(), Some("b"));
    assert_eq!(file_name("/"), None);
    assert_eq!(parent("/a/b/c.txt").as_deref(), Some("/a/b"));
    assert_eq!(parent("c.txt").as_deref(), Some(""));
    assert_eq!(parent("/"), None);
    assert_eq!(file_stem("/x/Foo.Build.cs").as_deref(), Some("Foo.Build"));
    assert_eq!(file_stem("/x/.hidden").as_deref(), Some(".hidden"));
    assert_eq!(join("/a", "b"), "/a/b");
    assert_eq!(join("/a/", "b"), "/a/b");
    assert_eq!(join("/a", "/b"), "/b");
    assert_eq!(join("", "b"), "b");
}

#[test]
fn lines_split_like_std() {
    for text in ["", "a", "a\n", "a\n\nb", "a\r\nb\r\n", "\n", "x\r", "one\ntwo\r\nthree"] {
        let expected: Vec<String> = text.lines().map(|s| s.to_string()).collect();
        assert_eq!(split_lines(text), expected, "text {:?}", text);
    }
}

#[test]
fn trimming_drops_exactly_unicode_white_space() {
    let all: Vec<char> = (0u32..0x11000).filter_map(char::from_u32).collect();
    for c in all {
        let s = format!("{}x{}", c, c);
        let expected = if c.is_whitespace() { "x".to_string() } else { s.clone() };
        assert_eq!(cherry_sight::util::scan::trimmed(&s), expected, "{:?}", c);
    }
    assert_eq!(cherry_sight::util::scan::trimmed("\u{3000} a b\u{a0}\t"), "a b");
}

#[test]
fn file_ids_render_in_plain_decimal() {
    for n in [0u32, 7, 9, 10, 42, 100, 1_000_001, u32::MAX] {
        assert_eq!(FileId::new(n).to_string(), format!("FileId({})", n));
    }
}
