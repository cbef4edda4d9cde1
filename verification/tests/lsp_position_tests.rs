use cherry_sight::lsp::position::{
    offset_to_position, position_to_offset, range_to_span, span_to_range,
};
use lsp_types::{Position, Range};
use cherry_sight::util::{FileId, Span};

#[test]
fn test_position_to_offset_first_line() {
    let text = "hello world\nfoo bar";
    let pos = Position { line: 0, character: 6 };
    assert_eq!(position_to_offset(text, pos), Some(6));
}

#[test]
fn test_position_to_offset_second_line() {
    let text = "hello world\nfoo bar";
    let pos = Position { line: 1, character: 4 };
    // "hello world\n" = 12 bytes, then "foo " = 4 bytes
    assert_eq!(position_to_offset(text, pos), Some(16));
}

#[test]
fn test_offset_to_position_first_line() {
    let text = "hello world\nfoo bar";
    let pos = offset_to_position(text, 6);
    assert_eq!(pos, Position { line: 0, character: 6 });
}

#[test]
fn test_offset_to_position_second_line() {
    let text = "hello world\nfoo bar";
    let pos = offset_to_position(text, 16);
    assert_eq!(pos, Position { line: 1, character: 4 });
}

#[test]
fn test_round_trip() {
    let text = "hello world\nfoo bar\nbaz";
    let original_pos = Position { line: 1, character: 4 };

    let offset = position_to_offset(text, original_pos).unwrap();
    let converted_pos = offset_to_position(text, offset);

    assert_eq!(original_pos, converted_pos);
}

#[test]
fn test_span_to_range() {
    let text = "hello world\nfoo bar";
    let file_id = FileId::new(1);
    let span = Span::new(file_id, 0, 5); // "hello"

    let range = span_to_range(text, span);
    assert_eq!(
        range,
        Range { start: Position { line: 0, character: 0 }, end: Position { line: 0, character: 5 } }
    );
}

#[test]
fn positions_past_the_text_or_a_line_are_not_found() {
    let text = "ab\ncd";
    assert_eq!(position_to_offset(text, Position { line: 0, character: 2 }), Some(2));
    assert_eq!(position_to_offset(text, Position { line: 0, character: 3 }), None);
    assert_eq!(position_to_offset(text, Position { line: 1, character: 2 }), Some(5));
    assert_eq!(position_to_offset(text, Position { line: 2, character: 0 }), None);
    assert_eq!(offset_to_position(text, 99), Position { line: 1, character: 2 });
}

#[test]
fn multi_byte_characters_count_once_per_character() {
    let text = "é\nü";
    assert_eq!(position_to_offset(text, Position { line: 1, character: 1 }), Some(5));
    assert_eq!(offset_to_position(text, 1), Position { line: 0, character: 1 });
    let span = range_to_span(
        text,
        Range { start: Position { line: 0, character: 0 }, end: Position { line: 1, character: 1 } },
        FileId::new(2),
    )
    .unwrap();
    assert_eq!((span.start, span.end), (0, 5));
    assert!(range_to_span(
        text,
        Range { start: Position { line: 0, character: 0 }, end: Position { line: 5, character: 0 } },
        FileId::new(2)
    )
    .is_none());
}
