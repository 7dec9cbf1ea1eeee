use lsp_text::{ConversionError, InputEdit, Point, RopeExt, SyntaxRange, TextEdit, TextPosition};
use lsp_types::{Position, Range, TextDocumentContentChangeEvent};
use ropey::Rope;

fn pos(line: u32, character: u32) -> Position {
    Position { line, character }
}

fn ranged(start: Position, end: Position, text: &str) -> TextDocumentContentChangeEvent {
    TextDocumentContentChangeEvent {
        range: Some(Range { start, end }),
        range_length: None,
        text: text.to_string(),
    }
}

#[test]
fn byte_to_lsp_position_on_second_line() {
    let rope = Rope::from_str("ab\ncd");
    assert_eq!(rope.byte_to_lsp_position(0), pos(0, 0));
    assert_eq!(rope.byte_to_lsp_position(3), pos(1, 0));
    assert_eq!(rope.byte_to_lsp_position(4), pos(1, 1));
    assert_eq!(rope.byte_to_lsp_position(5), pos(1, 2));
}

#[test]
fn surrogate_pair_advances_two_code_units() {
    let rope = Rope::from_str("a\u{1F600}b");
    let before = rope.byte_to_lsp_position(1);
    let after = rope.byte_to_lsp_position(5);
    assert_eq!(before, pos(0, 1));
    assert_eq!(after, pos(0, 3));
    let core_before = rope.lsp_position_to_core(before).unwrap();
    let core_after = rope.lsp_position_to_core(after).unwrap();
    assert_eq!(core_after.char, core_before.char + 1);
    assert_eq!(core_after.byte, core_before.byte + 4);
    assert_eq!(core_after.code, core_before.code + 2);
    assert_eq!(
        core_after,
        TextPosition { char: 2, byte: 5, code: 3, point: Point { row: 0, column: 5 } }
    );
}

#[test]
fn round_trip_through_protocol_positions() {
    let text = "h\u{e9}llo\nw\u{f6}rld\u{1F600}\n\nx\u{4e2d}";
    let rope = Rope::from_str(text);
    for (b, _) in text.char_indices().chain(std::iter::once((text.len(), ' '))) {
        let p = rope.byte_to_lsp_position(b);
        let core = rope.lsp_position_to_core(p).unwrap();
        assert_eq!(core.byte as usize, b);
        assert_eq!(core.char as usize, text[..b].chars().count());
        assert_eq!(core.code as usize, text[..b].encode_utf16().count());
    }
}

#[test]
fn positions_grow_with_the_byte_offset() {
    let text = "a\u{e9}\n\u{1F600}z\n\u{4e2d}\u{6587}";
    let rope = Rope::from_str(text);
    let mut last: Option<TextPosition> = None;
    for b in 0..=text.len() {
        let p = rope.byte_to_lsp_position(b);
        let core = rope.lsp_position_to_core(p).unwrap();
        if let Some(prev) = last {
            assert!(prev.char <= core.char);
            assert!(prev.code <= core.code);
            assert!(prev.point.row <= core.point.row);
        }
        last = Some(core);
    }
}

#[test]
fn position_to_core_on_a_later_line() {
    let rope = Rope::from_str("\u{1F600}\u{e9}\nab\u{e9}c");
    let core = rope.lsp_position_to_core(pos(1, 3)).unwrap();
    assert_eq!(core, TextPosition { char: 6, byte: 11, code: 7, point: Point { row: 1, column: 4 } });
}

#[test]
fn tree_sitter_point_counts_bytes_in_the_line() {
    let rope = Rope::from_str("ab\nc\u{e9}");
    assert_eq!(rope.byte_to_tree_sitter_point(6), Ok(Point { row: 1, column: 3 }));
    assert_eq!(rope.byte_to_tree_sitter_point(2), Ok(Point { row: 0, column: 2 }));
    assert_eq!(rope.byte_to_tree_sitter_point(3), Ok(Point { row: 1, column: 0 }));
}

#[test]
fn utf16_offset_of_a_position() {
    let rope = Rope::from_str("a\u{1F600}\nb");
    assert_eq!(rope.lsp_position_to_utf16_cu(pos(1, 1)), Ok(5));
    assert_eq!(rope.lsp_position_to_utf16_cu(pos(0, 2)), Ok(2));
}

#[test]
fn utf16_offset_that_overflows() {
    let rope = Rope::from_str("a\nb");
    assert_eq!(rope.lsp_position_to_utf16_cu(pos(1, u32::MAX)), Err(ConversionError::Overflow));
    assert_eq!(rope.lsp_position_to_utf16_cu(pos(0, u32::MAX)), Ok(u32::MAX));
}

#[test]
fn ranges_in_both_directions() {
    let rope = Rope::from_str("x\u{e9}\nyz");
    let r = rope
        .lsp_range_to_tree_sitter_range(Range { start: pos(0, 1), end: pos(1, 1) })
        .unwrap();
    assert_eq!(
        r,
        SyntaxRange {
            start_byte: 1,
            end_byte: 5,
            start_point: Point { row: 0, column: 1 },
            end_point: Point { row: 1, column: 1 },
        }
    );
    let back = rope.tree_sitter_range_to_lsp_range(r);
    assert_eq!(back, Range { start: pos(0, 1), end: pos(1, 1) });
}

#[test]
fn node_text_by_byte_span() {
    let rope = Rope::from_str("let \u{e9}t\u{e9} = 1;");
    let node = SyntaxRange {
        start_byte: 4,
        end_byte: 9,
        start_point: Point { row: 0, column: 4 },
        end_point: Point { row: 0, column: 9 },
    };
    assert_eq!(rope.utf8_text_for_tree_sitter_node(&node), "\u{e9}t\u{e9}");
}

#[test]
fn ranged_edit_descriptor() {
    let rope = Rope::from_str("ab\ncd");
    let change = ranged(pos(1, 0), pos(1, 1), "X\nYZ");
    let edit = rope.build_edit(&change).unwrap();
    assert_eq!(
        edit.input_edit,
        InputEdit {
            start_byte: 3,
            old_end_byte: 4,
            new_end_byte: 7,
            start_position: Point { row: 1, column: 0 },
            old_end_position: Point { row: 1, column: 1 },
            new_end_position: Point { row: 2, column: 2 },
        }
    );
    assert_eq!(edit.start_char_idx, 3);
    assert_eq!(edit.end_char_idx, 4);
    assert_eq!(edit.text, "X\nYZ");
    let mut rope = rope;
    rope.apply_edit(&edit);
    assert_eq!(rope.to_string(), "ab\nX\nYZd");
}

#[test]
fn edit_range_covers_the_new_text() {
    let rope = Rope::from_str("ab");
    let change = ranged(pos(0, 1), pos(0, 1), "\u{e9}\u{e9}");
    let edit: TextEdit = rope.build_edit(&change).unwrap();
    assert_eq!(
        edit.range(),
        SyntaxRange {
            start_byte: 1,
            end_byte: 5,
            start_point: Point { row: 0, column: 1 },
            end_point: Point { row: 0, column: 5 },
        }
    );
}

#[test]
fn full_document_replacement() {
    let mut rope = Rope::from_str("abc");
    let change = TextDocumentContentChangeEvent {
        range: None,
        range_length: None,
        text: "hello".to_string(),
    };
    let edit = rope.build_edit(&change).unwrap();
    assert_eq!(edit.input_edit.start_byte, 0);
    assert_eq!(edit.input_edit.old_end_byte, 3);
    assert_eq!(edit.input_edit.new_end_byte, 5);
    assert_eq!(edit.start_char_idx, 0);
    assert_eq!(edit.end_char_idx, 3);
    rope.apply_edit(&edit);
    assert_eq!(rope.to_string(), "hello");
}

#[test]
fn replacing_text_by_itself_changes_nothing() {
    let text = "hello w\u{f6}rld\nline \u{1F600} two";
    let mut rope = Rope::from_str(text);
    let before: Vec<Position> = (12..text.len()).filter(|b| text.is_char_boundary(*b)).map(|b| rope.byte_to_lsp_position(b)).collect();
    let change = ranged(pos(0, 6), pos(0, 11), "w\u{f6}rld");
    let edit = rope.build_edit(&change).unwrap();
    rope.apply_edit(&edit);
    assert_eq!(rope.to_string(), text);
    let after: Vec<Position> = (12..text.len()).filter(|b| text.is_char_boundary(*b)).map(|b| rope.byte_to_lsp_position(b)).collect();
    assert_eq!(before, after);
}

#[test]
fn insertion_before_removal_corrupts_the_text() {
    let initial = "hello world";
    let mut rope = Rope::from_str(initial);
    let change = ranged(pos(0, 0), pos(0, 5), "hi");
    let edit = rope.build_edit(&change).unwrap();
    let mut reversed = Rope::from_str(initial);
    reversed.insert(edit.start_char_idx, edit.text);
    reversed.remove(edit.start_char_idx..edit.end_char_idx);
    rope.apply_edit(&edit);
    assert_eq!(rope.to_string(), "hi world");
    assert_eq!(reversed.to_string(), "lo world");
    assert_ne!(rope.to_string(), reversed.to_string());
}

#[test]
fn deletion_with_empty_text() {
    let mut rope = Rope::from_str("abcdef");
    let change = ranged(pos(0, 1), pos(0, 4), "");
    let edit = rope.build_edit(&change).unwrap();
    assert_eq!(edit.input_edit.new_end_byte, 1);
    assert_eq!(edit.input_edit.new_end_position, Point { row: 0, column: 1 });
    rope.apply_edit(&edit);
    assert_eq!(rope.to_string(), "aef");
}

#[test]
fn new_end_point_is_the_point_of_the_new_end_in_the_edited_text() {
    let mut rope = Rope::from_str("x\u{e9}z\nsecond line\nthird");
    let change = ranged(pos(1, 2), pos(2, 1), "\u{1F600}a\nbc\u{e9}\nd");
    let edit = rope.build_edit(&change).unwrap();
    let new_end = edit.input_edit.new_end_byte as usize;
    let expected = edit.input_edit.new_end_position;
    rope.apply_edit(&edit);
    assert_eq!(rope.byte_to_tree_sitter_point(new_end), Ok(expected));
    assert_eq!(expected, Point { row: 3, column: 1 });
}
