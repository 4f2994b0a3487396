use editors::editor::{CursorPosition, Editor};
use editors::piece_table::PieceTable;

fn editor_over(text: &str, x: u16, y: u16, window_offset: u16) -> Editor {
    Editor {
        contents: PieceTable::new(String::from(text)),
        cursor_pos: CursorPosition { x, y },
        window_offset,
    }
}

#[test]
fn position_at_document_start() {
    let ed = editor_over("hello\nworld", 0, 0, 0);
    assert_eq!(ed.get_position(), Some(0));
}

#[test]
fn position_within_first_line() {
    let ed = editor_over("hello\nworld", 3, 0, 0);
    assert_eq!(ed.get_position(), Some(3));
}

#[test]
fn position_at_line_terminator() {
    // column 5 of "hello" is the terminator itself
    let ed = editor_over("hello\nworld", 5, 0, 0);
    assert_eq!(ed.get_position(), Some(5));
}

#[test]
fn position_on_second_line() {
    let ed = editor_over("hello\nworld", 2, 1, 0);
    assert_eq!(ed.get_position(), Some(8));
}

#[test]
fn position_counts_from_window_offset() {
    // the window starts at line 1, so screen line 0 is document line 1
    let ed = editor_over("hello\nworld", 2, 0, 1);
    assert_eq!(ed.get_position(), Some(8));
}

#[test]
fn position_past_line_end_is_none() {
    let ed = editor_over("hello\nworld", 6, 0, 0);
    assert_eq!(ed.get_position(), None);
}

#[test]
fn position_past_last_line_is_none() {
    let ed = editor_over("hello\nworld", 0, 2, 0);
    assert_eq!(ed.get_position(), None);
}

#[test]
fn position_at_document_end_is_none() {
    // the offset just past the final character is no character
    let ed = editor_over("hello\nworld", 5, 1, 0);
    assert_eq!(ed.get_position(), None);
    let ed = editor_over("", 0, 0, 0);
    assert_eq!(ed.get_position(), None);
}

#[test]
fn editor_undo_redo_keep_cursor() {
    let mut ed = editor_over("abc", 2, 0, 0);
    assert_eq!(ed.contents.insert("Z", 0), Ok(()));
    assert_eq!(ed.contents.read(), "Zabc");
    ed.undo();
    assert_eq!(ed.contents.read(), "abc");
    assert_eq!(ed.cursor_pos, CursorPosition { x: 2, y: 0 });
    ed.redo();
    assert_eq!(ed.contents.read(), "Zabc");
    assert_eq!(ed.cursor_pos, CursorPosition { x: 2, y: 0 });
}

#[test]
fn editor_edit_at_cursor_position() {
    let mut ed = editor_over("hello\nworld", 2, 1, 0);
    let pos = ed.get_position().unwrap();
    assert_eq!(ed.contents.insert("X", pos), Ok(()));
    assert_eq!(ed.contents.read(), "hello\nwoXrld");
}
