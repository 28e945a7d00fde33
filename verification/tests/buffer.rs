use luna_code::buffer::Buffer;
use luna_code::error::LunaError;
use luna_code::types::{DocumentId, Position, Range};

fn pos(line: usize, col: usize) -> Position {
    Position::new(line, col)
}

fn range(a: (usize, usize), b: (usize, usize)) -> Range {
    Range::new(pos(a.0, a.1), pos(b.0, b.1))
}

fn lines(b: &Buffer) -> Vec<String> {
    (0..b.line_count()).map(|i| b.get_line(i).unwrap().to_owned()).collect()
}

#[test]
fn new_buffer_has_one_empty_line() {
    let b = Buffer::new();
    assert_eq!(b.line_count(), 1);
    assert_eq!(b.get_line(0), Some(""));
    assert_eq!(b.get_line(1), None);
    assert_eq!(b.to_text(), "");
    let d = Buffer::default();
    assert_eq!(d.to_text(), "");
}

#[test]
fn from_text_splits_lines() {
    assert_eq!(lines(&Buffer::from_text("a\nb")), vec!["a", "b"]);
    assert_eq!(lines(&Buffer::from_text("a\nb\n")), vec!["a", "b", ""]);
    assert_eq!(lines(&Buffer::from_text("")), vec![""]);
    assert_eq!(lines(&Buffer::from_text("\n")), vec!["", ""]);
    assert_eq!(lines(&Buffer::from_text("a\n\nb")), vec!["a", "", "b"]);
}

#[test]
fn from_text_drops_carriage_returns_before_newlines_only() {
    assert_eq!(lines(&Buffer::from_text("a\r\nb")), vec!["a", "b"]);
    assert_eq!(lines(&Buffer::from_text("a\r\n")), vec!["a", ""]);
    assert_eq!(lines(&Buffer::from_text("a\rb")), vec!["a\rb"]);
    assert_eq!(lines(&Buffer::from_text("a\r")), vec!["a\r"]);
}

#[test]
fn to_text_joins_lines() {
    let text = "primeira\nsegunda\n\núltima";
    assert_eq!(Buffer::from_text(text).to_text(), text);
    assert_eq!(Buffer::from_text("x\r\ny").to_text(), "x\ny");
}

#[test]
fn insert_within_a_line() {
    let mut b = Buffer::from_text("hello");
    assert!(b.insert(DocumentId(1), pos(0, 5), " world").is_ok());
    assert_eq!(b.to_text(), "hello world");
    assert!(b.insert(DocumentId(1), pos(0, 0), ">> ").is_ok());
    assert_eq!(b.to_text(), ">> hello world");
}

#[test]
fn insert_with_newlines_splits_the_line() {
    let mut b = Buffer::from_text("ab\ncd");
    assert!(b.insert(DocumentId(1), pos(0, 1), "X\nY\nZ").is_ok());
    assert_eq!(lines(&b), vec!["aX", "Y", "Zb", "cd"]);
    assert!(b.insert(DocumentId(1), pos(3, 2), "\n").is_ok());
    assert_eq!(lines(&b), vec!["aX", "Y", "Zb", "cd", ""]);
}

#[test]
fn insert_empty_text_changes_nothing() {
    let mut b = Buffer::from_text("abc");
    assert!(b.insert(DocumentId(1), pos(0, 1), "").is_ok());
    assert_eq!(b.to_text(), "abc");
}

#[test]
fn insert_outside_the_buffer_fails() {
    let mut b = Buffer::from_text("abc");
    match b.insert(DocumentId(7), pos(5, 0), "x") {
        Err(LunaError::InvalidPosition { doc_id, position, reason }) => {
            assert_eq!(doc_id, DocumentId(7));
            assert_eq!(position, pos(5, 0));
            assert_eq!(reason, "documento tem 1 linhas; linha 5 tem 0 bytes");
        }
        other => panic!("unexpected {:?}", other),
    }
    match b.insert(DocumentId(7), pos(0, 4), "x") {
        Err(LunaError::InvalidPosition { reason, .. }) => {
            assert_eq!(reason, "documento tem 1 linhas; linha 0 tem 3 bytes");
        }
        other => panic!("unexpected {:?}", other),
    }
    assert_eq!(b.to_text(), "abc");
}

#[test]
fn insert_inside_a_character_fails() {
    // "á" takes bytes 2 and 3 of "olá".
    let mut b = Buffer::from_text("olá");
    assert!(!b.is_valid_position(pos(0, 3)));
    assert!(b.is_valid_position(pos(0, 2)));
    assert!(b.is_valid_position(pos(0, 4)));
    match b.insert(DocumentId(1), pos(0, 3), "x") {
        Err(LunaError::InvalidPosition { reason, .. }) => {
            assert_eq!(reason, "documento tem 1 linhas; linha 0 tem 4 bytes");
        }
        other => panic!("unexpected {:?}", other),
    }
    assert!(b.insert(DocumentId(1), pos(0, 4), "!").is_ok());
    assert_eq!(b.to_text(), "olá!");
}

#[test]
fn valid_ranges() {
    let b = Buffer::from_text("abc\ndef");
    assert!(b.is_valid_range(range((0, 1), (1, 2))));
    assert!(b.is_valid_range(range((0, 1), (0, 1))));
    assert!(!b.is_valid_range(range((1, 0), (0, 1))));
    assert!(!b.is_valid_range(range((0, 2), (0, 1))));
    assert!(!b.is_valid_range(range((0, 0), (2, 0))));
}

#[test]
fn delete_within_a_line() {
    let mut b = Buffer::from_text("hello world");
    assert!(b.delete(DocumentId(1), range((0, 5), (0, 11))).is_ok());
    assert_eq!(b.to_text(), "hello");
}

#[test]
fn delete_across_lines_joins_them() {
    let mut b = Buffer::from_text("abc\ndef\nghi\njkl");
    assert!(b.delete(DocumentId(1), range((0, 1), (2, 2))).is_ok());
    assert_eq!(lines(&b), vec!["ai", "jkl"]);
}

#[test]
fn delete_empty_range_changes_nothing() {
    let mut b = Buffer::from_text("abc");
    assert!(b.delete(DocumentId(1), range((0, 1), (0, 1))).is_ok());
    assert_eq!(b.to_text(), "abc");
}

#[test]
fn delete_invalid_range_fails() {
    let mut b = Buffer::from_text("abc\ndef");
    match b.delete(DocumentId(2), range((1, 0), (0, 1))) {
        Err(LunaError::InvalidRange { doc_id, range: r, reason }) => {
            assert_eq!(doc_id, DocumentId(2));
            assert_eq!(r, range((1, 0), (0, 1)));
            assert_eq!(reason, "range fora dos limites do buffer ou em fronteira UTF-8 inválida");
        }
        other => panic!("unexpected {:?}", other),
    }
    assert_eq!(b.to_text(), "abc\ndef");
}

#[test]
fn replace_deletes_then_inserts() {
    let mut b = Buffer::from_text("abc\ndef");
    assert!(b.replace(DocumentId(1), range((0, 1), (1, 2)), "XY\nZ").is_ok());
    assert_eq!(lines(&b), vec!["aXY", "Zf"]);
    assert!(b.replace(DocumentId(1), range((5, 0), (5, 1)), "x").is_err());
    assert_eq!(lines(&b), vec!["aXY", "Zf"]);
}

#[test]
fn insert_then_delete_inserted_text_restores_buffer() {
    let original = "uma linha\noutra";
    let mut b = Buffer::from_text(original);
    assert!(b.insert(DocumentId(1), pos(0, 4), "X\nYY").is_ok());
    let end = Buffer::adjust_cursor_after_insert(pos(0, 4), pos(0, 4), 1, 2);
    assert_eq!(end, pos(1, 2));
    assert!(b.delete(DocumentId(1), Range::new(pos(0, 4), end)).is_ok());
    assert_eq!(b.to_text(), original);
}

#[test]
fn cursor_after_insert() {
    let at = pos(2, 3);
    // before the insertion point
    assert_eq!(Buffer::adjust_cursor_after_insert(pos(1, 9), at, 2, 4), pos(1, 9));
    assert_eq!(Buffer::adjust_cursor_after_insert(pos(2, 2), at, 2, 4), pos(2, 2));
    // same line, single-line insertion
    assert_eq!(Buffer::adjust_cursor_after_insert(pos(2, 3), at, 0, 4), pos(2, 7));
    assert_eq!(Buffer::adjust_cursor_after_insert(pos(2, 5), at, 0, 4), pos(2, 9));
    // same line, multi-line insertion
    assert_eq!(Buffer::adjust_cursor_after_insert(pos(2, 5), at, 2, 4), pos(4, 6));
    // later lines
    assert_eq!(Buffer::adjust_cursor_after_insert(pos(5, 1), at, 2, 4), pos(7, 1));
}

#[test]
fn cursor_after_delete() {
    let r = range((1, 2), (3, 4));
    assert_eq!(Buffer::adjust_cursor_after_delete(pos(0, 9), r), pos(0, 9));
    assert_eq!(Buffer::adjust_cursor_after_delete(pos(1, 2), r), pos(1, 2));
    assert_eq!(Buffer::adjust_cursor_after_delete(pos(2, 0), r), pos(1, 2));
    assert_eq!(Buffer::adjust_cursor_after_delete(pos(3, 4), r), pos(1, 2));
    assert_eq!(Buffer::adjust_cursor_after_delete(pos(3, 7), r), pos(1, 5));
    assert_eq!(Buffer::adjust_cursor_after_delete(pos(6, 1), r), pos(4, 1));
    // an empty range moves nothing
    assert_eq!(Buffer::adjust_cursor_after_delete(pos(6, 1), range((6, 0), (6, 0))), pos(6, 1));
}
