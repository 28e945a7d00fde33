use luna_code::types::{CommandId, DocumentId, Position, Range, SubscriptionId};

#[test]
fn positions_and_ranges() {
    let a = Position::new(1, 2);
    assert_eq!(a.line, 1);
    assert_eq!(a.col, 2);
    assert_eq!(Position::origin(), Position::new(0, 0));
    let r = Range::new(Position::new(0, 0), a);
    assert!(!r.is_empty());
    assert!(!r.is_single_line());
    let e = Range::empty_at(a);
    assert!(e.is_empty());
    assert!(e.is_single_line());
    assert_eq!(e.start, a);
    assert_eq!(e.end, a);
}

#[test]
fn display_texts() {
    assert_eq!(Position::new(0, 0).display_text(), "1:1");
    assert_eq!(Position::new(9, 41).display_text(), "10:42");
    assert_eq!(
        Range::new(Position::new(0, 0), Position::new(1, 2)).display_text(),
        "[1:1 → 2:3]"
    );
    assert_eq!(DocumentId(7).display_text(), "DocumentId(7)");
    assert_eq!(SubscriptionId(120).display_text(), "SubscriptionId(120)");
    assert_eq!(CommandId(3).display_text(), "CommandId(3)");
}
