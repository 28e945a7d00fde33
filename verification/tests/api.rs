use std::sync::{Arc, Mutex};

use luna_code::api::LunaApi;
use luna_code::error::LunaError;
use luna_code::events::{Event, EventKind};
use luna_code::types::{DocumentId, Position, Range};

type Callback = Box<dyn Fn(&Event) + Send + Sync>;
type Handler = Box<dyn Fn(&[String]) -> Result<Option<String>, String> + Send + Sync>;
type Api = LunaApi<Callback, Handler>;

fn pos(line: usize, col: usize) -> Position {
    Position::new(line, col)
}

#[test]
fn open_new_hands_out_increasing_ids() {
    let mut api: Api = LunaApi::new();
    let a = api.open_new();
    let b = api.open_new();
    assert_eq!(a, DocumentId(1));
    assert_eq!(b, DocumentId(2));
    assert_eq!(api.get_content(a).unwrap(), "");
    assert_eq!(api.line_count(a).unwrap(), 1);
    assert_eq!(api.is_dirty(a).unwrap(), false);
    assert_eq!(api.get_cursor(a).unwrap(), Position::origin());
    let events = api.take_events();
    assert_eq!(events.len(), 2);
    assert!(matches!(&events[0], Event::FileOpened { doc_id, path: None } if *doc_id == a));
    assert!(matches!(&events[1], Event::FileOpened { doc_id, path: None } if *doc_id == b));
    assert!(api.take_events().is_empty());
}

#[test]
fn unknown_document_is_reported() {
    let mut api: Api = LunaApi::default();
    let id = DocumentId(42);
    assert!(matches!(api.get_content(id), Err(LunaError::DocumentNotFound(d)) if d == id));
    assert!(matches!(api.line_count(id), Err(LunaError::DocumentNotFound(_))));
    assert!(matches!(api.is_dirty(id), Err(LunaError::DocumentNotFound(_))));
    assert!(matches!(api.get_cursor(id), Err(LunaError::DocumentNotFound(_))));
    assert!(matches!(api.get_line(id, 0), Err(LunaError::DocumentNotFound(_))));
    assert!(matches!(api.insert_text(id, pos(0, 0), "x"), Err(LunaError::DocumentNotFound(_))));
    assert!(matches!(
        api.delete_text(id, Range::empty_at(pos(0, 0))),
        Err(LunaError::DocumentNotFound(_))
    ));
    assert!(matches!(api.close_file(id), Err(LunaError::DocumentNotFound(_))));
    assert!(api.take_events().is_empty());
}

#[test]
fn insert_text_edits_moves_cursor_and_reports() {
    let mut api: Api = LunaApi::new();
    let id = api.open_new();
    api.take_events();
    assert!(api.insert_text(id, pos(0, 0), "hello\nworld").is_ok());
    assert_eq!(api.get_content(id).unwrap(), "hello\nworld");
    assert_eq!(api.line_count(id).unwrap(), 2);
    assert_eq!(api.get_line(id, 1).unwrap(), "world");
    assert_eq!(api.get_cursor(id).unwrap(), pos(1, 5));
    assert!(api.is_dirty(id).unwrap());
    let events = api.take_events();
    assert_eq!(events.len(), 1);
    match &events[0] {
        Event::TextChanged { doc_id, range, new_text } => {
            assert_eq!(*doc_id, id);
            assert_eq!(*range, Range::empty_at(pos(0, 0)));
            assert_eq!(new_text, "hello\nworld");
        }
        other => panic!("unexpected {:?}", other),
    }
}

#[test]
fn failed_edits_change_nothing_and_report_nothing() {
    let mut api: Api = LunaApi::new();
    let id = api.open_new();
    api.take_events();
    match api.insert_text(id, pos(3, 0), "x") {
        Err(LunaError::InvalidPosition { doc_id, position, reason }) => {
            assert_eq!(doc_id, id);
            assert_eq!(position, pos(3, 0));
            assert_eq!(reason, "documento tem 1 linhas; linha 3 tem 0 bytes");
        }
        other => panic!("unexpected {:?}", other),
    }
    assert!(matches!(
        api.delete_text(id, Range::new(pos(0, 0), pos(0, 1))),
        Err(LunaError::InvalidRange { .. })
    ));
    match api.set_cursor(id, pos(2, 0)) {
        Err(LunaError::InvalidPosition { reason, .. }) => {
            assert_eq!(reason, "documento tem 1 linhas")
        }
        other => panic!("unexpected {:?}", other),
    }
    match api.get_line(id, 4) {
        Err(LunaError::InvalidPosition { position, reason, .. }) => {
            assert_eq!(position, pos(4, 0));
            assert_eq!(reason, "documento tem 1 linhas");
        }
        other => panic!("unexpected {:?}", other),
    }
    assert!(!api.is_dirty(id).unwrap());
    assert!(api.take_events().is_empty());
}

#[test]
fn delete_and_replace_text() {
    let mut api: Api = LunaApi::new();
    let id = api.open_new();
    api.insert_text(id, pos(0, 0), "abc\ndef\nghi").unwrap();
    api.set_cursor(id, pos(2, 2)).unwrap();
    api.take_events();

    api.delete_text(id, Range::new(pos(0, 1), pos(1, 1))).unwrap();
    assert_eq!(api.get_content(id).unwrap(), "aef\nghi");
    assert_eq!(api.get_cursor(id).unwrap(), pos(1, 2));

    api.replace_text(id, Range::new(pos(0, 0), pos(0, 3)), "X\nY").unwrap();
    assert_eq!(api.get_content(id).unwrap(), "X\nY\nghi");
    assert_eq!(api.get_cursor(id).unwrap(), pos(2, 2));

    let events = api.take_events();
    assert_eq!(events.len(), 2);
    assert!(matches!(&events[0], Event::TextChanged { new_text, .. } if new_text.is_empty()));
    assert!(matches!(&events[1], Event::TextChanged { new_text, .. } if new_text == "X\nY"));
}

#[test]
fn cursor_inside_deleted_range_goes_to_its_start() {
    let mut api: Api = LunaApi::new();
    let id = api.open_new();
    api.insert_text(id, pos(0, 0), "0123456789").unwrap();
    api.set_cursor(id, pos(0, 5)).unwrap();
    api.delete_text(id, Range::new(pos(0, 2), pos(0, 8))).unwrap();
    assert_eq!(api.get_cursor(id).unwrap(), pos(0, 2));
    assert_eq!(api.get_content(id).unwrap(), "0189");
}

#[test]
fn set_cursor_reports_cursor_moved() {
    let mut api: Api = LunaApi::new();
    let id = api.open_new();
    api.insert_text(id, pos(0, 0), "ab").unwrap();
    api.take_events();
    api.set_cursor(id, pos(0, 1)).unwrap();
    assert_eq!(api.get_cursor(id).unwrap(), pos(0, 1));
    let events = api.take_events();
    assert!(matches!(&events[0], Event::CursorMoved { position, .. } if *position == pos(0, 1)));
}

#[test]
fn close_file_forgets_the_document() {
    let mut api: Api = LunaApi::new();
    let a = api.open_new();
    let b = api.open_new();
    api.take_events();
    api.close_file(a).unwrap();
    assert!(matches!(api.get_content(a), Err(LunaError::DocumentNotFound(_))));
    assert_eq!(api.get_content(b).unwrap(), "");
    let events = api.take_events();
    assert!(matches!(&events[0], Event::FileClosed { doc_id } if *doc_id == a));
    let c = api.open_new();
    assert_eq!(c, DocumentId(3));
}

#[test]
fn list_open_documents_in_id_order() {
    let mut api: Api = LunaApi::new();
    let a = api.open_new();
    let b = api.open_from_disk("/tmp/projeto/main.rs", "fn main() {}\n").unwrap();
    let c = api.open_new();
    api.close_file(a).unwrap();
    let docs = api.list_open_documents();
    assert_eq!(docs.len(), 2);
    assert_eq!(docs[0].id, b);
    assert_eq!(docs[0].path.as_deref(), Some("/tmp/projeto/main.rs"));
    assert_eq!(docs[0].display_name, "main.rs");
    assert_eq!(docs[0].line_count, 2);
    assert!(!docs[0].is_dirty);
    assert_eq!(docs[1].id, c);
    assert_eq!(docs[1].path, None);
    assert_eq!(docs[1].display_name, "Sem título");
}

#[test]
fn opening_a_path_twice_is_refused() {
    let mut api: Api = LunaApi::new();
    let id = api.open_from_disk("/tmp/a/b.txt", "x").unwrap();
    let events = api.take_events();
    assert!(matches!(&events[0], Event::FileOpened { doc_id, path: Some(p) }
        if *doc_id == id && p == "/tmp/a/b.txt"));
    assert!(api.ensure_not_already_open("/tmp/a/c.txt").is_ok());
    match api.ensure_not_already_open("/tmp/a//b.txt") {
        Err(LunaError::DocumentAlreadyOpen(p)) => assert_eq!(p, "/tmp/a//b.txt"),
        other => panic!("unexpected {:?}", other),
    }
    assert!(matches!(
        api.open_from_disk("/tmp/a/b.txt", "y"),
        Err(LunaError::DocumentAlreadyOpen(_))
    ));
    assert_eq!(api.list_open_documents().len(), 1);
    assert!(api.take_events().is_empty());
}

#[test]
fn content_read_from_disk_keeps_its_lines() {
    let mut api: Api = LunaApi::new();
    let id = api.open_from_disk("/tmp/win.txt", "linha 1\r\nlinha 2\r\n").unwrap();
    assert_eq!(api.line_count(id).unwrap(), 3);
    assert_eq!(api.get_line(id, 0).unwrap(), "linha 1");
    assert_eq!(api.get_content(id).unwrap(), "linha 1\nlinha 2\n");
}

#[test]
fn saving_a_document_without_path_is_refused() {
    let mut api: Api = LunaApi::new();
    let id = api.open_new();
    assert!(matches!(api.save_target(id), Err(LunaError::UnsavedDocument(d)) if d == id));
    assert!(matches!(api.save_file(id, Ok(())), Err(LunaError::UnsavedDocument(_))));
}

#[test]
fn saving_records_the_outcome_of_the_write() {
    let mut api: Api = LunaApi::new();
    let id = api.open_from_disk("/tmp/notas.txt", "a").unwrap();
    api.insert_text(id, pos(0, 1), "b").unwrap();
    api.take_events();
    let (path, content) = api.save_target(id).unwrap();
    assert_eq!(path, "/tmp/notas.txt");
    assert_eq!(content, "ab");
    match api.save_file(id, Err("disco cheio".to_owned())) {
        Err(LunaError::Io { path, reason }) => {
            assert_eq!(path, "/tmp/notas.txt");
            assert_eq!(reason, "disco cheio");
        }
        other => panic!("unexpected {:?}", other),
    }
    assert!(api.is_dirty(id).unwrap());
    assert!(api.take_events().is_empty());
    api.save_file(id, Ok(())).unwrap();
    assert!(!api.is_dirty(id).unwrap());
    let events = api.take_events();
    assert!(matches!(&events[0], Event::FileSaved { path, .. } if path == "/tmp/notas.txt"));
}

#[test]
fn save_as_gives_the_document_a_path() {
    let mut api: Api = LunaApi::new();
    let id = api.open_new();
    api.insert_text(id, pos(0, 0), "x").unwrap();
    api.take_events();
    assert!(matches!(
        api.save_file_as(id, "/tmp/novo.txt", Err("negado".to_owned())),
        Err(LunaError::Io { .. })
    ));
    assert!(api.save_target(id).is_err());
    api.save_file_as(id, "/tmp/novo.txt", Ok(())).unwrap();
    assert!(!api.is_dirty(id).unwrap());
    assert_eq!(api.list_open_documents()[0].display_name, "novo.txt");
    let events = api.take_events();
    assert!(matches!(&events[0], Event::FileSaved { path, .. } if path == "/tmp/novo.txt"));
    assert!(matches!(
        api.save_file_as(DocumentId(9), "/tmp/x", Ok(())),
        Err(LunaError::DocumentNotFound(_))
    ));
}

#[test]
fn subscriptions_through_the_api() {
    let mut api: Api = LunaApi::new();
    let seen: Arc<Mutex<Vec<EventKind>>> = Arc::new(Mutex::new(vec![]));
    let s = seen.clone();
    let sub = api.subscribe(
        EventKind::FileOpened,
        Box::new(move |e: &Event| s.lock().unwrap().push(e.kind())),
    );
    api.open_new();
    for event in api.take_events() {
        for callback in api.listeners(event.kind()) {
            callback(&event);
        }
    }
    assert_eq!(*seen.lock().unwrap(), vec![EventKind::FileOpened]);
    api.unsubscribe(sub);
    assert!(api.listeners(EventKind::FileOpened).is_empty());
}
