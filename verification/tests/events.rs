use std::sync::{Arc, Mutex};

use luna_code::events::{Event, EventBus, EventKind};
use luna_code::types::{DocumentId, Position, Range};

type Callback = Box<dyn Fn(&Event) + Send + Sync>;

/// Hands `event` to every callback subscribed to its kind, in order.
fn emit(bus: &EventBus<Callback>, event: &Event) {
    for callback in bus.listeners(event.kind()) {
        callback(event);
    }
}

#[test]
fn subscribe_and_receive_event() {
    let mut bus: EventBus<Callback> = EventBus::new();
    let received: Arc<Mutex<Vec<EventKind>>> = Arc::new(Mutex::new(vec![]));

    let received_clone = received.clone();
    bus.subscribe(
        EventKind::FileSaved,
        Box::new(move |e: &Event| {
            received_clone.lock().unwrap().push(e.kind());
        }),
    );

    emit(&bus, &Event::FileSaved { doc_id: DocumentId(1), path: "/tmp/test.rs".to_owned() });

    let events = received.lock().unwrap();
    assert_eq!(events.len(), 1);
    assert_eq!(events[0], EventKind::FileSaved);
}

#[test]
fn unsubscribe_stops_callbacks() {
    let mut bus: EventBus<Callback> = EventBus::new();
    let count: Arc<Mutex<u32>> = Arc::new(Mutex::new(0));

    let count_clone = count.clone();
    let sub_id = bus.subscribe(
        EventKind::CursorMoved,
        Box::new(move |_: &Event| {
            *count_clone.lock().unwrap() += 1;
        }),
    );

    let event = Event::CursorMoved { doc_id: DocumentId(1), position: Position::new(0, 0) };

    emit(&bus, &event);
    assert_eq!(*count.lock().unwrap(), 1);

    bus.unsubscribe(sub_id);
    emit(&bus, &event);
    assert_eq!(*count.lock().unwrap(), 1);
}

#[test]
fn different_event_kinds_are_isolated() {
    let mut bus: EventBus<Callback> = EventBus::new();
    let received: Arc<Mutex<Vec<EventKind>>> = Arc::new(Mutex::new(vec![]));

    let r = received.clone();
    bus.subscribe(
        EventKind::FileOpened,
        Box::new(move |e: &Event| {
            r.lock().unwrap().push(e.kind());
        }),
    );

    emit(&bus, &Event::FileSaved { doc_id: DocumentId(1), path: "/tmp/x.rs".to_owned() });

    assert!(received.lock().unwrap().is_empty());
}

#[test]
fn text_changed_event_carries_data() {
    let mut bus: EventBus<Callback> = EventBus::new();
    let captured: Arc<Mutex<Option<String>>> = Arc::new(Mutex::new(None));

    let cap = captured.clone();
    bus.subscribe(
        EventKind::TextChanged,
        Box::new(move |e: &Event| {
            if let Event::TextChanged { new_text, .. } = e {
                *cap.lock().unwrap() = Some(new_text.clone());
            }
        }),
    );

    emit(
        &bus,
        &Event::TextChanged {
            doc_id: DocumentId(1),
            range: Range::empty_at(Position::new(0, 0)),
            new_text: "olá".to_owned(),
        },
    );

    assert_eq!(*captured.lock().unwrap(), Some("olá".to_owned()));
}

#[test]
fn event_bus_default_is_empty() {
    let bus: EventBus<Callback> = EventBus::default();
    assert_eq!(bus.subscription_count(EventKind::FileOpened), 0);
}
