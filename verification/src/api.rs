//! The entry point of the library: open documents, edit them, move their
//! cursors, register commands and subscribe to events.
//!
//! File contents and write outcomes come in as arguments, since reading and
//! writing files is done by the caller. The events that operations produce
//! are queued; the caller takes them with `take_events` and hands each to
//! the `listeners` of its kind.
use vstd::prelude::*;
use vstd::utf8::*;
use crate::buffer::{
    delete_lines, insert_lines, insert_position_reason, invalid_range_reason, valid_position,
    valid_range,
};
use crate::commands::{
    duplicate_reason, not_named, registered, CommandRecord, CommandRegistry, RegistryState,
};
use crate::document::{
    display_name_of, doc_wf, line_count_reason, moved_by_delete, moved_by_insert, opt_view,
    Document, DocumentState,
};
use crate::error::LunaError;
use crate::events::{
    listeners_of, not_id, Event, EventBus, EventBusState, EventKind, EventView, Subscription,
};
use crate::paths::{paths_equal, same_path};
use crate::text::{join_lines, text_lines};
use crate::types::{
    CommandId, CommandInfo, DocumentId, DocumentInfo, Position, Range, SubscriptionId,
};

verus! {

/// The state of the whole API.
pub struct ApiState<C, H> {
    /// The open documents, in the order they were opened.
    pub documents: Seq<DocumentState>,
    /// The id the next document gets.
    pub next_doc_id: u64,
    pub bus: EventBusState<C>,
    pub registry: RegistryState<H>,
    /// Events produced and not yet taken, oldest first.
    pub pending: Seq<EventView>,
}

/// Some open document has the id `id`.
pub open spec fn has_doc(docs: Seq<DocumentState>, id: DocumentId) -> bool {
    exists|i: int| 0 <= i < docs.len() && (#[trigger] docs[i]).id == id
}

/// The index of the open document with the id `id`.
pub open spec fn doc_index(docs: Seq<DocumentState>, id: DocumentId) -> int {
    choose|i: int| 0 <= i < docs.len() && (#[trigger] docs[i]).id == id
}

/// The open document with the id `id`.
pub open spec fn doc_of(docs: Seq<DocumentState>, id: DocumentId) -> DocumentState {
    docs[doc_index(docs, id)]
}

/// Every document is well formed; ids grow in the order documents were
/// opened, start at 1 and stay below the next id; the registries are well
/// formed.
pub open spec fn api_wf<C, H>(s: ApiState<C, H>) -> bool {
    &&& s.next_doc_id >= 1
    &&& forall|i: int| 0 <= i < s.documents.len() ==> doc_wf(#[trigger] s.documents[i])
    &&& forall|i: int, j: int|
        0 <= i < j < s.documents.len() ==> (#[trigger] s.documents[i]).id.0
            < (#[trigger] s.documents[j]).id.0
    &&& forall|i: int|
        0 <= i < s.documents.len() ==> 1 <= (#[trigger] s.documents[i]).id.0 < s.next_doc_id
    &&& crate::events::bus_wf(s.bus)
    &&& crate::commands::registry_wf(s.registry)
}

/// The document has a path that `std::path` compares as equal to `path`.
pub open spec fn open_at(d: DocumentState, path: Seq<char>) -> bool {
    match d.path {
        Some(p) => same_path(p, path),
        None => false,
    }
}

/// The open documents other than the one with the id `id`.
pub open spec fn without_doc(id: DocumentId) -> spec_fn(DocumentState) -> bool {
    |d: DocumentState| d.id != id
}

/// The error for an id that names no open document.
pub open spec fn not_found<T>(id: DocumentId) -> Result<T, LunaError> {
    Err(LunaError::DocumentNotFound(id))
}

/// The editor: its open documents, its commands with handlers of type `H`,
/// its event subscriptions with callbacks of type `C`, and the events
/// produced and not yet taken.
pub struct LunaApi<C, H> {
    documents: Vec<Document>,
    next_doc_id: u64,
    event_bus: EventBus<C>,
    command_registry: CommandRegistry<H>,
    pending: Vec<Event>,
}

impl<C, H> View for LunaApi<C, H> {
    type V = ApiState<C, H>;

    closed spec fn view(&self) -> ApiState<C, H> {
        ApiState {
            documents: Seq::new(self.documents@.len(), |i: int| self.documents@[i]@),
            next_doc_id: self.next_doc_id,
            bus: self.event_bus@,
            registry: self.command_registry@,
            pending: Seq::new(self.pending@.len(), |i: int| self.pending@[i]@),
        }
    }
}

impl<C, H> LunaApi<C, H> {
    /// The API is in the shape its operations keep.
    pub open spec fn wf(&self) -> bool {
        api_wf(self@)
    }

    proof fn lemma_inner(&self)
        requires
            self.wf(),
        ensures
            self.event_bus.wf(),
            self.command_registry.wf(),
            forall|i: int| 0 <= i < self.documents@.len() ==> (#[trigger] self.documents@[i]).wf(),
            self.documents@.len() == self@.documents.len(),
            forall|i: int|
                0 <= i < self.documents@.len() ==> #[trigger] self@.documents[i]
                    == self.documents@[i]@,
    {
        assert forall|i: int| 0 <= i < self.documents@.len() implies (
        #[trigger] self.documents@[i]).wf() by {
            assert(self@.documents[i] == self.documents@[i]@);
        }
    }

    /// An API without documents, commands or subscriptions.
    pub fn new() -> (a: Self)
        ensures
            a.wf(),
            a@.documents == Seq::<DocumentState>::empty(),
            a@.next_doc_id == 1,
            a@.bus.subscriptions == Seq::<Subscription<C>>::empty(),
            a@.bus.next_id == 1,
            a@.registry.commands == Seq::<CommandRecord<H>>::empty(),
            a@.registry.next_id == 1,
            a@.pending == Seq::<EventView>::empty(),
    {
        let a = LunaApi {
            documents: Vec::new(),
            next_doc_id: 1,
            event_bus: EventBus::default(),
            command_registry: CommandRegistry::default(),
            pending: Vec::new(),
        };
        proof {
            assert(a@.documents =~= Seq::<DocumentState>::empty());
            assert(a@.pending =~= Seq::<EventView>::empty());
        }
        a
    }

    /// The index of the open document with the id `id`, if there is one.
    fn find(&self, id: DocumentId) -> (r: Option<usize>)
        requires
            self.wf(),
        ensures
            r is None <==> !has_doc(self@.documents, id),
            r matches Some(k) ==> k < self@.documents.len() && self@.documents[k as int].id == id
                && doc_index(self@.documents, id) == k,
    {
        let n = self.documents.len();
        let mut k: usize = 0;
        while k < n
            invariant
                self.wf(),
                n == self@.documents.len(),
                n == self.documents@.len(),
                k <= n,
                forall|i: int| 0 <= i < k ==> (#[trigger] self@.documents[i]).id != id,
            decreases n - k,
        {
            proof {
                assert(self@.documents[k as int] == self.documents@[k as int]@);
            }
            if self.documents[k].id() == id {
                proof {
                    let docs = self@.documents;
                    let j = doc_index(docs, id);
                    assert(0 <= j < docs.len() && docs[j].id == id);
                    if j != k {
                        if j < k {
                        } else {
                            assert(docs[k as int].id.0 < docs[j].id.0);
                        }
                    }
                }
                return Some(k);
            }
            k = k + 1;
        }
        None
    }

    /// The id the next opened document gets.
    pub fn next_document_id(&self) -> (n: u64)
        ensures
            n == self@.next_doc_id,
    {
        self.next_doc_id
    }

    /// The id the next subscription gets.
    pub fn next_subscription_id(&self) -> (n: u64)
        ensures
            n == self@.bus.next_id,
    {
        self.event_bus.next_id()
    }

    /// The id the next registered command gets.
    pub fn next_command_id(&self) -> (n: u64)
        ensures
            n == self@.registry.next_id,
    {
        self.command_registry.next_id()
    }

    /// Opens a new, empty document without a path and queues
    /// `FileOpened` for it.
    pub fn open_new(&mut self) -> (id: DocumentId)
        requires
            old(self).wf(),
            old(self)@.next_doc_id < u64::MAX,
        ensures
            final(self).wf(),
            id == DocumentId(old(self)@.next_doc_id),
            final(self)@ == (ApiState {
                documents: old(self)@.documents.push(
                    DocumentState {
                        id,
                        path: None,
                        lines: seq![Seq::<u8>::empty()],
                        cursor: Position { line: 0, col: 0 },
                        dirty: false,
                    },
                ),
                next_doc_id: (old(self)@.next_doc_id + 1) as u64,
                pending: old(self)@.pending.push(EventView::FileOpened { doc_id: id, path: None }),
                ..old(self)@
            }),
    {
        let id = self.next_id();
        let doc = Document::new_empty(id);
        self.push_document(doc);
        self.emit(Event::FileOpened { doc_id: id, path: None });
        id
    }

    /// Takes the next document id.
    fn next_id(&mut self) -> (id: DocumentId)
        requires
            old(self).wf(),
            old(self)@.next_doc_id < u64::MAX,
        ensures
            id == DocumentId(old(self)@.next_doc_id),
            final(self)@ == (ApiState { next_doc_id: (old(self)@.next_doc_id + 1) as u64, ..old(self)@ }),
            forall|i: int|
                0 <= i < final(self)@.documents.len() ==> (#[trigger] final(self)@.documents[i]).id.0
                    < id.0,
    {
        let id = DocumentId(self.next_doc_id);
        self.next_doc_id = self.next_doc_id + 1;
        id
    }

    /// Adds a document whose id is above every open one.
    fn push_document(&mut self, doc: Document)
        requires
            doc.wf(),
            1 <= doc@.id.0 < old(self)@.next_doc_id,
            forall|i: int|
                0 <= i < old(self)@.documents.len() ==> (#[trigger] old(self)@.documents[i]).id.0
                    < doc@.id.0,
            old(self)@.next_doc_id >= 1,
            forall|i: int| 0 <= i < old(self)@.documents.len() ==> doc_wf(#[trigger] old(self)@.documents[i]),
            forall|i: int, j: int|
                0 <= i < j < old(self)@.documents.len() ==> (#[trigger] old(self)@.documents[i]).id.0
                    < (#[trigger] old(self)@.documents[j]).id.0,
            forall|i: int|
                0 <= i < old(self)@.documents.len() ==> 1 <= (#[trigger] old(self)@.documents[i]).id.0
                    < old(self)@.next_doc_id,
            crate::events::bus_wf(old(self)@.bus),
            crate::commands::registry_wf(old(self)@.registry),
        ensures
            final(self).wf(),
            final(self)@ == (ApiState { documents: old(self)@.documents.push(doc@), ..old(self)@ }),
    {
        let ghost ghost_doc = doc@;
        self.documents.push(doc);
        proof {
            assert(self@.documents =~= old(self)@.documents.push(ghost_doc));
        }
    }

    /// Queues an event.
    fn emit(&mut self, event: Event)
        ensures
            final(self)@ == (ApiState { pending: old(self)@.pending.push(event@), ..old(self)@ }),
    {
        let ghost e = event@;
        self.pending.push(event);
        proof {
            assert(self@.pending =~= old(self)@.pending.push(e));
            assert(self@.documents =~= old(self)@.documents);
        }
    }

    /// Replacing an open document by one with the same id that is well
    /// formed keeps the API well formed.
    proof fn lemma_update_doc(s: ApiState<C, H>, k: int, d: DocumentState)
        requires
            api_wf(s),
            0 <= k < s.documents.len(),
            d.id == s.documents[k].id,
            doc_wf(d),
        ensures
            api_wf(ApiState { documents: s.documents.update(k, d), ..s }),
    {
        let nd = s.documents.update(k, d);
        assert forall|i: int, j: int| 0 <= i < j < nd.len() implies (#[trigger] nd[i]).id.0 < (
        #[trigger] nd[j]).id.0 by {
            assert(nd[i].id == s.documents[i].id);
            assert(nd[j].id == s.documents[j].id);
        }
        assert forall|i: int| 0 <= i < nd.len() implies 1 <= (#[trigger] nd[i]).id.0
            < s.next_doc_id by {
            assert(nd[i].id == s.documents[i].id);
        }
    }

    /// The whole text of the document `doc_id`, lines joined with `'\n'`.
    pub fn get_content(&self, doc_id: DocumentId) -> (r: Result<String, LunaError>)
        requires
            self.wf(),
        ensures
            r is Ok <==> has_doc(self@.documents, doc_id),
            r matches Ok(s) ==> encode_utf8(s@) == join_lines(doc_of(self@.documents, doc_id).lines),
            r is Err ==> r == not_found::<String>(doc_id),
    {
        match self.find(doc_id) {
            None => Err(LunaError::DocumentNotFound(doc_id)),
            Some(k) => {
                proof {
                    self.lemma_inner();
                }
                Ok(self.documents[k].content())
            },
        }
    }

    /// The text of line `line` of the document `doc_id`.
    pub fn get_line(&self, doc_id: DocumentId, line: usize) -> (r: Result<String, LunaError>)
        requires
            self.wf(),
        ensures
            !has_doc(self@.documents, doc_id) ==> r == not_found::<String>(doc_id),
            has_doc(self@.documents, doc_id) ==> {
                let d = doc_of(self@.documents, doc_id);
                &&& (r is Ok <==> line < d.lines.len())
                &&& (r matches Ok(s) ==> encode_utf8(s@) == d.lines[line as int])
                &&& (r matches Err(e) ==> e matches LunaError::InvalidPosition {
                    doc_id: i,
                    position: p,
                    reason,
                } && i == doc_id && p == Position { line, col: 0 } && reason@
                    == line_count_reason(d.lines.len()))
            },
    {
        match self.find(doc_id) {
            None => Err(LunaError::DocumentNotFound(doc_id)),
            Some(k) => {
                proof {
                    self.lemma_inner();
                }
                let doc = &self.documents[k];
                match doc.get_line(line) {
                    Some(s) => Ok(s.to_owned()),
                    None => {
                        let mut reason = "documento tem ".to_owned();
                        crate::text::push_decimal(&mut reason, doc.line_count() as u64);
                        reason.append(" linhas");
                        proof {
                            assert(reason@ =~= line_count_reason(doc@.lines.len()));
                        }
                        Err(
                            LunaError::InvalidPosition {
                                doc_id,
                                position: Position::new(line, 0),
                                reason,
                            },
                        )
                    },
                }
            },
        }
    }

    /// How many lines the document `doc_id` has.
    pub fn line_count(&self, doc_id: DocumentId) -> (r: Result<usize, LunaError>)
        requires
            self.wf(),
        ensures
            r is Ok <==> has_doc(self@.documents, doc_id),
            r matches Ok(n) ==> n == doc_of(self@.documents, doc_id).lines.len(),
            r is Err ==> r == not_found::<usize>(doc_id),
    {
        match self.find(doc_id) {
            None => Err(LunaError::DocumentNotFound(doc_id)),
            Some(k) => {
                proof {
                    self.lemma_inner();
                }
                Ok(self.documents[k].line_count())
            },
        }
    }

    /// Whether the document `doc_id` has unsaved changes.
    pub fn is_dirty(&self, doc_id: DocumentId) -> (r: Result<bool, LunaError>)
        requires
            self.wf(),
        ensures
            r is Ok <==> has_doc(self@.documents, doc_id),
            r matches Ok(b) ==> b == doc_of(self@.documents, doc_id).dirty,
            r is Err ==> r == not_found::<bool>(doc_id),
    {
        match self.find(doc_id) {
            None => Err(LunaError::DocumentNotFound(doc_id)),
            Some(k) => {
                proof {
                    self.lemma_inner();
                }
                Ok(self.documents[k].is_dirty())
            },
        }
    }

    /// The cursor of the document `doc_id`.
    pub fn get_cursor(&self, doc_id: DocumentId) -> (r: Result<Position, LunaError>)
        requires
            self.wf(),
        ensures
            r is Ok <==> has_doc(self@.documents, doc_id),
            r matches Ok(p) ==> p == doc_of(self@.documents, doc_id).cursor,
            r is Err ==> r == not_found::<Position>(doc_id),
    {
        match self.find(doc_id) {
            None => Err(LunaError::DocumentNotFound(doc_id)),
            Some(k) => {
                proof {
                    self.lemma_inner();
                }
                Ok(self.documents[k].cursor())
            },
        }
    }

    /// A summary of every open document, in the order of their ids.
    pub fn list_open_documents(&self) -> (r: Vec<DocumentInfo>)
        requires
            self.wf(),
        ensures
            r@.len() == self@.documents.len(),
            forall|i: int|
                0 <= i < r@.len() ==> {
                    let d = self@.documents[i];
                    &&& (#[trigger] r@[i]).id == d.id
                    &&& opt_view(r@[i].path) == d.path
                    &&& r@[i].display_name@ == display_name_of(d.path)
                    &&& r@[i].is_dirty == d.dirty
                    &&& r@[i].line_count == d.lines.len()
                },
            forall|i: int, j: int| 0 <= i < j < r@.len() ==> (#[trigger] r@[i]).id.0 < (#[trigger] r@[j]).id.0,
    {
        proof {
            self.lemma_inner();
        }
        let n = self.documents.len();
        let mut r: Vec<DocumentInfo> = Vec::new();
        let mut i: usize = 0;
        while i < n
            invariant
                self.wf(),
                n == self@.documents.len(),
                n == self.documents@.len(),
                forall|k: int|
                    0 <= k < n ==> #[trigger] self@.documents[k] == self.documents@[k]@,
                i <= n,
                r@.len() == i,
                forall|k: int|
                    0 <= k < i ==> {
                        let d = self@.documents[k];
                        &&& (#[trigger] r@[k]).id == d.id
                        &&& opt_view(r@[k].path) == d.path
                        &&& r@[k].display_name@ == display_name_of(d.path)
                        &&& r@[k].is_dirty == d.dirty
                        &&& r@[k].line_count == d.lines.len()
                    },
            decreases n - i,
        {
            let info = self.documents[i].info();
            r.push(info);
            i = i + 1;
        }
        proof {
            assert forall|a: int, b: int| 0 <= a < b < r@.len() implies (#[trigger] r@[a]).id.0 < (
            #[trigger] r@[b]).id.0 by {
                assert(self@.documents[a].id.0 < self@.documents[b].id.0);
            }
        }
        r
    }

    /// Inserts `text` at `position` in the document `doc_id` and queues
    /// `TextChanged` with the empty range at `position` and the text.
    /// Fails, changing nothing, where there is no such document or the
    /// position is not valid in it.
    pub fn insert_text(&mut self, doc_id: DocumentId, position: Position, text: &str) -> (r:
        Result<(), LunaError>)
        requires
            old(self).wf(),
        ensures
            final(self).wf(),
            !has_doc(old(self)@.documents, doc_id) ==> r == not_found::<()>(doc_id),
            r is Err ==> final(self)@ == old(self)@,
            has_doc(old(self)@.documents, doc_id) ==> {
                let k = doc_index(old(self)@.documents, doc_id);
                let d = old(self)@.documents[k];
                let t = encode_utf8(text@);
                &&& (r is Ok <==> valid_position(d.lines, position))
                &&& (r is Ok ==> final(self)@ == (ApiState {
                    documents: old(self)@.documents.update(
                        k,
                        DocumentState {
                            lines: insert_lines(d.lines, position, t),
                            cursor: moved_by_insert(d.cursor, position, t),
                            dirty: true,
                            ..d
                        },
                    ),
                    pending: old(self)@.pending.push(
                        EventView::TextChanged {
                            doc_id,
                            range: Range { start: position, end: position },
                            new_text: text@,
                        },
                    ),
                    ..old(self)@
                }))
                &&& (r matches Err(e) ==> e matches LunaError::InvalidPosition {
                    doc_id: i,
                    position: p,
                    reason,
                } && i == doc_id && p == position && reason@ == insert_position_reason(
                    d.lines,
                    position,
                ))
            },
    {
        let k = match self.find(doc_id) {
            Some(k) => k,
            None => {
                return Err(LunaError::DocumentNotFound(doc_id));
            },
        };
        let range = Range::empty_at(position);
        let new_text = text.to_owned();
        proof {
            self.lemma_inner();
        }
        let ghost before = self@;
        match self.documents[k].insert_text(position, text) {
            Err(e) => {
                proof {
                    assert(self@.documents =~= before.documents);
                }
                return Err(e);
            },
            Ok(()) => {},
        }
        proof {
            assert(self@.documents =~= before.documents.update(k as int, self.documents@[k as int]@));
            Self::lemma_update_doc(before, k as int, self.documents@[k as int]@);
        }
        self.emit(Event::TextChanged { doc_id, range, new_text });
        Ok(())
    }

    /// Removes the text of `range` from the document `doc_id` and queues
    /// `TextChanged` with the range and an empty text. Fails, changing
    /// nothing, where there is no such document or the range is not valid in it.
    pub fn delete_text(&mut self, doc_id: DocumentId, range: Range) -> (r: Result<(), LunaError>)
        requires
            old(self).wf(),
        ensures
            final(self).wf(),
            !has_doc(old(self)@.documents, doc_id) ==> r == not_found::<()>(doc_id),
            r is Err ==> final(self)@ == old(self)@,
            has_doc(old(self)@.documents, doc_id) ==> {
                let k = doc_index(old(self)@.documents, doc_id);
                let d = old(self)@.documents[k];
                &&& (r is Ok <==> valid_range(d.lines, range))
                &&& (r is Ok ==> final(self)@ == (ApiState {
                    documents: old(self)@.documents.update(
                        k,
                        DocumentState {
                            lines: delete_lines(d.lines, range),
                            cursor: moved_by_delete(d.cursor, range),
                            dirty: true,
                            ..d
                        },
                    ),
                    pending: old(self)@.pending.push(
                        EventView::TextChanged { doc_id, range, new_text: Seq::<char>::empty() },
                    ),
                    ..old(self)@
                }))
                &&& (r matches Err(e) ==> e matches LunaError::InvalidRange {
                    doc_id: i,
                    range: g,
                    reason,
                } && i == doc_id && g == range && reason@ == invalid_range_reason())
            },
    {
        let k = match self.find(doc_id) {
            Some(k) => k,
            None => {
                return Err(LunaError::DocumentNotFound(doc_id));
            },
        };
        proof {
            self.lemma_inner();
        }
        let ghost before = self@;
        match self.documents[k].delete_text(range) {
            Err(e) => {
                proof {
                    assert(self@.documents =~= before.documents);
                }
                return Err(e);
            },
            Ok(()) => {},
        }
        proof {
            assert(self@.documents =~= before.documents.update(k as int, self.documents@[k as int]@));
            Self::lemma_update_doc(before, k as int, self.documents@[k as int]@);
        }
        let new_text = String::new();
        self.emit(Event::TextChanged { doc_id, range, new_text });
        Ok(())
    }

    /// Replaces the text of `range` in the document `doc_id` with
    /// `new_text` and queues `TextChanged` with the range and the new text.
    /// Fails, changing nothing, where there is no such document or the
    /// range is not valid in it.
    pub fn replace_text(&mut self, doc_id: DocumentId, range: Range, new_text: &str) -> (r:
        Result<(), LunaError>)
        requires
            old(self).wf(),
        ensures
            final(self).wf(),
            !has_doc(old(self)@.documents, doc_id) ==> r == not_found::<()>(doc_id),
            r is Err ==> final(self)@ == old(self)@,
            has_doc(old(self)@.documents, doc_id) ==> {
                let k = doc_index(old(self)@.documents, doc_id);
                let d = old(self)@.documents[k];
                let t = encode_utf8(new_text@);
                &&& (r is Ok <==> valid_range(d.lines, range))
                &&& (r is Ok ==> final(self)@ == (ApiState {
                    documents: old(self)@.documents.update(
                        k,
                        DocumentState {
                            lines: insert_lines(delete_lines(d.lines, range), range.start, t),
                            cursor: moved_by_insert(moved_by_delete(d.cursor, range), range.start, t),
                            dirty: true,
                            ..d
                        },
                    ),
                    pending: old(self)@.pending.push(
                        EventView::TextChanged { doc_id, range, new_text: new_text@ },
                    ),
                    ..old(self)@
                }))
                &&& (r matches Err(e) ==> e matches LunaError::InvalidRange {
                    doc_id: i,
                    range: g,
                    reason,
                } && i == doc_id && g == range && reason@ == invalid_range_reason())
            },
    {
        let nt = new_text.to_owned();
        let k = match self.find(doc_id) {
            Some(k) => k,
            None => {
                return Err(LunaError::DocumentNotFound(doc_id));
            },
        };
        proof {
            self.lemma_inner();
        }
        let ghost before = self@;
        match self.documents[k].replace_text(range, new_text) {
            Err(e) => {
                proof {
                    assert(self@.documents =~= before.documents);
                }
                return Err(e);
            },
            Ok(()) => {},
        }
        proof {
            assert(self@.documents =~= before.documents.update(k as int, self.documents@[k as int]@));
            Self::lemma_update_doc(before, k as int, self.documents@[k as int]@);
        }
        self.emit(Event::TextChanged { doc_id, range, new_text: nt });
        Ok(())
    }

    /// Moves the cursor of the document `doc_id` to `position` and queues
    /// `CursorMoved`. Fails, changing nothing, where there is no such
    /// document or the position is not valid in it.
    pub fn set_cursor(&mut self, doc_id: DocumentId, position: Position) -> (r: Result<
        (),
        LunaError,
    >)
        requires
            old(self).wf(),
        ensures
            final(self).wf(),
            !has_doc(old(self)@.documents, doc_id) ==> r == not_found::<()>(doc_id),
            r is Err ==> final(self)@ == old(self)@,
            has_doc(old(self)@.documents, doc_id) ==> {
                let k = doc_index(old(self)@.documents, doc_id);
                let d = old(self)@.documents[k];
                &&& (r is Ok <==> valid_position(d.lines, position))
                &&& (r is Ok ==> final(self)@ == (ApiState {
                    documents: old(self)@.documents.update(
                        k,
                        DocumentState { cursor: position, ..d },
                    ),
                    pending: old(self)@.pending.push(EventView::CursorMoved { doc_id, position }),
                    ..old(self)@
                }))
                &&& (r matches Err(e) ==> e matches LunaError::InvalidPosition {
                    doc_id: i,
                    position: p,
                    reason,
                } && i == doc_id && p == position && reason@ == line_count_reason(d.lines.len()))
            },
    {
        let k = match self.find(doc_id) {
            Some(k) => k,
            None => {
                return Err(LunaError::DocumentNotFound(doc_id));
            },
        };
        proof {
            self.lemma_inner();
        }
        let ghost before = self@;
        match self.documents[k].set_cursor(position) {
            Err(e) => {
                proof {
                    assert(self@.documents =~= before.documents);
                }
                return Err(e);
            },
            Ok(()) => {},
        }
        proof {
            assert(self@.documents =~= before.documents.update(k as int, self.documents@[k as int]@));
            Self::lemma_update_doc(before, k as int, self.documents@[k as int]@);
        }
        self.emit(Event::CursorMoved { doc_id, position });
        Ok(())
    }

    /// Closes the document `doc_id` and queues `FileClosed`. Fails,
    /// changing nothing, where there is no such document.
    pub fn close_file(&mut self, doc_id: DocumentId) -> (r: Result<(), LunaError>)
        requires
            old(self).wf(),
        ensures
            final(self).wf(),
            r is Ok <==> has_doc(old(self)@.documents, doc_id),
            r is Err ==> r == not_found::<()>(doc_id) && final(self)@ == old(self)@,
            r is Ok ==> final(self)@ == (ApiState {
                documents: old(self)@.documents.filter(without_doc(doc_id)),
                pending: old(self)@.pending.push(EventView::FileClosed { doc_id }),
                ..old(self)@
            }),
    {
        let k = match self.find(doc_id) {
            Some(k) => k,
            None => {
                return Err(LunaError::DocumentNotFound(doc_id));
            },
        };
        let ghost before = self@;
        let ghost docs = before.documents;
        proof {
            assert forall|i: int| 0 <= i < docs.len() && i != k implies (#[trigger] docs[i]).id
                != doc_id by {
                if i < k {
                    assert(docs[i].id.0 < docs[k as int].id.0);
                } else {
                    assert(docs[k as int].id.0 < docs[i].id.0);
                }
            }
            crate::events::lemma_filter_all_but_one(docs, without_doc(doc_id), k as int);
        }
        self.documents.remove(k);
        proof {
            let nd = self@.documents;
            assert(nd =~= docs.remove(k as int));
            assert forall|i: int, j: int| 0 <= i < j < nd.len() implies (#[trigger] nd[i]).id.0 < (
            #[trigger] nd[j]).id.0 by {
                let i2 = if i < k { i } else { i + 1 };
                let j2 = if j < k { j } else { j + 1 };
                assert(nd[i] == docs[i2]);
                assert(nd[j] == docs[j2]);
            }
            assert forall|i: int| 0 <= i < nd.len() implies 1 <= (#[trigger] nd[i]).id.0
                < self.next_doc_id && doc_wf(nd[i]) by {
                let i2 = if i < k { i } else { i + 1 };
                assert(nd[i] == docs[i2]);
            }
        }
        self.emit(Event::FileClosed { doc_id });
        Ok(())
    }

    /// Fails where a document is open already whose path `std::path`
    /// compares as equal to `canonical`.
    pub fn ensure_not_already_open(&self, canonical: &str) -> (r: Result<(), LunaError>)
        requires
            self.wf(),
        ensures
            r is Err <==> exists|i: int|
                0 <= i < self@.documents.len() && open_at(#[trigger] self@.documents[i], canonical@),
            r matches Err(e) ==> e matches LunaError::DocumentAlreadyOpen(s) && s@ == canonical@,
    {
        proof {
            self.lemma_inner();
        }
        let n = self.documents.len();
        let mut i: usize = 0;
        while i < n
            invariant
                self.wf(),
                n == self@.documents.len(),
                n == self.documents@.len(),
                forall|k: int|
                    0 <= k < n ==> #[trigger] self@.documents[k] == self.documents@[k]@,
                i <= n,
                forall|k: int| 0 <= k < i ==> !open_at(#[trigger] self@.documents[k], canonical@),
            decreases n - i,
        {
            match self.documents[i].path() {
                Some(p) => {
                    if paths_equal(p, canonical) {
                        proof {
                            assert(open_at(self@.documents[i as int], canonical@));
                        }
                        return Err(LunaError::DocumentAlreadyOpen(canonical.to_owned()));
                    }
                },
                None => {},
            }
            i = i + 1;
        }
        Ok(())
    }

    /// Opens the file whose canonical path is `canonical` and whose text is
    /// `content`, and queues `FileOpened` with the path. Fails, changing
    /// nothing, where a document for that path is open already.
    pub fn open_from_disk(&mut self, canonical: &str, content: &str) -> (r: Result<
        DocumentId,
        LunaError,
    >)
        requires
            old(self).wf(),
            old(self)@.next_doc_id < u64::MAX,
        ensures
            final(self).wf(),
            r is Err <==> exists|i: int|
                0 <= i < old(self)@.documents.len() && open_at(#[trigger] old(self)@.documents[i], canonical@),
            r matches Err(e) ==> e matches LunaError::DocumentAlreadyOpen(s) && s@ == canonical@,
            r is Err ==> final(self)@ == old(self)@,
            r matches Ok(id) ==> id == DocumentId(old(self)@.next_doc_id) && final(self)@ == (
            ApiState {
                documents: old(self)@.documents.push(
                    DocumentState {
                        id,
                        path: Some(canonical@),
                        lines: text_lines(encode_utf8(content@)),
                        cursor: Position { line: 0, col: 0 },
                        dirty: false,
                    },
                ),
                next_doc_id: (old(self)@.next_doc_id + 1) as u64,
                pending: old(self)@.pending.push(
                    EventView::FileOpened { doc_id: id, path: Some(canonical@) },
                ),
                ..old(self)@
            }),
    {
        match self.ensure_not_already_open(canonical) {
            Err(e) => {
                return Err(e);
            },
            Ok(()) => {},
        }
        let id = self.next_id();
        let doc = Document::from_disk(id, canonical.to_owned(), content);
        self.push_document(doc);
        self.emit(Event::FileOpened { doc_id: id, path: Some(canonical.to_owned()) });
        Ok(id)
    }

    /// What saving the document `doc_id` writes, and where: its path and its
    /// whole text. Fails where there is no such document or it has no path.
    pub fn save_target(&self, doc_id: DocumentId) -> (r: Result<(String, String), LunaError>)
        requires
            self.wf(),
        ensures
            !has_doc(self@.documents, doc_id) ==> r == not_found::<(String, String)>(doc_id),
            has_doc(self@.documents, doc_id) ==> {
                let d = doc_of(self@.documents, doc_id);
                &&& (r is Ok <==> d.path is Some)
                &&& (r matches Ok((p, c)) ==> d.path == Some(p@) && encode_utf8(c@) == join_lines(
                    d.lines,
                ))
                &&& (r is Err ==> r == Err::<(String, String), LunaError>(
                    LunaError::UnsavedDocument(doc_id),
                ))
            },
    {
        match self.find(doc_id) {
            None => Err(LunaError::DocumentNotFound(doc_id)),
            Some(k) => {
                proof {
                    self.lemma_inner();
                }
                let doc = &self.documents[k];
                match doc.path() {
                    None => Err(LunaError::UnsavedDocument(doc_id)),
                    Some(p) => Ok((p.to_owned(), doc.content())),
                }
            },
        }
    }

    /// Records the outcome of writing the document `doc_id` to its path: on
    /// success the document is clean and `FileSaved` with the path is
    /// queued. Fails, changing nothing, where there is no such document, it
    /// has no path, or the write failed.
    pub fn save_file(&mut self, doc_id: DocumentId, written: Result<(), String>) -> (r: Result<
        (),
        LunaError,
    >)
        requires
            old(self).wf(),
        ensures
            final(self).wf(),
            !has_doc(old(self)@.documents, doc_id) ==> r == not_found::<()>(doc_id),
            r is Err ==> final(self)@ == old(self)@,
            has_doc(old(self)@.documents, doc_id) ==> {
                let k = doc_index(old(self)@.documents, doc_id);
                let d = old(self)@.documents[k];
                &&& (d.path is None ==> r == Err::<(), LunaError>(
                    LunaError::UnsavedDocument(doc_id),
                ))
                &&& (d.path is Some ==> (r is Ok <==> written is Ok))
                &&& (d.path is Some && written is Err ==> (r matches Err(
                    LunaError::Io { path, reason },
                ) && d.path == Some(path@) && reason == written->Err_0))
                &&& (r is Ok ==> final(self)@ == (ApiState {
                    documents: old(self)@.documents.update(k, DocumentState { dirty: false, ..d }),
                    pending: old(self)@.pending.push(
                        EventView::FileSaved { doc_id, path: d.path->Some_0 },
                    ),
                    ..old(self)@
                }))
            },
    {
        let k = match self.find(doc_id) {
            Some(k) => k,
            None => {
                return Err(LunaError::DocumentNotFound(doc_id));
            },
        };
        proof {
            self.lemma_inner();
        }
        let path = match self.documents[k].path() {
            Some(p) => p.to_owned(),
            None => {
                return Err(LunaError::UnsavedDocument(doc_id));
            },
        };
        let ghost before = self@;
        match self.documents[k].save(written) {
            Err(e) => {
                proof {
                    assert(self@.documents =~= before.documents);
                }
                return Err(e);
            },
            Ok(()) => {},
        }
        proof {
            assert(self@.documents =~= before.documents.update(k as int, self.documents@[k as int]@));
            Self::lemma_update_doc(before, k as int, self.documents@[k as int]@);
        }
        self.emit(Event::FileSaved { doc_id, path });
        Ok(())
    }

    /// Records the outcome of writing the document `doc_id` to `new_path`:
    /// on success that is the document's path, the document is clean and
    /// `FileSaved` with the path is queued. Fails, changing nothing, where
    /// there is no such document or the write failed.
    pub fn save_file_as(
        &mut self,
        doc_id: DocumentId,
        new_path: &str,
        written: Result<(), String>,
    ) -> (r: Result<(), LunaError>)
        requires
            old(self).wf(),
        ensures
            final(self).wf(),
            !has_doc(old(self)@.documents, doc_id) ==> r == not_found::<()>(doc_id),
            r is Err ==> final(self)@ == old(self)@,
            has_doc(old(self)@.documents, doc_id) ==> {
                let k = doc_index(old(self)@.documents, doc_id);
                let d = old(self)@.documents[k];
                &&& (r is Ok <==> written is Ok)
                &&& (written is Err ==> (r matches Err(LunaError::Io { path, reason }) && path@
                    == new_path@ && reason == written->Err_0))
                &&& (r is Ok ==> final(self)@ == (ApiState {
                    documents: old(self)@.documents.update(
                        k,
                        DocumentState { path: Some(new_path@), dirty: false, ..d },
                    ),
                    pending: old(self)@.pending.push(
                        EventView::FileSaved { doc_id, path: new_path@ },
                    ),
                    ..old(self)@
                }))
            },
    {
        let k = match self.find(doc_id) {
            Some(k) => k,
            None => {
                return Err(LunaError::DocumentNotFound(doc_id));
            },
        };
        proof {
            self.lemma_inner();
        }
        let ghost before = self@;
        match self.documents[k].save_as(new_path, written) {
            Err(e) => {
                proof {
                    assert(self@.documents =~= before.documents);
                }
                return Err(e);
            },
            Ok(()) => {},
        }
        proof {
            assert(self@.documents =~= before.documents.update(k as int, self.documents@[k as int]@));
            Self::lemma_update_doc(before, k as int, self.documents@[k as int]@);
        }
        self.emit(Event::FileSaved { doc_id, path: new_path.to_owned() });
        Ok(())
    }

    /// Subscribes `callback` to the events of `kind`.
    pub fn subscribe(&mut self, kind: EventKind, callback: C) -> (id: SubscriptionId)
        requires
            old(self).wf(),
            old(self)@.bus.next_id < u64::MAX,
        ensures
            final(self).wf(),
            id == SubscriptionId(old(self)@.bus.next_id),
            final(self)@ == (ApiState {
                bus: EventBusState {
                    subscriptions: old(self)@.bus.subscriptions.push(
                        Subscription { id, kind, callback },
                    ),
                    next_id: (old(self)@.bus.next_id + 1) as u64,
                },
                ..old(self)@
            }),
    {
        proof {
            self.lemma_inner();
        }
        self.event_bus.subscribe(kind, callback)
    }

    /// Removes the subscription `subscription_id`, if there is one.
    pub fn unsubscribe(&mut self, subscription_id: SubscriptionId)
        requires
            old(self).wf(),
        ensures
            final(self).wf(),
            final(self)@ == (ApiState {
                bus: EventBusState {
                    subscriptions: old(self)@.bus.subscriptions.filter(not_id::<C>(subscription_id)),
                    next_id: old(self)@.bus.next_id,
                },
                ..old(self)@
            }),
    {
        proof {
            self.lemma_inner();
        }
        self.event_bus.unsubscribe(subscription_id)
    }

    /// The callbacks subscribed to `kind`, in the order of subscription.
    pub fn listeners(&self, kind: EventKind) -> (r: Vec<&C>)
        ensures
            r@.len() == listeners_of(self@.bus.subscriptions, kind).len(),
            forall|i: int|
                0 <= i < r@.len() ==> *(#[trigger] r@[i]) == listeners_of(
                    self@.bus.subscriptions,
                    kind,
                )[i].callback,
    {
        self.event_bus.listeners(kind)
    }

    /// Hands out the queued events, oldest first, and empties the queue.
    pub fn take_events(&mut self) -> (r: Vec<Event>)
        ensures
            r@.len() == old(self)@.pending.len(),
            forall|i: int| 0 <= i < r@.len() ==> (#[trigger] r@[i])@ == old(self)@.pending[i],
            final(self)@ == (ApiState { pending: Seq::<EventView>::empty(), ..old(self)@ }),
    {
        let mut r: Vec<Event> = Vec::new();
        std::mem::swap(&mut r, &mut self.pending);
        proof {
            assert(self@.pending =~= Seq::<EventView>::empty());
            assert(self@.documents =~= old(self)@.documents);
        }
        r
    }

    /// Registers `handler` under `name`. Fails, changing nothing, where the
    /// name is taken already.
    pub fn register_command(&mut self, name: &str, description: &str, handler: H) -> (r: Result<
        CommandId,
        LunaError,
    >)
        requires
            old(self).wf(),
            old(self)@.registry.next_id < u64::MAX || registered(
                old(self)@.registry.commands,
                name@,
            ),
        ensures
            final(self).wf(),
            r is Err <==> registered(old(self)@.registry.commands, name@),
            r is Err ==> final(self)@ == old(self)@,
            r matches Err(e) ==> e matches LunaError::Internal(m) && m@ == duplicate_reason(name@),
            r matches Ok(id) ==> id == CommandId(old(self)@.registry.next_id) && final(self)@ == (
            ApiState { registry: final(self)@.registry, ..old(self)@ }) && final(self)@.registry.next_id
                == old(self)@.registry.next_id + 1 && exists|k: int|
                0 <= k <= old(self)@.registry.commands.len() && final(self)@.registry.commands
                    == #[trigger] old(self)@.registry.commands.insert(
                    k,
                    CommandRecord { id, name: name@, description: description@, handler },
                ),
    {
        proof {
            self.lemma_inner();
        }
        self.command_registry.register(name, description, handler)
    }

    /// Removes the command named `name`, if there is one.
    pub fn unregister_command(&mut self, name: &str)
        requires
            old(self).wf(),
        ensures
            final(self).wf(),
            final(self)@ == (ApiState {
                registry: RegistryState {
                    commands: old(self)@.registry.commands.filter(not_named::<H>(name@)),
                    next_id: old(self)@.registry.next_id,
                },
                ..old(self)@
            }),
    {
        proof {
            self.lemma_inner();
        }
        self.command_registry.unregister(name)
    }

    /// The handler registered under `name`.
    pub fn command_handler(&self, name: &str) -> (r: Result<&H, LunaError>)
        requires
            self.wf(),
        ensures
            r is Ok <==> registered(self@.registry.commands, name@),
            r matches Ok(h) ==> exists|k: int|
                0 <= k < self@.registry.commands.len() && self@.registry.commands[k].name == name@
                    && self@.registry.commands[k].handler == *h,
            r matches Err(e) ==> e matches LunaError::CommandNotFound(n) && n@ == name@,
    {
        proof {
            self.lemma_inner();
        }
        self.command_registry.handler(name)
    }

    /// The result of running the command `name`, given how the run of its
    /// handler went.
    pub fn execute_command(&self, name: &str, outcome: Result<Option<String>, String>) -> (r:
        Result<Option<String>, LunaError>)
        requires
            self.wf(),
        ensures
            !registered(self@.registry.commands, name@) ==> (r matches Err(
                LunaError::CommandNotFound(n),
            ) && n@ == name@),
            registered(self@.registry.commands, name@) && outcome is Ok ==> r == Ok::<
                Option<String>,
                LunaError,
            >(outcome->Ok_0),
            registered(self@.registry.commands, name@) && outcome is Err ==> (r matches Err(
                LunaError::CommandExecutionFailed { name: n, reason },
            ) && n@ == name@ && reason == outcome->Err_0),
    {
        proof {
            self.lemma_inner();
        }
        self.command_registry.execute(name, outcome)
    }

    /// A summary of every command, sorted by name.
    pub fn list_commands(&self) -> (r: Vec<CommandInfo>)
        requires
            self.wf(),
        ensures
            r@.len() == self@.registry.commands.len(),
            forall|i: int|
                0 <= i < r@.len() ==> (#[trigger] r@[i]).id == self@.registry.commands[i].id
                    && r@[i].name@ == self@.registry.commands[i].name && r@[i].description@
                    == self@.registry.commands[i].description,
    {
        proof {
            self.lemma_inner();
        }
        self.command_registry.list()
    }

    /// Some command is registered under `name`.
    pub fn has_command(&self, name: &str) -> (b: bool)
        requires
            self.wf(),
        ensures
            b == registered(self@.registry.commands, name@),
    {
        proof {
            self.lemma_inner();
        }
        self.command_registry.contains(name)
    }
}

impl<C, H> Default for LunaApi<C, H> {
    fn default() -> (a: Self)
        ensures
            a.wf(),
            a@.documents == Seq::<DocumentState>::empty(),
            a@.next_doc_id == 1,
            a@.bus.subscriptions == Seq::<Subscription<C>>::empty(),
            a@.bus.next_id == 1,
            a@.registry.commands == Seq::<CommandRecord<H>>::empty(),
            a@.registry.next_id == 1,
            a@.pending == Seq::<EventView>::empty(),
    {
        Self::new()
    }

}

/// The id that the next opened document gets belongs to no open document.
pub proof fn law_new_document_id_is_fresh<C, H>(s: ApiState<C, H>)
    requires
        api_wf(s),
    ensures
        !has_doc(s.documents, DocumentId(s.next_doc_id)),
{
    if has_doc(s.documents, DocumentId(s.next_doc_id)) {
        let i = choose|i: int| 0 <= i < s.documents.len() && (#[trigger] s.documents[i]).id
            == DocumentId(s.next_doc_id);
        assert(s.documents[i].id.0 < s.next_doc_id);
    }
}

/// After a document is closed no open document has its id, and every other
/// document stays open.
pub proof fn law_closed_document_is_gone(docs: Seq<DocumentState>, id: DocumentId)
    ensures
        !has_doc(docs.filter(without_doc(id)), id),
        forall|other: DocumentId|
            other != id && #[trigger] has_doc(docs, other) ==> has_doc(
                docs.filter(without_doc(id)),
                other,
            ),
{
    let kept = docs.filter(without_doc(id));
    if has_doc(kept, id) {
        let i = choose|i: int| 0 <= i < kept.len() && (#[trigger] kept[i]).id == id;
        docs.lemma_filter_pred(without_doc(id), i);
    }
    assert forall|other: DocumentId| other != id && #[trigger] has_doc(docs, other) implies has_doc(
        kept,
        other,
    ) by {
        let a = choose|a: int| 0 <= a < docs.len() && (#[trigger] docs[a]).id == other;
        docs.lemma_filter_contains(without_doc(id), a);
        let b = choose|b: int| 0 <= b < kept.len() && kept[b] == docs[a];
        assert(kept[b].id == other);
    }
}

} // verus!
