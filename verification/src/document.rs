//! An open document: its text, its cursor, its path on disk and whether it
//! holds changes that were not saved.
//!
//! Reading and writing files is not done here: saving takes the outcome of
//! the write, done by the caller, as an argument.
use vstd::prelude::*;
use vstd::utf8::*;
use crate::buffer::{
    cursor_after_delete, cursor_after_insert, delete_lines, insert_lines,
    insert_position_reason, invalid_range_reason, lemma_cursor_after_delete_valid,
    lemma_cursor_after_insert_valid, lemma_start_valid_after_delete, lines_wf, valid_position,
    valid_range, Buffer,
};
use crate::error::LunaError;
use crate::paths::{file_name_of, path_file_name};
use crate::text::{
    byte_len, decimal, join_lines, lemma_split_lines_shape, push_decimal, split_lines,
    split_newlines, strings_bytes, text_lines,
};
use crate::types::{DocumentId, DocumentInfo, Position, Range};

verus! {

broadcast use vstd::utf8::encode_utf8_valid_utf8;

/// The state of a document: its id, its path, the bytes of its lines, its
/// cursor, and whether it has unsaved changes.
pub struct DocumentState {
    pub id: DocumentId,
    pub path: Option<Seq<char>>,
    pub lines: Seq<Seq<u8>>,
    pub cursor: Position,
    pub dirty: bool,
}

/// The lines are well formed and the cursor is a valid position in them.
pub open spec fn doc_wf(d: DocumentState) -> bool {
    lines_wf(d.lines) && valid_position(d.lines, d.cursor)
}

/// The text of an optional string.
pub open spec fn opt_view(o: Option<String>) -> Option<Seq<char>> {
    match o {
        Some(s) => Some(s@),
        None => None,
    }
}

/// The name shown for a document: the file name of its path, or
/// "Sem título" where it has no path or the path has no file name.
pub open spec fn display_name_of(path: Option<Seq<char>>) -> Seq<char> {
    match path {
        Some(p) => match file_name_of(p) {
            Some(n) => n,
            None => "Sem título"@,
        },
        None => "Sem título"@,
    }
}

/// The explanation given when a position is refused for the cursor.
pub open spec fn line_count_reason(n: nat) -> Seq<char> {
    "documento tem "@ + decimal(n) + " linhas"@
}

/// Where the cursor goes when `t` is inserted at `p`.
pub open spec fn moved_by_insert(c: Position, p: Position, t: Seq<u8>) -> Position {
    let parts = split_lines(t);
    let m = cursor_after_insert(c, p, parts.len() - 1, parts.last().len() as int);
    Position { line: m.0 as usize, col: m.1 as usize }
}

/// Where the cursor goes when the text of `r` is removed.
pub open spec fn moved_by_delete(c: Position, r: Range) -> Position {
    let m = cursor_after_delete(c, r);
    Position { line: m.0 as usize, col: m.1 as usize }
}

/// An open document.
#[derive(Debug)]
pub struct Document {
    id: DocumentId,
    path: Option<String>,
    buffer: Buffer,
    cursor: Position,
    is_dirty: bool,
}

impl View for Document {
    type V = DocumentState;

    closed spec fn view(&self) -> DocumentState {
        DocumentState {
            id: self.id,
            path: opt_view(self.path),
            lines: self.buffer@,
            cursor: self.cursor,
            dirty: self.is_dirty,
        }
    }
}

/// The pieces of a split are valid UTF-8 when they come from strings.
proof fn lemma_parts_valid(parts: Seq<String>, t: Seq<u8>)
    requires
        strings_bytes(parts) == split_lines(t),
    ensures
        forall|i: int| 0 <= i < split_lines(t).len() ==> valid_utf8(#[trigger] split_lines(t)[i]),
        split_lines(t).len() >= 1,
        parts.len() == split_lines(t).len(),
        parts.len() >= 1 ==> encode_utf8(parts[parts.len() - 1]@) == split_lines(t).last(),
{
    lemma_split_lines_shape(t);
    assert forall|i: int| 0 <= i < split_lines(t).len() implies valid_utf8(
        #[trigger] split_lines(t)[i],
    ) by {
        assert(strings_bytes(parts)[i] == encode_utf8(parts[i]@));
    }
    if parts.len() >= 1 {
        assert(strings_bytes(parts)[parts.len() - 1] == encode_utf8(parts[parts.len() - 1]@));
    }
}

impl Document {
    /// The document keeps well-formed lines and a valid cursor.
    pub open spec fn wf(&self) -> bool {
        doc_wf(self@)
    }

    /// A new, empty, clean document without a path.
    pub fn new_empty(id: DocumentId) -> (d: Self)
        ensures
            d.wf(),
            d@ == (DocumentState {
                id,
                path: None,
                lines: seq![Seq::<u8>::empty()],
                cursor: Position { line: 0, col: 0 },
                dirty: false,
            }),
    {
        let d = Document {
            id,
            path: None,
            buffer: Buffer::new(),
            cursor: Position::origin(),
            is_dirty: false,
        };
        proof {
            crate::text::lemma_boundary_at(Seq::<u8>::empty(), 0);
        }
        d
    }

    /// A clean document read from `path`, holding the lines of `content`.
    pub fn from_disk(id: DocumentId, path: String, content: &str) -> (d: Self)
        ensures
            d.wf(),
            d@ == (DocumentState {
                id,
                path: Some(path@),
                lines: text_lines(encode_utf8(content@)),
                cursor: Position { line: 0, col: 0 },
                dirty: false,
            }),
    {
        let buffer = Buffer::from_text(content);
        proof {
            assert(lines_wf(buffer@));
            assert(valid_utf8(buffer@[0]));
            crate::text::lemma_boundary_at(buffer@[0], 0);
        }
        Document { id, path: Some(path), buffer, cursor: Position::origin(), is_dirty: false }
    }

    pub fn id(&self) -> (r: DocumentId)
        ensures
            r == self@.id,
    {
        self.id
    }

    /// The path of the document, if it has one.
    pub fn path(&self) -> (r: Option<&str>)
        ensures
            r is None <==> self@.path is None,
            r matches Some(s) ==> self@.path == Some(s@),
    {
        match &self.path {
            Some(p) => Some(p.as_str()),
            None => None,
        }
    }

    pub fn is_dirty(&self) -> (r: bool)
        ensures
            r == self@.dirty,
    {
        self.is_dirty
    }

    pub fn cursor(&self) -> (r: Position)
        ensures
            r == self@.cursor,
    {
        self.cursor
    }

    pub fn line_count(&self) -> (r: usize)
        ensures
            r == self@.lines.len(),
    {
        self.buffer.line_count()
    }

    /// The whole text, lines joined with `'\n'`.
    pub fn content(&self) -> (r: String)
        ensures
            encode_utf8(r@) == join_lines(self@.lines),
    {
        self.buffer.to_text()
    }

    /// The text of line `line`, if there is such a line.
    pub fn get_line(&self, line: usize) -> (r: Option<&str>)
        ensures
            match r {
                Some(s) => line < self@.lines.len() && encode_utf8(s@) == self@.lines[line as int],
                None => line >= self@.lines.len(),
            },
    {
        self.buffer.get_line(line)
    }

    /// The file name of the path, or "Sem título".
    pub fn display_name(&self) -> (r: String)
        ensures
            r@ == display_name_of(self@.path),
    {
        match &self.path {
            Some(p) => match path_file_name(p.as_str()) {
                Some(name) => name,
                None => "Sem título".to_owned(),
            },
            None => "Sem título".to_owned(),
        }
    }

    /// A summary of the document.
    pub fn info(&self) -> (r: DocumentInfo)
        ensures
            r.id == self@.id,
            opt_view(r.path) == self@.path,
            r.display_name@ == display_name_of(self@.path),
            r.is_dirty == self@.dirty,
            r.line_count == self@.lines.len(),
    {
        let path = match &self.path {
            Some(p) => Some(p.clone()),
            None => None,
        };
        DocumentInfo {
            id: self.id,
            path,
            display_name: self.display_name(),
            is_dirty: self.is_dirty,
            line_count: self.buffer.line_count(),
        }
    }

    /// Inserts `text` at `pos`; the cursor moves along with the text behind
    /// it. Fails, changing nothing, where `pos` is not a valid position.
    pub fn insert_text(&mut self, pos: Position, text: &str) -> (r: Result<(), LunaError>)
        requires
            old(self).wf(),
        ensures
            final(self).wf(),
            r is Ok <==> valid_position(old(self)@.lines, pos),
            r is Ok ==> final(self)@ == (DocumentState {
                lines: insert_lines(old(self)@.lines, pos, encode_utf8(text@)),
                cursor: moved_by_insert(old(self)@.cursor, pos, encode_utf8(text@)),
                dirty: true,
                ..old(self)@
            }),
            r is Err ==> final(self)@ == old(self)@,
            r matches Err(e) ==> e matches LunaError::InvalidPosition { doc_id: d, position: p, reason }
                && d == old(self)@.id && p == pos && reason@ == insert_position_reason(
                old(self)@.lines,
                pos,
            ),
    {
        let ghost tb = encode_utf8(text@);
        let ghost old_lines = self.buffer@;
        let parts = split_newlines(text);
        proof {
            lemma_parts_valid(parts@, tb);
        }
        let inserted_lines = parts.len() - 1;
        let last_col_delta = byte_len(&parts[parts.len() - 1]);
        match self.buffer.insert(self.id, pos, text) {
            Err(e) => {
                return Err(e);
            },
            Ok(()) => {},
        }
        proof {
            lemma_cursor_after_insert_valid(old_lines, self.cursor, pos, tb);
        }
        self.cursor = Buffer::adjust_cursor_after_insert(
            self.cursor,
            pos,
            inserted_lines,
            last_col_delta,
        );
        self.is_dirty = true;
        Ok(())
    }

    /// Removes the text of `range`; the cursor moves back with the text
    /// behind the range. Fails, changing nothing, where the range is not valid.
    pub fn delete_text(&mut self, range: Range) -> (r: Result<(), LunaError>)
        requires
            old(self).wf(),
        ensures
            final(self).wf(),
            r is Ok <==> valid_range(old(self)@.lines, range),
            r is Ok ==> final(self)@ == (DocumentState {
                lines: delete_lines(old(self)@.lines, range),
                cursor: moved_by_delete(old(self)@.cursor, range),
                dirty: true,
                ..old(self)@
            }),
            r is Err ==> final(self)@ == old(self)@,
            r matches Err(e) ==> e matches LunaError::InvalidRange { doc_id: d, range: g, reason }
                && d == old(self)@.id && g == range && reason@ == invalid_range_reason(),
    {
        let ghost old_lines = self.buffer@;
        match self.buffer.delete(self.id, range) {
            Err(e) => {
                return Err(e);
            },
            Ok(()) => {},
        }
        proof {
            lemma_cursor_after_delete_valid(old_lines, self.cursor, range);
        }
        self.cursor = Buffer::adjust_cursor_after_delete(self.cursor, range);
        self.is_dirty = true;
        Ok(())
    }

    /// Replaces the text of `range` with `new_text`; the cursor first moves
    /// as for the removal, then as for the insertion at the start of the
    /// range. Fails, changing nothing, where the range is not valid.
    pub fn replace_text(&mut self, range: Range, new_text: &str) -> (r: Result<(), LunaError>)
        requires
            old(self).wf(),
        ensures
            final(self).wf(),
            r is Ok <==> valid_range(old(self)@.lines, range),
            r is Ok ==> final(self)@ == (DocumentState {
                lines: insert_lines(
                    delete_lines(old(self)@.lines, range),
                    range.start,
                    encode_utf8(new_text@),
                ),
                cursor: moved_by_insert(
                    moved_by_delete(old(self)@.cursor, range),
                    range.start,
                    encode_utf8(new_text@),
                ),
                dirty: true,
                ..old(self)@
            }),
            r is Err ==> final(self)@ == old(self)@,
            r matches Err(e) ==> e matches LunaError::InvalidRange { doc_id: d, range: g, reason }
                && d == old(self)@.id && g == range && reason@ == invalid_range_reason(),
    {
        let ghost tb = encode_utf8(new_text@);
        let ghost old_lines = self.buffer@;
        match self.buffer.replace(self.id, range, new_text) {
            Err(e) => {
                return Err(e);
            },
            Ok(()) => {},
        }
        proof {
            lemma_cursor_after_delete_valid(old_lines, self.cursor, range);
            lemma_start_valid_after_delete(old_lines, range);
        }
        let cursor_after_delete = Buffer::adjust_cursor_after_delete(self.cursor, range);
        let parts = split_newlines(new_text);
        proof {
            lemma_parts_valid(parts@, tb);
            let mid = delete_lines(old_lines, range);
            lemma_cursor_after_insert_valid(mid, cursor_after_delete, range.start, tb);
        }
        let inserted_lines = parts.len() - 1;
        let last_col_delta = byte_len(&parts[parts.len() - 1]);
        self.cursor = Buffer::adjust_cursor_after_insert(
            cursor_after_delete,
            range.start,
            inserted_lines,
            last_col_delta,
        );
        self.is_dirty = true;
        Ok(())
    }

    /// The explanation given when a cursor position is refused.
    fn line_count_reason(&self) -> (r: String)
        ensures
            r@ == line_count_reason(self@.lines.len()),
    {
        let mut reason = "documento tem ".to_owned();
        push_decimal(&mut reason, self.buffer.line_count() as u64);
        reason.append(" linhas");
        proof {
            assert(reason@ =~= line_count_reason(self@.lines.len()));
        }
        reason
    }

    /// Moves the cursor to `pos`. Fails, changing nothing, where `pos` is
    /// not a valid position.
    pub fn set_cursor(&mut self, pos: Position) -> (r: Result<(), LunaError>)
        requires
            old(self).wf(),
        ensures
            final(self).wf(),
            r is Ok <==> valid_position(old(self)@.lines, pos),
            r is Ok ==> final(self)@ == (DocumentState { cursor: pos, ..old(self)@ }),
            r is Err ==> final(self)@ == old(self)@,
            r matches Err(e) ==> e matches LunaError::InvalidPosition { doc_id: d, position: p, reason }
                && d == old(self)@.id && p == pos && reason@ == line_count_reason(
                old(self)@.lines.len(),
            ),
    {
        if !self.buffer.is_valid_position(pos) {
            let reason = self.line_count_reason();
            return Err(LunaError::InvalidPosition { doc_id: self.id, position: pos, reason });
        }
        self.cursor = pos;
        Ok(())
    }

    /// Records the outcome of writing the content to the document's path:
    /// a document without a path cannot be saved; a failed write is an I/O
    /// error on that path; a successful one leaves the document clean.
    pub fn save(&mut self, written: Result<(), String>) -> (r: Result<(), LunaError>)
        requires
            old(self).wf(),
        ensures
            final(self).wf(),
            old(self)@.path is None ==> r == Err::<(), LunaError>(
                LunaError::UnsavedDocument(old(self)@.id),
            ),
            old(self)@.path is Some ==> (r is Ok <==> written is Ok),
            r is Ok ==> final(self)@ == (DocumentState { dirty: false, ..old(self)@ }),
            r is Err ==> final(self)@ == old(self)@,
            old(self)@.path is Some && written is Err ==> (r matches Err(
                LunaError::Io { path, reason },
            ) && Some(path@) == old(self)@.path && reason == written->Err_0),
    {
        match &self.path {
            None => Err(LunaError::UnsavedDocument(self.id)),
            Some(p) => match written {
                Err(reason) => Err(LunaError::Io { path: p.clone(), reason }),
                Ok(()) => {
                    self.is_dirty = false;
                    Ok(())
                },
            },
        }
    }

    /// Records the outcome of writing the content to `new_path`: a failed
    /// write is an I/O error on that path; a successful one makes it the
    /// document's path and leaves the document clean.
    pub fn save_as(&mut self, new_path: &str, written: Result<(), String>) -> (r: Result<
        (),
        LunaError,
    >)
        requires
            old(self).wf(),
        ensures
            final(self).wf(),
            r is Ok <==> written is Ok,
            r is Ok ==> final(self)@ == (DocumentState {
                path: Some(new_path@),
                dirty: false,
                ..old(self)@
            }),
            r is Err ==> final(self)@ == old(self)@,
            written is Err ==> (r matches Err(LunaError::Io { path, reason }) && path@ == new_path@
                && reason == written->Err_0),
    {
        match written {
            Err(reason) => Err(LunaError::Io { path: new_path.to_owned(), reason }),
            Ok(()) => {
                self.path = Some(new_path.to_owned());
                self.is_dirty = false;
                Ok(())
            },
        }
    }
}

} // verus!
