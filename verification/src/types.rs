//! Identifiers, positions and ranges shared by the whole library.
use vstd::prelude::*;
use crate::text::{decimal, push_decimal};

verus! {

/// Identifies an open document. Ids are handed out in increasing order.
#[derive(Debug, Clone, Copy, PartialEq, Eq, Hash, Structural)]
pub struct DocumentId(pub u64);

impl DocumentId {
    /// The text `DocumentId(n)`.
    pub fn display_text(&self) -> (s: String)
        ensures
            s@ == "DocumentId("@ + decimal(self.0 as nat) + ")"@,
    {
        let mut s = "DocumentId(".to_owned();
        push_decimal(&mut s, self.0);
        s.append(")");
        s
    }
}

/// Identifies an event subscription.
#[derive(Debug, Clone, Copy, PartialEq, Eq, Hash, Structural)]
pub struct SubscriptionId(pub u64);

impl SubscriptionId {
    /// The text `SubscriptionId(n)`.
    pub fn display_text(&self) -> (s: String)
        ensures
            s@ == "SubscriptionId("@ + decimal(self.0 as nat) + ")"@,
    {
        let mut s = "SubscriptionId(".to_owned();
        push_decimal(&mut s, self.0);
        s.append(")");
        s
    }
}

/// Identifies a registered command.
#[derive(Debug, Clone, Copy, PartialEq, Eq, Hash, Structural)]
pub struct CommandId(pub u64);

impl CommandId {
    /// The text `CommandId(n)`.
    pub fn display_text(&self) -> (s: String)
        ensures
            s@ == "CommandId("@ + decimal(self.0 as nat) + ")"@,
    {
        let mut s = "CommandId(".to_owned();
        push_decimal(&mut s, self.0);
        s.append(")");
        s
    }
}

/// A position inside a document: a line index and a byte offset inside
/// that line, both counted from 0.
#[derive(Debug, Clone, Copy, PartialEq, Eq, Hash, Structural)]
pub struct Position {
    pub line: usize,
    pub col: usize,
}

impl Position {
    pub fn new(line: usize, col: usize) -> (p: Self)
        ensures
            p.line == line,
            p.col == col,
    {
        Position { line, col }
    }

    /// The text `line:col`, both counted from 1.
    pub fn display_text(&self) -> (s: String)
        requires
            self.line < usize::MAX,
            self.col < usize::MAX,
        ensures
            s@ == position_text(*self),
    {
        let mut s = String::new();
        push_decimal(&mut s, (self.line + 1) as u64);
        s.append(":");
        push_decimal(&mut s, (self.col + 1) as u64);
        proof {
            assert(s@ =~= position_text(*self));
        }
        s
    }

    /// The first position of every document.
    pub fn origin() -> (p: Self)
        ensures
            p.line == 0,
            p.col == 0,
    {
        Position { line: 0, col: 0 }
    }
}

/// A position as text: its line and column counted from 1, with a colon
/// between them.
pub open spec fn position_text(p: Position) -> Seq<char> {
    decimal((p.line + 1) as nat) + ":"@ + decimal((p.col + 1) as nat)
}

/// `a` comes before `b` or is `b`, comparing lines first and then columns.
pub open spec fn pos_le(a: Position, b: Position) -> bool {
    a.line < b.line || (a.line == b.line && a.col <= b.col)
}

/// `pos_le` computed.
pub fn position_le(a: Position, b: Position) -> (r: bool)
    ensures
        r == pos_le(a, b),
{
    a.line < b.line || (a.line == b.line && a.col <= b.col)
}

/// The stretch of a document between `start` (included) and `end` (excluded).
#[derive(Debug, Clone, Copy, PartialEq, Eq, Hash, Structural)]
pub struct Range {
    pub start: Position,
    pub end: Position,
}

impl Range {
    pub fn new(start: Position, end: Position) -> (r: Self)
        ensures
            r.start == start,
            r.end == end,
    {
        Range { start, end }
    }

    /// The empty range at `pos`.
    pub fn empty_at(pos: Position) -> (r: Self)
        ensures
            r.start == pos,
            r.end == pos,
    {
        Range { start: pos, end: pos }
    }

    pub fn is_empty(&self) -> (b: bool)
        ensures
            b == (self.start == self.end),
    {
        self.start == self.end
    }

    /// The text `[start → end]`.
    pub fn display_text(&self) -> (s: String)
        requires
            self.start.line < usize::MAX,
            self.start.col < usize::MAX,
            self.end.line < usize::MAX,
            self.end.col < usize::MAX,
        ensures
            s@ == "["@ + position_text(self.start) + " → "@ + position_text(self.end) + "]"@,
    {
        let mut s = "[".to_owned();
        let a = self.start.display_text();
        s.append(a.as_str());
        s.append(" → ");
        let b = self.end.display_text();
        s.append(b.as_str());
        s.append("]");
        s
    }

    pub fn is_single_line(&self) -> (b: bool)
        ensures
            b == (self.start.line == self.end.line),
    {
        self.start.line == self.end.line
    }
}

/// A summary of an open document.
#[derive(Debug, Clone)]
pub struct DocumentInfo {
    pub id: DocumentId,
    pub path: Option<String>,
    pub display_name: String,
    pub is_dirty: bool,
    pub line_count: usize,
}

/// A summary of a registered command.
#[derive(Debug, Clone)]
pub struct CommandInfo {
    pub id: CommandId,
    pub name: String,
    pub description: String,
}

} // verus!
