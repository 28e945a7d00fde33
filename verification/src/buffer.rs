//! The text of a document as a sequence of lines.
//!
//! A buffer is modelled by the UTF-8 bytes of its lines. Every column is a
//! byte offset, and a position is valid only where it falls on a character
//! boundary of its line.
use vstd::prelude::*;
use vstd::utf8::*;
use crate::error::LunaError;
use crate::text::{
    byte_len, decimal, join_lines, lemma_boundary_at, lemma_boundary_in_suffix,
    lemma_encode_concat, lemma_encode_newline, lemma_split_lines_concat, lemma_split_lines_shape,
    lemma_split_lines_single, no_newlines, push_decimal, split_lines, split_newlines,
    strings_bytes, strip_carriage_return, substring, text_lines, CARRIAGE_RETURN, NEWLINE,
};
use crate::types::{pos_le, position_le, DocumentId, Position, Range};

verus! {

broadcast use vstd::utf8::encode_utf8_valid_utf8;

/// The shape every buffer keeps: at least one line, no line holds a
/// newline, every line is valid UTF-8, and the number of lines and the
/// length of each line fit in a `usize`.
pub open spec fn lines_wf(ls: Seq<Seq<u8>>) -> bool {
    &&& 1 <= ls.len() <= usize::MAX
    &&& no_newlines(ls)
    &&& forall|i: int| 0 <= i < ls.len() ==> valid_utf8(#[trigger] ls[i])
    &&& forall|i: int| 0 <= i < ls.len() ==> (#[trigger] ls[i]).len() <= usize::MAX
}

/// `p` names an existing line and a character boundary inside it.
pub open spec fn valid_position(ls: Seq<Seq<u8>>, p: Position) -> bool {
    &&& p.line < ls.len()
    &&& p.col <= ls[p.line as int].len()
    &&& is_char_boundary(ls[p.line as int], p.col as int)
}

/// Both ends of `r` are valid and the start does not come after the end.
pub open spec fn valid_range(ls: Seq<Seq<u8>>, r: Range) -> bool {
    &&& valid_position(ls, r.start)
    &&& valid_position(ls, r.end)
    &&& pos_le(r.start, r.end)
}

/// The lines after `t` is inserted at `p`: the line of `p` is cut at the
/// column, the text goes in between, and the result is split into lines.
pub open spec fn insert_lines(ls: Seq<Seq<u8>>, p: Position, t: Seq<u8>) -> Seq<Seq<u8>> {
    let l = ls[p.line as int];
    ls.take(p.line as int) + split_lines(l.take(p.col as int) + t + l.skip(p.col as int)) + ls.skip(
        p.line + 1,
    )
}

/// The lines after the text of `r` is removed: what comes before the start
/// of the range is joined to what comes after its end.
pub open spec fn delete_lines(ls: Seq<Seq<u8>>, r: Range) -> Seq<Seq<u8>> {
    ls.take(r.start.line as int) + seq![
        ls[r.start.line as int].take(r.start.col as int) + ls[r.end.line as int].skip(
            r.end.col as int,
        ),
    ] + ls.skip(r.end.line + 1)
}

/// The byte length of line `i`, or 0 where there is no such line.
pub open spec fn line_len_or_zero(ls: Seq<Seq<u8>>, i: int) -> nat {
    if 0 <= i < ls.len() {
        ls[i].len()
    } else {
        0
    }
}

/// The explanation given when an insertion position is refused.
pub open spec fn insert_position_reason(ls: Seq<Seq<u8>>, p: Position) -> Seq<char> {
    "documento tem "@ + decimal(ls.len()) + " linhas; linha "@ + decimal(p.line as nat) + " tem "@
        + decimal(line_len_or_zero(ls, p.line as int)) + " bytes"@
}

/// The explanation given when a range is refused.
pub open spec fn invalid_range_reason() -> Seq<char> {
    "range fora dos limites do buffer ou em fronteira UTF-8 inválida"@
}

/// Where a cursor goes when text is inserted at `at`: a cursor before `at`
/// stays, a cursor at or after it moves along with the text behind it.
pub open spec fn cursor_after_insert(
    cursor: Position,
    at: Position,
    inserted_lines: int,
    last_col_delta: int,
) -> (int, int) {
    if cursor.line < at.line {
        (cursor.line as int, cursor.col as int)
    } else if cursor.line == at.line {
        if cursor.col < at.col {
            (cursor.line as int, cursor.col as int)
        } else if inserted_lines == 0 {
            (cursor.line as int, cursor.col + last_col_delta)
        } else {
            (cursor.line + inserted_lines, last_col_delta + (cursor.col - at.col))
        }
    } else {
        (cursor.line + inserted_lines, cursor.col as int)
    }
}

/// Where a cursor goes when the text of `r` is removed: a cursor before the
/// range stays, one inside it goes to its start, one after it moves back.
pub open spec fn cursor_after_delete(cursor: Position, r: Range) -> (int, int) {
    if r.start == r.end || pos_le(cursor, r.start) {
        (cursor.line as int, cursor.col as int)
    } else if pos_le(cursor, r.end) {
        (r.start.line as int, r.start.col as int)
    } else if cursor.line == r.end.line {
        (r.start.line as int, r.start.col + (cursor.col - r.end.col))
    } else {
        (cursor.line - (r.end.line - r.start.line), cursor.col as int)
    }
}

/// Splitting a line that is cut open and has `t` put in between.
pub proof fn lemma_split_spliced(p: Seq<u8>, t: Seq<u8>, s: Seq<u8>)
    requires
        !p.contains(NEWLINE),
        !s.contains(NEWLINE),
    ensures
        ({
            let parts = split_lines(t);
            split_lines(p + t + s) == if parts.len() == 1 {
                seq![p + parts[0] + s]
            } else {
                seq![p + parts[0]] + parts.subrange(1, parts.len() - 1) + seq![parts.last() + s]
            }
        }),
{
    let parts = split_lines(t);
    lemma_split_lines_single(p);
    lemma_split_lines_single(s);
    lemma_split_lines_shape(t);
    lemma_split_lines_concat(p, t);
    lemma_split_lines_concat(p + t, s);
    let pt = split_lines(p + t);
    assert(seq![p].drop_last() =~= Seq::<Seq<u8>>::empty());
    assert(pt =~= seq![p + parts[0]] + parts.drop_first());
    assert(seq![s].drop_first() =~= Seq::<Seq<u8>>::empty());
    if parts.len() == 1 {
        assert(pt.drop_last() =~= Seq::<Seq<u8>>::empty());
        assert(split_lines(p + t + s) =~= seq![p + parts[0] + s]);
    } else {
        assert(pt.drop_last() =~= seq![p + parts[0]] + parts.subrange(1, parts.len() - 1));
        assert(pt.last() == parts.last());
        assert(split_lines(p + t + s) =~= seq![p + parts[0]] + parts.subrange(1, parts.len() - 1)
            + seq![parts.last() + s]);
    }
}

/// The end of a valid UTF-8 sequence that is followed by another one is a
/// boundary of the concatenation.
pub proof fn lemma_boundary_at_join(a: Seq<u8>, b: Seq<u8>)
    requires
        valid_utf8(a),
        valid_utf8(b),
    ensures
        valid_utf8(a + b),
        is_char_boundary(a + b, a.len() as int),
{
    valid_utf8_concat(a, b);
    if b.len() == 0 {
        assert(a + b =~= a);
    } else {
        assert(valid_first_scalar(b));
        assert((a + b)[a.len() as int] == b[0]);
    }
    lemma_boundary_at(a + b, a.len() as int);
}

/// Whether `Buffer::adjust_cursor_after_delete` computes without overflow.
pub open spec fn cursor_after_delete_defined(cursor: Position, r: Range) -> bool {
    ||| r.start == r.end
    ||| pos_le(cursor, r.start)
    ||| pos_le(cursor, r.end)
    ||| (r.start.line <= r.end.line && (cursor.line == r.end.line ==> r.start.col + (cursor.col
        - r.end.col) <= usize::MAX))
}

/// Whether `Buffer::adjust_cursor_after_insert` computes without overflow.
pub open spec fn cursor_after_insert_defined(
    cursor: Position,
    at: Position,
    inserted_lines: int,
    last_col_delta: int,
) -> bool {
    let (l, c) = cursor_after_insert(cursor, at, inserted_lines, last_col_delta);
    l <= usize::MAX && c <= usize::MAX
}

/// After a valid range is deleted, its start is a valid position.
pub proof fn lemma_start_valid_after_delete(ls: Seq<Seq<u8>>, r: Range)
    requires
        lines_wf(ls),
        valid_range(ls, r),
    ensures
        valid_position(delete_lines(ls, r), r.start),
{
    let a = ls[r.start.line as int];
    let b = ls[r.end.line as int];
    let p = a.take(r.start.col as int);
    let s = b.skip(r.end.col as int);
    valid_utf8_split(a, r.start.col as int);
    valid_utf8_split(b, r.end.col as int);
    assert(p =~= a.subrange(0, r.start.col as int));
    assert(s =~= b.subrange(r.end.col as int, b.len() as int));
    lemma_boundary_at_join(p, s);
    assert(delete_lines(ls, r)[r.start.line as int] == p + s);
}

/// A boundary of a valid UTF-8 sequence stays one when more valid text follows.
pub proof fn lemma_boundary_left(a: Seq<u8>, x: Seq<u8>, k: int)
    requires
        valid_utf8(a),
        valid_utf8(x),
        0 <= k <= a.len(),
        is_char_boundary(a, k),
    ensures
        valid_utf8(a + x),
        is_char_boundary(a + x, k),
{
    valid_utf8_concat(a, x);
    if k == a.len() {
        lemma_boundary_at_join(a, x);
    } else {
        is_char_boundary_iff_not_is_continuation_byte(a, k);
        assert((a + x)[k] == a[k]);
        lemma_boundary_at(a + x, k);
    }
}

/// A boundary of a valid UTF-8 sequence stays one when valid text is put in front.
pub proof fn lemma_boundary_right(a: Seq<u8>, x: Seq<u8>, k: int)
    requires
        valid_utf8(a),
        valid_utf8(x),
        0 <= k <= x.len(),
        is_char_boundary(x, k),
    ensures
        valid_utf8(a + x),
        is_char_boundary(a + x, a.len() + k),
{
    valid_utf8_concat(a, x);
    if k == x.len() {
        lemma_boundary_at(a + x, a.len() + k);
    } else {
        is_char_boundary_iff_not_is_continuation_byte(x, k);
        assert((a + x)[a.len() + k] == x[k]);
        lemma_boundary_at(a + x, a.len() + k);
    }
}

/// Cutting a valid UTF-8 sequence at a boundary keeps the boundaries before the cut.
pub proof fn lemma_boundary_prefix(a: Seq<u8>, n: int, k: int)
    requires
        valid_utf8(a),
        0 <= k <= n <= a.len(),
        is_char_boundary(a, k),
        is_char_boundary(a, n),
    ensures
        valid_utf8(a.take(n)),
        is_char_boundary(a.take(n), k),
{
    valid_utf8_split(a, n);
    assert(a.take(n) =~= a.subrange(0, n));
    if k == n {
        lemma_boundary_at(a.take(n), k);
    } else {
        is_char_boundary_iff_not_is_continuation_byte(a, k);
        assert(a.take(n)[k] == a[k]);
        lemma_boundary_at(a.take(n), k);
    }
}

/// Cutting a valid UTF-8 sequence at a boundary keeps the boundaries after the cut.
pub proof fn lemma_boundary_suffix(a: Seq<u8>, n: int, k: int)
    requires
        valid_utf8(a),
        0 <= n <= k <= a.len(),
        is_char_boundary(a, k),
        is_char_boundary(a, n),
    ensures
        valid_utf8(a.skip(n)),
        is_char_boundary(a.skip(n), k - n),
{
    lemma_boundary_in_suffix(a, n, k);
    assert(a.skip(n) =~= a.subrange(n, a.len() as int));
}

/// A cursor that is valid before an insertion is valid, where
/// `cursor_after_insert` moves it, after the insertion.
pub proof fn lemma_cursor_after_insert_valid(ls: Seq<Seq<u8>>, c: Position, p: Position, t: Seq<u8>)
    requires
        lines_wf(ls),
        valid_position(ls, c),
        valid_position(ls, p),
        forall|i: int| 0 <= i < split_lines(t).len() ==> valid_utf8(#[trigger] split_lines(t)[i]),
    ensures
        ({
            let parts = split_lines(t);
            let moved = cursor_after_insert(c, p, parts.len() - 1, parts.last().len() as int);
            let nl = insert_lines(ls, p, t);
            &&& 0 <= moved.0 < nl.len()
            &&& 0 <= moved.1 <= nl[moved.0].len()
            &&& is_char_boundary(nl[moved.0], moved.1)
        }),
{
    let parts = split_lines(t);
    lemma_split_lines_shape(t);
    let n = parts.len();
    let l = ls[p.line as int];
    let pre = l.take(p.col as int);
    let suf = l.skip(p.col as int);
    assert(valid_utf8(l));
    assert(!l.contains(NEWLINE)) by {
        assert(ls[p.line as int] == l);
    }
    assert(!pre.contains(NEWLINE)) by {
        if pre.contains(NEWLINE) {
            let k = choose|k: int| 0 <= k < pre.len() && pre[k] == NEWLINE;
            assert(l[k] == NEWLINE);
        }
    }
    assert(!suf.contains(NEWLINE)) by {
        if suf.contains(NEWLINE) {
            let k = choose|k: int| 0 <= k < suf.len() && suf[k] == NEWLINE;
            assert(l[p.col + k] == NEWLINE);
        }
    }
    lemma_split_spliced(pre, t, suf);
    let mid = split_lines(pre + t + suf);
    let nl = insert_lines(ls, p, t);
    assert(nl == ls.take(p.line as int) + mid + ls.skip(p.line + 1));
    assert(mid.len() == n);
    let moved = cursor_after_insert(c, p, n - 1, parts.last().len() as int);
    lemma_boundary_at(l, 0);
    lemma_boundary_at(l, l.len() as int);
    assert(valid_utf8(parts[0]));
    assert(valid_utf8(parts[n - 1]));
    assert(parts.last() == parts[n - 1]);
    if c.line < p.line {
        assert(nl[c.line as int] == ls[c.line as int]);
    } else if c.line == p.line {
        if c.col < p.col {
            lemma_boundary_prefix(l, p.col as int, c.col as int);
            assert(nl[c.line as int] == mid[0]);
            if n == 1 {
                lemma_boundary_left(pre, parts[0], c.col as int);
                lemma_boundary_suffix(l, p.col as int, p.col as int);
                lemma_boundary_left(pre + parts[0], suf, c.col as int);
            } else {
                lemma_boundary_left(pre, parts[0], c.col as int);
            }
        } else {
            lemma_boundary_suffix(l, p.col as int, c.col as int);
            lemma_boundary_prefix(l, p.col as int, p.col as int);
            if n == 1 {
                assert(nl[c.line as int] == mid[0]);
                lemma_boundary_at_join(pre, parts[0]);
                lemma_boundary_right(pre + parts[0], suf, c.col - p.col);
                assert(moved.1 == (pre + parts[0]).len() + (c.col - p.col));
            } else {
                assert(nl[p.line + n - 1] == mid[n - 1]);
                assert(mid[n - 1] == parts.last() + suf);
                lemma_boundary_right(parts[n - 1], suf, c.col - p.col);
            }
        }
    } else {
        assert(nl[c.line + n - 1] == ls[c.line as int]);
    }
}

/// A cursor that is valid before a deletion is valid, where
/// `cursor_after_delete` moves it, after the deletion.
pub proof fn lemma_cursor_after_delete_valid(ls: Seq<Seq<u8>>, c: Position, r: Range)
    requires
        lines_wf(ls),
        valid_position(ls, c),
        valid_range(ls, r),
    ensures
        ({
            let moved = cursor_after_delete(c, r);
            let nl = delete_lines(ls, r);
            &&& 0 <= moved.0 < nl.len()
            &&& 0 <= moved.1 <= nl[moved.0].len()
            &&& is_char_boundary(nl[moved.0], moved.1)
        }),
{
    if r.start == r.end {
        let l = ls[r.start.line as int];
        assert(l.take(r.start.col as int) + l.skip(r.start.col as int) =~= l);
        assert(delete_lines(ls, r) =~= ls);
    } else {
        let nl = delete_lines(ls, r);
        let s = r.start;
        let e = r.end;
        let a = ls[s.line as int];
        let b = ls[e.line as int];
        let pre = a.take(s.col as int);
        let suf = b.skip(e.col as int);
        assert(valid_utf8(a));
        assert(valid_utf8(b));
        assert(nl[s.line as int] == pre + suf);
        lemma_boundary_at(b, b.len() as int);
        lemma_boundary_suffix(b, e.col as int, b.len() as int);
        if pos_le(c, s) {
            if c.line < s.line {
                assert(nl[c.line as int] == ls[c.line as int]);
            } else {
                lemma_boundary_prefix(a, s.col as int, c.col as int);
                lemma_boundary_left(pre, suf, c.col as int);
            }
        } else if pos_le(c, e) {
            lemma_start_valid_after_delete(ls, r);
        } else if c.line == e.line {
            lemma_boundary_suffix(b, e.col as int, c.col as int);
            lemma_boundary_prefix(a, s.col as int, s.col as int);
            lemma_boundary_right(pre, suf, c.col - e.col);
        } else {
            assert(nl[c.line - (e.line - s.line)] == ls[c.line as int]);
        }
    }
}

/// The text of a document, one `String` per line, without line separators.
#[derive(Debug, Clone)]
pub struct Buffer {
    lines: Vec<String>,
}

impl View for Buffer {
    type V = Seq<Seq<u8>>;

    /// The UTF-8 bytes of each line.
    closed spec fn view(&self) -> Seq<Seq<u8>> {
        strings_bytes(self.lines@)
    }
}

/// A copy of `s` without a final `'\r'`.
fn strip_trailing_carriage_return(s: &String) -> (r: String)
    ensures
        encode_utf8(r@) == strip_carriage_return(encode_utf8(s@)),
{
    let t = s.as_str();
    let bytes = t.as_bytes();
    let n = bytes.len();
    if n > 0 && bytes[n - 1] == CARRIAGE_RETURN {
        proof {
            let b = encode_utf8(t@);
            lemma_boundary_at(b, 0);
            lemma_boundary_at(b, n - 1);
            assert(b.drop_last() =~= b.subrange(0, n - 1));
        }
        substring(t, 0, n - 1)
    } else {
        s.clone()
    }
}

impl Buffer {
    /// The buffer is in the shape that its operations keep.
    pub open spec fn wf(&self) -> bool {
        lines_wf(self@)
    }

    proof fn lemma_view_valid(&self)
        ensures
            forall|i: int| 0 <= i < self@.len() ==> valid_utf8(#[trigger] self@[i]),
            self@.len() == self.lines@.len(),
            forall|i: int| 0 <= i < self@.len() ==> #[trigger] self@[i] == encode_utf8(
                self.lines@[i]@,
            ),
    {
    }

    /// An empty buffer: one empty line.
    pub fn new() -> (b: Self)
        ensures
            b.wf(),
            b@ == seq![Seq::<u8>::empty()],
    {
        let mut lines: Vec<String> = Vec::new();
        lines.push(String::new());
        let b = Buffer { lines };
        proof {
            assert(encode_utf8(Seq::<char>::empty()) =~= Seq::<u8>::empty());
            assert(b@ =~= seq![Seq::<u8>::empty()]);
        }
        b
    }

    /// The lines of `text`, read as `str::lines` reads them, with one more
    /// empty line where the text ends with `'\n'`.
    pub fn from_text(text: &str) -> (b: Self)
        ensures
            b.wf(),
            b@ == text_lines(encode_utf8(text@)),
    {
        if text.is_empty() {
            proof {
                assert(text@ =~= Seq::<char>::empty());
                assert(encode_utf8(text@) =~= Seq::<u8>::empty());
                assert(text_lines(Seq::<u8>::empty()) =~= seq![Seq::<u8>::empty()]);
            }
            return Buffer::new();
        }
        let ghost tb = encode_utf8(text@);
        let parts = split_newlines(text);
        proof {
            lemma_split_lines_shape(tb);
        }
        let count = parts.len();
        let mut lines: Vec<String> = Vec::new();
        let mut i: usize = 0;
        while i < count
            invariant
                count == parts@.len(),
                strings_bytes(parts@) == split_lines(tb),
                i <= count,
                strings_bytes(lines@) == text_lines(tb).take(i as int),
                forall|k: int| 0 <= k < lines@.len() ==> encode_utf8((#[trigger] lines@[k])@).len() <= usize::MAX,
            decreases count - i,
        {
            let ghost before = lines@;
            if i + 1 < count {
                let l = strip_trailing_carriage_return(&parts[i]);
                // observes that the new line's length fits in a usize
                byte_len(&l);
                lines.push(l);
            } else {
                let l = parts[i].clone();
                // observes that the new line's length fits in a usize
                byte_len(&l);
                lines.push(l);
            }
            proof {
                assert(strings_bytes(parts@)[i as int] == encode_utf8(parts@[i as int]@));
                assert(strings_bytes(lines@) =~= strings_bytes(before).push(
                    text_lines(tb)[i as int],
                ));
                assert(text_lines(tb).take(i + 1) =~= text_lines(tb).take(i as int).push(
                    text_lines(tb)[i as int],
                ));
            }
            i = i + 1;
        }
        let b = Buffer { lines };
        proof {
            let tl = text_lines(tb);
            assert(tl.take(count as int) =~= tl);
            assert(no_newlines(tl)) by {
                assert forall|k: int| 0 <= k < tl.len() implies !(#[trigger] tl[k]).contains(
                    NEWLINE,
                ) by {
                    let p = split_lines(tb)[k];
                    assert(!p.contains(NEWLINE));
                    if tl[k].contains(NEWLINE) {
                        let j = choose|j: int| 0 <= j < tl[k].len() && tl[k][j] == NEWLINE;
                        assert(p[j] == NEWLINE);
                    }
                }
            }
        }
        b
    }

    pub fn line_count(&self) -> (n: usize)
        ensures
            n == self@.len(),
    {
        self.lines.len()
    }

    /// The text of line `line`, if there is such a line.
    pub fn get_line(&self, line: usize) -> (r: Option<&str>)
        ensures
            match r {
                Some(s) => line < self@.len() && encode_utf8(s@) == self@[line as int],
                None => line >= self@.len(),
            },
    {
        if line < self.lines.len() {
            Some(self.lines[line].as_str())
        } else {
            None
        }
    }

    /// The whole text: the lines joined with `'\n'`.
    pub fn to_text(&self) -> (s: String)
        ensures
            encode_utf8(s@) == join_lines(self@),
    {
        let mut out = String::new();
        let n = self.lines.len();
        let mut i: usize = 0;
        proof {
            lemma_encode_newline();
            reveal_strlit("\n");
        }
        while i < n
            invariant
                n == self@.len(),
                n == self.lines@.len(),
                i <= n,
                encode_utf8(seq!['\n']) == seq![NEWLINE],
                encode_utf8(out@) == join_lines(self@.take(i as int)),
            decreases n - i,
        {
            let ghost before = out@;
            if i > 0 {
                out.append("\n");
                proof {
                    reveal_strlit("\n");
                    lemma_encode_concat(before, seq!['\n']);
                }
            }
            let ghost mid = out@;
            out.append(self.lines[i].as_str());
            proof {
                lemma_encode_concat(mid, self.lines@[i as int]@);
                let t = self@.take(i + 1);
                assert(self@[i as int] == encode_utf8(self.lines@[i as int]@));
                if i == 0 {
                    assert(before =~= Seq::<char>::empty()) by {
                        assert(encode_utf8(before).len() == 0);
                        if before.len() > 0 {
                            assert(encode_utf8(before).len() > 0);
                        }
                    }
                    assert(encode_utf8(Seq::<char>::empty()) =~= Seq::<u8>::empty());
                    assert(t.len() == 1);
                    assert(encode_utf8(out@) =~= join_lines(t));
                } else {
                    assert(t.drop_last() =~= self@.take(i as int));
                    assert(t.last() == self@[i as int]);
                    assert(mid =~= before + seq!['\n']);
                    assert(encode_utf8(mid) == encode_utf8(before) + seq![NEWLINE]);
                    assert(encode_utf8(out@) =~= join_lines(t));
                }
            }
            i = i + 1;
        }
        proof {
            assert(self@.take(n as int) =~= self@);
        }
        out
    }

    /// `pos` names an existing line and a character boundary inside it.
    pub fn is_valid_position(&self, pos: Position) -> (b: bool)
        ensures
            b == valid_position(self@, pos),
    {
        if pos.line >= self.lines.len() {
            return false;
        }
        let line = self.lines[pos.line].as_str();
        let n = line.as_bytes().len();
        pos.col <= n && line.is_char_boundary(pos.col)
    }

    /// Both ends of `range` are valid positions and the start does not come
    /// after the end.
    pub fn is_valid_range(&self, range: Range) -> (b: bool)
        ensures
            b == valid_range(self@, range),
    {
        if !self.is_valid_position(range.start) || !self.is_valid_position(range.end) {
            return false;
        }
        position_le(range.start, range.end)
    }

    /// The reason for refusing to insert at `pos`.
    fn insert_reason(&self, pos: Position) -> (r: String)
        ensures
            r@ == insert_position_reason(self@, pos),
    {
        let mut reason = "documento tem ".to_owned();
        push_decimal(&mut reason, self.lines.len() as u64);
        reason.append(" linhas; linha ");
        push_decimal(&mut reason, pos.line as u64);
        reason.append(" tem ");
        let len = if pos.line < self.lines.len() {
            self.lines[pos.line].as_str().as_bytes().len()
        } else {
            0
        };
        push_decimal(&mut reason, len as u64);
        reason.append(" bytes");
        proof {
            assert(len == line_len_or_zero(self@, pos.line as int));
            assert(reason@ =~= insert_position_reason(self@, pos));
        }
        reason
    }

    /// Inserts `text` at `pos`. Each `'\n'` of the text starts a new line.
    /// Fails, changing nothing, where `pos` is not a valid position.
    pub fn insert(&mut self, doc_id: DocumentId, pos: Position, text: &str) -> (r: Result<
        (),
        LunaError,
    >)
        requires
            old(self).wf(),
        ensures
            final(self).wf(),
            r is Ok <==> valid_position(old(self)@, pos),
            r is Ok ==> final(self)@ == insert_lines(old(self)@, pos, encode_utf8(text@)),
            r is Err ==> final(self)@ == old(self)@,
            r matches Err(e) ==> e matches LunaError::InvalidPosition { doc_id: d, position: p, reason }
                && d == doc_id && p == pos && reason@ == insert_position_reason(old(self)@, pos),
    {
        if !self.is_valid_position(pos) {
            let reason = self.insert_reason(pos);
            return Err(LunaError::InvalidPosition { doc_id, position: pos, reason });
        }
        let ghost ls = self@;
        let ghost l = ls[pos.line as int];
        let ghost tb = encode_utf8(text@);
        let nlines = self.lines.len();
        let line = self.lines[pos.line].as_str();
        let n = line.as_bytes().len();
        proof {
            assert(encode_utf8(line@) == l);
            lemma_boundary_at(l, 0);
            lemma_boundary_at(l, n as int);
        }
        let prefix = substring(line, 0, pos.col);
        let suffix = substring(line, pos.col, n);
        let parts = split_newlines(text);
        let ghost pb = encode_utf8(prefix@);
        let ghost sb = encode_utf8(suffix@);
        let ghost tparts = split_lines(tb);
        proof {
            assert(pb =~= l.take(pos.col as int));
            assert(sb =~= l.skip(pos.col as int));
            lemma_split_lines_shape(tb);
            assert(!l.contains(NEWLINE)) by {
                assert(ls[pos.line as int] == l);
            }
            assert(!pb.contains(NEWLINE)) by {
                if pb.contains(NEWLINE) {
                    let k = choose|k: int| 0 <= k < pb.len() && pb[k] == NEWLINE;
                    assert(l[k] == NEWLINE);
                }
            }
            assert(!sb.contains(NEWLINE)) by {
                if sb.contains(NEWLINE) {
                    let k = choose|k: int| 0 <= k < sb.len() && sb[k] == NEWLINE;
                    assert(l[pos.col + k] == NEWLINE);
                }
            }
            lemma_split_spliced(pb, tb, sb);
            assert(pb + tb + sb == l.take(pos.col as int) + tb + l.skip(pos.col as int));
            assert(strings_bytes(parts@)[0] == encode_utf8(parts@[0]@));
        }
        let count = parts.len();
        if count == 1 {
            let mut merged = prefix;
            merged.append(parts[0].as_str());
            merged.append(suffix.as_str());
            // observes that the new line's length fits in a usize
            byte_len(&merged);
            proof {
                lemma_encode_concat(prefix@, parts@[0]@);
                lemma_encode_concat(prefix@ + parts@[0]@, suffix@);
                assert(encode_utf8(merged@) == pb + tparts[0] + sb);
            }
            self.lines.set(pos.line, merged);
            proof {
                assert(self@ =~= ls.take(pos.line as int) + seq![pb + tparts[0] + sb] + ls.skip(
                    pos.line + 1,
                ));
            }
        } else {
            let mut first = prefix;
            first.append(parts[0].as_str());
            proof {
                lemma_encode_concat(prefix@, parts@[0]@);
            }
            // observes that the new line's length fits in a usize
            byte_len(&first);
            let mut replacement: Vec<String> = Vec::new();
            replacement.push(first);
            let mut k: usize = 1;
            while k < count - 1
                invariant
                    count == parts@.len(),
                    count >= 2,
                    1 <= k <= count - 1,
                    tparts == strings_bytes(parts@),
                    strings_bytes(replacement@) == seq![pb + tparts[0]] + tparts.subrange(
                        1,
                        k as int,
                    ),
                    forall|j: int| 0 <= j < replacement@.len() ==> encode_utf8((#[trigger] replacement@[j])@).len() <= usize::MAX,
                decreases count - k,
            {
                let ghost before = replacement@;
                let piece = parts[k].clone();
                // observes that the new line's length fits in a usize
                byte_len(&piece);
                replacement.push(piece);
                proof {
                    assert(tparts[k as int] == encode_utf8(parts@[k as int]@));
                    assert(replacement@ == before.push(parts@[k as int]));
                    assert(strings_bytes(replacement@) =~= strings_bytes(before).push(
                        tparts[k as int],
                    ));
                    assert(tparts.subrange(1, k + 1) =~= tparts.subrange(1, k as int).push(
                        tparts[k as int],
                    ));
                    assert(strings_bytes(replacement@) =~= seq![pb + tparts[0]] + tparts.subrange(
                        1,
                        k + 1,
                    ));
                }
                k = k + 1;
            }
            let mut last = parts[count - 1].clone();
            last.append(suffix.as_str());
            // observes that the new line's length fits in a usize
            byte_len(&last);
            proof {
                lemma_encode_concat(parts@[count - 1]@, suffix@);
                assert(tparts[count - 1] == encode_utf8(parts@[count - 1]@));
            }
            let ghost mid = replacement@;
            replacement.push(last);
            proof {
                assert(strings_bytes(replacement@) =~= seq![pb + tparts[0]] + tparts.subrange(
                    1,
                    count - 1,
                ) + seq![tparts.last() + sb]);
            }
            let mut tail = self.lines.split_off(pos.line + 1);
            self.lines.pop();
            let ghost kept = self.lines@;
            let ghost tail_v = tail@;
            let ghost rep = replacement@;
            self.lines.append(&mut replacement);
            self.lines.append(&mut tail);
            proof {
                assert(self.lines@ == kept + rep + tail_v);
                assert(strings_bytes(kept) =~= ls.take(pos.line as int));
                assert(strings_bytes(tail_v) =~= ls.skip(pos.line + 1));
                assert(strings_bytes(kept + rep + tail_v) =~= strings_bytes(kept) + strings_bytes(
                    rep,
                ) + strings_bytes(tail_v));
            }
        }
        proof {
            let nl = self@;
            assert(nl == insert_lines(ls, pos, tb));
            let piece = split_lines(pb + tb + sb);
            lemma_split_lines_shape(pb + tb + sb);
            assert(nl =~= ls.take(pos.line as int) + piece + ls.skip(pos.line + 1));
            assert forall|i: int| 0 <= i < nl.len() implies !(#[trigger] nl[i]).contains(
                NEWLINE,
            ) by {
                if i < pos.line {
                    assert(nl[i] == ls[i]);
                } else if i < pos.line + piece.len() {
                    assert(nl[i] == piece[i - pos.line]);
                } else {
                    assert(nl[i] == ls[i - piece.len() + 1]);
                }
            }
            self.lemma_view_valid();
        }
        self.lines.len();
        Ok(())
    }

    /// Removes the text of `range`. Fails, changing nothing, where the range
    /// is not valid.
    pub fn delete(&mut self, doc_id: DocumentId, range: Range) -> (r: Result<(), LunaError>)
        requires
            old(self).wf(),
        ensures
            final(self).wf(),
            r is Ok <==> valid_range(old(self)@, range),
            r is Ok ==> final(self)@ == delete_lines(old(self)@, range),
            r is Err ==> final(self)@ == old(self)@,
            r matches Err(e) ==> e matches LunaError::InvalidRange { doc_id: d, range: g, reason }
                && d == doc_id && g == range && reason@ == invalid_range_reason(),
    {
        if !self.is_valid_range(range) {
            let reason = "range fora dos limites do buffer ou em fronteira UTF-8 inválida".to_owned();
            return Err(LunaError::InvalidRange { doc_id, range, reason });
        }
        let ghost ls = self@;
        let nlines = self.lines.len();
        if range.is_empty() {
            proof {
                let l = ls[range.start.line as int];
                assert(l.take(range.start.col as int) + l.skip(range.start.col as int) =~= l);
                assert(delete_lines(ls, range) =~= ls);
            }
            return Ok(());
        }
        let start = range.start;
        let end = range.end;
        let ghost ls_ = ls[start.line as int];
        let ghost le = ls[end.line as int];
        let sline = self.lines[start.line].as_str();
        proof {
            assert(encode_utf8(sline@) == ls_);
            lemma_boundary_at(ls_, 0);
        }
        let prefix = substring(sline, 0, start.col);
        let eline = self.lines[end.line].as_str();
        let n = eline.as_bytes().len();
        proof {
            assert(encode_utf8(eline@) == le);
            lemma_boundary_at(le, n as int);
        }
        let suffix = substring(eline, end.col, n);
        let mut merged = prefix;
        merged.append(suffix.as_str());
        // observes that the new line's length fits in a usize
        byte_len(&merged);
        let ghost mb = ls_.take(start.col as int) + le.skip(end.col as int);
        proof {
            lemma_encode_concat(prefix@, suffix@);
            assert(encode_utf8(merged@) =~= mb);
        }
        if start.line == end.line {
            self.lines.set(start.line, merged);
            proof {
                assert(self@ =~= delete_lines(ls, range));
            }
        } else {
            let mut tail = self.lines.split_off(end.line + 1);
            let ghost tail_v = tail@;
            self.lines.truncate(start.line);
            let ghost kept = self.lines@;
            self.lines.push(merged);
            self.lines.append(&mut tail);
            proof {
                assert(self.lines@ == kept.push(merged) + tail_v);
                assert(strings_bytes(kept) =~= ls.take(start.line as int));
                assert(strings_bytes(tail_v) =~= ls.skip(end.line + 1));
                assert(self@ =~= delete_lines(ls, range));
            }
        }
        proof {
            let nl = self@;
            assert(!ls_.contains(NEWLINE)) by {
                assert(ls[start.line as int] == ls_);
            }
            assert(!le.contains(NEWLINE)) by {
                assert(ls[end.line as int] == le);
            }
            assert(!mb.contains(NEWLINE)) by {
                if mb.contains(NEWLINE) {
                    let k = choose|k: int| 0 <= k < mb.len() && mb[k] == NEWLINE;
                    if k < start.col {
                        assert(ls_[k] == NEWLINE);
                    } else {
                        assert(le[end.col + k - start.col] == NEWLINE);
                    }
                }
            }
            assert forall|i: int| 0 <= i < nl.len() implies !(#[trigger] nl[i]).contains(
                NEWLINE,
            ) by {
                if i < start.line {
                    assert(nl[i] == ls[i]);
                } else if i == start.line {
                    assert(nl[i] == mb);
                } else {
                    assert(nl[i] == ls[i + end.line - start.line]);
                }
            }
            self.lemma_view_valid();
        }
        Ok(())
    }

    /// Removes the text of `range` and inserts `new_text` at its start.
    /// Fails, changing nothing, where the range is not valid.
    pub fn replace(&mut self, doc_id: DocumentId, range: Range, new_text: &str) -> (r: Result<
        (),
        LunaError,
    >)
        requires
            old(self).wf(),
        ensures
            final(self).wf(),
            r is Ok <==> valid_range(old(self)@, range),
            r is Ok ==> lines_wf(delete_lines(old(self)@, range)),
            r is Ok ==> final(self)@ == insert_lines(
                delete_lines(old(self)@, range),
                range.start,
                encode_utf8(new_text@),
            ),
            r is Err ==> final(self)@ == old(self)@,
            r matches Err(e) ==> e matches LunaError::InvalidRange { doc_id: d, range: g, reason }
                && d == doc_id && g == range && reason@ == invalid_range_reason(),
    {
        let ghost ls = self@;
        match self.delete(doc_id, range) {
            Err(e) => {
                return Err(e);
            },
            Ok(()) => {},
        }
        proof {
            lemma_start_valid_after_delete(ls, range);
        }
        self.insert(doc_id, range.start, new_text)
    }

    /// The cursor position after `inserted_lines` line breaks were inserted
    /// at `insert_pos`, the last inserted line being `last_col_delta` bytes long.
    pub fn adjust_cursor_after_insert(
        cursor: Position,
        insert_pos: Position,
        inserted_lines: usize,
        last_col_delta: usize,
    ) -> (p: Position)
        requires
            cursor_after_insert_defined(
                cursor,
                insert_pos,
                inserted_lines as int,
                last_col_delta as int,
            ),
        ensures
            (p.line as int, p.col as int) == cursor_after_insert(
                cursor,
                insert_pos,
                inserted_lines as int,
                last_col_delta as int,
            ),
    {
        if cursor.line < insert_pos.line {
            return cursor;
        }
        if cursor.line == insert_pos.line {
            if cursor.col < insert_pos.col {
                return cursor;
            }
            if inserted_lines == 0 {
                return Position::new(cursor.line, cursor.col + last_col_delta);
            } else {
                let new_line = cursor.line + inserted_lines;
                let new_col = last_col_delta + (cursor.col - insert_pos.col);
                return Position::new(new_line, new_col);
            }
        }
        Position::new(cursor.line + inserted_lines, cursor.col)
    }

    /// The cursor position after the text of `range` was removed.
    pub fn adjust_cursor_after_delete(cursor: Position, range: Range) -> (p: Position)
        requires
            cursor_after_delete_defined(cursor, range),
        ensures
            (p.line as int, p.col as int) == cursor_after_delete(cursor, range),
    {
        if range.is_empty() {
            return cursor;
        }
        let start = range.start;
        let end = range.end;
        if position_le(cursor, start) {
            return cursor;
        }
        if position_le(cursor, end) {
            return start;
        }
        let deleted_lines = end.line - start.line;
        if cursor.line == end.line {
            Position::new(start.line, start.col + (cursor.col - end.col))
        } else {
            Position::new(cursor.line - deleted_lines, cursor.col)
        }
    }

}

impl Default for Buffer {
    fn default() -> (b: Self)
        ensures
            b.wf(),
            b@ == seq![Seq::<u8>::empty()],
    {
        Self::new()
    }
}

} // verus!
