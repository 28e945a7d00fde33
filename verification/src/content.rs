//! The text of a buffer as a single byte sequence, the offsets of positions
//! in it, and what insertions and deletions do to both.
use vstd::prelude::*;
use vstd::utf8::*;
use crate::buffer::{
    cursor_after_delete, cursor_after_insert, delete_lines, insert_lines, lemma_boundary_at_join,
    lemma_boundary_left, lemma_boundary_prefix, lemma_cursor_after_insert_valid,
    lemma_split_spliced, lines_wf, valid_position, valid_range,
};
use crate::document::moved_by_insert;
use crate::text::{
    join_lines, lemma_boundary_at, lemma_join_concat, lemma_join_split, lemma_split_join,
    lemma_split_lines_shape, lemma_split_lines_valid, split_lines,
    strip_carriage_return, text_lines, CARRIAGE_RETURN, NEWLINE,
};
use crate::types::{pos_le, Position, Range};

verus! {

/// The offset, in the joined text, of the first byte of line `l`.
pub open spec fn line_start(ls: Seq<Seq<u8>>, l: int) -> int
    decreases l,
{
    if l <= 0 {
        0
    } else {
        line_start(ls, l - 1) + ls[l - 1].len() + 1
    }
}

/// The offset of a position in the joined text.
pub open spec fn offset(ls: Seq<Seq<u8>>, p: Position) -> int {
    line_start(ls, p.line as int) + p.col
}

/// The joined text of some lines, followed by a newline if there are any.
pub open spec fn lead(ls: Seq<Seq<u8>>) -> Seq<u8> {
    if ls.len() == 0 {
        Seq::<u8>::empty()
    } else {
        join_lines(ls) + seq![NEWLINE]
    }
}

/// A newline followed by the joined text of some lines, if there are any.
pub open spec fn trail(ls: Seq<Seq<u8>>) -> Seq<u8> {
    if ls.len() == 0 {
        Seq::<u8>::empty()
    } else {
        seq![NEWLINE] + join_lines(ls)
    }
}

pub proof fn lemma_line_start_prefix(x: Seq<Seq<u8>>, y: Seq<Seq<u8>>, j: int)
    requires
        0 <= j <= x.len(),
    ensures
        line_start(x + y, j) == line_start(x, j),
    decreases j,
{
    if j > 0 {
        lemma_line_start_prefix(x, y, j - 1);
        assert((x + y)[j - 1] == x[j - 1]);
    }
}

pub proof fn lemma_line_start_concat(x: Seq<Seq<u8>>, y: Seq<Seq<u8>>, j: int)
    requires
        0 <= j <= y.len(),
    ensures
        line_start(x + y, x.len() + j) == line_start(x, x.len() as int) + line_start(y, j),
    decreases j,
{
    if j == 0 {
        lemma_line_start_prefix(x, y, x.len() as int);
    } else {
        lemma_line_start_concat(x, y, j - 1);
        assert((x + y)[x.len() + j - 1] == y[j - 1]);
    }
}

/// The length of the lead of some lines is where the next line would start.
pub proof fn lemma_lead_len(ls: Seq<Seq<u8>>)
    ensures
        lead(ls).len() == line_start(ls, ls.len() as int),
    decreases ls.len(),
{
    if ls.len() > 1 {
        let init = ls.drop_last();
        lemma_lead_len(init);
        lemma_line_start_prefix(init, seq![ls.last()], init.len() as int);
        assert(init + seq![ls.last()] =~= ls);
    } else if ls.len() == 1 {
        assert(line_start(ls, 0) == 0);
    }
}

/// Joining lines around a non-empty run of lines.
pub proof fn lemma_join3(a: Seq<Seq<u8>>, m: Seq<Seq<u8>>, b: Seq<Seq<u8>>)
    requires
        m.len() >= 1,
    ensures
        join_lines(a + m + b) == lead(a) + join_lines(m) + trail(b),
{
    if a.len() == 0 {
        assert(a + m =~= m);
        if b.len() == 0 {
            assert(m + b =~= m);
            assert(lead(a) + join_lines(m) + trail(b) =~= join_lines(m));
        } else {
            lemma_join_concat(m, b);
            assert(lead(a) + join_lines(m) + trail(b) =~= join_lines(m) + seq![NEWLINE]
                + join_lines(b));
        }
    } else {
        lemma_join_concat(a, m);
        if b.len() == 0 {
            assert(a + m + b =~= a + m);
            assert(lead(a) + join_lines(m) + trail(b) =~= join_lines(a) + seq![NEWLINE]
                + join_lines(m));
        } else {
            lemma_join_concat(a + m, b);
            assert(lead(a) + join_lines(m) + trail(b) =~= join_lines(a) + seq![NEWLINE]
                + join_lines(m) + seq![NEWLINE] + join_lines(b));
        }
    }
}

/// A line within its lines: the joined text is the lead of the lines
/// before it, the line, and the trail of the lines after it.
pub proof fn lemma_join_around(ls: Seq<Seq<u8>>, l: int)
    requires
        0 <= l < ls.len(),
    ensures
        join_lines(ls) == lead(ls.take(l)) + ls[l] + trail(ls.skip(l + 1)),
        lead(ls.take(l)).len() == line_start(ls, l),
{
    assert(ls =~= ls.take(l) + seq![ls[l]] + ls.skip(l + 1));
    lemma_join3(ls.take(l), seq![ls[l]], ls.skip(l + 1));
    lemma_lead_len(ls.take(l));
    lemma_line_start_prefix(ls.take(l), seq![ls[l]] + ls.skip(l + 1), l);
    assert(ls.take(l) + (seq![ls[l]] + ls.skip(l + 1)) =~= ls);
}

/// Inserting `t` at `p` puts `t` into the joined text at the offset of `p`.
pub proof fn law_insert_content(ls: Seq<Seq<u8>>, p: Position, t: Seq<u8>)
    requires
        lines_wf(ls),
        valid_position(ls, p),
    ensures
        ({
            let text = join_lines(ls);
            let o = offset(ls, p);
            join_lines(insert_lines(ls, p, t)) == text.take(o) + t + text.skip(o)
        }),
{
    let l = p.line as int;
    let c = p.col as int;
    let line = ls[l];
    let a = ls.take(l);
    let b = ls.skip(l + 1);
    let x = line.take(c) + t + line.skip(c);
    lemma_split_lines_shape(x);
    lemma_join_split(x);
    lemma_join3(a, split_lines(x), b);
    lemma_join_around(ls, l);
    let text = join_lines(ls);
    let o = offset(ls, p);
    assert(text.take(o) =~= lead(a) + line.take(c));
    assert(text.skip(o) =~= line.skip(c) + trail(b));
    assert(join_lines(insert_lines(ls, p, t)) =~= text.take(o) + t + text.skip(o));
}

/// Deleting the text of `r` removes the bytes between the offsets of its
/// ends from the joined text.
#[verifier::rlimit(40)]
pub proof fn law_delete_content(ls: Seq<Seq<u8>>, r: Range)
    requires
        lines_wf(ls),
        valid_range(ls, r),
    ensures
        ({
            let text = join_lines(ls);
            join_lines(delete_lines(ls, r)) == text.take(offset(ls, r.start)) + text.skip(
                offset(ls, r.end),
            )
        }),
{
    let sl = r.start.line as int;
    let el = r.end.line as int;
    let sc = r.start.col as int;
    let ec = r.end.col as int;
    let a = ls.take(sl);
    let mid = ls.subrange(sl, el + 1);
    let b = ls.skip(el + 1);
    let k = el - sl;
    assert(ls =~= a + mid + b);
    lemma_join3(a, mid, b);
    lemma_lead_len(a);
    lemma_line_start_prefix(a, mid + b, sl);
    assert(a + (mid + b) =~= ls);
    lemma_line_start_concat(a, mid + b, k);
    lemma_line_start_prefix(mid, b, k);
    let first = mid[0];
    let last = mid[k];
    assert(first == ls[sl]);
    assert(last == ls[el]);
    // the joined middle starts with the first line and ends with the last one
    assert(mid =~= seq![first] + mid.drop_first());
    lemma_join3(Seq::<Seq<u8>>::empty(), seq![first], mid.drop_first());
    assert(Seq::<Seq<u8>>::empty() + seq![first] + mid.drop_first() =~= mid);
    let init = mid.take(k);
    assert(mid =~= init + seq![last] + Seq::<Seq<u8>>::empty());
    lemma_join3(init, seq![last], Seq::<Seq<u8>>::empty());
    lemma_lead_len(init);
    lemma_line_start_prefix(init, seq![last], k);
    assert(init + seq![last] =~= mid);
    let jm = join_lines(mid);
    assert(jm == first + trail(mid.drop_first()));
    assert(jm == lead(init) + last);
    let text = join_lines(ls);
    let os = offset(ls, r.start);
    let oe = offset(ls, r.end);
    assert(os == lead(a).len() + sc);
    assert(oe == lead(a).len() + lead(init).len() + ec);
    assert(text.take(os) =~= lead(a) + first.take(sc));
    assert(text.skip(oe) =~= last.skip(ec) + trail(b));
    let merged = first.take(sc) + last.skip(ec);
    lemma_join3(a, seq![merged], b);
    assert(delete_lines(ls, r) =~= a + seq![merged] + b);
    assert(join_lines(delete_lines(ls, r)) =~= text.take(os) + text.skip(oe));
}

/// Deleting what an insertion put in, from where it was inserted to where
/// the insertion moves a cursor that stood there, gives back the lines.
pub proof fn law_delete_undoes_insert(ls: Seq<Seq<u8>>, p: Position, t: Seq<u8>)
    requires
        lines_wf(ls),
        valid_position(ls, p),
        valid_utf8(t),
        lines_wf(insert_lines(ls, p, t)),
    ensures
        ({
            let nl = insert_lines(ls, p, t);
            let r = Range { start: p, end: moved_by_insert(p, p, t) };
            valid_range(nl, r) && delete_lines(nl, r) == ls
        }),
{
    let parts = split_lines(t);
    lemma_split_lines_shape(t);
    lemma_split_lines_valid(t);
    let n = parts.len();
    let l = p.line as int;
    let c = p.col as int;
    let line = ls[l];
    let pre = line.take(c);
    let suf = line.skip(c);
    let nl = insert_lines(ls, p, t);
    let e = cursor_after_insert(p, p, n - 1, parts.last().len() as int);
    let end = moved_by_insert(p, p, t);
    lemma_cursor_after_insert_valid(ls, p, p, t);
    assert(end.line == e.0 && end.col == e.1);
    assert(!line.contains(NEWLINE)) by {
        assert(ls[l] == line);
    }
    assert(!pre.contains(NEWLINE)) by {
        if pre.contains(NEWLINE) {
            let k = choose|k: int| 0 <= k < pre.len() && pre[k] == NEWLINE;
            assert(line[k] == NEWLINE);
        }
    }
    assert(!suf.contains(NEWLINE)) by {
        if suf.contains(NEWLINE) {
            let k = choose|k: int| 0 <= k < suf.len() && suf[k] == NEWLINE;
            assert(line[c + k] == NEWLINE);
        }
    }
    lemma_split_spliced(pre, t, suf);
    let mid = split_lines(pre + t + suf);
    assert(nl == ls.take(l) + mid + ls.skip(l + 1));
    assert(valid_utf8(line));
    lemma_boundary_at(line, line.len() as int);
    lemma_boundary_prefix(line, c, c);
    lemma_boundary_at_join(pre, parts[0]);
    assert(nl[l] == mid[0]);
    if n == 1 {
        crate::buffer::lemma_boundary_suffix(line, c, line.len() as int);
        lemma_boundary_left(pre + parts[0], suf, c);
        assert(mid[0] == pre + parts[0] + suf);
        assert(mid[0].take(c) =~= pre);
        assert(mid[0].skip(c + parts[0].len()) =~= suf);
    } else {
        assert(mid[0] == pre + parts[0]);
        assert(mid[0].take(c) =~= pre);
        assert(nl[l + n - 1] == mid[n - 1]);
        assert(mid[n - 1] == parts.last() + suf);
        assert(mid[n - 1].skip(parts.last().len() as int) =~= suf);
    }
    let r = Range { start: p, end };
    assert(pre + suf =~= line);
    assert(delete_lines(nl, r) =~= ls);
}

/// Line starts grow by at least the length of the lines in between, plus one.
pub proof fn lemma_line_start_mono(ls: Seq<Seq<u8>>, i: int, j: int)
    requires
        0 <= i < j <= ls.len(),
    ensures
        line_start(ls, i) + ls[i].len() < line_start(ls, j),
    decreases j - i,
{
    if j > i + 1 {
        lemma_line_start_mono(ls, i, j - 1);
    }
}

/// For valid positions, the order of positions is the order of their offsets.
pub proof fn lemma_offset_order(ls: Seq<Seq<u8>>, a: Position, b: Position)
    requires
        valid_position(ls, a),
        valid_position(ls, b),
    ensures
        pos_le(a, b) <==> offset(ls, a) <= offset(ls, b),
        a == b <==> offset(ls, a) == offset(ls, b),
{
    if a.line < b.line {
        lemma_line_start_mono(ls, a.line as int, b.line as int);
    } else if a.line > b.line {
        lemma_line_start_mono(ls, b.line as int, a.line as int);
    }
}

/// Where lines start after some lines are replaced by others: before the
/// replaced part nothing changes; inside and after it the starts shift.
proof fn lemma_line_starts_spliced(
    a: Seq<Seq<u8>>,
    m: Seq<Seq<u8>>,
    b: Seq<Seq<u8>>,
    j: int,
    k: int,
)
    requires
        0 <= j <= m.len(),
        0 <= k <= b.len(),
    ensures
        line_start(a + m + b, a.len() + j) == line_start(a, a.len() as int) + line_start(m, j),
        line_start(a + m + b, a.len() + m.len() + k) == line_start(a, a.len() as int) + line_start(
            m,
            m.len() as int,
        ) + line_start(b, k),
        forall|i: int| 0 <= i <= a.len() ==> line_start(a + m + b, i) == #[trigger] line_start(a, i),
{
    assert(a + m + b =~= a + (m + b));
    lemma_line_start_concat(a, m + b, j);
    lemma_line_start_prefix(m, b, j);
    lemma_line_start_concat(a + m, b, k);
    lemma_line_start_concat(a, m, m.len() as int);
    lemma_line_start_prefix(a, m, a.len() as int);
    assert forall|i: int| 0 <= i <= a.len() implies line_start(a + m + b, i) == #[trigger] line_start(
        a,
        i,
    ) by {
        lemma_line_start_prefix(a, m + b, i);
    }
}

/// Inserting `t` at `p` moves a valid cursor along with the byte it stands
/// before: its offset grows by the length of `t` where it stood at or after
/// `p`, and stays where it stood before.
#[verifier::rlimit(40)]
pub proof fn law_insert_moves_cursor(ls: Seq<Seq<u8>>, c: Position, p: Position, t: Seq<u8>)
    requires
        lines_wf(ls),
        valid_position(ls, c),
        valid_position(ls, p),
    ensures
        ({
            let parts = split_lines(t);
            let m = cursor_after_insert(c, p, parts.len() - 1, parts.last().len() as int);
            let nl = insert_lines(ls, p, t);
            line_start(nl, m.0) + m.1 == offset(ls, c) + if offset(ls, c) >= offset(ls, p) {
                t.len() as int
            } else {
                0
            }
        }),
{
    let parts = split_lines(t);
    lemma_split_lines_shape(t);
    lemma_join_split(t);
    let n = parts.len() as int;
    let l = p.line as int;
    let line = ls[l];
    let pre = line.take(p.col as int);
    let suf = line.skip(p.col as int);
    assert(!line.contains(NEWLINE)) by {
        assert(ls[l] == line);
    }
    assert(!pre.contains(NEWLINE)) by {
        if pre.contains(NEWLINE) {
            let k = choose|k: int| 0 <= k < pre.len() && pre[k] == NEWLINE;
            assert(line[k] == NEWLINE);
        }
    }
    assert(!suf.contains(NEWLINE)) by {
        if suf.contains(NEWLINE) {
            let k = choose|k: int| 0 <= k < suf.len() && suf[k] == NEWLINE;
            assert(line[p.col + k] == NEWLINE);
        }
    }
    lemma_split_spliced(pre, t, suf);
    let x = pre + t + suf;
    let mid = split_lines(x);
    lemma_split_lines_shape(x);
    lemma_join_split(x);
    let a = ls.take(l);
    let b = ls.skip(l + 1);
    let nl = insert_lines(ls, p, t);
    assert(nl == a + mid + b);
    assert(ls =~= a + seq![line] + b);
    let base = line_start(a, l);
    let kc = c.line - l - 1;
    if c.line > l {
        lemma_line_starts_spliced(a, mid, b, 0, kc);
        lemma_line_starts_spliced(a, seq![line], b, 0, kc);
        assert(line_start(seq![line], 1) == line.len() + 1);
    } else {
        lemma_line_starts_spliced(a, mid, b, 0, 0);
        lemma_line_starts_spliced(a, seq![line], b, 0, 0);
    }
    lemma_lead_len(mid);
    assert(line_start(mid, n) == x.len() + 1);
    let o = offset(ls, p);
    let m = cursor_after_insert(c, p, n - 1, parts.last().len() as int);
    assert(line_start(ls, l) == line_start(a, l));
    assert(line_start(nl, l) == line_start(a, l));
    assert(line_start(ls, l) == base);
    assert(line_start(nl, l) == base);
    if c.line < l {
        lemma_line_start_mono(ls, c.line as int, l);
        assert(line_start(ls, c.line as int) == line_start(a, c.line as int));
        assert(line_start(nl, c.line as int) == line_start(a, c.line as int));
        assert(m == (c.line as int, c.col as int));
        assert(offset(ls, c) < o);
    } else if c.line == l {
        if c.col >= p.col {
            if n == 1 {
                assert(t == parts[0]);
                assert(m == (c.line as int, c.col + t.len()));
            } else {
                lemma_line_starts_spliced(a, mid, b, n - 1, 0);
                lemma_join_around(mid, n - 1);
                assert(mid.take(n - 1).len() == n - 1);
                assert(mid[n - 1] == parts.last() + suf);
                assert(line_start(mid, n - 1) == x.len() - mid[n - 1].len());
                assert(line_start(nl, l + n - 1) == base + x.len() - mid[n - 1].len());
                assert(m == (l + n - 1, parts.last().len() + (c.col - p.col)));
            }
        } else {
            assert(m == (c.line as int, c.col as int));
        }
    } else {
        lemma_line_start_mono(ls, l, l + 1);
        assert(line_start(ls, c.line as int) >= line_start(ls, l + 1)) by {
            if c.line > l + 1 {
                lemma_line_start_mono(ls, l + 1, c.line as int);
            }
        }
        assert(m == (c.line + n - 1, c.col as int));
        assert(line_start(nl, c.line + n - 1) == base + x.len() + 1 + line_start(b, kc));
        assert(line_start(ls, c.line as int) == base + line.len() + 1 + line_start(b, kc));
    }
}

/// Deleting the text of `r` moves a valid cursor along with the byte it
/// stands before: a cursor before the range keeps its offset, one inside it
/// goes to the start of the range, one after it moves back by the length
/// of the range.
#[verifier::rlimit(40)]
pub proof fn law_delete_moves_cursor(ls: Seq<Seq<u8>>, c: Position, r: Range)
    requires
        lines_wf(ls),
        valid_position(ls, c),
        valid_range(ls, r),
    ensures
        ({
            let m = cursor_after_delete(c, r);
            let nl = delete_lines(ls, r);
            let oc = offset(ls, c);
            let os = offset(ls, r.start);
            let oe = offset(ls, r.end);
            line_start(nl, m.0) + m.1 == if oc <= os {
                oc
            } else if oc <= oe {
                os
            } else {
                oc - (oe - os)
            }
        }),
{
    let s = r.start;
    let e = r.end;
    lemma_offset_order(ls, c, s);
    lemma_offset_order(ls, c, e);
    lemma_offset_order(ls, s, e);
    if s == e {
        let l = ls[s.line as int];
        assert(l.take(s.col as int) + l.skip(s.col as int) =~= l);
        assert(delete_lines(ls, r) =~= ls);
    } else {
        let sl = s.line as int;
        let el = e.line as int;
        let a = ls.take(sl);
        let b = ls.skip(el + 1);
        let first = ls[sl];
        let last = ls[el];
        let merged = first.take(s.col as int) + last.skip(e.col as int);
        let nl = delete_lines(ls, r);
        assert(nl =~= a + seq![merged] + b);
        let kc = c.line - el - 1;
        let m = cursor_after_delete(c, r);
        let base = line_start(a, sl);
        lemma_line_starts_spliced(a, seq![merged], b, 0, 0);
        assert(ls =~= a + seq![first] + ls.skip(sl + 1));
        lemma_line_starts_spliced(a, seq![first], ls.skip(sl + 1), 0, 0);
        assert(line_start(nl, sl) == line_start(a, sl));
        assert(line_start(ls, sl) == line_start(a, sl));
        if pos_le(c, s) {
            assert(m == (c.line as int, c.col as int));
            assert(line_start(nl, c.line as int) == line_start(a, c.line as int));
            assert(line_start(ls, c.line as int) == line_start(a, c.line as int));
        } else if pos_le(c, e) {
            assert(m == (sl, s.col as int));
        } else if c.line == el {
            assert(m == (sl, s.col + (c.col - e.col)));
        } else {
            assert(c.line > el);
            assert(m == (c.line - (el - sl), c.col as int));
            lemma_line_starts_spliced(a, seq![merged], b, 0, kc);
            assert(line_start(seq![merged], 1) == merged.len() + 1);
            let front = ls.take(el + 1);
            assert(ls =~= front + b);
            assert(front.len() == el + 1);
            lemma_line_start_concat(front, b, kc);
            lemma_line_start_prefix(front, b, el + 1);
            lemma_line_start_prefix(front, b, el);
            assert(front[el] == last);
            assert(line_start(front, el + 1) == line_start(front, el) + last.len() + 1);
            assert(line_start(ls, c.line as int) == line_start(ls, el) + last.len() + 1 + line_start(b, kc));
            assert(line_start(nl, m.0) == base + merged.len() + 1 + line_start(b, kc));
        }
    }
}

/// No line but the last ends with `'\r'`.
pub open spec fn no_inner_carriage_return(ls: Seq<Seq<u8>>) -> bool {
    forall|i: int|
        0 <= i < ls.len() - 1 ==> !((#[trigger] ls[i]).len() > 0 && ls[i].last() == CARRIAGE_RETURN)
}

/// Reading a text into lines and joining the lines gives back the text,
/// unless a line break in it is `"\r\n"`.
pub proof fn law_read_then_join(b: Seq<u8>)
    requires
        no_inner_carriage_return(split_lines(b)),
    ensures
        join_lines(text_lines(b)) == b,
{
    let parts = split_lines(b);
    assert(text_lines(b) =~= parts) by {
        assert forall|i: int| 0 <= i < parts.len() implies #[trigger] text_lines(b)[i] == parts[i] by {
            if i < parts.len() - 1 {
                assert(strip_carriage_return(parts[i]) == parts[i]);
            }
        }
    }
    lemma_join_split(b);
}

/// Joining well-formed lines and reading the text into lines gives back the
/// lines, unless a line but the last ends with `'\r'`.
pub proof fn law_join_then_read(ls: Seq<Seq<u8>>)
    requires
        lines_wf(ls),
        no_inner_carriage_return(ls),
    ensures
        text_lines(join_lines(ls)) == ls,
{
    lemma_split_join(ls);
    let j = join_lines(ls);
    assert(text_lines(j) =~= ls) by {
        assert forall|i: int| 0 <= i < ls.len() implies #[trigger] text_lines(j)[i] == ls[i] by {
            if i < ls.len() - 1 {
                assert(strip_carriage_return(ls[i]) == ls[i]);
            }
        }
    }
}

/// Replacing the text of `r` with `t` puts `t` in place of the bytes between
/// the offsets of the ends of `r` in the joined text.
pub proof fn law_replace_content(ls: Seq<Seq<u8>>, r: Range, t: Seq<u8>)
    requires
        lines_wf(ls),
        valid_range(ls, r),
        lines_wf(delete_lines(ls, r)),
    ensures
        ({
            let text = join_lines(ls);
            join_lines(insert_lines(delete_lines(ls, r), r.start, t)) == text.take(
                offset(ls, r.start),
            ) + t + text.skip(offset(ls, r.end))
        }),
{
    let mid = delete_lines(ls, r);
    crate::buffer::lemma_start_valid_after_delete(ls, r);
    law_delete_content(ls, r);
    law_insert_content(mid, r.start, t);
    let sl = r.start.line as int;
    let a = ls.take(sl);
    assert(ls =~= a + ls.skip(sl));
    lemma_line_start_prefix(a, ls.skip(sl), sl);
    assert(mid =~= a + mid.skip(sl));
    lemma_line_start_prefix(a, mid.skip(sl), sl);
    assert(offset(mid, r.start) == offset(ls, r.start));
    let text = join_lines(ls);
    let os = offset(ls, r.start);
    let oe = offset(ls, r.end);
    lemma_offset_order(ls, r.start, r.end);
    lemma_join_around(ls, sl);
    assert(os <= text.len());
    let jm = join_lines(mid);
    assert(jm == text.take(os) + text.skip(oe));
    assert(jm.take(os) =~= text.take(os));
    assert(jm.skip(os) =~= text.skip(oe));
}

} // verus!
