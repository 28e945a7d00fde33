//! The two questions the library asks of file paths, answered as
//! `std::path` answers them on Unix: what the final name of a path is, and
//! whether two paths have the same components.
//!
//! A path is split at its `'/'` characters. The root (a leading `'/'`) and
//! a leading `.` are components of their own; after them, empty pieces
//! (from repeated or trailing separators) and `.` pieces name nothing, and
//! every other piece, `..` included, is a component.
use vstd::prelude::*;

verus! {

/// The pieces of `p` between its `'/'` characters, in order: one piece more
/// than there are separators.
pub open spec fn slash_pieces(p: Seq<char>) -> Seq<Seq<char>>
    decreases p.len(),
{
    if p.len() == 0 {
        seq![Seq::<char>::empty()]
    } else {
        let init = slash_pieces(p.drop_last());
        if p.last() == '/' {
            init.push(Seq::<char>::empty())
        } else {
            init.update(init.len() - 1, init.last().push(p.last()))
        }
    }
}

/// A piece that names no component: an empty one or `.`.
pub open spec fn is_skipped_piece(s: Seq<char>) -> bool {
    s.len() == 0 || s == seq!['.']
}

/// The pieces that name components, in order.
pub open spec fn named_pieces(ps: Seq<Seq<char>>) -> Seq<Seq<char>>
    decreases ps.len(),
{
    if ps.len() == 0 {
        Seq::<Seq<char>>::empty()
    } else {
        let r = named_pieces(ps.drop_last());
        if is_skipped_piece(ps.last()) {
            r
        } else {
            r.push(ps.last())
        }
    }
}

/// The components of `p` after its root or its leading `.`: the names and
/// the `..` components, in order.
pub open spec fn path_names(p: Seq<char>) -> Seq<Seq<char>> {
    named_pieces(slash_pieces(p))
}

/// The path starts at the root.
pub open spec fn has_root(p: Seq<char>) -> bool {
    p.len() > 0 && p[0] == '/'
}

/// The path starts with a `.` component.
pub open spec fn starts_with_cur_dir(p: Seq<char>) -> bool {
    p.len() > 0 && p[0] == '.' && (p.len() == 1 || p[1] == '/')
}

/// The final component of a path where it is a name (`Path::file_name`):
/// `None` for a path with no component after its root or its leading `.`,
/// and for one whose last component is `..`.
pub open spec fn file_name_of(path: Seq<char>) -> Option<Seq<char>> {
    let names = path_names(path);
    if names.len() == 0 || names.last() == seq!['.', '.'] {
        None
    } else {
        Some(names.last())
    }
}

/// Whether the two paths have the same components (`==` on `Path`): both
/// start at the root or neither does, both start with `.` or neither does,
/// and the rest of their components are the same, in the same order.
pub open spec fn same_path(a: Seq<char>, b: Seq<char>) -> bool {
    &&& has_root(a) == has_root(b)
    &&& starts_with_cur_dir(a) == starts_with_cur_dir(b)
    &&& path_names(a) == path_names(b)
}

/// A name that can stand as a component of its own: not empty, without a
/// separator, and neither `.` nor `..`.
pub open spec fn is_plain_name(n: Seq<char>) -> bool {
    &&& n.len() > 0
    &&& !n.contains('/')
    &&& n != seq!['.']
    &&& n != seq!['.', '.']
}

/// Splitting always yields at least one piece.
pub proof fn lemma_slash_pieces_len(p: Seq<char>)
    ensures
        slash_pieces(p).len() >= 1,
    decreases p.len(),
{
    if p.len() > 0 {
        lemma_slash_pieces_len(p.drop_last());
    }
}

/// Characters without a separator are a single piece.
pub proof fn lemma_slash_pieces_single(n: Seq<char>)
    requires
        !n.contains('/'),
    ensures
        slash_pieces(n) == seq![n],
    decreases n.len(),
{
    if n.len() > 0 {
        let p = n.drop_last();
        assert(!p.contains('/')) by {
            if p.contains('/') {
                let k = choose|k: int| 0 <= k < p.len() && p[k] == '/';
                assert(n[k] == '/');
            }
        }
        lemma_slash_pieces_single(p);
        assert(n.last() != '/') by {
            assert(n[n.len() - 1] == n.last());
        }
        assert(p.push(n.last()) =~= n);
        assert(slash_pieces(n) =~= seq![n]);
    } else {
        assert(n =~= Seq::<char>::empty());
    }
}

/// The pieces of two parts joined by a separator are the pieces of the
/// first part followed by those of the second.
pub proof fn lemma_slash_pieces_join(x: Seq<char>, y: Seq<char>)
    ensures
        slash_pieces(x + seq!['/'] + y) == slash_pieces(x) + slash_pieces(y),
    decreases y.len(),
{
    let xs = x + seq!['/'];
    if y.len() == 0 {
        assert(xs + y =~= xs);
        assert(xs.drop_last() =~= x);
        assert(slash_pieces(x) + slash_pieces(y) =~= slash_pieces(x).push(Seq::<char>::empty()));
    } else {
        let yp = y.drop_last();
        let c = y.last();
        lemma_slash_pieces_join(x, yp);
        lemma_slash_pieces_len(yp);
        lemma_slash_pieces_len(x);
        assert((xs + y).drop_last() =~= xs + yp);
        assert((xs + y).last() == c);
        let sx = slash_pieces(x);
        let sy = slash_pieces(yp);
        if c == '/' {
            assert(slash_pieces(xs + y) =~= sx + sy.push(Seq::<char>::empty()));
        } else {
            assert(slash_pieces(xs + y) =~= sx + sy.update(sy.len() - 1, sy.last().push(c)));
        }
    }
}

/// The named pieces of two runs of pieces are those of each, in order.
pub proof fn lemma_named_pieces_concat(a: Seq<Seq<char>>, b: Seq<Seq<char>>)
    ensures
        named_pieces(a + b) == named_pieces(a) + named_pieces(b),
    decreases b.len(),
{
    if b.len() == 0 {
        assert(a + b =~= a);
        assert(named_pieces(a) + named_pieces(b) =~= named_pieces(a));
    } else {
        lemma_named_pieces_concat(a, b.drop_last());
        assert((a + b).drop_last() =~= a + b.drop_last());
        assert((a + b).last() == b.last());
        assert(named_pieces(a + b) =~= named_pieces(a) + named_pieces(b));
    }
}

/// The components after the root or the leading `.` of two parts joined by
/// a separator are those of the first part followed by those of the second.
pub proof fn lemma_path_names_join(x: Seq<char>, y: Seq<char>)
    ensures
        path_names(x + seq!['/'] + y) == path_names(x) + path_names(y),
{
    lemma_slash_pieces_join(x, y);
    lemma_named_pieces_concat(slash_pieces(x), slash_pieces(y));
}

/// A plain name is one component.
pub proof fn lemma_path_names_plain(n: Seq<char>)
    requires
        is_plain_name(n),
    ensures
        path_names(n) == seq![n],
{
    lemma_slash_pieces_single(n);
    assert(seq![n].drop_last() =~= Seq::<Seq<char>>::empty());
    assert(named_pieces(Seq::<Seq<char>>::empty()) == Seq::<Seq<char>>::empty());
    assert(!is_skipped_piece(n));
    assert(named_pieces(seq![n]) =~= seq![n]);
}

/// The file name of a path whose last component is a plain name `n` is `n`:
/// a path that is just `n`, or any path followed by a separator and `n`.
pub proof fn law_file_name_is_last_name(q: Seq<char>, n: Seq<char>)
    requires
        is_plain_name(n),
    ensures
        file_name_of(n) == Some(n),
        file_name_of(q + seq!['/'] + n) == Some(n),
{
    lemma_path_names_plain(n);
    lemma_path_names_join(q, n);
}

/// A path whose last component is `..` has no file name.
pub proof fn law_parent_has_no_file_name(q: Seq<char>)
    ensures
        file_name_of(seq!['.', '.']) is None,
        file_name_of(q + seq!['/'] + seq!['.', '.']) is None,
{
    let dd = seq!['.', '.'];
    assert(!dd.contains('/')) by {
        if dd.contains('/') {
            let k = choose|k: int| 0 <= k < dd.len() && dd[k] == '/';
        }
    }
    lemma_slash_pieces_single(dd);
    assert(dd != seq!['.']) by {
        assert(dd.len() != seq!['.'].len());
    }
    assert(seq![dd].drop_last() =~= Seq::<Seq<char>>::empty());
    assert(named_pieces(Seq::<Seq<char>>::empty()) == Seq::<Seq<char>>::empty());
    assert(!is_skipped_piece(dd));
    assert(named_pieces(seq![dd]) =~= seq![dd]);
    assert(path_names(dd) =~= seq![dd]);
    lemma_path_names_join(q, dd);
}

/// A trailing separator changes neither the file name nor the components
/// of a non-empty path.
pub proof fn law_trailing_separator(p: Seq<char>)
    ensures
        file_name_of(p + seq!['/']) == file_name_of(p),
        p.len() > 0 ==> same_path(p + seq!['/'], p),
{
    let ps = p + seq!['/'];
    assert(ps.drop_last() =~= p);
    assert(ps.last() == '/');
    assert(slash_pieces(ps).last() == Seq::<char>::empty());
    assert(slash_pieces(ps).drop_last() =~= slash_pieces(p));
    assert(path_names(ps) == path_names(p));
    if p.len() > 0 {
        assert(ps[0] == p[0]);
        if p.len() > 1 {
            assert(ps[1] == p[1]);
        }
    }
}

/// Repeated separators count as one: a path with `//` has the same
/// components as the path with a single `/` in its place.
pub proof fn law_repeated_separator(p: Seq<char>, q: Seq<char>)
    requires
        p.len() > 0,
    ensures
        same_path(p + seq!['/', '/'] + q, p + seq!['/'] + q),
{
    let a = p + seq!['/', '/'] + q;
    let b = p + seq!['/'] + q;
    let sq = seq!['/'] + q;
    assert(a =~= p + seq!['/'] + sq);
    lemma_path_names_join(p, sq);
    lemma_path_names_join(p, q);
    assert(sq =~= Seq::<char>::empty() + seq!['/'] + q);
    lemma_path_names_join(Seq::<char>::empty(), q);
    assert(path_names(Seq::<char>::empty()) =~= Seq::<Seq<char>>::empty()) by {
        let e = Seq::<char>::empty();
        assert(slash_pieces(e) == seq![e]);
        assert(seq![e].drop_last() =~= Seq::<Seq<char>>::empty());
        assert(is_skipped_piece(seq![e].last()));
        assert(named_pieces(Seq::<Seq<char>>::empty()) == Seq::<Seq<char>>::empty());
    }
    assert(Seq::<Seq<char>>::empty() + path_names(q) =~= path_names(q));
    assert(path_names(a) == path_names(b));
    assert(a[0] == p[0]);
    assert(b[0] == p[0]);
    if p.len() > 1 {
        assert(a[1] == p[1]);
        assert(b[1] == p[1]);
    } else {
        assert(a[1] == '/');
        assert(b[1] == '/');
    }
}

/// Two paths that differ in one directory name, with the same components
/// before and after it, are not the same path.
pub proof fn law_differing_directory(q: Seq<char>, d1: Seq<char>, d2: Seq<char>, s: Seq<char>)
    requires
        is_plain_name(d1),
        is_plain_name(d2),
        d1 != d2,
    ensures
        !same_path(d1 + seq!['/'] + s, d2 + seq!['/'] + s),
        !same_path(q + seq!['/'] + d1 + seq!['/'] + s, q + seq!['/'] + d2 + seq!['/'] + s),
{
    lemma_path_names_plain(d1);
    lemma_path_names_plain(d2);
    lemma_path_names_join(d1, s);
    lemma_path_names_join(d2, s);
    let t1 = d1 + seq!['/'] + s;
    let t2 = d2 + seq!['/'] + s;
    assert(path_names(t1)[0] == d1);
    assert(path_names(t2)[0] == d2);
    lemma_path_names_join(q, t1);
    lemma_path_names_join(q, t2);
    assert(q + seq!['/'] + d1 + seq!['/'] + s =~= q + seq!['/'] + t1);
    assert(q + seq!['/'] + d2 + seq!['/'] + s =~= q + seq!['/'] + t2);
    let k: int = path_names(q).len() as int;
    assert(path_names(q + seq!['/'] + t1)[k] == d1);
    assert(path_names(q + seq!['/'] + t2)[k] == d2);
}

/// Whether the piece `s[start..end]` (in characters) names no component.
fn piece_is_skipped(s: &str, start: usize, end: usize) -> (r: bool)
    requires
        start <= end <= s@.len(),
    ensures
        r == is_skipped_piece(s@.subrange(start as int, end as int)),
{
    let ghost piece = s@.subrange(start as int, end as int);
    if end == start {
        proof {
            assert(piece.len() == 0);
        }
        true
    } else if end - start == 1 && s.get_char(start) == '.' {
        proof {
            assert(piece =~= seq!['.']);
        }
        true
    } else {
        proof {
            if piece == seq!['.'] {
                assert(piece.len() == 1);
                assert(piece[0] == s@[start as int]);
                assert(seq!['.'][0] == '.');
            }
        }
        false
    }
}

/// The components of `path` after its root or its leading `.`, as strings.
fn path_name_list(path: &str) -> (names: Vec<String>)
    ensures
        names.deep_view() == path_names(path@),
{
    let n = path.unicode_len();
    let ghost p = path@;
    let mut names: Vec<String> = Vec::new();
    let ghost mut done: Seq<Seq<char>> = Seq::empty();
    let mut start: usize = 0;
    let mut i: usize = 0;
    proof {
        assert(p.take(0) =~= Seq::<char>::empty());
        assert(done + seq![p.subrange(0, 0)] =~= slash_pieces(p.take(0)));
        assert(names.deep_view() =~= named_pieces(done));
    }
    while i < n
        invariant
            p == path@,
            n == p.len(),
            start <= i <= n,
            done + seq![p.subrange(start as int, i as int)] == slash_pieces(p.take(i as int)),
            names.deep_view() == named_pieces(done),
        decreases n - i,
    {
        let c = path.get_char(i);
        proof {
            assert(p.take(i + 1).drop_last() =~= p.take(i as int));
            assert(p.take(i + 1).last() == c);
        }
        if c == '/' {
            let skip = piece_is_skipped(path, start, i);
            let ghost piece = p.subrange(start as int, i as int);
            let ghost old_names = names.deep_view();
            if !skip {
                let s = path.substring_char(start, i).to_owned();
                names.push(s);
                proof {
                    assert(names.deep_view() =~= old_names.push(piece));
                }
            }
            proof {
                let old_done = done;
                done = done.push(piece);
                assert(done.drop_last() =~= old_done);
                assert(p.subrange(i + 1, i + 1) =~= Seq::<char>::empty());
                assert(done + seq![p.subrange(i + 1, i + 1)] =~= (old_done + seq![piece]).push(
                    Seq::<char>::empty(),
                ));
            }
            start = i + 1;
        } else {
            proof {
                let prev = done + seq![p.subrange(start as int, i as int)];
                assert(p.subrange(start as int, i + 1) =~= p.subrange(start as int, i as int).push(
                    c,
                ));
                assert(done + seq![p.subrange(start as int, i + 1)] =~= prev.update(
                    prev.len() - 1,
                    prev.last().push(c),
                ));
            }
        }
        i = i + 1;
    }
    let skip = piece_is_skipped(path, start, n);
    let ghost piece = p.subrange(start as int, n as int);
    let ghost old_names = names.deep_view();
    if !skip {
        let s = path.substring_char(start, n).to_owned();
        names.push(s);
        proof {
            assert(names.deep_view() =~= old_names.push(piece));
        }
    }
    proof {
        assert(p.take(n as int) =~= p);
        let all = done + seq![piece];
        assert(all.drop_last() =~= done);
        assert(all.last() == piece);
    }
    names
}

/// The final component of `path` where it is a name, as `Path::file_name`
/// gives it.
pub fn path_file_name(path: &str) -> (r: Option<String>)
    ensures
        r.deep_view() == file_name_of(path@),
{
    let names = path_name_list(path);
    let k = names.len();
    if k == 0 {
        return None;
    }
    let last = &names[k - 1];
    proof {
        assert(names.deep_view().last() == last@);
    }
    let s = last.as_str();
    let is_parent = s.unicode_len() == 2 && s.get_char(0) == '.' && s.get_char(1) == '.';
    proof {
        if last@ == seq!['.', '.'] {
            assert(is_parent);
        }
        if is_parent {
            assert(last@ =~= seq!['.', '.']);
        }
    }
    if is_parent {
        None
    } else {
        Some(last.clone())
    }
}

/// The path starts at the root.
fn starts_at_root(p: &str) -> (r: bool)
    ensures
        r == has_root(p@),
{
    let n = p.unicode_len();
    n > 0 && p.get_char(0) == '/'
}

/// The path starts with a `.` component.
fn starts_at_cur_dir(p: &str) -> (r: bool)
    ensures
        r == starts_with_cur_dir(p@),
{
    let n = p.unicode_len();
    n > 0 && p.get_char(0) == '.' && (n == 1 || p.get_char(1) == '/')
}

/// Whether the two paths have the same components, as `==` on `Path`
/// compares them.
pub fn paths_equal(a: &str, b: &str) -> (r: bool)
    ensures
        r == same_path(a@, b@),
{
    if starts_at_root(a) != starts_at_root(b) {
        return false;
    }
    if starts_at_cur_dir(a) != starts_at_cur_dir(b) {
        return false;
    }
    let na = path_name_list(a);
    let nb = path_name_list(b);
    if na.len() != nb.len() {
        proof {
            assert(na.deep_view().len() != nb.deep_view().len());
        }
        return false;
    }
    let mut i: usize = 0;
    while i < na.len()
        invariant
            na.len() == nb.len(),
            na.deep_view() == path_names(a@),
            nb.deep_view() == path_names(b@),
            i <= na.len(),
            forall|j: int| 0 <= j < i ==> na.deep_view()[j] == nb.deep_view()[j],
        decreases na.len() - i,
    {
        let same = na[i] == nb[i];
        if !same {
            proof {
                assert(na.deep_view()[i as int] != nb.deep_view()[i as int]);
            }
            return false;
        }
        i = i + 1;
    }
    proof {
        assert(na.deep_view() =~= nb.deep_view());
    }
    true
}

} // verus!
