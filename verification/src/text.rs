//! Byte-level model of text: UTF-8 encodings, splitting at newlines and
//! joining lines back together, with the executable helpers that work on
//! `&str` and `String` values and are proved against that model.
use vstd::prelude::*;
use vstd::utf8::*;

verus! {

broadcast use vstd::utf8::encode_utf8_valid_utf8;

/// The byte of the line separator `'\n'`.
pub const NEWLINE: u8 = 10;

/// The byte of `'\r'`, dropped before a `'\n'` when a text is read line by line.
pub const CARRIAGE_RETURN: u8 = 13;

/// The UTF-8 bytes of each string of a sequence.
pub open spec fn strings_bytes(v: Seq<String>) -> Seq<Seq<u8>> {
    Seq::new(v.len(), |i: int| encode_utf8(v[i]@))
}

/// The pieces of `b` between newline bytes, in order, without the newline
/// bytes themselves. There is one piece more than there are newlines.
pub open spec fn split_lines(b: Seq<u8>) -> Seq<Seq<u8>>
    decreases b.len(),
{
    if b.len() == 0 {
        seq![Seq::<u8>::empty()]
    } else {
        let init = split_lines(b.drop_last());
        if b.last() == NEWLINE {
            init.push(Seq::<u8>::empty())
        } else {
            init.update(init.len() - 1, init.last().push(b.last()))
        }
    }
}

/// The lines joined with a newline byte between each two of them.
pub open spec fn join_lines(ls: Seq<Seq<u8>>) -> Seq<u8>
    decreases ls.len(),
{
    if ls.len() == 0 {
        Seq::<u8>::empty()
    } else if ls.len() == 1 {
        ls[0]
    } else {
        join_lines(ls.drop_last()) + seq![NEWLINE] + ls.last()
    }
}

/// No piece of the sequence holds a newline byte.
pub open spec fn no_newlines(ls: Seq<Seq<u8>>) -> bool {
    forall|i: int| 0 <= i < ls.len() ==> !(#[trigger] ls[i]).contains(NEWLINE)
}

/// A line with one `'\r'` removed from its end, if it ends with one.
pub open spec fn strip_carriage_return(l: Seq<u8>) -> Seq<u8> {
    if l.len() > 0 && l.last() == CARRIAGE_RETURN {
        l.drop_last()
    } else {
        l
    }
}

/// The lines of a text as `str::lines` reads them, plus a final empty line
/// where the text ends with a newline: the text is split at each newline,
/// and a `'\r'` that stands just before a newline goes with it.
pub open spec fn text_lines(b: Seq<u8>) -> Seq<Seq<u8>> {
    let parts = split_lines(b);
    Seq::new(
        parts.len(),
        |i: int|
            if i < parts.len() - 1 {
                strip_carriage_return(parts[i])
            } else {
                parts[i]
            },
    )
}

/// Splitting always yields at least one piece, and no piece holds a newline.
pub proof fn lemma_split_lines_shape(b: Seq<u8>)
    ensures
        split_lines(b).len() >= 1,
        no_newlines(split_lines(b)),
    decreases b.len(),
{
    if b.len() > 0 {
        lemma_split_lines_shape(b.drop_last());
        let init = split_lines(b.drop_last());
        if b.last() != NEWLINE {
            let s = split_lines(b);
            assert forall|i: int| 0 <= i < s.len() implies !(#[trigger] s[i]).contains(NEWLINE) by {
                if i == s.len() - 1 {
                    if s[i].contains(NEWLINE) {
                        let k = choose|k: int| 0 <= k < s[i].len() && s[i][k] == NEWLINE;
                        if k < init.last().len() {
                            assert(init.last()[k] == NEWLINE);
                            assert(init[init.len() - 1].contains(NEWLINE));
                        }
                    }
                } else {
                    assert(s[i] == init[i]);
                }
            }
        } else {
            let s = split_lines(b);
            assert forall|i: int| 0 <= i < s.len() implies !(#[trigger] s[i]).contains(NEWLINE) by {
                if i < init.len() {
                    assert(s[i] == init[i]);
                }
            }
        }
    }
}

/// A byte sequence without newlines is a single piece.
pub proof fn lemma_split_lines_single(b: Seq<u8>)
    requires
        !b.contains(NEWLINE),
    ensures
        split_lines(b) == seq![b],
    decreases b.len(),
{
    if b.len() > 0 {
        let p = b.drop_last();
        assert(!p.contains(NEWLINE)) by {
            if p.contains(NEWLINE) {
                let k = choose|k: int| 0 <= k < p.len() && p[k] == NEWLINE;
                assert(b[k] == NEWLINE);
            }
        }
        lemma_split_lines_single(p);
        assert(b.last() != NEWLINE) by {
            assert(b[b.len() - 1] == b.last());
        }
        assert(p.push(b.last()) =~= b);
        assert(split_lines(b) =~= seq![b]);
    } else {
        assert(b =~= Seq::<u8>::empty());
    }
}

/// Splitting a concatenation: the last piece of the left part and the first
/// piece of the right part merge.
pub proof fn lemma_split_lines_concat(a: Seq<u8>, b: Seq<u8>)
    ensures
        split_lines(a + b) == split_lines(a).drop_last() + seq![
            split_lines(a).last() + split_lines(b)[0],
        ] + split_lines(b).drop_first(),
    decreases b.len(),
{
    lemma_split_lines_shape(a);
    lemma_split_lines_shape(b);
    let sa = split_lines(a);
    if b.len() == 0 {
        assert(a + b =~= a);
        assert(sa.last() + Seq::<u8>::empty() =~= sa.last());
        assert(sa.drop_last() + seq![sa.last()] =~= sa);
        assert(split_lines(b).drop_first() =~= Seq::<Seq<u8>>::empty());
        assert(sa.drop_last() + seq![sa.last() + split_lines(b)[0]] + split_lines(b).drop_first()
            =~= sa);
    } else {
        let bp = b.drop_last();
        let x = b.last();
        lemma_split_lines_concat(a, bp);
        lemma_split_lines_shape(bp);
        assert((a + b).drop_last() =~= a + bp);
        assert((a + b).last() == x);
        let sbp = split_lines(bp);
        let sb = split_lines(b);
        let prev = split_lines(a + bp);
        if x == NEWLINE {
            assert(sb == sbp.push(Seq::<u8>::empty()));
            assert(sb[0] == sbp[0]);
            assert(sb.drop_first() =~= sbp.drop_first().push(Seq::<u8>::empty()));
            assert(split_lines(a + b) == prev.push(Seq::<u8>::empty()));
            assert(split_lines(a + b) =~= sa.drop_last() + seq![sa.last() + sb[0]]
                + sb.drop_first());
        } else {
            assert(sb == sbp.update(sbp.len() - 1, sbp.last().push(x)));
            assert(split_lines(a + b) == prev.update(prev.len() - 1, prev.last().push(x)));
            if sbp.len() == 1 {
                assert(sb[0] == sbp[0].push(x));
                assert((sa.last() + sbp[0]).push(x) =~= sa.last() + sbp[0].push(x));
                assert(split_lines(a + b) =~= sa.drop_last() + seq![sa.last() + sb[0]]
                    + sb.drop_first());
            } else {
                assert(sb[0] == sbp[0]);
                assert(sb.drop_first() =~= sbp.drop_first().update(
                    sbp.len() - 2,
                    sbp.last().push(x),
                ));
                assert(split_lines(a + b) =~= sa.drop_last() + seq![sa.last() + sb[0]]
                    + sb.drop_first());
            }
        }
    }
}

/// Joining the pieces of a split gives back the bytes.
pub proof fn lemma_join_split(b: Seq<u8>)
    ensures
        join_lines(split_lines(b)) == b,
    decreases b.len(),
{
    if b.len() > 0 {
        let p = b.drop_last();
        lemma_join_split(p);
        lemma_split_lines_shape(p);
        let s = split_lines(p);
        assert(p.push(b.last()) =~= b);
        if b.last() == NEWLINE {
            let t = s.push(Seq::<u8>::empty());
            assert(t.drop_last() =~= s);
            assert(join_lines(t) =~= b);
        } else {
            let t = s.update(s.len() - 1, s.last().push(b.last()));
            if s.len() == 1 {
                assert(join_lines(t) =~= b);
            } else {
                assert(t.drop_last() =~= s.drop_last());
                assert(join_lines(t) =~= b);
            }
        }
    }
}

/// Joining two non-empty runs of lines puts one newline between them.
pub proof fn lemma_join_concat(x: Seq<Seq<u8>>, y: Seq<Seq<u8>>)
    requires
        x.len() >= 1,
        y.len() >= 1,
    ensures
        join_lines(x + y) == join_lines(x) + seq![NEWLINE] + join_lines(y),
    decreases y.len(),
{
    if y.len() == 1 {
        assert((x + y).drop_last() =~= x);
        assert((x + y).last() == y[0]);
    } else {
        lemma_join_concat(x, y.drop_last());
        assert((x + y).drop_last() =~= x + y.drop_last());
        assert((x + y).last() == y.last());
        assert(join_lines(x + y) =~= join_lines(x) + seq![NEWLINE] + join_lines(y));
    }
}

/// Splitting the join of lines without newlines gives back the lines.
pub proof fn lemma_split_join(ls: Seq<Seq<u8>>)
    requires
        ls.len() >= 1,
        no_newlines(ls),
    ensures
        split_lines(join_lines(ls)) == ls,
    decreases ls.len(),
{
    if ls.len() == 1 {
        lemma_split_lines_single(ls[0]);
        assert(split_lines(join_lines(ls)) =~= ls);
    } else {
        let init = ls.drop_last();
        assert(no_newlines(init)) by {
            assert forall|i: int| 0 <= i < init.len() implies !(#[trigger] init[i]).contains(
                NEWLINE,
            ) by {
                assert(init[i] == ls[i]);
            }
        }
        lemma_split_join(init);
        let j = join_lines(init);
        let l = ls.last();
        assert(!l.contains(NEWLINE)) by {
            assert(ls[ls.len() - 1] == l);
        }
        lemma_split_lines_single(l);
        lemma_split_lines_concat(j + seq![NEWLINE], l);
        lemma_split_lines_concat(j, seq![NEWLINE]);
        assert(split_lines(seq![NEWLINE]) =~= seq![Seq::<u8>::empty(), Seq::<u8>::empty()]) by {
            let nl = seq![NEWLINE];
            assert(nl.drop_last() =~= Seq::<u8>::empty());
            assert(nl.last() == NEWLINE);
            assert(split_lines(Seq::<u8>::empty()) == seq![Seq::<u8>::empty()]);
        }
        assert(init.last() + Seq::<u8>::empty() =~= init.last());
        assert(init.drop_last() + seq![init.last()] =~= init);
        assert(split_lines(j + seq![NEWLINE]) =~= init.push(Seq::<u8>::empty()));
        assert(split_lines(join_lines(ls)) =~= ls);
    }
}

/// The UTF-8 encoding of a concatenation is the concatenation of the encodings.
pub proof fn lemma_encode_concat(a: Seq<char>, b: Seq<char>)
    ensures
        encode_utf8(a + b) == encode_utf8(a) + encode_utf8(b),
    decreases a.len(),
{
    if a.len() == 0 {
        assert(a + b =~= b);
        assert(encode_utf8(a) + encode_utf8(b) =~= encode_utf8(b));
    } else {
        lemma_encode_concat(a.drop_first(), b);
        assert((a + b).drop_first() =~= a.drop_first() + b);
        assert((a + b)[0] == a[0]);
        assert(encode_utf8(a + b) =~= encode_utf8(a) + encode_utf8(b));
    }
}

/// The encoding of `'\n'` is the newline byte.
pub proof fn lemma_encode_newline()
    ensures
        encode_utf8(seq!['\n']) == seq![NEWLINE],
{
    let s = seq!['\n'];
    assert(s.drop_first() =~= Seq::<char>::empty());
    assert(('\n' as u32) == 10u32);
    assert((10u32 & 0x7F) as u8 == 10u8) by (bit_vector);
    assert(encode_utf8(Seq::<char>::empty()) =~= Seq::<u8>::empty());
    assert(s[0] == '\n');
    assert(has_width_1_encoding(10u32));
    assert(leading_byte_width_1(10u32) == 10u8);
    assert(encode_scalar(10u32) =~= seq![NEWLINE]);
    assert(encode_utf8(s) =~= seq![NEWLINE]);
}

/// In valid UTF-8, the index just after a one-byte character is a boundary.
pub proof fn lemma_boundary_after_ascii(bytes: Seq<u8>, i: int)
    requires
        valid_utf8(bytes),
        0 <= i < bytes.len(),
        is_leading_byte_width_1(bytes[i]),
        is_char_boundary(bytes, i),
    ensures
        is_char_boundary(bytes, i + 1),
    decreases bytes.len(),
{
    let l = length_of_first_scalar(bytes);
    let pop = pop_first_scalar(bytes);
    assert(valid_utf8(pop));
    assert(1 <= l <= bytes.len());
    if i == 0 {
        assert(l == 1);
        assert(is_char_boundary(pop, 0));
        assert(is_char_boundary(bytes, 1));
    } else {
        assert(is_char_boundary(pop, i - l));
        assert(i - l >= 0);
        assert(pop[i - l] == bytes[i]);
        lemma_boundary_after_ascii(pop, i - l);
        assert(is_char_boundary(bytes, i + 1) == is_char_boundary(pop, i + 1 - l));
    }
}

/// A byte that is not a continuation byte starts a character, and so does the end.
pub proof fn lemma_boundary_at(bytes: Seq<u8>, i: int)
    requires
        valid_utf8(bytes),
        0 <= i <= bytes.len(),
        i == bytes.len() || !is_continuation_byte(bytes[i]),
    ensures
        is_char_boundary(bytes, i),
{
    if i == bytes.len() {
        is_char_boundary_start_end_of_seq(bytes);
    } else {
        is_char_boundary_iff_not_is_continuation_byte(bytes, i);
    }
}

/// Boundaries of a valid UTF-8 sequence are boundaries of its suffixes.
pub proof fn lemma_boundary_in_suffix(bytes: Seq<u8>, s: int, e: int)
    requires
        valid_utf8(bytes),
        0 <= s <= e <= bytes.len(),
        is_char_boundary(bytes, s),
        is_char_boundary(bytes, e),
    ensures
        valid_utf8(bytes.subrange(s, bytes.len() as int)),
        is_char_boundary(bytes.subrange(s, bytes.len() as int), e - s),
{
    valid_utf8_split(bytes, s);
    let t = bytes.subrange(s, bytes.len() as int);
    if e == bytes.len() {
        is_char_boundary_start_end_of_seq(t);
    } else if e == s {
    } else {
        is_char_boundary_iff_not_is_continuation_byte(bytes, e);
        assert(t[e - s] == bytes[e]);
        is_char_boundary_iff_not_is_continuation_byte(t, e - s);
    }
}

/// The byte length of `s`.
pub fn byte_len(s: &String) -> (n: usize)
    ensures
        n == encode_utf8(s@).len(),
{
    s.as_str().as_bytes().len()
}

/// A newline byte followed by more bytes splits into an empty piece and the
/// pieces of the rest.
pub proof fn lemma_split_after_newline(b: Seq<u8>)
    ensures
        split_lines(seq![NEWLINE] + b) == seq![Seq::<u8>::empty()] + split_lines(b),
{
    let nl = seq![NEWLINE];
    assert(nl.drop_last() =~= Seq::<u8>::empty());
    assert(nl.last() == NEWLINE);
    assert(split_lines(Seq::<u8>::empty()) == seq![Seq::<u8>::empty()]);
    assert(split_lines(nl) =~= seq![Seq::<u8>::empty(), Seq::<u8>::empty()]);
    lemma_split_lines_concat(nl, b);
    lemma_split_lines_shape(b);
    let sb = split_lines(b);
    assert(Seq::<u8>::empty() + sb[0] =~= sb[0]);
    assert(seq![Seq::<u8>::empty()] + seq![sb[0]] + sb.drop_first() =~= seq![
        Seq::<u8>::empty(),
    ] + sb);
}

/// The pieces of valid UTF-8 text split at newlines are valid UTF-8.
pub proof fn lemma_split_lines_valid(t: Seq<u8>)
    requires
        valid_utf8(t),
    ensures
        forall|i: int| 0 <= i < split_lines(t).len() ==> valid_utf8(#[trigger] split_lines(t)[i]),
    decreases t.len(),
{
    if !t.contains(NEWLINE) {
        lemma_split_lines_single(t);
    } else {
        let i = choose|i: int| 0 <= i < t.len() && t[i] == NEWLINE;
        let a = t.take(i);
        let b = t.skip(i + 1);
        lemma_boundary_at(t, i);
        lemma_boundary_after_ascii(t, i);
        valid_utf8_split(t, i);
        valid_utf8_split(t, i + 1);
        assert(a =~= t.subrange(0, i));
        assert(b =~= t.subrange(i + 1, t.len() as int));
        lemma_split_lines_valid(a);
        lemma_split_lines_valid(b);
        assert(t =~= a + (seq![NEWLINE] + b));
        lemma_split_lines_concat(a, seq![NEWLINE] + b);
        lemma_split_after_newline(b);
        lemma_split_lines_shape(a);
        let sa = split_lines(a);
        let sb = split_lines(b);
        assert(sa.last() + Seq::<u8>::empty() =~= sa.last());
        assert(sa.drop_last() + seq![sa.last()] =~= sa);
        assert((seq![Seq::<u8>::empty()] + sb).drop_first() =~= sb);
        assert(split_lines(t) =~= sa + sb);
        assert forall|j: int| 0 <= j < split_lines(t).len() implies valid_utf8(
            #[trigger] split_lines(t)[j],
        ) by {
            if j < sa.len() {
                assert(split_lines(t)[j] == sa[j]);
            } else {
                assert(split_lines(t)[j] == sb[j - sa.len()]);
            }
        }
    }
}

/// The part of `text` between two character boundaries, as a new string.
pub fn substring(text: &str, start: usize, end: usize) -> (r: String)
    requires
        start <= end <= encode_utf8(text@).len(),
        is_char_boundary(encode_utf8(text@), start as int),
        is_char_boundary(encode_utf8(text@), end as int),
    ensures
        encode_utf8(r@) == encode_utf8(text@).subrange(start as int, end as int),
{
    let ghost b = encode_utf8(text@);
    let (_, tail) = text.split_at(start);
    proof {
        lemma_boundary_in_suffix(b, start as int, end as int);
        assert(encode_utf8(tail@) =~= b.subrange(start as int, b.len() as int));
    }
    let (mid, _) = tail.split_at(end - start);
    let r = mid.to_owned();
    proof {
        assert(encode_utf8(mid@) =~= b.subrange(start as int, end as int));
    }
    r
}

/// The pieces of `text` between its `'\n'` characters.
pub fn split_newlines(text: &str) -> (parts: Vec<String>)
    ensures
        strings_bytes(parts@) == split_lines(encode_utf8(text@)),
{
    let ghost b = encode_utf8(text@);
    let bytes = text.as_bytes();
    let n = bytes.len();
    let mut parts: Vec<String> = Vec::new();
    let mut start: usize = 0;
    let mut i: usize = 0;
    proof {
        lemma_boundary_at(b, 0);
        assert(b.take(0) =~= Seq::<u8>::empty());
        assert(b.subrange(0, 0) =~= Seq::<u8>::empty());
        assert(strings_bytes(parts@) + seq![b.subrange(0, 0)] =~= split_lines(b.take(0)));
    }
    while i < n
        invariant
            b == encode_utf8(text@),
            valid_utf8(b),
            bytes@ == b,
            n == b.len(),
            start <= i <= n,
            is_char_boundary(b, start as int),
            strings_bytes(parts@) + seq![b.subrange(start as int, i as int)] == split_lines(
                b.take(i as int),
            ),
        decreases n - i,
    {
        let ghost old_parts = parts@;
        let ghost old_start = start;
        proof {
            assert(b.take(i + 1).drop_last() =~= b.take(i as int));
            assert(b.take(i + 1).last() == b[i as int]);
        }
        if bytes[i] == NEWLINE {
            proof {
                lemma_boundary_at(b, i as int);
            }
            let piece = substring(text, start, i);
            parts.push(piece);
            proof {
                lemma_boundary_after_ascii(b, i as int);
                assert(strings_bytes(parts@) =~= strings_bytes(old_parts).push(
                    b.subrange(old_start as int, i as int),
                ));
                assert(b.subrange(i + 1, i + 1) =~= Seq::<u8>::empty());
                assert(strings_bytes(parts@) + seq![b.subrange(i + 1, i + 1)] =~= (strings_bytes(
                    old_parts,
                ) + seq![b.subrange(old_start as int, i as int)]).push(Seq::<u8>::empty()));
            }
            start = i + 1;
        } else {
            proof {
                let prev = strings_bytes(old_parts) + seq![b.subrange(start as int, i as int)];
                assert(b.subrange(start as int, i + 1) =~= b.subrange(start as int, i as int).push(
                    b[i as int],
                ));
                assert(strings_bytes(parts@) + seq![b.subrange(start as int, i + 1)] =~= prev.update(
                    prev.len() - 1,
                    prev.last().push(b[i as int]),
                ));
            }
        }
        i = i + 1;
    }
    let ghost before = parts@;
    proof {
        lemma_boundary_at(b, n as int);
    }
    let last = substring(text, start, n);
    parts.push(last);
    proof {
        assert(b.take(n as int) =~= b);
        assert(strings_bytes(parts@) =~= strings_bytes(before) + seq![
            b.subrange(start as int, n as int),
        ]);
    }
    parts
}

/// The decimal digit `d` as a character.
pub open spec fn digit_char(d: nat) -> char {
    if d == 0 {
        '0'
    } else if d == 1 {
        '1'
    } else if d == 2 {
        '2'
    } else if d == 3 {
        '3'
    } else if d == 4 {
        '4'
    } else if d == 5 {
        '5'
    } else if d == 6 {
        '6'
    } else if d == 7 {
        '7'
    } else if d == 8 {
        '8'
    } else {
        '9'
    }
}

/// The decimal notation of a natural number, without leading zeros.
pub open spec fn decimal(n: nat) -> Seq<char>
    decreases n,
{
    if n < 10 {
        seq![digit_char(n)]
    } else {
        decimal(n / 10) + seq![digit_char(n % 10)]
    }
}

fn digit_str(d: usize) -> (s: &'static str)
    requires
        d < 10,
    ensures
        s@ == seq![digit_char(d as nat)],
{
    if d == 0 {
        proof {
            reveal_strlit("0");
        }
        "0"
    } else if d == 1 {
        proof {
            reveal_strlit("1");
        }
        "1"
    } else if d == 2 {
        proof {
            reveal_strlit("2");
        }
        "2"
    } else if d == 3 {
        proof {
            reveal_strlit("3");
        }
        "3"
    } else if d == 4 {
        proof {
            reveal_strlit("4");
        }
        "4"
    } else if d == 5 {
        proof {
            reveal_strlit("5");
        }
        "5"
    } else if d == 6 {
        proof {
            reveal_strlit("6");
        }
        "6"
    } else if d == 7 {
        proof {
            reveal_strlit("7");
        }
        "7"
    } else if d == 8 {
        proof {
            reveal_strlit("8");
        }
        "8"
    } else {
        proof {
            reveal_strlit("9");
        }
        "9"
    }
}

/// Appends the decimal notation of `n` to `out`.
pub fn push_decimal(out: &mut String, n: u64)
    ensures
        final(out)@ == old(out)@ + decimal(n as nat),
    decreases n,
{
    if n >= 10 {
        push_decimal(out, n / 10);
    }
    out.append(digit_str((n % 10) as usize));
    proof {
        assert(out@ =~= old(out)@ + decimal(n as nat));
    }
}

} // verus!
