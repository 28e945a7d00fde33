//! How reading a text into lines treats its line breaks: a `"\r\n"` line
//! break reads as a bare `'\n'`, and every other byte stays.
use vstd::prelude::*;
use crate::text::{
    join_lines, lemma_split_lines_shape, split_lines, strip_carriage_return, text_lines,
    CARRIAGE_RETURN, NEWLINE,
};

verus! {

/// The text with each `"\r\n"` line break written as a bare `'\n'`. Every
/// other byte stays, a `'\r'` that no `'\n'` follows among them.
pub open spec fn crlf_to_lf(b: Seq<u8>) -> Seq<u8>
    decreases b.len(),
{
    if b.len() == 0 {
        Seq::<u8>::empty()
    } else if b.len() >= 2 && b.last() == NEWLINE && b[b.len() - 2] == CARRIAGE_RETURN {
        crlf_to_lf(b.take(b.len() - 2)).push(NEWLINE)
    } else {
        crlf_to_lf(b.drop_last()).push(b.last())
    }
}

/// Adding a byte to the end of the last line adds it to the end of the join.
pub proof fn lemma_join_extend_last(ls: Seq<Seq<u8>>, x: u8)
    requires
        ls.len() >= 1,
    ensures
        join_lines(ls.update(ls.len() - 1, ls.last().push(x))) == join_lines(ls).push(x),
{
    let t = ls.update(ls.len() - 1, ls.last().push(x));
    if ls.len() > 1 {
        assert(t.drop_last() =~= ls.drop_last());
        assert(join_lines(t) =~= join_lines(ls).push(x));
    }
}

/// Reading a text into lines drops exactly the `'\r'` of each `"\r\n"` line
/// break, whatever the length of the line it ends: joining the lines gives
/// back the text with each `"\r\n"` written as `'\n'`.
pub proof fn law_read_drops_crlf(b: Seq<u8>)
    ensures
        join_lines(text_lines(b)) == crlf_to_lf(b),
    decreases b.len(),
{
    if b.len() == 0 {
        assert(text_lines(b) =~= seq![Seq::<u8>::empty()]);
    } else {
        let p = b.drop_last();
        let x = b.last();
        law_read_drops_crlf(p);
        lemma_split_lines_shape(p);
        let sp = split_lines(p);
        let tp = text_lines(p);
        let k = sp.len();
        let tb = text_lines(b);
        if x != NEWLINE {
            assert(split_lines(b) == sp.update(k - 1, sp.last().push(x)));
            assert(tb =~= tp.update(k - 1, tp.last().push(x)));
            lemma_join_extend_last(tp, x);
        } else {
            assert(split_lines(b) == sp.push(Seq::<u8>::empty()));
            let l = sp.last();
            if p.len() > 0 && p.last() == CARRIAGE_RETURN {
                let q = p.drop_last();
                law_read_drops_crlf(q);
                lemma_split_lines_shape(q);
                let sq = split_lines(q);
                let tq = text_lines(q);
                assert(sp == sq.update(sq.len() - 1, sq.last().push(CARRIAGE_RETURN)));
                assert(l == sq.last().push(CARRIAGE_RETURN));
                assert(strip_carriage_return(l) =~= sq.last());
                assert(tb =~= tq.push(Seq::<u8>::empty()));
                assert(tq.push(Seq::<u8>::empty()).drop_last() =~= tq);
                assert(join_lines(tb) =~= join_lines(tq).push(NEWLINE));
                assert(b[b.len() - 2] == p.last());
                assert(b.take(b.len() - 2) =~= q);
            } else {
                assert(strip_carriage_return(l) == l) by {
                    if p.len() > 0 && p.last() != NEWLINE {
                        lemma_split_lines_shape(p.drop_last());
                        let sq = split_lines(p.drop_last());
                        assert(l == sq.last().push(p.last()));
                        assert(l.last() == p.last());
                    }
                }
                assert(tb =~= tp.push(Seq::<u8>::empty()));
                assert(tp.push(Seq::<u8>::empty()).drop_last() =~= tp);
                assert(join_lines(tb) =~= join_lines(tp).push(NEWLINE));
                if b.len() >= 2 {
                    assert(b[b.len() - 2] == p.last());
                }
            }
        }
    }
}

} // verus!
