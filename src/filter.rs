//! The artifact filter: drops lines that hold nothing but a page number.
use vstd::prelude::*;
use crate::text::{
    chars_of, is_number_line, lemma_pieces_no_newline, lemma_pieces_nonempty, lines, number_line,
    pieces, push_char, push_range, split_lines, strip_cr,
};

verus! {

/// The lines of `ls` that are not number lines, in order.
pub open spec fn kept_lines(ls: Seq<Seq<char>>) -> Seq<Seq<char>>
    decreases ls.len(),
{
    if ls.len() == 0 {
        Seq::empty()
    } else if is_number_line(ls.last()) {
        kept_lines(ls.drop_last())
    } else {
        kept_lines(ls.drop_last()).push(ls.last())
    }
}

/// The lines of `ls` joined with `'\n'` between them and none after the last.
pub open spec fn join_lines(ls: Seq<Seq<char>>) -> Seq<char>
    decreases ls.len(),
{
    if ls.len() == 0 {
        Seq::empty()
    } else if ls.len() == 1 {
        ls[0]
    } else {
        join_lines(ls.drop_last()) + seq!['\n'] + ls.last()
    }
}

/// What the filter makes of `t`.
pub open spec fn filtered(t: Seq<char>) -> Seq<char> {
    join_lines(kept_lines(lines(t)))
}

/// Removes every line that, trimmed, is a non-empty run of decimal digits, and
/// joins the remaining lines with single newlines.
pub fn clean_text(text: &str) -> (r: String)
    ensures
        r@ == filtered(text@),
{
    let chars = chars_of(text);
    let ls = split_lines(&chars);
    let ghost all = lines(text@);
    let mut out = String::new();
    let mut count: usize = 0;
    let mut i: usize = 0;
    while i < ls.len()
        invariant
            i <= ls.len() == all.len(),
            all == lines(text@),
            forall|j: int| 0 <= j < ls.len() ==> #[trigger] ls[j]@ == all[j],
            count <= i,
            count == kept_lines(all.take(i as int)).len(),
            out@ == join_lines(kept_lines(all.take(i as int))),
        decreases ls.len() - i,
    {
        let ghost prev = all.take(i as int);
        proof {
            assert(all.take(i + 1).drop_last() =~= prev);
        }
        let line = &ls[i];
        if !number_line(line) {
            if count > 0 {
                push_char(&mut out, '\n');
            }
            push_range(&mut out, line, 0, line.len());
            assert(line@.subrange(0, line@.len() as int) =~= line@);
            proof {
                let k = kept_lines(all.take(i + 1));
                assert(k.drop_last() =~= kept_lines(prev));
                if count == 0 {
                    assert(out@ =~= join_lines(k));
                }
            }
            count = count + 1;
        }
        i = i + 1;
    }
    assert(all.take(ls.len() as int) =~= all);
    out
}

pub open spec fn no_newline(l: Seq<char>) -> bool {
    forall|j: int| 0 <= j < l.len() ==> #[trigger] l[j] != '\n'
}

/// Joining `ls` and splitting the result into lines gives `ls` back: no line but
/// the last ends in `'\r'`, and the last is not an empty line after others.
pub open spec fn rejoins_exactly(ls: Seq<Seq<char>>) -> bool {
    &&& forall|i: int|
        0 <= i < ls.len() - 1 ==> !((#[trigger] ls[i]).len() > 0 && ls[i].last() == '\r')
    &&& ls.len() >= 2 ==> ls.last().len() > 0
}

proof fn lemma_lines_no_newline(t: Seq<char>)
    ensures
        forall|i: int| 0 <= i < lines(t).len() ==> no_newline(#[trigger] lines(t)[i]),
{
    lemma_pieces_no_newline(t);
    lemma_pieces_nonempty(t);
    let p = pieces(t);
    assert forall|i: int| 0 <= i < lines(t).len() implies no_newline(#[trigger] lines(t)[i]) by {
        let l = lines(t)[i];
        if i < p.len() - 1 {
            assert(l == strip_cr(p[i]));
            assert forall|j: int| 0 <= j < l.len() implies #[trigger] l[j] != '\n' by {
                assert(l[j] == p[i][j]);
            }
        } else {
            assert(l == p[i]);
            assert forall|j: int| 0 <= j < l.len() implies #[trigger] l[j] != '\n' by {
                assert(l[j] == p[i][j]);
            }
        }
    }
}

proof fn lemma_kept_lines_plain(ls: Seq<Seq<char>>)
    requires
        forall|i: int| 0 <= i < ls.len() ==> no_newline(#[trigger] ls[i]),
    ensures
        forall|i: int|
            0 <= i < kept_lines(ls).len() ==> no_newline(#[trigger] kept_lines(ls)[i])
                && !is_number_line(kept_lines(ls)[i]),
    decreases ls.len(),
{
    if ls.len() > 0 {
        let init = ls.drop_last();
        assert forall|i: int| 0 <= i < init.len() implies no_newline(#[trigger] init[i]) by {
            assert(init[i] == ls[i]);
        }
        lemma_kept_lines_plain(init);
        assert(no_newline(ls[ls.len() - 1]));
        let k = kept_lines(ls);
        let k0 = kept_lines(init);
        assert forall|i: int| 0 <= i < k.len() implies no_newline(#[trigger] k[i])
            && !is_number_line(k[i]) by {
            if i < k0.len() {
                assert(k[i] == k0[i]);
            }
        }
    }
}

proof fn lemma_kept_lines_of_kept(ls: Seq<Seq<char>>)
    requires
        forall|i: int| 0 <= i < ls.len() ==> !is_number_line(#[trigger] ls[i]),
    ensures
        kept_lines(ls) == ls,
    decreases ls.len(),
{
    if ls.len() > 0 {
        let init = ls.drop_last();
        assert forall|i: int| 0 <= i < init.len() implies !is_number_line(#[trigger] init[i]) by {
            assert(init[i] == ls[i]);
        }
        lemma_kept_lines_of_kept(init);
        assert(init.push(ls.last()) =~= ls);
    }
}

proof fn lemma_pieces_append_plain(a: Seq<char>, b: Seq<char>)
    requires
        no_newline(b),
    ensures
        pieces(a).len() >= 1,
        pieces(a + b) == pieces(a).update(pieces(a).len() - 1, pieces(a).last() + b),
    decreases b.len(),
{
    lemma_pieces_nonempty(a);
    let p = pieces(a);
    if b.len() == 0 {
        assert(a + b =~= a);
        assert(p.last() + b =~= p.last());
        assert(p.update(p.len() - 1, p.last()) =~= p);
    } else {
        let b0 = b.drop_last();
        assert forall|j: int| 0 <= j < b0.len() implies #[trigger] b0[j] != '\n' by {
            assert(b0[j] == b[j]);
        }
        lemma_pieces_append_plain(a, b0);
        assert((a + b).drop_last() =~= a + b0);
        assert(b[b.len() - 1] != '\n');
        assert((p.last() + b0).push(b.last()) =~= p.last() + b);
        assert(pieces(a + b) =~= p.update(p.len() - 1, p.last() + b));
    }
}

proof fn lemma_pieces_of_join(ls: Seq<Seq<char>>)
    requires
        ls.len() >= 1,
        forall|i: int| 0 <= i < ls.len() ==> no_newline(#[trigger] ls[i]),
    ensures
        pieces(join_lines(ls)) == ls,
    decreases ls.len(),
{
    if ls.len() == 1 {
        lemma_pieces_append_plain(Seq::empty(), ls[0]);
        assert(Seq::<char>::empty() + ls[0] =~= ls[0]);
        assert(pieces(Seq::<char>::empty()).update(0, Seq::<char>::empty() + ls[0]) =~= ls);
    } else {
        let init = ls.drop_last();
        assert forall|i: int| 0 <= i < init.len() implies no_newline(#[trigger] init[i]) by {
            assert(init[i] == ls[i]);
        }
        lemma_pieces_of_join(init);
        let a = join_lines(init) + seq!['\n'];
        assert(a.drop_last() =~= join_lines(init));
        assert(pieces(a) == init.push(Seq::empty()));
        assert(no_newline(ls[ls.len() - 1]));
        lemma_pieces_append_plain(a, ls.last());
        assert(Seq::<char>::empty() + ls.last() =~= ls.last());
        assert(init.push(Seq::empty()).update(init.len() as int, ls.last()) =~= ls);
    }
}

/// Filtering twice gives what filtering once gives, for every text whose kept
/// lines come back unchanged when joined and split again.
pub proof fn lemma_clean_text_idempotent(t: Seq<char>)
    requires
        rejoins_exactly(kept_lines(lines(t))),
    ensures
        filtered(filtered(t)) == filtered(t),
{
    let ls = kept_lines(lines(t));
    lemma_lines_no_newline(t);
    lemma_kept_lines_plain(lines(t));
    if ls.len() == 0 {
        assert(lines(Seq::<char>::empty()) =~= Seq::<Seq<char>>::empty());
    } else {
        lemma_pieces_of_join(ls);
        let closed = ls.drop_last().map_values(|l: Seq<char>| strip_cr(l));
        assert(closed =~= ls.drop_last());
        if ls.last().len() == 0 {
            assert(ls.len() == 1);
            assert(lines(filtered(t)) =~= Seq::<Seq<char>>::empty());
            assert(filtered(t) =~= Seq::<char>::empty());
        } else {
            assert(lines(filtered(t)) =~= ls);
            lemma_kept_lines_of_kept(ls);
        }
    }
}

} // verus!
