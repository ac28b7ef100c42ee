//! Character-level building blocks shared by the three components: line splitting,
//! whitespace trimming and decimal page-number recognition.
use vstd::prelude::*;

verus! {

/// Unicode `White_Space`, the set that `char::is_whitespace` and `str::trim` use.
pub open spec fn is_ws(c: char) -> bool {
    ('\u{9}' <= c && c <= '\u{d}') || c == ' ' || c == '\u{85}' || c == '\u{a0}'
        || c == '\u{1680}' || ('\u{2000}' <= c && c <= '\u{200a}') || c == '\u{2028}'
        || c == '\u{2029}' || c == '\u{202f}' || c == '\u{205f}' || c == '\u{3000}'
}

pub open spec fn is_digit(c: char) -> bool {
    '0' <= c && c <= '9'
}

pub open spec fn all_digits(s: Seq<char>) -> bool {
    forall|i: int| 0 <= i < s.len() ==> is_digit(#[trigger] s[i])
}

pub open spec fn digit_value(c: char) -> nat {
    (c as u32 - '0' as u32) as nat
}

/// The number that a string of decimal digits spells.
pub open spec fn decimal_value(s: Seq<char>) -> nat
    decreases s.len(),
{
    if s.len() == 0 {
        0
    } else {
        decimal_value(s.drop_last()) * 10 + digit_value(s.last())
    }
}

pub open spec fn trim_start(s: Seq<char>) -> Seq<char>
    decreases s.len(),
{
    if s.len() > 0 && is_ws(s[0]) {
        trim_start(s.drop_first())
    } else {
        s
    }
}

pub open spec fn trim_end(s: Seq<char>) -> Seq<char>
    decreases s.len(),
{
    if s.len() > 0 && is_ws(s.last()) {
        trim_end(s.drop_last())
    } else {
        s
    }
}

/// `s` without leading and trailing whitespace.
pub open spec fn trim(s: Seq<char>) -> Seq<char> {
    trim_end(trim_start(s))
}

/// A line that, once trimmed, is a non-empty run of decimal digits.
pub open spec fn is_number_line(l: Seq<char>) -> bool {
    trim(l).len() > 0 && all_digits(trim(l))
}

/// The page number a line stands for: a number line whose value fits in `u32`.
pub open spec fn page_marker(l: Seq<char>) -> Option<u32> {
    if is_number_line(l) && decimal_value(trim(l)) <= u32::MAX {
        Some(decimal_value(trim(l)) as u32)
    } else {
        None
    }
}

/// The pieces of `s` between `'\n'` characters; there is always one more piece
/// than there are newlines.
pub open spec fn pieces(s: Seq<char>) -> Seq<Seq<char>>
    decreases s.len(),
{
    if s.len() == 0 {
        seq![Seq::empty()]
    } else {
        let p = pieces(s.drop_last());
        if s.last() == '\n' {
            p.push(Seq::empty())
        } else {
            p.update(p.len() - 1, p.last().push(s.last()))
        }
    }
}

/// A line ended by `"\r\n"` loses its `'\r'`.
pub open spec fn strip_cr(l: Seq<char>) -> Seq<char> {
    if l.len() > 0 && l.last() == '\r' {
        l.drop_last()
    } else {
        l
    }
}

/// The lines of `s`: each newline ends one (and an `"\r\n"` ending is removed
/// with it); the text after the last newline is a final line when it is non-empty.
pub open spec fn lines(s: Seq<char>) -> Seq<Seq<char>> {
    let p = pieces(s);
    let closed = p.drop_last().map_values(|l: Seq<char>| strip_cr(l));
    if p.last().len() == 0 {
        closed
    } else {
        closed.push(p.last())
    }
}

pub proof fn lemma_pieces_nonempty(s: Seq<char>)
    ensures
        pieces(s).len() >= 1,
    decreases s.len(),
{
    if s.len() > 0 {
        lemma_pieces_nonempty(s.drop_last());
    }
}

pub proof fn lemma_pieces_no_newline(s: Seq<char>)
    ensures
        forall|i: int, j: int|
            0 <= i < pieces(s).len() && 0 <= j < pieces(s)[i].len() ==> #[trigger] pieces(
                s,
            )[i][j] != '\n',
    decreases s.len(),
{
    if s.len() > 0 {
        lemma_pieces_no_newline(s.drop_last());
        lemma_pieces_nonempty(s.drop_last());
        let p = pieces(s.drop_last());
        if s.last() != '\n' {
            assert forall|i: int, j: int|
                0 <= i < pieces(s).len() && 0 <= j < pieces(s)[i].len() implies #[trigger] pieces(
                s,
            )[i][j] != '\n' by {
                if i == p.len() - 1 && j == p.last().len() {
                } else {
                    assert(pieces(s)[i][j] == p[i][j]);
                }
            }
        }
    }
}

proof fn lemma_decimal_prefix(s: Seq<char>, k: int)
    requires
        0 <= k <= s.len(),
    ensures
        decimal_value(s.take(k)) <= decimal_value(s),
    decreases s.len() - k,
{
    if k < s.len() {
        lemma_decimal_prefix(s, k + 1);
        assert(s.take(k + 1).drop_last() =~= s.take(k));
    } else {
        assert(s.take(k) =~= s);
    }
}

/// Relies on `String::push`: appends one character.
#[verifier::external_body]
pub(crate) fn push_char(s: &mut String, c: char)
    ensures
        final(s)@ == old(s)@.push(c),
{
    s.push(c);
}

/// The characters of `s`, in order.
pub fn chars_of(s: &str) -> (r: Vec<char>)
    ensures
        r@ == s@,
{
    broadcast use vstd::string::group_string_axioms;

    let mut r: Vec<char> = Vec::new();
    for c in it: s.chars()
        invariant
            r@ == it.seq().take(it.index() as int),
            it.seq() == s@,
    {
        r.push(c);
    }
    r
}

/// Appends `v[lo..hi]` to `out`.
pub fn push_range(out: &mut String, v: &Vec<char>, lo: usize, hi: usize)
    requires
        lo <= hi <= v.len(),
    ensures
        final(out)@ == old(out)@ + v@.subrange(lo as int, hi as int),
{
    let mut i = lo;
    while i < hi
        invariant
            lo <= i <= hi <= v.len(),
            out@ == old(out)@ + v@.subrange(lo as int, i as int),
        decreases hi - i,
    {
        push_char(out, v[i]);
        i = i + 1;
        assert(out@ =~= old(out)@ + v@.subrange(lo as int, i as int));
    }
}

/// A new string holding `v[lo..hi]`.
pub fn string_of(v: &Vec<char>, lo: usize, hi: usize) -> (r: String)
    requires
        lo <= hi <= v.len(),
    ensures
        r@ == v@.subrange(lo as int, hi as int),
{
    let mut r = String::new();
    push_range(&mut r, v, lo, hi);
    assert(r@ =~= v@.subrange(lo as int, hi as int));
    r
}

pub fn is_ws_char(c: char) -> (r: bool)
    ensures
        r == is_ws(c),
{
    ('\u{9}' <= c && c <= '\u{d}') || c == ' ' || c == '\u{85}' || c == '\u{a0}'
        || c == '\u{1680}' || ('\u{2000}' <= c && c <= '\u{200a}') || c == '\u{2028}'
        || c == '\u{2029}' || c == '\u{202f}' || c == '\u{205f}' || c == '\u{3000}'
}

/// The bounds of the trimmed part of `v`.
pub fn trim_bounds(v: &Vec<char>) -> (r: (usize, usize))
    ensures
        r.0 <= r.1 <= v.len(),
        v@.subrange(r.0 as int, r.1 as int) == trim(v@),
{
    let n = v.len();
    let mut lo: usize = 0;
    assert(v@.subrange(0, n as int) =~= v@);
    while lo < n && is_ws_char(v[lo])
        invariant
            lo <= n == v.len(),
            trim_start(v@) == trim_start(v@.subrange(lo as int, n as int)),
        decreases n - lo,
    {
        assert(v@.subrange(lo as int, n as int).drop_first() =~= v@.subrange(
            lo + 1,
            n as int,
        ));
        lo = lo + 1;
    }
    let mut hi: usize = n;
    while hi > lo && is_ws_char(v[hi - 1])
        invariant
            lo <= hi <= n == v.len(),
            trim_start(v@) == v@.subrange(lo as int, n as int),
            trim(v@) == trim_end(v@.subrange(lo as int, hi as int)),
        decreases hi - lo,
    {
        assert(v@.subrange(lo as int, hi as int).drop_last() =~= v@.subrange(
            lo as int,
            hi - 1,
        ));
        hi = hi - 1;
    }
    (lo, hi)
}

/// Whether `v` is a number line.
pub fn number_line(v: &Vec<char>) -> (r: bool)
    ensures
        r == is_number_line(v@),
{
    let (lo, hi) = trim_bounds(v);
    let ghost t = v@.subrange(lo as int, hi as int);
    if lo == hi {
        return false;
    }
    let mut i = lo;
    while i < hi
        invariant
            lo <= i <= hi <= v.len(),
            t == v@.subrange(lo as int, hi as int),
            t == trim(v@),
            forall|j: int| lo <= j < i ==> is_digit(#[trigger] v@[j]),
        decreases hi - i,
    {
        if !('0' <= v[i] && v[i] <= '9') {
            assert(t[i - lo] == v@[i as int]);
            assert(!is_digit(t[i - lo]));
            assert(t == trim(v@));
            return false;
        }
        i = i + 1;
    }
    assert forall|j: int| 0 <= j < t.len() implies is_digit(#[trigger] t[j]) by {
        assert(t[j] == v@[lo + j]);
    }
    true
}

/// The page number `v` stands for, if it is a marker line.
pub fn marker_value(v: &Vec<char>) -> (r: Option<u32>)
    ensures
        r == page_marker(v@),
{
    if !number_line(v) {
        return None;
    }
    let (lo, hi) = trim_bounds(v);
    let ghost t = v@.subrange(lo as int, hi as int);
    let mut acc: u64 = 0;
    let mut i = lo;
    while i < hi
        invariant
            lo <= i <= hi <= v.len(),
            t == v@.subrange(lo as int, hi as int),
            t == trim(v@),
            all_digits(t),
            acc == decimal_value(t.take(i - lo)),
            acc <= u32::MAX,
        decreases hi - i,
    {
        assert(t.take(i - lo + 1).drop_last() =~= t.take(i - lo));
        assert(t[i - lo] == v@[i as int]);
        assert(is_digit(t[i - lo]));
        let d = (v[i] as u32 - '0' as u32) as u64;
        assert(d == digit_value(t.take(i - lo + 1).last()));
        acc = acc * 10 + d;
        i = i + 1;
        assert(acc == decimal_value(t.take(i - lo)));
        if acc > u32::MAX as u64 {
            proof {
                lemma_decimal_prefix(t, i - lo);
                assert(t == trim(v@));
                assert(decimal_value(trim(v@)) > u32::MAX);
            }
            return None;
        }
    }
    assert(t.take(hi - lo) =~= t);
    Some(acc as u32)
}

/// The lines of `v`, as `lines` describes them.
pub fn split_lines(v: &Vec<char>) -> (r: Vec<Vec<char>>)
    ensures
        r.len() == lines(v@).len(),
        forall|i: int| 0 <= i < r.len() ==> #[trigger] r[i]@ == lines(v@)[i],
{
    let n = v.len();
    let mut done: Vec<Vec<char>> = Vec::new();
    let mut cur: Vec<char> = Vec::new();
    let mut i: usize = 0;
    while i < n
        invariant
            i <= n == v.len(),
            pieces(v@.take(i as int)).len() == done.len() + 1,
            cur@ == pieces(v@.take(i as int)).last(),
            forall|j: int|
                0 <= j < done.len() ==> #[trigger] done[j]@ == strip_cr(
                    pieces(v@.take(i as int))[j],
                ),
        decreases n - i,
    {
        let ghost before = v@.take(i as int);
        proof {
            lemma_pieces_nonempty(before);
            assert(v@.take(i + 1).drop_last() =~= before);
        }
        let c = v[i];
        if c == '\n' {
            if cur.len() > 0 && cur[cur.len() - 1] == '\r' {
                cur.pop();
            }
            done.push(cur);
            cur = Vec::new();
            assert(cur@ =~= Seq::<char>::empty());
        } else {
            cur.push(c);
        }
        i = i + 1;
    }
    proof {
        assert(v@.take(n as int) =~= v@);
    }
    let ghost p = pieces(v@);
    let ghost closed = p.drop_last().map_values(|l: Seq<char>| strip_cr(l));
    assert(done@.map_values(|l: Vec<char>| l@) =~= closed);
    if cur.len() > 0 {
        done.push(cur);
    }
    assert(done@.map_values(|l: Vec<char>| l@) =~= lines(v@));
    assert forall|i: int| 0 <= i < done.len() implies #[trigger] done[i]@ == lines(v@)[i] by {
        assert(done@.map_values(|l: Vec<char>| l@)[i] == done[i]@);
    }
    done
}

} // verus!
