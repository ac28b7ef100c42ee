//! The page segmenter: rebuilds per-page text from a flat text stream, taking each
//! standalone numeric line as the marker that opens a page.
use vstd::prelude::*;
use crate::text::{chars_of, is_number_line, lines, marker_value, page_marker, split_lines, string_of, trim, trim_bounds};

verus! {

/// One logical page: its number and its trimmed, non-empty text.
#[derive(Debug, Clone)]
pub struct Page {
    pub page: u32,
    pub text: String,
}

impl View for Page {
    type V = (u32, Seq<char>);

    open spec fn view(&self) -> (u32, Seq<char>) {
        (self.page, self.text@)
    }
}

/// The running state of the segmenter: the open page (0 while none is open),
/// the text gathered for it, and the pages emitted so far.
pub struct SegmentState {
    pub page: u32,
    pub buffer: Seq<char>,
    pub out: Seq<(u32, Seq<char>)>,
}

pub open spec fn initial_state() -> SegmentState {
    SegmentState { page: 0, buffer: Seq::empty(), out: Seq::empty() }
}

/// `out` with the page `(page, trim(buffer))` added when that text is non-empty.
pub open spec fn emit(out: Seq<(u32, Seq<char>)>, page: u32, buffer: Seq<char>) -> Seq<(u32, Seq<char>)> {
    if trim(buffer).len() > 0 {
        out.push((page, trim(buffer)))
    } else {
        out
    }
}

/// One line through the segmenter. A marker closes the open page, if any, and
/// opens its own; any other line is appended to the buffer as it stands.
pub open spec fn step(st: SegmentState, line: Seq<char>) -> SegmentState {
    match page_marker(line) {
        Some(v) => if st.page > 0 {
            SegmentState { page: v, buffer: Seq::empty(), out: emit(st.out, st.page, st.buffer) }
        } else {
            SegmentState { page: v, ..st }
        },
        None => SegmentState { buffer: st.buffer + line, ..st },
    }
}

pub open spec fn run(ls: Seq<Seq<char>>) -> SegmentState
    decreases ls.len(),
{
    if ls.len() == 0 {
        initial_state()
    } else {
        step(run(ls.drop_last()), ls.last())
    }
}

/// The pages of `t`: the state after its last line, with the open page closed.
pub open spec fn pages_of(t: Seq<char>) -> Seq<(u32, Seq<char>)> {
    let st = run(lines(t));
    if st.page > 0 {
        emit(st.out, st.page, st.buffer)
    } else {
        st.out
    }
}

/// Every page emitted has a number above 0 and non-empty text.
pub open spec fn well_formed_pages(ps: Seq<(u32, Seq<char>)>) -> bool {
    forall|i: int| 0 <= i < ps.len() ==> (#[trigger] ps[i]).0 > 0 && ps[i].1.len() > 0
}

proof fn lemma_run_well_formed(ls: Seq<Seq<char>>)
    ensures
        well_formed_pages(run(ls).out),
    decreases ls.len(),
{
    if ls.len() > 0 {
        lemma_run_well_formed(ls.drop_last());
    }
}

/// Splits `text` into pages at its standalone numeric lines.
pub fn split_text_into_pages(text: &str) -> (r: Vec<Page>)
    ensures
        r.len() == pages_of(text@).len(),
        forall|i: int| 0 <= i < r.len() ==> #[trigger] r[i]@ == pages_of(text@)[i],
        well_formed_pages(pages_of(text@)),
{
    let chars = chars_of(text);
    let ls = split_lines(&chars);
    let ghost all = lines(text@);
    let mut pages: Vec<Page> = Vec::new();
    let mut current: u32 = 0;
    let mut buffer: Vec<char> = Vec::new();
    let mut i: usize = 0;
    while i < ls.len()
        invariant
            i <= ls.len() == all.len(),
            all == lines(text@),
            forall|j: int| 0 <= j < ls.len() ==> #[trigger] ls[j]@ == all[j],
            run(all.take(i as int)).page == current,
            run(all.take(i as int)).buffer == buffer@,
            pages@.map_values(|p: Page| p@) == run(all.take(i as int)).out,
        decreases ls.len() - i,
    {
        proof {
            assert(all.take(i + 1).drop_last() =~= all.take(i as int));
        }
        let line = &ls[i];
        match marker_value(line) {
            Some(v) => {
                if current > 0 {
                    let (lo, hi) = trim_bounds(&buffer);
                    if lo < hi {
                        let t = string_of(&buffer, lo, hi);
                        pages.push(Page { page: current, text: t });
                    }
                    buffer = Vec::new();
                }
                current = v;
            },
            None => {
                let mut j: usize = 0;
                let ghost start = buffer@;
                while j < line.len()
                    invariant
                        j <= line.len(),
                        buffer@ == start + line@.take(j as int),
                    decreases line.len() - j,
                {
                    buffer.push(line[j]);
                    j = j + 1;
                    assert(buffer@ =~= start + line@.take(j as int));
                }
                assert(line@.take(line.len() as int) =~= line@);
            },
        }
        i = i + 1;
        assert(pages@.map_values(|p: Page| p@) =~= run(all.take(i as int)).out);
    }
    assert(all.take(ls.len() as int) =~= all);
    if current > 0 {
        let (lo, hi) = trim_bounds(&buffer);
        if lo < hi {
            let t = string_of(&buffer, lo, hi);
            pages.push(Page { page: current, text: t });
        }
    }
    proof {
        lemma_run_well_formed(all);
        assert(pages@.map_values(|p: Page| p@) =~= pages_of(text@));
        assert forall|k: int| 0 <= k < pages.len() implies #[trigger] pages[k]@ == pages_of(
            text@,
        )[k] by {
            assert(pages@.map_values(|p: Page| p@)[k] == pages[k]@);
        }
    }
    pages
}

proof fn lemma_run_without_markers(ls: Seq<Seq<char>>)
    requires
        forall|i: int| 0 <= i < ls.len() ==> !is_number_line(#[trigger] ls[i]),
    ensures
        run(ls).page == 0,
        run(ls).out.len() == 0,
    decreases ls.len(),
{
    if ls.len() > 0 {
        let init = ls.drop_last();
        assert forall|i: int| 0 <= i < init.len() implies !is_number_line(#[trigger] init[i]) by {
            assert(init[i] == ls[i]);
        }
        lemma_run_without_markers(init);
        assert(!is_number_line(ls[ls.len() - 1]));
    }
}

/// A text none of whose lines is a standalone number has no pages: no page is
/// ever opened.
pub proof fn lemma_no_markers_no_pages(t: Seq<char>)
    requires
        forall|i: int| 0 <= i < lines(t).len() ==> !is_number_line(#[trigger] lines(t)[i]),
    ensures
        pages_of(t).len() == 0,
{
    lemma_run_without_markers(lines(t));
}

} // verus!
