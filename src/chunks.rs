//! The overlapping chunker: fixed-size windows of characters, each sharing its
//! first `overlap` characters with the end of the window before it.
use vstd::prelude::*;
use crate::text::{chars_of, string_of};

verus! {

/// One window of the text and its position in window order.
#[derive(Debug, Clone)]
pub struct TextChunk {
    pub id: u32,
    pub text: String,
}

impl View for TextChunk {
    type V = (u32, Seq<char>);

    open spec fn view(&self) -> (u32, Seq<char>) {
        (self.id, self.text@)
    }
}

/// A chunk configuration that cannot advance: `overlap` is not below `chunk_size`
/// (which takes in `chunk_size == 0`).
#[derive(Debug, Clone, Copy, PartialEq, Eq, Structural)]
pub struct ChunkConfigError {
    pub chunk_size: u32,
    pub overlap: u32,
}

/// The windows of `t` from `start` on: each `size` characters long but the last,
/// which ends with the text; each starts `size - overlap` after the one before.
pub open spec fn windows_from(t: Seq<char>, start: nat, size: nat, overlap: nat) -> Seq<Seq<char>>
    decreases t.len() - start,
{
    if overlap >= size || start >= t.len() {
        Seq::empty()
    } else if start + size >= t.len() {
        seq![t.subrange(start as int, t.len() as int)]
    } else {
        seq![t.subrange(start as int, (start + size) as int)] + windows_from(
            t,
            (start + size - overlap) as nat,
            size,
            overlap,
        )
    }
}

/// The chunk texts of `t` under a valid configuration.
pub open spec fn chunks_of(t: Seq<char>, size: nat, overlap: nat) -> Seq<Seq<char>> {
    windows_from(t, 0, size, overlap)
}

/// Cuts `text` into windows of `chunk_size` characters whose starts lie
/// `chunk_size - overlap` apart, numbered from 0. Fails, before any work, when
/// `overlap` is not below `chunk_size`.
pub fn chunk_text(text: &str, chunk_size: u32, overlap: u32) -> (r: Result<
    Vec<TextChunk>,
    ChunkConfigError,
>)
    requires
        text@.len() <= u32::MAX,
    ensures
        overlap >= chunk_size <==> r is Err,
        r is Err ==> r == Err::<Vec<TextChunk>, _>(ChunkConfigError { chunk_size, overlap }),
        r is Ok ==> ({
            let cs = r->Ok_0;
            let want = chunks_of(text@, chunk_size as nat, overlap as nat);
            &&& cs.len() == want.len()
            &&& forall|i: int| 0 <= i < cs.len() ==> #[trigger] cs[i]@ == (i as u32, want[i])
        }),
{
    if overlap >= chunk_size {
        return Err(ChunkConfigError { chunk_size, overlap });
    }
    let chars = chars_of(text);
    let n = chars.len();
    let size = chunk_size as usize;
    let stride = (chunk_size - overlap) as usize;
    let ghost want = chunks_of(text@, chunk_size as nat, overlap as nat);
    let mut out: Vec<TextChunk> = Vec::new();
    if n == 0 {
        assert(out@.len() == want.len());
        return Ok(out);
    }
    let mut start: usize = 0;
    loop
        invariant
            start < n == chars.len() <= u32::MAX,
            chars@ == text@,
            size == chunk_size,
            stride == chunk_size - overlap,
            overlap < chunk_size,
            out.len() <= start,
            want == chunks_of(text@, chunk_size as nat, overlap as nat),
            want == out@.map_values(|c: TextChunk| c@.1) + windows_from(
                text@,
                start as nat,
                chunk_size as nat,
                overlap as nat,
            ),
            forall|i: int| 0 <= i < out.len() ==> (#[trigger] out[i]).id == i,
        decreases n - start,
    {
        let ghost before = out@.map_values(|c: TextChunk| c@.1);
        let end = if n - start <= size {
            n
        } else {
            start + size
        };
        let piece = string_of(&chars, start, end);
        out.push(TextChunk { id: out.len() as u32, text: piece });
        assert(out@.map_values(|c: TextChunk| c@.1) =~= before.push(piece@));
        if end == n {
            assert(want =~= out@.map_values(|c: TextChunk| c@.1));
            assert forall|i: int| 0 <= i < out.len() implies #[trigger] out[i]@ == (
                i as u32,
                want[i],
            ) by {
                assert(out@.map_values(|c: TextChunk| c@.1)[i] == out[i]@.1);
            }
            return Ok(out);
        }
        start = start + stride;
        assert(want =~= out@.map_values(|c: TextChunk| c@.1) + windows_from(
            text@,
            start as nat,
            chunk_size as nat,
            overlap as nat,
        ));
    }
}

/// Each chunk of `cs` without its first `overlap` characters, concatenated.
pub open spec fn tail_parts(cs: Seq<Seq<char>>, overlap: nat) -> Seq<char>
    decreases cs.len(),
{
    if cs.len() == 0 {
        Seq::empty()
    } else {
        cs[0].skip(overlap as int) + tail_parts(cs.drop_first(), overlap)
    }
}

/// The first chunk whole, then the part of each later chunk that the one before
/// it does not hold.
pub open spec fn reassemble(cs: Seq<Seq<char>>, overlap: nat) -> Seq<char> {
    if cs.len() == 0 {
        Seq::empty()
    } else {
        cs[0] + tail_parts(cs.drop_first(), overlap)
    }
}

proof fn lemma_tail_parts(t: Seq<char>, start: nat, size: nat, overlap: nat)
    requires
        overlap < size,
        start + overlap < t.len(),
    ensures
        tail_parts(windows_from(t, start, size, overlap), overlap) == t.subrange(
            (start + overlap) as int,
            t.len() as int,
        ),
    decreases t.len() - start,
{
    let ws = windows_from(t, start, size, overlap);
    if start + size >= t.len() {
        assert(ws[0] == t.subrange(start as int, t.len() as int));
        assert(ws.drop_first() =~= Seq::<Seq<char>>::empty());
        assert(tail_parts(ws.drop_first(), overlap) =~= Seq::<char>::empty());
        assert(t.subrange(start as int, t.len() as int).skip(overlap as int) + Seq::<char>::empty()
            =~= t.subrange((start + overlap) as int, t.len() as int));
    } else {
        let next = (start + size - overlap) as nat;
        lemma_tail_parts(t, next, size, overlap);
        assert(ws.drop_first() =~= windows_from(t, next, size, overlap));
        assert(ws[0] == t.subrange(start as int, (start + size) as int));
        assert(t.subrange(start as int, (start + size) as int).skip(overlap as int) + t.subrange(
            (start + size) as int,
            t.len() as int,
        ) =~= t.subrange((start + overlap) as int, t.len() as int));
    }
}

/// For every valid configuration, the first chunk followed by the new part of
/// each later chunk is the whole text again.
pub proof fn lemma_chunks_reassemble(t: Seq<char>, size: nat, overlap: nat)
    requires
        overlap < size,
    ensures
        reassemble(chunks_of(t, size, overlap), overlap) == t,
{
    let ws = chunks_of(t, size, overlap);
    if t.len() == 0 {
        assert(ws.len() == 0);
        assert(t =~= Seq::<char>::empty());
    } else if size >= t.len() {
        assert(ws.drop_first() =~= Seq::<Seq<char>>::empty());
        assert(t.subrange(0, t.len() as int) + Seq::<char>::empty() =~= t);
    } else {
        let next = (size - overlap) as nat;
        lemma_tail_parts(t, next, size, overlap);
        assert(ws.drop_first() =~= windows_from(t, next, size, overlap));
        assert(t.subrange(0, size as int) + t.subrange(size as int, t.len() as int) =~= t);
    }
}

} // verus!
