//! A cursor over a document's chunks that serves a parser the bytes found at
//! any offset it asks for, stepping from the chunk it last served.
use crate::encoding::byte_len;
use crate::rope::{rope_chunk_seq, rope_chunks, rope_len_bytes, rope_text};
use ropey::Rope;
use vstd::prelude::*;

verus! {

/// Total length of the first `k` chunks.
pub open spec fn chunk_offset(cs: Seq<Seq<u8>>, k: nat) -> nat
    decreases cs.len(),
{
    if k == 0 || cs.len() == 0 {
        0
    } else {
        cs[0].len() + chunk_offset(cs.drop_first(), (k - 1) as nat)
    }
}

/// End of the chunk that holds byte `p` of the chunks' concatenation, empty
/// chunks being skipped; the total length for `p` at or past the end.
pub open spec fn chunk_end(cs: Seq<Seq<u8>>, p: int) -> int
    decreases cs.len(),
{
    if cs.len() == 0 {
        0
    } else if p < cs[0].len() {
        cs[0].len() as int
    } else {
        cs[0].len() + chunk_end(cs.drop_first(), p - cs[0].len())
    }
}

/// What a read at byte `p`, with an optional end `bound`, serves: the bytes
/// from `p` to the end of the chunk that holds it, cut at `bound` when that
/// comes first (nothing when `bound` is at or before `p`).
pub open spec fn served(cs: Seq<Seq<u8>>, p: int, bound: Option<int>) -> Seq<u8> {
    let end = match bound {
        Some(b) => if b <= p {
            p
        } else if b < chunk_end(cs, p) {
            b
        } else {
            chunk_end(cs, p)
        },
        None => chunk_end(cs, p),
    };
    cs.flatten().subrange(p, end)
}

/// The bytes that reads at `p`, then at the end of what that served, and so
/// on up to the end, serve one after another.
pub open spec fn served_through(cs: Seq<Seq<u8>>, p: int) -> Seq<u8>
    decreases cs.flatten().len() - p,
{
    let total = cs.flatten().len() as int;
    let e = chunk_end(cs, p);
    if p < 0 || p >= total || e <= p || e > total {
        Seq::empty()
    } else {
        served(cs, p, None) + served_through(cs, e)
    }
}

proof fn lemma_chunk_end_bounds(cs: Seq<Seq<u8>>, p: int)
    requires
        0 <= p <= cs.flatten().len(),
    ensures
        p < cs.flatten().len() ==> p < chunk_end(cs, p) <= cs.flatten().len(),
        p == cs.flatten().len() ==> chunk_end(cs, p) == p,
    decreases cs.len(),
{
    if cs.len() > 0 {
        assert(cs.flatten() == cs[0] + cs.drop_first().flatten());
        if p >= cs[0].len() {
            lemma_chunk_end_bounds(cs.drop_first(), p - cs[0].len());
        }
    }
}

proof fn lemma_offset_step(cs: Seq<Seq<u8>>, k: nat)
    requires
        k < cs.len(),
    ensures
        chunk_offset(cs, k + 1) == chunk_offset(cs, k) + cs[k as int].len(),
    decreases cs.len(),
{
    if k > 0 {
        assert(cs.drop_first()[k - 1] == cs[k as int]);
        lemma_offset_step(cs.drop_first(), (k - 1) as nat);
    } else {
        assert(chunk_offset(cs.drop_first(), 0) == 0);
    }
}

proof fn lemma_offset_total(cs: Seq<Seq<u8>>, k: nat)
    ensures
        chunk_offset(cs, k) <= cs.flatten().len(),
        k >= cs.len() ==> chunk_offset(cs, k) == cs.flatten().len(),
    decreases cs.len(),
{
    if cs.len() > 0 {
        assert(cs.flatten() == cs[0] + cs.drop_first().flatten());
        if k > 0 {
            lemma_offset_total(cs.drop_first(), (k - 1) as nat);
        }
    }
}

/// Inside chunk `k`, the chunk that holds a byte ends where chunk `k` ends.
proof fn lemma_chunk_end_in(cs: Seq<Seq<u8>>, k: nat, p: int)
    requires
        k < cs.len(),
        chunk_offset(cs, k) <= p < chunk_offset(cs, k) + cs[k as int].len(),
    ensures
        chunk_end(cs, p) == chunk_offset(cs, k) + cs[k as int].len(),
    decreases cs.len(),
{
    if k > 0 {
        assert(cs.drop_first()[k - 1] == cs[k as int]);
        lemma_chunk_end_in(cs.drop_first(), (k - 1) as nat, p - cs[0].len());
    }
}

/// The bytes of chunk `k`, seen in the concatenation.
proof fn lemma_chunk_bytes(cs: Seq<Seq<u8>>, k: nat, a: int, b: int)
    requires
        k < cs.len(),
        0 <= a <= b <= cs[k as int].len(),
    ensures
        cs.flatten().subrange(chunk_offset(cs, k) + a, chunk_offset(cs, k) + b) == cs[k as int].subrange(
            a,
            b,
        ),
    decreases cs.len(),
{
    assert(cs.flatten() == cs[0] + cs.drop_first().flatten());
    if k == 0 {
        assert(cs.flatten().subrange(a, b) =~= cs[0].subrange(a, b));
    } else {
        assert(cs.drop_first()[k - 1] == cs[k as int]);
        lemma_chunk_bytes(cs.drop_first(), (k - 1) as nat, a, b);
        lemma_offset_step(cs.drop_first(), (k - 1) as nat);
        lemma_offset_total(cs.drop_first(), k);
        let o = chunk_offset(cs.drop_first(), (k - 1) as nat);
        assert(cs.flatten().subrange(cs[0].len() + o + a, cs[0].len() + o + b)
            =~= cs.drop_first().flatten().subrange(o + a, o + b));
    }
}

proof fn lemma_served_through_rest(cs: Seq<Seq<u8>>, p: int)
    requires
        0 <= p <= cs.flatten().len(),
    ensures
        served_through(cs, p) == cs.flatten().subrange(p, cs.flatten().len() as int),
    decreases cs.flatten().len() - p,
{
    let total = cs.flatten().len() as int;
    lemma_chunk_end_bounds(cs, p);
    if p == total {
        assert(cs.flatten().subrange(p, total) =~= Seq::<u8>::empty());
    } else {
        let e = chunk_end(cs, p);
        lemma_served_through_rest(cs, e);
        assert(cs.flatten().subrange(p, e) + cs.flatten().subrange(e, total) =~= cs.flatten().subrange(
            p,
            total,
        ));
    }
}

/// Reading from the start, then from where each read ended, up to the end,
/// yields the whole document, whatever its chunks (empty ones included).
pub proof fn lemma_reads_cover_document(cs: Seq<Seq<u8>>)
    ensures
        served_through(cs, 0) == cs.flatten(),
{
    lemma_served_through_rest(cs, 0);
    assert(cs.flatten().subrange(0, cs.flatten().len() as int) =~= cs.flatten());
}

/// A read depends on the rope's chunks and the offset alone: a walker that
/// has gone past the offset, or was built at another one, serves what a new
/// walker over the same rope serves.
pub proof fn lemma_read_independent_of_cursor(
    rope: Rope,
    advanced: &ChunkWalker,
    fresh: &ChunkWalker,
    p: int,
    bound: Option<int>,
)
    requires
        advanced.chunks_view() == rope_chunk_seq(rope),
        fresh.chunks_view() == rope_chunk_seq(rope),
    ensures
        served(advanced.chunks_view(), p, bound) == served(fresh.chunks_view(), p, bound),
{
}

/// A cursor over a document's chunks. It owns the document, so that the
/// chunks stay valid for as long as it is read.
pub struct ChunkWalker {
    rope: Rope,
    chunks: Vec<Vec<u8>>,
    index: usize,
    cursor: usize,
}

impl ChunkWalker {
    /// The chunks, in order.
    pub closed spec fn chunks_view(&self) -> Seq<Seq<u8>> {
        self.chunks@.map_values(|c: Vec<u8>| c@)
    }

    /// The bytes of the document.
    pub open spec fn document(&self) -> Seq<u8> {
        self.chunks_view().flatten()
    }

    /// Byte offset where the current chunk starts.
    pub closed spec fn cursor_view(&self) -> nat {
        self.cursor as nat
    }

    /// Length of the current chunk (zero past the last one).
    pub closed spec fn current_len_view(&self) -> nat {
        if self.index < self.chunks.len() {
            self.chunks_view()[self.index as int].len()
        } else {
            0
        }
    }

    /// Position of the current chunk in the sequence of chunks.
    pub closed spec fn index_view(&self) -> nat {
        self.index as nat
    }

    /// The current chunk is chunk `index` (none past the last one), the
    /// cursor is where it starts, and the chunks are the rope's.
    pub closed spec fn wf(&self) -> bool {
        &&& self.index <= self.chunks.len()
        &&& self.chunks_view() == rope_chunk_seq(self.rope)
        &&& self.cursor == chunk_offset(self.chunks_view(), self.index as nat)
        &&& self.document().len() == byte_len(rope_text(self.rope))
        &&& self.document().len() <= usize::MAX
        &&& vstd::utf8::decode_utf8(self.document()) == rope_text(self.rope)
    }

    /// A walker over `rope`'s chunks, at the chunk that holds `byte_idx`.
    pub(crate) fn new(rope: Rope, byte_idx: usize) -> (r: ChunkWalker)
        requires
            byte_idx <= byte_len(rope_text(rope)),
        ensures
            r.wf(),
            r.document().len() == byte_len(rope_text(rope)),
            r.chunks_view() == rope_chunk_seq(rope),
            vstd::utf8::decode_utf8(r.document()) == rope_text(rope),
            r.cursor_view() <= byte_idx,
            byte_idx < r.cursor_view() + r.current_len_view() || byte_idx == byte_len(rope_text(rope)),
    {
        let chunks = rope_chunks(&rope);
        let total = rope_len_bytes(&rope);
        let ghost cs = chunks@.map_values(|c: Vec<u8>| c@);
        let mut index: usize = 0;
        let mut cursor: usize = 0;
        while index < chunks.len() && chunks[index].len() <= byte_idx - cursor
            invariant
                cs == chunks@.map_values(|c: Vec<u8>| c@),
                cs.flatten().len() == byte_len(rope_text(rope)),
                byte_idx <= cs.flatten().len(),
                index <= chunks.len(),
                cursor == chunk_offset(cs, index as nat),
                cursor <= byte_idx,
            decreases chunks.len() - index,
        {
            proof {
                lemma_offset_step(cs, index as nat);
            }
            cursor = cursor + chunks[index].len();
            index = index + 1;
        }
        proof {
            if index >= chunks.len() {
                lemma_offset_total(cs, index as nat);
            } else {
                assert(cs[index as int] == chunks@[index as int]@);
            }
        }
        ChunkWalker { rope, chunks, index, cursor }
    }

    fn current_len(&self) -> (n: usize)
        requires
            self.wf(),
        ensures
            n == self.current_len_view(),
            self.cursor + n <= self.document().len(),
    {
        proof {
            if self.index < self.chunks.len() {
                lemma_offset_step(self.chunks_view(), self.index as nat);
                lemma_offset_total(self.chunks_view(), self.index as nat + 1);
            } else {
                lemma_offset_total(self.chunks_view(), self.index as nat);
            }
        }
        if self.index < self.chunks.len() {
            self.chunks[self.index].len()
        } else {
            0
        }
    }

    /// Steps back to the previous chunk, and on over empty ones while the
    /// document's start is not reached.
    fn prev_chunk(&mut self)
        requires
            old(self).wf(),
            old(self).cursor > 0,
        ensures
            final(self).wf(),
            final(self).chunks_view() == old(self).chunks_view(),
            final(self).rope == old(self).rope,
            final(self).index < old(self).index,
            final(self).current_len_view() > 0,
            final(self).cursor + final(self).current_len_view() == old(self).cursor,
    {
        let ghost cs = self.chunks_view();
        proof {
            if self.index == 0 {
                assert(chunk_offset(cs, 0) == 0);
            }
        }
        self.index = self.index - 1;
        proof {
            lemma_offset_step(cs, self.index as nat);
        }
        assert(cs[self.index as int] == self.chunks@[self.index as int]@);
        self.cursor = self.cursor - self.chunks[self.index].len();
        while 0 < self.cursor && self.chunks[self.index].len() == 0
            invariant
                self.wf(),
                self.chunks_view() == cs,
                self.rope == old(self).rope,
                self.index < self.chunks.len(),
                self.index < old(self).index,
                self.cursor + cs[self.index as int].len() == old(self).cursor,
            decreases self.index,
        {
            proof {
                if self.index == 0 {
                    assert(chunk_offset(cs, 0) == 0);
                }
                assert(cs[self.index as int] == self.chunks@[self.index as int]@);
            }
            self.index = self.index - 1;
            proof {
                lemma_offset_step(cs, self.index as nat);
                assert(cs[self.index as int] == self.chunks@[self.index as int]@);
            }
            self.cursor = self.cursor - self.chunks[self.index].len();
        }
    }

    /// Steps on to the next chunk, and on over empty ones while the document's
    /// end is not reached.
    fn next_chunk(&mut self)
        requires
            old(self).wf(),
            old(self).index < old(self).chunks.len(),
        ensures
            final(self).wf(),
            final(self).chunks_view() == old(self).chunks_view(),
            final(self).rope == old(self).rope,
            final(self).index > old(self).index,
            final(self).cursor_view() == old(self).cursor + old(self).current_len_view(),
            final(self).current_len_view() == 0 ==> final(self).cursor_view() == final(self).document().len(),
    {
        let ghost cs = self.chunks_view();
        let len = self.current_len();
        proof {
            lemma_offset_step(cs, self.index as nat);
        }
        self.cursor = self.cursor + len;
        self.index = self.index + 1;
        while self.cursor < rope_len_bytes(&self.rope) && self.current_len() == 0
            invariant
                self.wf(),
                self.chunks_view() == cs,
                self.rope == old(self).rope,
                self.index > old(self).index,
                self.cursor == old(self).cursor + len,
            decreases self.chunks.len() - self.index,
        {
            proof {
                lemma_offset_total(cs, self.index as nat);
                lemma_offset_step(cs, self.index as nat);
            }
            self.index = self.index + 1;
        }
        proof {
            lemma_offset_total(cs, self.index as nat);
        }
    }

    /// Length of the document, in bytes.
    pub fn len_bytes(&self) -> (n: usize)
        requires
            self.wf(),
        ensures
            n == self.document().len(),
    {
        rope_len_bytes(&self.rope)
    }

    /// The bytes from `start_index` to the end of the chunk that holds it, cut
    /// at `end_index` when that comes first. Stepping starts from the chunk
    /// that the previous read served.
    pub fn callback_adapter(&mut self, start_index: u32, end_index: Option<u32>) -> (r: Vec<u8>)
        requires
            old(self).wf(),
            start_index <= old(self).document().len(),
        ensures
            final(self).wf(),
            final(self).chunks_view() == old(self).chunks_view(),
            r@ == served(
                old(self).chunks_view(),
                start_index as int,
                match end_index {
                    Some(e) => Some(e as int),
                    None => None,
                },
            ),
            final(self).cursor_view() <= start_index,
            start_index < final(self).cursor_view() + final(self).current_len_view() || start_index
                == final(self).document().len(),
            final(self).index_view() <= final(self).chunks_view().len(),
            old(self).cursor_view() <= start_index < old(self).cursor_view() + old(self).current_len_view()
                ==> final(self).index_view() == old(self).index_view(),
    {
        let ghost cs = self.chunks_view();
        let start = start_index as usize;
        while start < self.cursor
            invariant
                self.wf(),
                self.chunks_view() == cs,
                start <= cs.flatten().len(),
                cs == old(self).chunks_view(),
                old(self).cursor <= start < old(self).cursor + old(self).current_len_view() ==> (
                self.index == old(self).index && self.cursor == old(self).cursor),
            decreases self.index,
        {
            proof {
                if self.index == 0 {
                    assert(chunk_offset(cs, 0) == 0);
                }
            }
            self.prev_chunk();
        }
        let total = rope_len_bytes(&self.rope);
        while self.cursor + self.current_len() <= start && self.cursor + self.current_len() < total
            invariant
                self.wf(),
                self.chunks_view() == cs,
                total == cs.flatten().len(),
                self.cursor <= start <= total,
                cs == old(self).chunks_view(),
                old(self).cursor <= start < old(self).cursor + old(self).current_len_view() ==> (
                self.index == old(self).index && self.cursor == old(self).cursor),
            decreases self.chunks.len() - self.index,
        {
            proof {
                if self.index >= self.chunks.len() {
                    lemma_offset_total(cs, self.index as nat);
                }
                assert(self.chunks_view().len() == self.chunks@.len());
                assert(old(self).chunks_view().len() == old(self).chunks@.len());
            }
            self.next_chunk();
        }
        let len = self.current_len();
        proof {
            lemma_chunk_end_bounds(cs, start as int);
            if self.index < self.chunks.len() && start < self.cursor + len {
                lemma_chunk_end_in(cs, self.index as nat, start as int);
            } else {
                lemma_offset_total(cs, self.index as nat);
            }
        }
        let from = start - self.cursor;
        let to = match end_index {
            Some(e) => if (e as usize) <= start {
                from
            } else if (e as usize) < self.cursor + len {
                e as usize - self.cursor
            } else {
                len
            },
            None => len,
        };
        let mut out: Vec<u8> = Vec::new();
        if from < to {
            let chunk = &self.chunks[self.index];
            let mut i: usize = from;
            while i < to
                invariant
                    from <= i <= to <= chunk@.len(),
                    out@ == chunk@.subrange(from as int, i as int),
                decreases to - i,
            {
                out.push(chunk[i]);
                i = i + 1;
                assert(out@ =~= chunk@.subrange(from as int, i as int));
            }
            proof {
                assert(cs[self.index as int] == chunk@);
                lemma_chunk_bytes(cs, self.index as nat, from as int, to as int);
            }
        } else {
            assert(out@ =~= cs.flatten().subrange(start as int, start as int));
        }
        out
    }
}

} // verus!
