//! A first-in, first-out byte queue built from chunks of an arena.

use crate::arena::{Arena, ArenaView, ChunkToken, Releasable};
use crate::buf_proofs::{
    lemma_empty_iff, lemma_extended, lemma_fed, lemma_gathered_len, lemma_head, lemma_popped,
    lemma_popped_linked, lemma_skipped, lemma_total_len_take,
};
use crate::chunk::{Chunk, ChunkView};
use crate::writer::{NetWriter, PartialResult};
use std::collections::VecDeque;
use vstd::prelude::*;

verus! {

/// Sum of the fill levels of `chunks`.
pub open spec fn total_len(chunks: Seq<ChunkView>) -> nat
    decreases chunks.len(),
{
    if chunks.len() == 0 {
        0
    } else {
        total_len(chunks.drop_last()) + chunks.last().len
    }
}

/// The filled parts of `chunks`, read out of the arena and joined in order.
pub open spec fn gathered(chunks: Seq<ChunkView>, arena: ArenaView) -> Seq<u8>
    decreases chunks.len(),
{
    if chunks.len() == 0 {
        Seq::empty()
    } else {
        gathered(chunks.drop_last(), arena) + chunks.last().bytes_in(arena)
    }
}

/// What a buffer is: its chunks from head to tail, and how many bytes of the
/// head chunk were drained already.
pub struct NetBufView {
    pub chunks: Seq<ChunkView>,
    pub pos: nat,
}

impl NetBufView {
    /// The buffer without chunks.
    pub open spec fn empty() -> NetBufView {
        NetBufView { chunks: Seq::empty(), pos: 0 }
    }

    /// Number of bytes that wait to be drained.
    pub open spec fn len(self) -> nat {
        (total_len(self.chunks) - self.pos) as nat
    }

    /// The bytes that wait to be drained, in the order in which they were
    /// written.
    pub open spec fn contents(self, arena: ArenaView) -> Seq<u8> {
        gathered(self.chunks, arena).skip(self.pos as int)
    }

    /// The part of the head chunk that waits to be drained: what is offered
    /// to a sink next.
    pub open spec fn head(self, arena: ArenaView) -> Seq<u8> {
        self.chunks[0].bytes_in(arena).skip(self.pos as int)
    }

    /// The slots that the buffer's chunks occupy, from head to tail.
    pub open spec fn tokens(self) -> Seq<ChunkToken> {
        Seq::new(self.chunks.len(), |i: int| self.chunks[i].token)
    }

    /// The cursor lies inside the head chunk and the length fits the machine.
    pub open spec fn sound(self) -> bool {
        &&& self.chunks.len() == 0 ==> self.pos == 0
        &&& self.chunks.len() > 0 ==> self.pos <= self.chunks[0].len
        &&& self.pos <= total_len(self.chunks)
        &&& self.len() <= usize::MAX
    }

    /// Every chunk is a slot of the arena that is not free, no two chunks
    /// share a slot, and every chunk but the tail is full.
    pub open spec fn linked(self, arena: ArenaView) -> bool {
        &&& arena.wf()
        &&& forall|i: int|
            0 <= i < self.chunks.len() ==> (#[trigger] self.chunks[i]).wf() && self.chunks[i].fits(
                arena,
            ) && arena.is_live(self.chunks[i].token)
        &&& forall|i: int|
            0 <= i < self.chunks.len() - 1 ==> (#[trigger] self.chunks[i]).len
                == self.chunks[i].cap
        &&& forall|i: int, j: int|
            0 <= i < j < self.chunks.len() ==> (#[trigger] self.chunks[i]).token != (
            #[trigger] self.chunks[j]).token
    }

    /// The buffer after `n` more bytes went into the tail chunk.
    pub open spec fn fed(self, n: nat) -> NetBufView {
        NetBufView {
            chunks: self.chunks.update(self.chunks.len() - 1, self.chunks.last().grown(n)),
            ..self
        }
    }

    /// The buffer after `c` became its tail chunk.
    pub open spec fn extended(self, c: ChunkView) -> NetBufView {
        NetBufView { chunks: self.chunks.push(c), ..self }
    }

    /// The buffer after its head chunk was drained to the end and dropped.
    pub open spec fn popped(self) -> NetBufView {
        NetBufView { chunks: self.chunks.skip(1), pos: 0 }
    }

    /// The buffer after `n` more bytes of the head chunk were drained.
    pub open spec fn skipped(self, n: nat) -> NetBufView {
        NetBufView { pos: self.pos + n, ..self }
    }

    /// A write of `data` leads from this buffer in `arena` to `after` in
    /// `pool`: the bytes are appended and nothing that waited is lost.
    pub open spec fn wrote(
        self,
        arena: ArenaView,
        data: Seq<u8>,
        after: NetBufView,
        pool: ArenaView,
    ) -> bool {
        &&& after.wf(pool)
        &&& after.contents(pool) == self.contents(arena) + data
        &&& after.len() == self.len() + data.len()
    }

    /// Number of chunks that the buffer has more in `after`.
    pub open spec fn chunks_taken(self, after: NetBufView) -> nat {
        (after.chunks.len() - self.chunks.len()) as nat
    }

    /// On the way from this buffer in `arena` to `after` in `pool`, chunks
    /// came from the arena as a write takes them: one acquisition after the
    /// other, each new chunk behind the tail, the cursor and the arena's
    /// sizing untouched, and no byte changed in a slot that is not one of the
    /// buffer's.
    pub open spec fn took_chunks(self, arena: ArenaView, after: NetBufView, pool: ArenaView) -> bool {
        &&& after.pos == self.pos
        &&& after.chunks.len() >= self.chunks.len()
        &&& pool.chunk_size == arena.chunk_size
        &&& pool.chunks_per_slab == arena.chunks_per_slab
        &&& pool.slabs.len() >= arena.slabs.len()
        &&& pool.same_accounting(arena.acquired_n(self.chunks_taken(after)))
        &&& after.tokens() == self.tokens() + arena.issued(self.chunks_taken(after))
        &&& forall|t: ChunkToken|
            arena.in_range(t) && !after.tokens().contains(t) ==> #[trigger] pool.slot(t)
                == arena.slot(t)
    }

    /// Number of chunks that the buffer has fewer in `after`.
    pub open spec fn chunks_given(self, after: NetBufView) -> int {
        self.chunks.len() - after.chunks.len()
    }

    /// On the way from this buffer in `arena` to `after` in `pool`, chunks
    /// went back to the arena as a drain returns them: from the head on, each
    /// slot pushed on the free stack, the other chunks as they were and no
    /// byte changed.
    pub open spec fn gave_chunks(self, arena: ArenaView, after: NetBufView, pool: ArenaView) -> bool {
        &&& after.chunks.len() <= self.chunks.len()
        &&& after.chunks == self.chunks.skip(self.chunks_given(after))
        &&& pool == arena.released_all(self.tokens().take(self.chunks_given(after)))
    }

    /// The two buffers have no slot in common.
    pub open spec fn apart(self, other: NetBufView) -> bool {
        forall|i: int, j: int|
            0 <= i < self.chunks.len() && 0 <= j < other.chunks.len() ==> (
            #[trigger] self.chunks[i]).token != (#[trigger] other.chunks[j]).token
    }

    /// Number of bytes that left the buffer on the way to `after`.
    pub open spec fn took(self, after: NetBufView) -> int {
        self.len() - after.len()
    }

    /// The bytes that left the buffer on the way to `after`.
    pub open spec fn emitted(self, arena: ArenaView, after: NetBufView) -> Seq<u8> {
        self.contents(arena).take(self.took(after))
    }

    /// A drain leads from this buffer in `arena` to `after` in `pool`: what
    /// is left is what waited, without the bytes that were emitted at its
    /// front.
    pub open spec fn drained(self, arena: ArenaView, after: NetBufView, pool: ArenaView) -> bool {
        &&& after.wf(pool)
        &&& after.len() <= self.len()
        &&& after.contents(pool) == self.contents(arena).skip(self.took(after))
    }

    /// The buffer is linked to the arena, no chunk is empty, and the cursor
    /// points at a byte of the head chunk.
    pub open spec fn wf(self, arena: ArenaView) -> bool {
        &&& self.linked(arena)
        &&& self.sound()
        &&& self.chunks.len() > 0 ==> self.pos < self.chunks[0].len && self.chunks.last().len >= 1
    }
}

/// A queue of bytes. Bytes are appended at the tail with `write` and leave
/// at the head with `write_to`; the chunks that hold them come from an arena
/// and go back to it as they run empty.
pub struct NetBuf {
    chunks: VecDeque<Chunk>,
    pos: usize,
}

impl View for NetBuf {
    type V = NetBufView;

    closed spec fn view(&self) -> NetBufView {
        NetBufView {
            chunks: Seq::new(self.chunks@.len(), |i: int| self.chunks@[i]@),
            pos: self.pos as nat,
        }
    }
}

impl NetBuf {
    /// An empty buffer for use with `arena`.
    pub fn new(arena: &Arena) -> (buf: NetBuf)
        ensures
            buf@ == NetBufView::empty(),
            arena@.wf() ==> buf@.wf(arena@),
    {
        let buf = NetBuf { chunks: VecDeque::new(), pos: 0 };
        assert(buf@.chunks =~= Seq::empty());
        buf
    }

    /// Appends all of `data` at the tail. The tail chunk is filled up first;
    /// each time it is full, one more chunk is taken from the arena. An empty
    /// `data` changes nothing and takes no chunk.
    pub fn write(&mut self, arena: &mut Arena, data: &[u8])
        requires
            old(self)@.wf(old(arena)@),
            old(self)@.len() + data@.len() <= usize::MAX,
        ensures
            old(self)@.wrote(old(arena)@, data@, final(self)@, final(arena)@),
            old(self)@.took_chunks(old(arena)@, final(self)@, final(arena)@),
            data@.len() == 0 ==> final(self)@ == old(self)@ && final(arena)@ == old(arena)@,
    {
        let total: usize = data.len();
        proof {
            lemma_gathered_len(self@.chunks, arena@);
            assert(self@.tokens() + arena@.issued(0) =~= self@.tokens());
            assert(data@.take(0) =~= Seq::<u8>::empty());
            assert(gathered(self@.chunks, arena@) + data@.take(0) =~= gathered(
                self@.chunks,
                arena@,
            ));
        }
        if total == 0 {
            proof {
                assert(self@.contents(arena@) + data@ =~= self@.contents(arena@));
            }
            return ;
        }
        if self.chunks.len() == 0 {
            let chunk = arena.new_chunk();
            self.chunks.push_back(chunk);
            proof {
                lemma_extended(old(self)@, old(arena)@);
                assert(self@.chunks =~= old(self)@.extended(chunk@).chunks);
                assert(self@.tokens() =~= old(self)@.tokens().push(chunk@.token));
                reveal_with_fuel(ArenaView::acquired_n, 2);
                reveal_with_fuel(ArenaView::issued, 2);
                assert(self@.tokens() =~= old(self)@.tokens() + old(arena)@.issued(1));
            }
        }
        let mut done: usize = 0;
        while done < total
            invariant
                total == data@.len(),
                done <= total,
                total >= 1,
                old(self)@.wf(old(arena)@),
                old(self)@.len() + data@.len() <= usize::MAX,
                gathered(old(self)@.chunks, old(arena)@).len() == total_len(old(self)@.chunks),
                self@.linked(arena@),
                self@.pos == old(self)@.pos,
                self@.chunks.len() > 0,
                self@.chunks.len() >= old(self)@.chunks.len(),
                old(self)@.chunks.len() > 0 ==> self@.chunks[0].len >= old(self)@.chunks[0].len,
                self@.chunks.last().len >= 1 || done < total,
                gathered(self@.chunks, arena@) == gathered(old(self)@.chunks, old(arena)@)
                    + data@.take(done as int),
                total_len(self@.chunks) == total_len(old(self)@.chunks) + done,
                arena@.slabs.len() >= old(arena)@.slabs.len(),
                arena@.chunk_size == old(arena)@.chunk_size,
                arena@.chunks_per_slab == old(arena)@.chunks_per_slab,
                arena@.same_accounting(
                    old(arena)@.acquired_n(
                        (self@.chunks.len() - old(self)@.chunks.len()) as nat,
                    ),
                ),
                self@.tokens() == old(self)@.tokens() + old(arena)@.issued(
                    (self@.chunks.len() - old(self)@.chunks.len()) as nat,
                ),
                forall|t: ChunkToken|
                    old(arena)@.in_range(t) && !self@.tokens().contains(t) ==> #[trigger] arena@.slot(
                        t,
                    ) == old(arena)@.slot(t),
            decreases total - done, self@.chunks.last().len,
        {
            let ghost before = self@;
            let ghost pool = arena@;
            let ghost k = (before.chunks.len() - old(self)@.chunks.len()) as nat;
            let mut tail = self.chunks.pop_back().unwrap();
            assert(tail@ == before.chunks.last());
            let written: usize = arena.write_chunk(&mut tail, &data[done..total]);
            self.chunks.push_back(tail);
            proof {
                let piece = data@.subrange(done as int, total as int).take(written as int);
                lemma_fed(before, pool, piece);
                assert(self@.chunks =~= before.fed(written as nat).chunks);
                assert(data@.take(done + written) =~= data@.take(done as int) + piece);
                assert(before.tokens()[before.chunks.len() - 1] == before.chunks.last().token);
                assert forall|t: ChunkToken|
                    old(arena)@.in_range(t) && !self@.tokens().contains(
                        t,
                    ) implies #[trigger] arena@.slot(t) == old(arena)@.slot(t) by {
                    assert(pool.slot(t) == old(arena)@.slot(t));
                    assert(pool.in_range(t));
                    assert(t != before.chunks.last().token);
                }
            }
            if written == 0 {
                let ghost mid = self@;
                let ghost pool_mid = arena@;
                let chunk = arena.new_chunk();
                self.chunks.push_back(chunk);
                proof {
                    lemma_extended(mid, pool_mid);
                    assert(self@.chunks =~= mid.extended(chunk@).chunks);
                    assert(self@.tokens() =~= mid.tokens().push(chunk@.token));
                    pool_mid.lemma_acquired_accounting(old(arena)@.acquired_n(k));
                    reveal_with_fuel(ArenaView::acquired_n, 2);
                    reveal_with_fuel(ArenaView::issued, 2);
                    assert(self@.tokens() =~= old(self)@.tokens() + old(arena)@.issued(k + 1));
                    pool_mid.lemma_acquired();
                    assert forall|t: ChunkToken|
                        old(arena)@.in_range(t) && !self@.tokens().contains(
                            t,
                        ) implies #[trigger] arena@.slot(t) == old(arena)@.slot(t) by {
                        if mid.tokens().contains(t) {
                            let i = choose|i: int| 0 <= i < mid.tokens().len() && mid.tokens()[i] == t;
                            assert(self@.tokens()[i] == t);
                        }
                        assert(pool_mid.slot(t) == old(arena)@.slot(t));
                        assert(pool_mid.in_range(t));
                    }
                }
            } else {
                done = done + written;
            }
        }
        proof {
            assert(data@.take(done as int) =~= data@);
            let g = gathered(old(self)@.chunks, old(arena)@);
            assert((g + data@).skip(self@.pos as int) =~= g.skip(self@.pos as int) + data@);
        }
    }

    /// The part of the head chunk that waits to be drained: the slice that a
    /// sink is offered next.
    pub fn pending<'a>(&self, arena: &'a Arena) -> (bytes: &'a [u8])
        requires
            self@.wf(arena@),
            self@.len() > 0,
        ensures
            bytes@ == self@.head(arena@),
            bytes@.len() >= 1,
    {
        proof {
            lemma_head(self@, arena@);
            arena@.lemma_slot_bounds(self@.chunks[0].token);
            assert(self@.chunks[0] == self.chunks@[0]@);
        }
        let chunk = &self.chunks[0];
        let filled = chunk.as_slice(arena.slab(chunk.token().holder));
        &filled[self.pos..filled.len()]
    }

    /// Takes in a sink's answer to the slice that `pending` gave it. After
    /// `Ok`, the head chunk is drained: it is dropped, its slot goes back to
    /// the arena, and the result says whether the buffer is empty now. After
    /// a short write, the cursor moves on by the number of bytes taken, the
    /// head chunk stays, and the sink's error is handed on.
    pub fn advance(&mut self, arena: &mut Arena, res: Result<usize, PartialResult>) -> (out: Result<
        bool,
        std::io::Error,
    >)
        requires
            old(self)@.wf(old(arena)@),
            old(self)@.len() > 0,
            (match res {
                Ok(_) => true,
                Err(PartialResult(n, _)) => n < old(self)@.head(old(arena)@).len(),
            }),
        ensures
            old(self)@.drained(old(arena)@, final(self)@, final(arena)@),
            (match res {
                Ok(_) => {
                    &&& final(self)@ == old(self)@.popped()
                    &&& final(arena)@ == old(arena)@.released(old(self)@.chunks[0].token)
                    &&& out == Ok::<bool, std::io::Error>(final(self)@.len() == 0)
                    &&& old(self)@.emitted(old(arena)@, final(self)@) == old(self)@.head(
                        old(arena)@,
                    )
                },
                Err(PartialResult(n, e)) => {
                    &&& final(self)@ == old(self)@.skipped(n as nat)
                    &&& final(arena)@ == old(arena)@
                    &&& out == Err::<bool, std::io::Error>(e)
                    &&& old(self)@.emitted(old(arena)@, final(self)@) == old(self)@.head(
                        old(arena)@,
                    ).take(n as int)
                },
            }),
    {
        proof {
            lemma_head(self@, arena@);
        }
        match res {
            Ok(_) => {
                self.pos = 0;
                let chunk = self.chunks.pop_front().unwrap();
                arena.release(chunk.token());
                proof {
                    lemma_popped(old(self)@, old(arena)@);
                    assert(self@.chunks =~= old(self)@.popped().chunks);
                    lemma_empty_iff(self@, arena@);
                }
                Ok(self.chunks.len() == 0)
            },
            Err(PartialResult(written, err)) => {
                proof {
                    lemma_skipped(self@, arena@, written as nat);
                    self.chunks@[0].lemma_bounded();
                }
                self.pos = self.pos + written;
                Err(err)
            },
        }
    }

    /// Drains the buffer into `w`, head first, until the buffer is empty or
    /// the sink takes less than it was offered. In the first case the result
    /// is `Ok`; in the second it is the sink's error, and the bytes that the
    /// sink did take are gone from the buffer, so that a later call goes on
    /// with the next byte. An empty buffer gives `Ok` and offers the sink
    /// nothing.
    pub fn write_to<W: NetWriter>(&mut self, arena: &mut Arena, w: &mut W) -> (res: Result<
        (),
        std::io::Error,
    >)
        requires
            old(self)@.wf(old(arena)@),
        ensures
            old(self)@.drained(old(arena)@, final(self)@, final(arena)@),
            final(w).accepted() == old(w).accepted() + old(self)@.emitted(
                old(arena)@,
                final(self)@,
            ),
            old(self)@.gave_chunks(old(arena)@, final(self)@, final(arena)@),
            (match res {
                Ok(_) => final(self)@.len() == 0,
                Err(e) => final(self)@.len() > 0 && final(w).failure() == Some(e),
            }),
            old(self)@.len() == 0 ==> *final(w) == *old(w),
            old(self)@.len() > 0 && res is Ok ==> final(w).failure() is None,
    {
        proof {
            lemma_empty_iff(self@, arena@);
            assert(self@.contents(arena@).take(0) =~= Seq::<u8>::empty());
            assert(w.accepted() + self@.contents(arena@).take(0) =~= w.accepted());
            assert(self@.contents(arena@).skip(0) =~= self@.contents(arena@));
            assert(self@.chunks.skip(0) =~= self@.chunks);
            assert(arena@.free + self@.tokens().take(0) =~= arena@.free);
        }
        while self.chunks.len() > 0
            invariant
                old(self)@.wf(old(arena)@),
                old(self)@.contents(old(arena)@).len() == old(self)@.len(),
                self@.wf(arena@),
                self@.len() <= old(self)@.len(),
                w.accepted() == old(w).accepted() + old(self)@.contents(old(arena)@).take(
                    old(self)@.len() - self@.len(),
                ),
                self@.contents(arena@) == old(self)@.contents(old(arena)@).skip(
                    old(self)@.len() - self@.len(),
                ),
                self@.chunks.len() <= old(self)@.chunks.len(),
                self@.chunks == old(self)@.chunks.skip(
                    old(self)@.chunks.len() - self@.chunks.len(),
                ),
                arena@ == old(arena)@.released_all(
                    old(self)@.tokens().take(old(self)@.chunks.len() - self@.chunks.len()),
                ),
                old(self)@.len() == 0 ==> *w == *old(w),
                self@.len() < old(self)@.len() ==> w.failure() is None,
            decreases self@.chunks.len(),
        {
            let ghost before = self@;
            let ghost pool = arena@;
            let ghost all = old(self)@.contents(old(arena)@);
            let ghost k = old(self)@.len() - before.len();
            let ghost j = old(self)@.chunks.len() - before.chunks.len();
            proof {
                lemma_empty_iff(before, pool);
                lemma_head(before, pool);
            }
            let res = w.write(self.pending(arena));
            let ghost answer = res;
            let out = self.advance(arena, res);
            proof {
                let head = before.head(pool);
                match answer {
                    Ok(_) => {
                        lemma_popped(before, pool);
                        let n = head.len() as int;
                        assert(all.take(k + n) =~= all.take(k) + all.skip(k).take(n));
                        assert(all.skip(k).skip(n) =~= all.skip(k + n));
                        assert(self@.chunks =~= old(self)@.chunks.skip(j + 1));
                        assert(old(self)@.tokens().take(j + 1) =~= old(self)@.tokens().take(j).push(
                            before.chunks[0].token,
                        ));
                        assert(arena@.free =~= old(arena)@.free + old(self)@.tokens().take(j + 1));
                    },
                    Err(PartialResult(n, _)) => {
                        lemma_skipped(before, pool, n as nat);
                        assert(all.take(k + n) =~= all.take(k) + all.skip(k).take(n as int));
                        assert(all.skip(k).skip(n as int) =~= all.skip(k + n));
                    },
                }
            }
            match out {
                Ok(_) => {},
                Err(e) => {
                    return Err(e);
                },
            }
        }
        proof {
            lemma_empty_iff(self@, arena@);
        }
        Ok(())
    }

    /// Ends the buffer's life: every chunk's slot goes back to the arena,
    /// head first.
    pub fn release(self, arena: &mut Arena)
        requires
            self@.wf(old(arena)@),
        ensures
            final(arena)@ == old(arena)@.released_all(self@.tokens()),
            final(arena)@.wf(),
    {
        let ghost start = self@;
        let mut rest = NetBuf { chunks: self.chunks, pos: 0 };
        proof {
            assert(rest@.chunks =~= start.chunks);
            assert(arena@.free + start.tokens().take(0) =~= arena@.free);
            assert(start.chunks.skip(0) =~= start.chunks);
        }
        while rest.chunks.len() > 0
            invariant
                rest@.linked(arena@),
                rest@.chunks.len() <= start.chunks.len(),
                rest@.chunks == start.chunks.skip(start.chunks.len() - rest@.chunks.len()),
                arena@ == old(arena)@.released_all(
                    start.tokens().take(start.chunks.len() - rest@.chunks.len()),
                ),
            decreases rest@.chunks.len(),
        {
            let ghost before = rest@;
            let ghost pool = arena@;
            let ghost j = start.chunks.len() - before.chunks.len();
            let chunk = rest.chunks.pop_front().unwrap();
            arena.release(chunk.token());
            proof {
                lemma_popped_linked(before, pool);
                assert(rest@.chunks =~= before.popped().chunks);
                assert(rest@.chunks =~= start.chunks.skip(j + 1));
                assert(start.tokens().take(j + 1) =~= start.tokens().take(j).push(
                    before.chunks[0].token,
                ));
                assert(arena@.free =~= old(arena)@.free + start.tokens().take(j + 1));
            }
        }
        proof {
            assert(start.tokens().take(start.chunks.len() as int) =~= start.tokens());
        }
    }

    /// Number of bytes that wait to be drained.
    pub fn len(&self) -> (n: usize)
        requires
            self@.sound(),
        ensures
            n == self@.len(),
    {
        let count: usize = self.chunks.len();
        if count == 0 {
            return 0;
        }
        proof {
            lemma_total_len_take(self@.chunks, 0);
            assert(self@.chunks.take(0) =~= Seq::<ChunkView>::empty());
        }
        let mut total: usize = self.chunks[0].len() - self.pos;
        let mut i: usize = 1;
        while i < count
            invariant
                1 <= i <= count,
                count == self@.chunks.len(),
                count == self.chunks@.len(),
                self@.sound(),
                total == total_len(self@.chunks.take(i as int)) - self.pos,
            decreases count - i,
        {
            proof {
                lemma_total_len_take(self@.chunks, i as int);
                lemma_total_len_take(self@.chunks, i + 1);
            }
            total = total + self.chunks[i].len();
            i = i + 1;
        }
        proof {
            assert(self@.chunks.take(i as int) =~= self@.chunks);
        }
        total
    }
}

} // verus!
