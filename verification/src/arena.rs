//! The pool: slabs of bytes cut into chunk-sized slots, and the stack of the
//! slots that are free.

use crate::buf::{NetBuf, NetBufView};
use crate::chunk::{least, spliced, Chunk, ChunkView};
use vstd::prelude::*;

verus! {

/// Names one chunk-sized slot: the slab that holds it and its index in that
/// slab.
#[derive(Clone, Copy, PartialEq, Eq, Debug, Structural)]
pub struct ChunkToken {
    pub holder: usize,
    pub offset: usize,
}

impl ChunkToken {
    /// The token of slot `offset` in slab `holder`.
    pub fn new(holder: usize, offset: usize) -> (token: ChunkToken)
        ensures
            token == (ChunkToken { holder, offset }),
    {
        ChunkToken { holder, offset }
    }
}

/// Something that takes slots back.
pub trait Releasable {
    /// The tokens that the releaser holds, in the order in which it got them.
    spec fn held(&self) -> Seq<ChunkToken>;

    /// Whatever the releaser is besides the tokens it holds is the same in
    /// `after`.
    spec fn kept(&self, after: &Self) -> bool;

    /// Hands `token` back: it goes on top of what the releaser holds, and
    /// nothing else changes.
    fn release(&mut self, token: ChunkToken)
        ensures
            final(self).held() == old(self).held().push(token),
            old(self).kept(final(self)),
    ;
}

/// What an arena is: the bytes of its slabs, its two sizing parameters, and
/// the stack of free slots with the top at the end.
pub struct ArenaView {
    pub slabs: Seq<Seq<u8>>,
    pub chunk_size: nat,
    pub chunks_per_slab: nat,
    pub free: Seq<ChunkToken>,
}

impl ArenaView {
    /// An arena of the given sizing that has no slab yet.
    pub open spec fn empty(chunk_size: nat, chunks_per_slab: nat) -> ArenaView {
        ArenaView { slabs: Seq::empty(), chunk_size, chunks_per_slab, free: Seq::empty() }
    }

    /// Number of bytes in one slab.
    pub open spec fn slab_len(self) -> nat {
        self.chunk_size * self.chunks_per_slab
    }

    /// Number of slots in all slabs together.
    pub open spec fn capacity(self) -> nat {
        self.slabs.len() * self.chunks_per_slab
    }

    /// The token names a slot that exists.
    pub open spec fn in_range(self, t: ChunkToken) -> bool {
        t.holder < self.slabs.len() && t.offset < self.chunks_per_slab
    }

    /// The slot exists and is not free: a chunk occupies it.
    pub open spec fn is_live(self, t: ChunkToken) -> bool {
        self.in_range(t) && !self.free.contains(t)
    }

    /// The slots that chunks occupy.
    pub open spec fn live(self) -> Set<ChunkToken> {
        Set::new(|t: ChunkToken| self.is_live(t))
    }

    /// Index in its slab at which the slot of `t` starts.
    pub open spec fn base(self, t: ChunkToken) -> nat {
        (t.offset * self.chunk_size) as nat
    }

    /// All bytes of the slot of `t`.
    pub open spec fn slot(self, t: ChunkToken) -> Seq<u8> {
        self.slabs[t.holder as int].subrange(
            self.base(t) as int,
            (self.base(t) + self.chunk_size) as int,
        )
    }

    /// The sizing is positive and fits the machine, every slab has the full
    /// length, and the free stack holds slots that exist, each once.
    pub open spec fn wf(self) -> bool {
        &&& 1 <= self.chunk_size
        &&& 1 <= self.chunks_per_slab
        &&& self.slab_len() <= usize::MAX
        &&& self.slabs.len() <= usize::MAX
        &&& forall|h: int| 0 <= h < self.slabs.len() ==> #[trigger] self.slabs[h].len() == self.slab_len()
        &&& self.free.no_duplicates()
        &&& forall|i: int| 0 <= i < self.free.len() ==> self.in_range(#[trigger] self.free[i])
    }

    /// The slots of the slab that would be allocated next, lowest first.
    pub open spec fn fresh_tokens(self) -> Seq<ChunkToken> {
        Seq::new(
            self.chunks_per_slab,
            |i: int| ChunkToken { holder: self.slabs.len() as usize, offset: i as usize },
        )
    }

    /// The arena after one more slab was allocated: the slab is appended,
    /// zeroed, and its slots go on the free stack, lowest first.
    pub open spec fn grown(self) -> ArenaView {
        ArenaView {
            slabs: self.slabs.push(Seq::new(self.slab_len(), |i: int| 0u8)),
            free: self.free + self.fresh_tokens(),
            ..self
        }
    }

    /// The arena as it is when a slot is about to be taken: grown by a slab
    /// if no slot was free.
    pub open spec fn primed(self) -> ArenaView {
        if self.free.len() == 0 {
            self.grown()
        } else {
            self
        }
    }

    /// The slot that the next acquisition hands out: the top of the free
    /// stack, after growing if nothing was free.
    pub open spec fn next_token(self) -> ChunkToken {
        self.primed().free.last()
    }

    /// The arena after one slot was acquired.
    pub open spec fn acquired(self) -> ArenaView {
        ArenaView { free: self.primed().free.drop_last(), ..self.primed() }
    }

    /// The arena after `t` was handed back.
    pub open spec fn released(self, t: ChunkToken) -> ArenaView {
        ArenaView { free: self.free.push(t), ..self }
    }

    /// The arena after `k` slots were acquired, one after the other.
    pub open spec fn acquired_n(self, k: nat) -> ArenaView
        decreases k,
    {
        if k == 0 {
            self
        } else {
            self.acquired_n((k - 1) as nat).acquired()
        }
    }

    /// The slots that `k` acquisitions in a row hand out, first one first.
    pub open spec fn issued(self, k: nat) -> Seq<ChunkToken>
        decreases k,
    {
        if k == 0 {
            Seq::empty()
        } else {
            self.issued((k - 1) as nat).push(self.acquired_n((k - 1) as nat).next_token())
        }
    }

    /// The arena after the slots `ts` were handed back, first one first.
    pub open spec fn released_all(self, ts: Seq<ChunkToken>) -> ArenaView {
        ArenaView { free: self.free + ts, ..self }
    }

    /// Both arenas have the same sizing, the same number of slabs and the
    /// same free stack: they differ at most in the bytes of their slabs.
    pub open spec fn same_accounting(self, other: ArenaView) -> bool {
        &&& self.chunk_size == other.chunk_size
        &&& self.chunks_per_slab == other.chunks_per_slab
        &&& self.slabs.len() == other.slabs.len()
        &&& self.free == other.free
    }

    /// A new, empty chunk over the slot of `t`.
    pub open spec fn chunk_at(self, t: ChunkToken) -> ChunkView {
        ChunkView { mem: self.base(t), len: 0, cap: self.chunk_size, token: t }
    }

    /// The arena after `data` was laid into slab `holder` from index `at` on.
    pub open spec fn stored(self, holder: int, at: int, data: Seq<u8>) -> ArenaView {
        ArenaView { slabs: self.slabs.update(holder, spliced(self.slabs[holder], at, data)), ..self }
    }
}

/// The state of the pool.
pub struct ArenaCtl {
    chunks_holder: Vec<Vec<u8>>,
    chunk_size: usize,
    chunks_per_holder: usize,
    free_chunks: Vec<ChunkToken>,
}

impl View for ArenaCtl {
    type V = ArenaView;

    closed spec fn view(&self) -> ArenaView {
        ArenaView {
            slabs: Seq::new(self.chunks_holder@.len(), |h: int| self.chunks_holder@[h]@),
            chunk_size: self.chunk_size as nat,
            chunks_per_slab: self.chunks_per_holder as nat,
            free: self.free_chunks@,
        }
    }
}

impl ArenaCtl {
    /// A pool of chunks of `size` bytes, `chunks` of them to a slab. No
    /// slab is allocated yet.
    pub fn new(size: usize, chunks: usize) -> (ctl: ArenaCtl)
        requires
            1 <= size,
            1 <= chunks,
            size * chunks <= usize::MAX,
        ensures
            ctl@ == ArenaView::empty(size as nat, chunks as nat),
            ctl@.wf(),
    {
        let ctl = ArenaCtl {
            chunks_holder: Vec::new(),
            chunk_size: size,
            chunks_per_holder: chunks,
            free_chunks: Vec::new(),
        };
        assert(ctl@.slabs =~= Seq::empty());
        ctl
    }

    /// Allocates one more slab and puts its slots on the free stack, lowest
    /// first.
    fn allocate_chunks_holder(&mut self)
        requires
            old(self)@.wf(),
        ensures
            final(self)@ == old(self)@.grown(),
            final(self)@.wf(),
    {
        let size: usize = self.chunk_size * self.chunks_per_holder;
        let slab: Vec<u8> = vec![0u8; size];
        self.chunks_holder.push(slab);
        let holder_idx: usize = self.chunks_holder.len() - 1;
        let ghost fresh = old(self)@.fresh_tokens();
        assert(self@.slabs =~~= old(self)@.grown().slabs);
        let mut i: usize = 0;
        while i < self.chunks_per_holder
            invariant
                i <= self.chunks_per_holder,
                holder_idx == old(self)@.slabs.len(),
                fresh == old(self)@.fresh_tokens(),
                self@.slabs == old(self)@.grown().slabs,
                self@.chunk_size == old(self)@.chunk_size,
                self@.chunks_per_slab == old(self)@.chunks_per_slab,
                self@.free == old(self)@.free + fresh.take(i as int),
            decreases self.chunks_per_holder - i,
        {
            self.free_chunks.push(ChunkToken { holder: holder_idx, offset: i });
            i = i + 1;
            assert(self@.free =~= old(self)@.free + fresh.take(i as int));
        }
        proof {
            assert(fresh.take(i as int) =~= fresh);
            old(self)@.lemma_grown();
        }
    }
}

/// The pool of chunks. It owns the slabs; chunks name regions in them.
pub struct Arena {
    ctl: ArenaCtl,
}

impl View for Arena {
    type V = ArenaView;

    closed spec fn view(&self) -> ArenaView {
        self.ctl@
    }
}

impl Releasable for Arena {
    open spec fn held(&self) -> Seq<ChunkToken> {
        self@.free
    }

    open spec fn kept(&self, after: &Self) -> bool {
        &&& after@.slabs == self@.slabs
        &&& after@.chunk_size == self@.chunk_size
        &&& after@.chunks_per_slab == self@.chunks_per_slab
    }

    /// Pushes `token` onto the free stack. Nothing is checked of it: an
    /// arena stays well formed when the token is that of a chunk which ends
    /// with this call.
    fn release(&mut self, token: ChunkToken)
        ensures
            final(self)@ == old(self)@.released(token),
            old(self)@.wf() && old(self)@.is_live(token) ==> final(self)@.wf(),
    {
        self.ctl.free_chunks.push(token);
        proof {
            assert(self@.slabs =~= old(self)@.slabs);
            if old(self)@.wf() && old(self)@.is_live(token) {
                old(self)@.lemma_released(token);
            }
        }
    }
}

impl Arena {
    /// An arena of chunks of `size` bytes, `chunks` of them to a slab. No
    /// slab is allocated yet, so no slot is free yet.
    pub fn new(size: usize, chunks: usize) -> (arena: Arena)
        requires
            1 <= size,
            1 <= chunks,
            size * chunks <= usize::MAX,
        ensures
            arena@ == ArenaView::empty(size as nat, chunks as nat),
            arena@.wf(),
    {
        Arena { ctl: ArenaCtl::new(size, chunks) }
    }

    /// An empty buffer that takes its chunks from this arena.
    pub fn new_buf(&self) -> (buf: NetBuf)
        ensures
            buf@ == NetBufView::empty(),
            self@.wf() ==> buf@.wf(self@),
    {
        NetBuf::new(self)
    }

    /// Number of slots on the free stack. It is zero until the first slab is
    /// allocated.
    pub fn free_chunks(&self) -> (n: usize)
        ensures
            n == self@.free.len(),
    {
        self.ctl.free_chunks.len()
    }

    /// Takes the top slot off the free stack, after allocating a slab if the
    /// stack was empty, and returns an empty chunk over it.
    pub fn new_chunk(&mut self) -> (chunk: Chunk)
        requires
            old(self)@.wf(),
        ensures
            final(self)@ == old(self)@.acquired(),
            final(self)@.wf(),
            chunk@ == old(self)@.chunk_at(old(self)@.next_token()),
            chunk@.fits(final(self)@),
            final(self)@.is_live(chunk@.token),
    {
        if self.ctl.free_chunks.len() == 0 {
            self.ctl.allocate_chunks_holder();
        }
        proof {
            old(self)@.lemma_acquired();
        }
        let token = self.ctl.free_chunks.pop().unwrap();
        proof {
            assert(self@.slabs =~= old(self)@.primed().slabs);
            old(self)@.primed().lemma_slot_bounds(token);
        }
        let mem: usize = token.offset * self.ctl.chunk_size;
        Chunk::new(mem, self.ctl.chunk_size, token)
    }

    /// The bytes of slab `holder`.
    pub fn slab(&self, holder: usize) -> (mem: &[u8])
        requires
            holder < self@.slabs.len(),
        ensures
            mem@ == self@.slabs[holder as int],
    {
        self.ctl.chunks_holder[holder].as_slice()
    }

    /// Lets `chunk` append the front of `data` to its region in this arena
    /// and returns how many bytes it took: zero when the chunk is full.
    pub fn write_chunk(&mut self, chunk: &mut Chunk, data: &[u8]) -> (written: usize)
        requires
            old(self)@.wf(),
            old(chunk)@.wf(),
            old(chunk)@.fits(old(self)@),
        ensures
            written == least(old(chunk)@.room() as int, data@.len() as int),
            final(chunk)@ == old(chunk)@.grown(written as nat),
            final(self)@ == old(self)@.stored(
                old(chunk)@.token.holder as int,
                (old(chunk)@.mem + old(chunk)@.len) as int,
                data@.take(written as int),
            ),
            final(self)@.wf(),
    {
        let token = chunk.token();
        proof {
            self@.lemma_slot_bounds(token);
            assert(self.ctl.chunks_holder@[token.holder as int]@ == self@.slabs[token.holder as int]);
        }
        let written: usize = chunk.write(self.ctl.chunks_holder[token.holder].as_mut_slice(), data);
        proof {
            let h = token.holder as int;
            let at = (old(chunk)@.mem + old(chunk)@.len) as int;
            assert(self@.slabs =~= old(self)@.slabs.update(
                h,
                spliced(old(self)@.slabs[h], at, data@.take(written as int)),
            ));
        }
        written
    }
}

} // verus!
