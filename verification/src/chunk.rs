//! A fixed-capacity, append-only byte region inside memory it does not own.

use crate::arena::{ArenaView, ChunkToken, Releasable};
use vstd::prelude::*;

verus! {

/// The bytes of `mem` with `data` laid over them from index `at` on.
pub open spec fn spliced(mem: Seq<u8>, at: int, data: Seq<u8>) -> Seq<u8> {
    mem.take(at) + data + mem.skip(at + data.len())
}

/// The smaller of two lengths.
pub open spec fn least(a: int, b: int) -> int {
    if a <= b {
        a
    } else {
        b
    }
}

/// What a chunk is: where its region starts in the backing memory, how much
/// of it is filled, how much it can take, and which pool slot it occupies.
pub struct ChunkView {
    pub mem: nat,
    pub len: nat,
    pub cap: nat,
    pub token: ChunkToken,
}

impl ChunkView {
    /// The fill level is within the capacity.
    pub open spec fn wf(self) -> bool {
        self.len <= self.cap
    }

    /// Room left behind the filled part.
    pub open spec fn room(self) -> nat {
        (self.cap - self.len) as nat
    }

    /// The region lies inside backing memory of the given length.
    pub open spec fn within(self, mem_len: nat) -> bool {
        self.mem + self.cap <= mem_len
    }

    /// The filled part of the region, read out of the backing memory.
    pub open spec fn bytes(self, mem: Seq<u8>) -> Seq<u8> {
        mem.subrange(self.mem as int, (self.mem + self.len) as int)
    }

    /// The region is the slot that `token` names in the arena.
    pub open spec fn fits(self, arena: ArenaView) -> bool {
        &&& arena.in_range(self.token)
        &&& self.mem == arena.base(self.token)
        &&& self.cap == arena.chunk_size
    }

    /// The filled part of the region, read out of the arena's slab.
    pub open spec fn bytes_in(self, arena: ArenaView) -> Seq<u8> {
        self.bytes(arena.slabs[self.token.holder as int])
    }

    /// The chunk after `n` more bytes were appended.
    pub open spec fn grown(self, n: nat) -> ChunkView {
        ChunkView { len: self.len + n, ..self }
    }
}

/// A cursor over one chunk-sized region of a slab. The chunk records where
/// the region lies and how far it is filled; the bytes stay with the owner of
/// the slab and are passed in for each access.
pub struct Chunk {
    mem: usize,
    len: usize,
    cap: usize,
    token: ChunkToken,
}

impl View for Chunk {
    type V = ChunkView;

    closed spec fn view(&self) -> ChunkView {
        ChunkView {
            mem: self.mem as nat,
            len: self.len as nat,
            cap: self.cap as nat,
            token: self.token,
        }
    }
}

impl Chunk {
    /// An empty chunk over the region of `cap` bytes that starts at index
    /// `mem` of its backing memory. Nothing is checked of `mem`.
    pub fn new(mem: usize, cap: usize, token: ChunkToken) -> (chunk: Chunk)
        ensures
            chunk@ == (ChunkView { mem: mem as nat, len: 0, cap: cap as nat, token }),
    {
        Chunk { mem, len: 0, cap, token }
    }

    /// Appends as much of the front of `data` as the region still takes and
    /// returns how many bytes that was. Of a non-empty `data` that is zero
    /// exactly when the chunk is full.
    pub fn write(&mut self, mem: &mut [u8], data: &[u8]) -> (written: usize)
        requires
            old(self)@.wf(),
            old(self)@.within(old(mem)@.len()),
        ensures
            written == least(old(self)@.room() as int, data@.len() as int),
            final(self)@ == old(self)@.grown(written as nat),
            final(mem)@ == spliced(
                old(mem)@,
                (old(self)@.mem + old(self)@.len) as int,
                data@.take(written as int),
            ),
    {
        if self.cap == self.len {
            assert(mem@ =~= spliced(mem@, (self.mem + self.len) as int, data@.take(0)));
            return 0;
        }
        assert(mem@.len() == mem.len());
        let room: usize = self.cap - self.len;
        let dlen: usize = if room <= data.len() {
            room
        } else {
            data.len()
        };
        let start: usize = self.mem + self.len;
        let mut i: usize = 0;
        while i < dlen
            invariant
                i <= dlen <= data@.len(),
                start + dlen <= mem@.len() <= usize::MAX,
                mem@.len() == old(mem)@.len(),
                mem@ == spliced(old(mem)@, start as int, data@.take(i as int)),
            decreases dlen - i,
        {
            mem[start + i] = data[i];
            i = i + 1;
            assert(mem@ =~= spliced(old(mem)@, start as int, data@.take(i as int)));
        }
        self.len = self.len + dlen;
        dlen
    }

    /// The filled part of the region.
    pub fn as_slice<'a>(&self, mem: &'a [u8]) -> (bytes: &'a [u8])
        requires
            self@.wf(),
            self@.within(mem@.len()),
        ensures
            bytes@ == self@.bytes(mem@),
    {
        assert(mem@.len() == mem.len());
        &mem[self.mem..self.mem + self.len]
    }

    /// Number of bytes filled.
    pub fn len(&self) -> (len: usize)
        ensures
            len == self@.len,
    {
        self.len
    }

    /// Number of bytes the region takes in all.
    pub fn cap(&self) -> (cap: usize)
        ensures
            cap == self@.cap,
    {
        self.cap
    }

    /// The pool slot that the chunk occupies.
    pub fn token(&self) -> (token: ChunkToken)
        ensures
            token == self@.token,
    {
        self.token
    }

    /// Index in the backing memory at which the region starts.
    pub fn mem(&self) -> (mem: usize)
        ensures
            mem == self@.mem,
    {
        self.mem
    }

    /// The numbers of a chunk are machine words.
    pub proof fn lemma_bounded(&self)
        ensures
            self@.mem <= usize::MAX,
            self@.len <= usize::MAX,
            self@.cap <= usize::MAX,
    {
    }

    /// Ends the chunk's life: its slot goes back to `releaser`, once, and
    /// nothing else happens.
    pub fn release<T: Releasable>(self, releaser: &mut T)
        ensures
            final(releaser).held() == old(releaser).held().push(self@.token),
            old(releaser).kept(final(releaser)),
    {
        releaser.release(self.token);
    }
}

} // verus!
