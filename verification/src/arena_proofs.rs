//! Why the arena's operations keep it well formed.

use crate::arena::{ArenaView, ChunkToken};
use crate::chunk::ChunkView;
use vstd::prelude::*;

verus! {

impl ArenaView {
    /// A slot lies inside its slab.
    pub proof fn lemma_slot_bounds(self, t: ChunkToken)
        requires
            self.wf(),
            t.offset < self.chunks_per_slab,
        ensures
            self.base(t) + self.chunk_size <= self.slab_len(),
    {
        assert(t.offset * self.chunk_size + self.chunk_size <= self.chunk_size
            * self.chunks_per_slab) by (nonlinear_arith)
            requires
                t.offset + 1 <= self.chunks_per_slab,
        ;
    }

    /// Two slots of one slab share no byte.
    pub proof fn lemma_slots_disjoint(self, s: ChunkToken, t: ChunkToken)
        requires
            s.offset != t.offset,
        ensures
            self.base(s) + self.chunk_size <= self.base(t) || self.base(t) + self.chunk_size
                <= self.base(s),
    {
        if s.offset < t.offset {
            assert(s.offset * self.chunk_size + self.chunk_size <= t.offset * self.chunk_size)
                by (nonlinear_arith)
                requires
                    s.offset + 1 <= t.offset,
            ;
        } else {
            assert(t.offset * self.chunk_size + self.chunk_size <= s.offset * self.chunk_size)
                by (nonlinear_arith)
                requires
                    t.offset + 1 <= s.offset,
            ;
        }
    }

    /// Growing keeps the arena well formed, takes no slot from a chunk and
    /// leaves every byte of the older slabs alone.
    pub proof fn lemma_grown(self)
        requires
            self.wf(),
            self.slabs.len() < usize::MAX,
        ensures
            self.grown().wf(),
            forall|t: ChunkToken| self.is_live(t) ==> self.grown().is_live(t),
            forall|t: ChunkToken| #[trigger]
                self.grown().is_live(t) ==> self.is_live(t),
            forall|h: int| 0 <= h < self.slabs.len() ==> self.grown().slabs[h] == self.slabs[h],
    {
        let g = self.grown();
        let fresh = self.fresh_tokens();
        assert(self.chunk_size <= self.slab_len()) by (nonlinear_arith)
            requires
                self.slab_len() == self.chunk_size * self.chunks_per_slab,
                1 <= self.chunks_per_slab,
        ;
        assert(self.chunks_per_slab <= self.slab_len()) by (nonlinear_arith)
            requires
                self.slab_len() == self.chunk_size * self.chunks_per_slab,
                1 <= self.chunk_size,
        ;
        assert forall|i: int| 0 <= i < g.free.len() implies g.in_range(#[trigger] g.free[i]) by {
            if i < self.free.len() {
                assert(g.free[i] == self.free[i]);
                assert(self.in_range(self.free[i]));
            } else {
                assert(g.free[i] == fresh[i - self.free.len()]);
            }
        }
        assert forall|i: int, j: int|
            0 <= i < g.free.len() && 0 <= j < g.free.len() && i != j implies g.free[i]
            != g.free[j] by {
            if i < self.free.len() {
                assert(self.in_range(self.free[i]));
            }
            if j < self.free.len() {
                assert(self.in_range(self.free[j]));
            }
        }
        assert forall|t: ChunkToken| self.is_live(t) implies g.is_live(t) by {
            if g.free.contains(t) {
                let i = choose|i: int| 0 <= i < g.free.len() && g.free[i] == t;
                if i < self.free.len() {
                    assert(self.free[i] == t);
                }
            }
        }
        assert forall|t: ChunkToken| #[trigger] g.is_live(t) implies self.is_live(t) by {
            if t.holder == self.slabs.len() {
                assert(fresh[t.offset as int] == t);
                assert(g.free[self.free.len() + t.offset] == t);
            }
            if self.free.contains(t) {
                let i = choose|i: int| 0 <= i < self.free.len() && self.free[i] == t;
                assert(g.free[i] == t);
            }
        }
    }

    /// Acquiring keeps the arena well formed, hands out a slot that was not
    /// a chunk's before, makes it one, and leaves all other chunks and every
    /// byte of the older slabs alone.
    pub proof fn lemma_acquired(self)
        requires
            self.wf(),
            self.free.len() == 0 ==> self.slabs.len() < usize::MAX,
        ensures
            self.acquired().wf(),
            !self.is_live(self.next_token()),
            self.acquired().is_live(self.next_token()),
            forall|t: ChunkToken| self.is_live(t) ==> self.acquired().is_live(t),
            forall|t: ChunkToken| #[trigger]
                self.acquired().is_live(t) ==> self.is_live(t) || t == self.next_token(),
            forall|h: int| 0 <= h < self.slabs.len() ==> self.acquired().slabs[h] == self.slabs[h],
            self.acquired().slabs.len() >= self.slabs.len(),
    {
        if self.free.len() == 0 {
            self.lemma_grown();
        }
        let p = self.primed();
        let a = self.acquired();
        let t = self.next_token();
        let n = p.free.len() - 1;
        assert(p.wf());
        assert(p.free.len() > 0);
        assert(p.free[n] == t);
        assert(p.in_range(t));
        assert forall|i: int| 0 <= i < a.free.len() implies a.in_range(#[trigger] a.free[i]) by {
            assert(a.free[i] == p.free[i]);
        }
        assert(!a.free.contains(t)) by {
            if a.free.contains(t) {
                let i = choose|i: int| 0 <= i < a.free.len() && a.free[i] == t;
                assert(p.free[i] == t);
            }
        }
        assert(!self.is_live(t)) by {
            if self.free.len() != 0 {
                assert(self.free[n] == t);
            }
        }
        assert forall|s: ChunkToken| p.is_live(s) implies a.is_live(s) by {
            if a.free.contains(s) {
                let i = choose|i: int| 0 <= i < a.free.len() && a.free[i] == s;
                assert(p.free[i] == s);
            }
        }
        assert forall|s: ChunkToken| #[trigger] a.is_live(s) implies p.is_live(s) || s == t by {
            if p.free.contains(s) {
                let i = choose|i: int| 0 <= i < p.free.len() && p.free[i] == s;
                if i < n {
                    assert(a.free[i] == s);
                }
            }
        }
    }

    /// Which slot comes next, and what the accounting is afterwards, does
    /// not depend on the bytes in the slabs.
    pub proof fn lemma_acquired_accounting(self, other: ArenaView)
        requires
            self.same_accounting(other),
        ensures
            self.next_token() == other.next_token(),
            self.acquired().same_accounting(other.acquired()),
    {
        assert(self.fresh_tokens() =~= other.fresh_tokens());
    }

    /// Acquisitions in a row keep the arena well formed. They never hand out
    /// a slot that a chunk occupied at the start, take no slot from a chunk,
    /// and leave the sizing and every byte of the older slabs alone.
    pub proof fn lemma_acquired_n(self, k: nat)
        requires
            self.wf(),
            self.acquired_n(k).slabs.len() <= usize::MAX,
        ensures
            self.acquired_n(k).wf(),
            self.acquired_n(k).chunk_size == self.chunk_size,
            self.acquired_n(k).chunks_per_slab == self.chunks_per_slab,
            self.acquired_n(k).slabs.len() >= self.slabs.len(),
            self.issued(k).len() == k,
            forall|i: int| 0 <= i < k ==> !self.is_live(#[trigger] self.issued(k)[i]),
            forall|t: ChunkToken| self.is_live(t) ==> self.acquired_n(k).is_live(t),
            forall|h: int| 0 <= h < self.slabs.len() ==> self.acquired_n(k).slabs[h] == self.slabs[h],
        decreases k,
    {
        if k > 0 {
            let j = (k - 1) as nat;
            let mid = self.acquired_n(j);
            assert(mid.acquired().slabs.len() >= mid.slabs.len());
            self.lemma_acquired_n(j);
            mid.lemma_acquired();
            assert forall|i: int| 0 <= i < k implies !self.is_live(#[trigger] self.issued(k)[i]) by {
                if i < j {
                    assert(self.issued(k)[i] == self.issued(j)[i]);
                } else {
                    assert(self.issued(k)[i] == mid.next_token());
                }
            }
        }
    }

    /// Bytes laid into the room that a chunk has left in its slot keep the
    /// arena well formed and change nothing but bytes of that slab.
    pub proof fn lemma_stored(self, c: ChunkView, data: Seq<u8>)
        requires
            self.wf(),
            c.wf(),
            c.fits(self),
            data.len() <= c.room(),
        ensures
            self.stored(c.token.holder as int, (c.mem + c.len) as int, data).wf(),
            self.stored(c.token.holder as int, (c.mem + c.len) as int, data).same_accounting(self),
    {
        let h = c.token.holder as int;
        let after = self.stored(h, (c.mem + c.len) as int, data);
        self.lemma_slot_bounds(c.token);
        assert(self.slabs[h].len() == self.slab_len());
        assert forall|g: int| 0 <= g < after.slabs.len() implies #[trigger] after.slabs[g].len()
            == after.slab_len() by {
            assert(self.slabs[g].len() == self.slab_len());
        }
    }

    /// Handing back a slot that a chunk occupied keeps the arena well
    /// formed, frees that slot and no other, and touches no byte.
    pub proof fn lemma_released(self, t: ChunkToken)
        requires
            self.wf(),
            self.is_live(t),
        ensures
            self.released(t).wf(),
            !self.released(t).is_live(t),
            forall|s: ChunkToken| self.is_live(s) && s != t ==> self.released(t).is_live(s),
            forall|s: ChunkToken| #[trigger] self.released(t).is_live(s) ==> self.is_live(s),
    {
        let r = self.released(t);
        assert(r.free[self.free.len() as int] == t);
        assert forall|i: int| 0 <= i < r.free.len() implies r.in_range(#[trigger] r.free[i]) by {
            if i < self.free.len() {
                assert(r.free[i] == self.free[i]);
            }
        }
        assert forall|s: ChunkToken| self.is_live(s) && s != t implies r.is_live(s) by {
            if r.free.contains(s) {
                let i = choose|i: int| 0 <= i < r.free.len() && r.free[i] == s;
                assert(self.free[i] == s);
            }
        }
        assert forall|s: ChunkToken| #[trigger] r.is_live(s) implies self.is_live(s) by {
            if self.free.contains(s) {
                let i = choose|i: int| 0 <= i < self.free.len() && self.free[i] == s;
                assert(r.free[i] == s);
            }
        }
    }
}

} // verus!
