//! What holds of the library whatever is done with it.

use crate::arena::{ArenaView, ChunkToken};
use crate::buf::{gathered, total_len, NetBufView};
use crate::buf_proofs::{lemma_bytes_in_slot, lemma_empty_iff, lemma_gathered_frame};
use crate::chunk::ChunkView;
use vstd::prelude::*;

verus! {

/// One thing that is done to an arena.
pub enum ArenaStep {
    /// A slot is acquired.
    Acquire,
    /// The slot of a chunk is handed back.
    Release(ChunkToken),
    /// Bytes are appended to a chunk.
    Store(ChunkView, Seq<u8>),
}

impl ArenaView {
    /// The step is one that the library takes on this arena: only a slot
    /// that a chunk occupies is handed back, and bytes go into the room that
    /// a chunk has left in its slot.
    pub open spec fn allows(self, step: ArenaStep) -> bool {
        match step {
            ArenaStep::Acquire => self.free.len() == 0 ==> self.slabs.len() < usize::MAX,
            ArenaStep::Release(t) => self.is_live(t),
            ArenaStep::Store(c, data) => c.wf() && c.fits(self) && data.len() <= c.room(),
        }
    }

    /// The arena after the step.
    pub open spec fn after(self, step: ArenaStep) -> ArenaView {
        match step {
            ArenaStep::Acquire => self.acquired(),
            ArenaStep::Release(t) => self.released(t),
            ArenaStep::Store(c, data) => self.stored(
                c.token.holder as int,
                (c.mem + c.len) as int,
                data,
            ),
        }
    }

    /// The arena after the steps, first one first.
    pub open spec fn after_all(self, steps: Seq<ArenaStep>) -> ArenaView
        decreases steps.len(),
    {
        if steps.len() == 0 {
            self
        } else {
            self.after_all(steps.drop_last()).after(steps.last())
        }
    }

    /// Each of the steps is one that the library takes on the arena that the
    /// steps before it have led to.
    pub open spec fn allows_all(self, steps: Seq<ArenaStep>) -> bool
        decreases steps.len(),
    {
        steps.len() == 0 || (self.allows_all(steps.drop_last()) && self.after_all(
            steps.drop_last(),
        ).allows(steps.last()))
    }

    /// Whatever row of steps the library takes on an arena, the arena stays
    /// well formed: each slot that exists is on the free stack or a chunk's
    /// and never both, and no slot is on the free stack twice.
    pub proof fn lemma_always_well_formed(self, steps: Seq<ArenaStep>)
        requires
            self.wf(),
            self.allows_all(steps),
        ensures
            self.after_all(steps).wf(),
            self.after_all(steps).free.no_duplicates(),
            self.after_all(steps).live().finite(),
            self.after_all(steps).free.len() + self.after_all(steps).live().len()
                == self.after_all(steps).capacity(),
        decreases steps.len(),
    {
        if steps.len() > 0 {
            let before = self.after_all(steps.drop_last());
            self.lemma_always_well_formed(steps.drop_last());
            match steps.last() {
                ArenaStep::Acquire => {
                    before.lemma_acquired();
                },
                ArenaStep::Release(t) => {
                    before.lemma_released(t);
                },
                ArenaStep::Store(c, data) => {
                    before.lemma_stored(c, data);
                },
            }
        }
        self.after_all(steps).lemma_conservation();
    }

    /// An arena that has no slab yet is well formed.
    pub proof fn lemma_empty_well_formed(chunk_size: nat, chunks_per_slab: nat)
        requires
            1 <= chunk_size,
            1 <= chunks_per_slab,
            chunk_size * chunks_per_slab <= usize::MAX,
        ensures
            ArenaView::empty(chunk_size, chunks_per_slab).wf(),
    {
    }

    /// Every slot that exists is either free or a chunk's, and never both:
    /// the free slots and the occupied ones add up to all slots.
    pub proof fn lemma_conservation(self)
        requires
            self.wf(),
        ensures
            self.live().finite(),
            self.free.len() + self.live().len() == self.capacity(),
    {
        let all = grid(self.slabs.len(), self.chunks_per_slab);
        let free = self.free.to_set();
        assert(self.chunks_per_slab <= self.slab_len()) by (nonlinear_arith)
            requires
                self.slab_len() == self.chunk_size * self.chunks_per_slab,
                1 <= self.chunk_size,
        ;
        lemma_grid_len(self.slabs.len(), self.chunks_per_slab);
        self.free.unique_seq_to_set();
        vstd::seq_lib::seq_to_set_is_finite(self.free);
        assert forall|t: ChunkToken| free.contains(t) implies all.contains(t) by {
            let i = choose|i: int| 0 <= i < self.free.len() && self.free[i] == t;
            assert(self.in_range(self.free[i]));
        }
        assert(all.intersect(free) =~= free);
        assert(all.difference(free) =~= self.live());
        vstd::set_lib::lemma_set_difference_len(all, free);
    }

    /// Handing back the slot that was just acquired undoes the acquisition:
    /// the free stack is as it was when the slot was taken, one longer than
    /// after the acquisition.
    pub proof fn lemma_release_undoes_acquire(self)
        requires
            1 <= self.chunks_per_slab,
        ensures
            self.acquired().released(self.next_token()) == self.primed(),
            self.acquired().released(self.next_token()).free.len() == self.acquired().free.len()
                + 1,
    {
        let p = self.primed();
        assert(p.free.len() >= 1) by {
            if self.free.len() == 0 {
                assert(self.fresh_tokens().len() == self.chunks_per_slab);
            }
        }
        assert(p.free.drop_last().push(p.free.last()) =~= p.free);
    }

    /// The free stack is last in, first out: the slot that was handed back
    /// last is the one that the next acquisition hands out, and that
    /// acquisition leaves the arena as it was before the slot came back.
    pub proof fn lemma_last_released_is_next(self, t: ChunkToken)
        ensures
            self.released(t).next_token() == t,
            self.released(t).acquired() == self,
    {
        assert(self.free.push(t).drop_last() =~= self.free);
    }
}

/// The slots of slab `holder` with an index below `m`.
pub open spec fn row(holder: usize, m: nat) -> Set<ChunkToken> {
    Set::new(|t: ChunkToken| t.holder == holder && t.offset < m)
}

/// The slots of the first `n` slabs with an index below `m`.
pub open spec fn grid(n: nat, m: nat) -> Set<ChunkToken> {
    Set::new(|t: ChunkToken| t.holder < n && t.offset < m)
}

/// A slab with `m` slots has `m` slots.
pub proof fn lemma_row_len(holder: usize, m: nat)
    requires
        m <= usize::MAX,
    ensures
        row(holder, m).finite(),
        row(holder, m).len() == m,
    decreases m,
{
    if m == 0 {
        assert(row(holder, m) =~= Set::empty());
    } else {
        let below = (m - 1) as nat;
        lemma_row_len(holder, below);
        let top = ChunkToken { holder, offset: below as usize };
        assert(row(holder, m) =~= row(holder, below).insert(top));
    }
}

/// `n` slabs of `m` slots have `n * m` slots.
pub proof fn lemma_grid_len(n: nat, m: nat)
    requires
        n <= usize::MAX,
        m <= usize::MAX,
    ensures
        grid(n, m).finite(),
        grid(n, m).len() == n * m,
    decreases n,
{
    if n == 0 {
        assert(grid(n, m) =~= Set::empty());
    } else {
        let below = (n - 1) as nat;
        lemma_grid_len(below, m);
        lemma_row_len(below as usize, m);
        let last = row(below as usize, m);
        assert(grid(n, m) =~= grid(below, m) + last);
        assert(grid(below, m).disjoint(last));
        vstd::set_lib::lemma_set_disjoint_lens(grid(below, m), last);
        assert(below * m + m == n * m) by (nonlinear_arith)
            requires
                below + 1 == n,
        ;
    }
}

/// Chunks that are all filled to `size` hold `size` bytes each.
pub proof fn lemma_full_chunks(chunks: Seq<ChunkView>, size: nat)
    requires
        forall|i: int| 0 <= i < chunks.len() ==> (#[trigger] chunks[i]).len == size,
    ensures
        total_len(chunks) == chunks.len() * size,
    decreases chunks.len(),
{
    if chunks.len() > 0 {
        lemma_full_chunks(chunks.drop_last(), size);
        assert((chunks.len() - 1) * size + size == chunks.len() * size) by (nonlinear_arith);
    }
}

/// A buffer holds its bytes in as few chunks as can hold them: all chunks
/// but the tail are full and the tail is not empty, so one chunk less would
/// not do.
pub proof fn lemma_chunks_as_needed(v: NetBufView, arena: ArenaView)
    requires
        v.wf(arena),
    ensures
        v.chunks.len() == 0 ==> total_len(v.chunks) == 0,
        v.chunks.len() > 0 ==> (v.chunks.len() - 1) * arena.chunk_size < total_len(v.chunks)
            <= v.chunks.len() * arena.chunk_size,
{
    if v.chunks.len() > 0 {
        let front = v.chunks.drop_last();
        assert forall|i: int| 0 <= i < front.len() implies (#[trigger] front[i]).len
            == arena.chunk_size by {
            assert(v.chunks[i].len == v.chunks[i].cap);
            assert(v.chunks[i].fits(arena));
        }
        lemma_full_chunks(front, arena.chunk_size);
        let tail = v.chunks.last();
        assert(tail.wf() && tail.fits(arena));
        assert((v.chunks.len() - 1) * arena.chunk_size + arena.chunk_size == v.chunks.len()
            * arena.chunk_size) by (nonlinear_arith);
    }
}

/// A write to one buffer leaves every other buffer of the arena as it was:
/// well formed, with the same bytes waiting, and still without a slot in
/// common with the buffer that was written to.
pub proof fn lemma_write_spares(
    a: NetBufView,
    arena: ArenaView,
    data: Seq<u8>,
    after: NetBufView,
    pool: ArenaView,
    b: NetBufView,
)
    requires
        a.wf(arena),
        b.wf(arena),
        a.apart(b),
        a.wrote(arena, data, after, pool),
        a.took_chunks(arena, after, pool),
    ensures
        b.wf(pool),
        b.contents(pool) == b.contents(arena),
        after.apart(b),
{
    let k = a.chunks_taken(after);
    let new = arena.issued(k);
    arena.lemma_acquired_n(k);
    assert forall|i: int, j: int|
        0 <= i < after.chunks.len() && 0 <= j < b.chunks.len() implies (
    #[trigger] after.chunks[i]).token != (#[trigger] b.chunks[j]).token by {
        assert(after.tokens()[i] == after.chunks[i].token);
        assert(arena.is_live(b.chunks[j].token));
        if i < a.chunks.len() {
            assert(a.tokens()[i] == a.chunks[i].token);
            assert(a.chunks[i].token != b.chunks[j].token);
        } else {
            assert(after.tokens()[i] == new[i - a.chunks.len()]);
        }
    }
    assert forall|j: int| 0 <= j < b.chunks.len() implies (#[trigger] b.chunks[j]).wf()
        && b.chunks[j].fits(pool) && pool.is_live(b.chunks[j].token) && b.chunks[j].bytes_in(
        arena,
    ) == b.chunks[j].bytes_in(pool) by {
        let c = b.chunks[j];
        assert(c.wf() && c.fits(arena) && arena.is_live(c.token));
        assert(arena.acquired_n(k).is_live(c.token));
        if after.tokens().contains(c.token) {
            let i = choose|i: int| 0 <= i < after.tokens().len() && after.tokens()[i] == c.token;
            assert(after.chunks[i].token == c.token);
        }
        assert(pool.slot(c.token) == arena.slot(c.token));
        lemma_bytes_in_slot(c, arena);
        lemma_bytes_in_slot(c, pool);
    }
    lemma_gathered_frame(b.chunks, arena, pool);
}

/// A drain of one buffer leaves every other buffer of the arena as it was:
/// well formed, with the same bytes waiting, and still without a slot in
/// common with the buffer that was drained.
pub proof fn lemma_drain_spares(
    a: NetBufView,
    arena: ArenaView,
    after: NetBufView,
    pool: ArenaView,
    b: NetBufView,
)
    requires
        a.wf(arena),
        b.wf(arena),
        a.apart(b),
        a.drained(arena, after, pool),
        a.gave_chunks(arena, after, pool),
    ensures
        b.wf(pool),
        b.contents(pool) == b.contents(arena),
        after.apart(b),
{
    let n = a.chunks_given(after);
    let back = a.tokens().take(n);
    assert forall|i: int, j: int|
        0 <= i < after.chunks.len() && 0 <= j < b.chunks.len() implies (
    #[trigger] after.chunks[i]).token != (#[trigger] b.chunks[j]).token by {
        assert(after.chunks[i] == a.chunks[i + n]);
        assert(a.chunks[i + n].token != b.chunks[j].token);
    }
    assert forall|j: int| 0 <= j < b.chunks.len() implies (#[trigger] b.chunks[j]).wf()
        && b.chunks[j].fits(pool) && pool.is_live(b.chunks[j].token) && b.chunks[j].bytes_in(
        arena,
    ) == b.chunks[j].bytes_in(pool) by {
        let c = b.chunks[j];
        assert(c.wf() && c.fits(arena) && arena.is_live(c.token));
        if pool.free.contains(c.token) {
            let i = choose|i: int| 0 <= i < pool.free.len() && pool.free[i] == c.token;
            if i < arena.free.len() {
                assert(arena.free[i] == c.token);
            } else {
                let m = i - arena.free.len();
                assert(back[m] == a.chunks[m].token);
                assert(a.chunks[m].token != b.chunks[j].token);
            }
        }
    }
    lemma_gathered_frame(b.chunks, arena, pool);
}

/// The parts joined in order.
pub open spec fn joined(parts: Seq<Seq<u8>>) -> Seq<u8>
    decreases parts.len(),
{
    if parts.len() == 0 {
        Seq::empty()
    } else {
        joined(parts.drop_last()) + parts.last()
    }
}

/// Sum of the lengths of the parts.
pub open spec fn joined_len(parts: Seq<Seq<u8>>) -> nat
    decreases parts.len(),
{
    if parts.len() == 0 {
        0
    } else {
        joined_len(parts.drop_last()) + parts.last().len()
    }
}

/// What each drain of a row of drains emitted, first drain first.
pub open spec fn outputs(bufs: Seq<NetBufView>, pools: Seq<ArenaView>) -> Seq<Seq<u8>> {
    Seq::new((bufs.len() - 1) as nat, |i: int| bufs[i].emitted(pools[i], bufs[i + 1]))
}

/// Length law: after any row of writes, the buffer is longer by the sum of
/// the lengths of the inputs, and what waits in it is what waited before
/// with the inputs behind it in order. `bufs` and `pools` are the buffer and
/// the arena before the first write and after each write.
pub proof fn lemma_length_law(
    bufs: Seq<NetBufView>,
    pools: Seq<ArenaView>,
    inputs: Seq<Seq<u8>>,
)
    requires
        bufs.len() == inputs.len() + 1,
        pools.len() == bufs.len(),
        forall|i: int|
            0 <= i < inputs.len() ==> #[trigger] bufs[i].wrote(
                pools[i],
                inputs[i],
                bufs[i + 1],
                pools[i + 1],
            ),
    ensures
        bufs.last().len() == bufs[0].len() + joined_len(inputs),
        bufs.last().contents(pools.last()) == bufs[0].contents(pools[0]) + joined(inputs),
    decreases inputs.len(),
{
    let n = inputs.len() as int;
    if n == 0 {
        assert(bufs[0].contents(pools[0]) + joined(inputs) =~= bufs[0].contents(pools[0]));
    } else {
        let front = inputs.drop_last();
        assert forall|i: int| 0 <= i < front.len() implies #[trigger] bufs.drop_last()[i].wrote(
            pools.drop_last()[i],
            front[i],
            bufs.drop_last()[i + 1],
            pools.drop_last()[i + 1],
        ) by {
            assert(bufs[i].wrote(pools[i], inputs[i], bufs[i + 1], pools[i + 1]));
        }
        lemma_length_law(bufs.drop_last(), pools.drop_last(), front);
        assert(bufs[n - 1].wrote(pools[n - 1], inputs[n - 1], bufs[n - 1 + 1], pools[n - 1 + 1]));
        assert(bufs.drop_last().last() == bufs[n - 1]);
        assert(pools.drop_last().last() == pools[n - 1]);
        assert(bufs[0].contents(pools[0]) + joined(front) + inputs.last() =~= bufs[0].contents(
            pools[0],
        ) + joined(inputs));
    }
}

/// Round trip: when an empty buffer is written to any number of times and
/// a drain empties it afterwards, that drain emits the inputs joined in order.
pub proof fn lemma_round_trip(
    bufs: Seq<NetBufView>,
    pools: Seq<ArenaView>,
    inputs: Seq<Seq<u8>>,
    end: NetBufView,
    end_pool: ArenaView,
)
    requires
        bufs.len() == inputs.len() + 1,
        pools.len() == bufs.len(),
        bufs[0].wf(pools[0]),
        bufs[0].len() == 0,
        forall|i: int|
            0 <= i < inputs.len() ==> #[trigger] bufs[i].wrote(
                pools[i],
                inputs[i],
                bufs[i + 1],
                pools[i + 1],
            ),
        bufs.last().drained(pools.last(), end, end_pool),
        end.len() == 0,
    ensures
        bufs.last().emitted(pools.last(), end) == joined(inputs),
{
    lemma_length_law(bufs, pools, inputs);
    lemma_empty_iff(bufs[0], pools[0]);
    let n = inputs.len() as int;
    if n > 0 {
        assert(bufs[n - 1].wrote(pools[n - 1], inputs[n - 1], bufs[n - 1 + 1], pools[n - 1 + 1]));
    }
    lemma_empty_iff(bufs.last(), pools.last());
    let all = bufs.last().contents(pools.last());
    assert(bufs[0].contents(pools[0]) =~= Seq::<u8>::empty());
    assert(all =~= joined(inputs));
    assert(all.take(all.len() as int) =~= all);
}

/// Resumable drain: however a row of drains is cut short, what the drains
/// emitted, joined in order, and what still waits behind it is what waited
/// at the start; once the buffer is empty, the drains have emitted exactly
/// that. `bufs` and `pools` are the buffer and the arena before the first
/// drain and after each drain.
pub proof fn lemma_resumable_drain(bufs: Seq<NetBufView>, pools: Seq<ArenaView>)
    requires
        bufs.len() >= 1,
        pools.len() == bufs.len(),
        bufs[0].wf(pools[0]),
        forall|i: int|
            0 <= i < bufs.len() - 1 ==> #[trigger] bufs[i].drained(
                pools[i],
                bufs[i + 1],
                pools[i + 1],
            ),
    ensures
        joined(outputs(bufs, pools)) + bufs.last().contents(pools.last()) == bufs[0].contents(
            pools[0],
        ),
        bufs.last().len() == 0 ==> joined(outputs(bufs, pools)) == bufs[0].contents(pools[0]),
        bufs.last().wf(pools.last()),
    decreases bufs.len(),
{
    let n = bufs.len() - 1;
    if n == 0 {
        assert(outputs(bufs, pools) =~= Seq::<Seq<u8>>::empty());
        assert(joined(outputs(bufs, pools)) + bufs[0].contents(pools[0]) =~= bufs[0].contents(
            pools[0],
        ));
    } else {
        let front = bufs.drop_last();
        let front_pools = pools.drop_last();
        assert forall|i: int| 0 <= i < front.len() - 1 implies #[trigger] front[i].drained(
            front_pools[i],
            front[i + 1],
            front_pools[i + 1],
        ) by {
            assert(bufs[i].drained(pools[i], bufs[i + 1], pools[i + 1]));
        }
        lemma_resumable_drain(front, front_pools);
        assert(front.last() == bufs[n - 1]);
        assert(front_pools.last() == pools[n - 1]);
        assert(bufs[n - 1].drained(pools[n - 1], bufs[n - 1 + 1], pools[n - 1 + 1]));
        lemma_empty_iff(bufs[n - 1], pools[n - 1]);
        let waited = bufs[n - 1].contents(pools[n - 1]);
        let k = bufs[n - 1].took(bufs[n]);
        assert(waited =~= waited.take(k) + waited.skip(k));
        assert(outputs(bufs, pools).drop_last() =~= outputs(front, front_pools));
        assert(outputs(bufs, pools).last() == waited.take(k));
        assert(joined(outputs(bufs, pools)) + bufs[n].contents(pools[n]) =~= joined(
            outputs(front, front_pools),
        ) + waited);
    }
    lemma_empty_iff(bufs.last(), pools.last());
    if bufs.last().len() == 0 {
        assert(bufs.last().contents(pools.last()) =~= Seq::<u8>::empty());
        assert(joined(outputs(bufs, pools)) + bufs.last().contents(pools.last()) =~= joined(
            outputs(bufs, pools),
        ));
    }
}

} // verus!
