//! Why the buffer's operations keep it well formed and move the bytes they
//! say they move.

use crate::arena::{ArenaView, ChunkToken};
use crate::buf::{gathered, total_len, NetBufView};
use crate::chunk::ChunkView;
use vstd::prelude::*;

verus! {

/// A chunk appended at the tail adds its bytes at the end.
pub proof fn lemma_gathered_push(chunks: Seq<ChunkView>, c: ChunkView, arena: ArenaView)
    ensures
        gathered(chunks.push(c), arena) == gathered(chunks, arena) + c.bytes_in(arena),
        total_len(chunks.push(c)) == total_len(chunks) + c.len,
{
    assert(chunks.push(c).drop_last() =~= chunks);
}

/// The head chunk's bytes come first.
pub proof fn lemma_gathered_front(chunks: Seq<ChunkView>, arena: ArenaView)
    requires
        chunks.len() > 0,
    ensures
        gathered(chunks, arena) == chunks[0].bytes_in(arena) + gathered(chunks.skip(1), arena),
        total_len(chunks) == chunks[0].len + total_len(chunks.skip(1)),
    decreases chunks.len(),
{
    if chunks.len() == 1 {
        assert(chunks.drop_last() =~= Seq::<ChunkView>::empty());
        assert(chunks.skip(1) =~= Seq::<ChunkView>::empty());
        assert(gathered(chunks, arena) =~= chunks[0].bytes_in(arena) + gathered(
            chunks.skip(1),
            arena,
        ));
    } else {
        lemma_gathered_front(chunks.drop_last(), arena);
        assert(chunks.drop_last().skip(1) =~= chunks.skip(1).drop_last());
        assert(gathered(chunks, arena) =~= chunks[0].bytes_in(arena) + gathered(
            chunks.skip(1),
            arena,
        ));
    }
}

/// Chunks that read the same bytes in two arenas gather the same bytes.
pub proof fn lemma_gathered_frame(chunks: Seq<ChunkView>, a: ArenaView, b: ArenaView)
    requires
        forall|i: int| 0 <= i < chunks.len() ==> (#[trigger] chunks[i]).bytes_in(a) == chunks[i].bytes_in(b),
    ensures
        gathered(chunks, a) == gathered(chunks, b),
    decreases chunks.len(),
{
    if chunks.len() > 0 {
        lemma_gathered_frame(chunks.drop_last(), a, b);
    }
}

/// A prefix of the chunks holds no more bytes than all of them.
pub proof fn lemma_total_len_take(chunks: Seq<ChunkView>, n: int)
    requires
        0 <= n <= chunks.len(),
    ensures
        total_len(chunks.take(n)) <= total_len(chunks),
        n < chunks.len() ==> total_len(chunks.take(n + 1)) == total_len(chunks.take(n))
            + chunks[n].len,
    decreases chunks.len() - n,
{
    if n == chunks.len() {
        assert(chunks.take(n) =~= chunks);
    } else {
        lemma_total_len_take(chunks, n + 1);
        assert(chunks.take(n + 1).drop_last() =~= chunks.take(n));
    }
}

/// Chunks that lie in their slots hold as many bytes as their fill levels
/// say.
pub proof fn lemma_gathered_len(chunks: Seq<ChunkView>, arena: ArenaView)
    requires
        arena.wf(),
        forall|i: int|
            0 <= i < chunks.len() ==> (#[trigger] chunks[i]).wf() && chunks[i].fits(arena),
    ensures
        gathered(chunks, arena).len() == total_len(chunks),
    decreases chunks.len(),
{
    if chunks.len() > 0 {
        lemma_gathered_len(chunks.drop_last(), arena);
        let c = chunks.last();
        arena.lemma_slot_bounds(c.token);
    }
}

/// Laying bytes into the room behind one chunk's filled part changes what
/// that chunk reads and nothing that another slot holds.
pub proof fn lemma_stored_frame(arena: ArenaView, c: ChunkView, data: Seq<u8>, t: ChunkToken)
    requires
        arena.wf(),
        c.wf(),
        c.fits(arena),
        data.len() <= c.room(),
        arena.in_range(t),
        t != c.token,
    ensures
        arena.stored(c.token.holder as int, (c.mem + c.len) as int, data).slot(t) == arena.slot(t),
{
    let h = c.token.holder as int;
    let at = (c.mem + c.len) as int;
    let after = arena.stored(h, at, data);
    arena.lemma_slot_bounds(c.token);
    arena.lemma_slot_bounds(t);
    if t.holder == c.token.holder {
        arena.lemma_slots_disjoint(t, c.token);
        assert(after.slot(t) =~= arena.slot(t));
    }
}

/// Feeding the tail chunk appends the bytes to what the buffer gathers and
/// keeps the buffer linked.
pub proof fn lemma_fed(v: NetBufView, arena: ArenaView, data: Seq<u8>)
    requires
        v.linked(arena),
        v.chunks.len() > 0,
        data.len() <= v.chunks.last().room(),
    ensures
        ({
            let tail = v.chunks.last();
            let after = arena.stored(tail.token.holder as int, (tail.mem + tail.len) as int, data);
            &&& after.wf()
            &&& after.same_accounting(arena)
            &&& v.fed(data.len()).linked(after)
            &&& v.fed(data.len()).tokens() == v.tokens()
            &&& gathered(v.fed(data.len()).chunks, after) == gathered(v.chunks, arena) + data
            &&& total_len(v.fed(data.len()).chunks) == total_len(v.chunks) + data.len()
            &&& forall|t: ChunkToken|
                arena.in_range(t) && t != tail.token ==> #[trigger] after.slot(t) == arena.slot(t)
        }),
{
    let n = v.chunks.len() - 1;
    let tail = v.chunks.last();
    let h = tail.token.holder as int;
    let at = (tail.mem + tail.len) as int;
    let after = arena.stored(h, at, data);
    let w = v.fed(data.len());
    arena.lemma_slot_bounds(tail.token);
    assert(v.chunks[n] == tail);
    assert(after.slabs[h].len() == arena.slabs[h].len());
    assert(after.wf()) by {
        assert forall|g: int| 0 <= g < after.slabs.len() implies #[trigger] after.slabs[g].len()
            == after.slab_len() by {
            assert(arena.slabs[g].len() == arena.slab_len());
        }
    }
    assert forall|t: ChunkToken| arena.in_range(t) && t != tail.token implies #[trigger] after.slot(
        t,
    ) == arena.slot(t) by {
        lemma_stored_frame(arena, tail, data, t);
    }
    assert forall|i: int| 0 <= i < n implies (#[trigger] v.chunks[i]).bytes_in(arena)
        == v.chunks[i].bytes_in(after) by {
        let d = v.chunks[i];
        arena.lemma_slot_bounds(d.token);
        assert(d.token != tail.token);
        lemma_stored_frame(arena, tail, data, d.token);
        assert(d.bytes_in(arena) =~= arena.slot(d.token).take(d.len as int));
        assert(d.bytes_in(after) =~= after.slot(d.token).take(d.len as int));
    }
    assert(w.tokens() =~= v.tokens());
    assert forall|i: int| 0 <= i < w.chunks.len() implies (#[trigger] w.chunks[i]).wf()
        && w.chunks[i].fits(after) && after.is_live(w.chunks[i].token) by {
        assert(v.chunks[i].wf() && v.chunks[i].fits(arena) && arena.is_live(v.chunks[i].token));
    }
    assert forall|i: int, j: int| 0 <= i < j < w.chunks.len() implies (#[trigger] w.chunks[i]).token
        != (#[trigger] w.chunks[j]).token by {
        assert(v.chunks[i].token != v.chunks[j].token);
    }
    assert forall|i: int| 0 <= i < w.chunks.len() - 1 implies (#[trigger] w.chunks[i]).len
        == w.chunks[i].cap by {
        assert(v.chunks[i].len == v.chunks[i].cap);
    }
    assert(w.chunks.drop_last() =~= v.chunks.drop_last());
    lemma_gathered_frame(v.chunks.drop_last(), arena, after);
    assert(w.chunks.last().bytes_in(after) =~= tail.bytes_in(arena) + data);
    assert(gathered(w.chunks, after) =~= gathered(v.chunks, arena) + data);
}

/// A fresh chunk from the arena at the tail keeps the buffer linked and adds
/// no byte.
pub proof fn lemma_extended(v: NetBufView, arena: ArenaView)
    requires
        v.linked(arena),
        v.chunks.len() > 0 ==> v.chunks.last().len == v.chunks.last().cap,
        arena.free.len() == 0 ==> arena.slabs.len() < usize::MAX,
    ensures
        ({
            let c = arena.chunk_at(arena.next_token());
            let after = arena.acquired();
            &&& v.extended(c).linked(after)
            &&& gathered(v.extended(c).chunks, after) == gathered(v.chunks, arena)
            &&& total_len(v.extended(c).chunks) == total_len(v.chunks)
            &&& !v.tokens().contains(c.token)
            &&& forall|t: ChunkToken| arena.in_range(t) ==> #[trigger] after.slot(t) == arena.slot(t)
        }),
{
    let t = arena.next_token();
    let c = arena.chunk_at(t);
    let after = arena.acquired();
    let w = v.extended(c);
    arena.lemma_acquired();
    assert forall|i: int| 0 <= i < v.chunks.len() implies (#[trigger] v.chunks[i]).bytes_in(arena)
        == v.chunks[i].bytes_in(after) by {}
    lemma_gathered_frame(v.chunks, arena, after);
    lemma_gathered_push(v.chunks, c, after);
    after.lemma_slot_bounds(t);
    assert(after.slabs[t.holder as int].len() == after.slab_len());
    assert(c.bytes_in(after) =~= Seq::<u8>::empty());
    assert(gathered(w.chunks, after) =~= gathered(v.chunks, arena));
    if v.tokens().contains(c.token) {
        let i = choose|i: int| 0 <= i < v.tokens().len() && v.tokens()[i] == c.token;
        assert(arena.is_live(v.chunks[i].token));
    }
    assert forall|i: int| 0 <= i < w.chunks.len() implies (#[trigger] w.chunks[i]).wf()
        && w.chunks[i].fits(after) && after.is_live(w.chunks[i].token) by {
        if i < v.chunks.len() {
            assert(w.chunks[i] == v.chunks[i]);
            assert(arena.is_live(v.chunks[i].token));
        }
    }
    assert forall|i: int, j: int| 0 <= i < j < w.chunks.len() implies (#[trigger] w.chunks[i]).token
        != (#[trigger] w.chunks[j]).token by {
        assert(w.chunks[i] == v.chunks[i]);
        if j < v.chunks.len() {
            assert(w.chunks[j] == v.chunks[j]);
        } else {
            assert(arena.is_live(v.chunks[i].token));
        }
    }
    assert forall|i: int| 0 <= i < w.chunks.len() - 1 implies (#[trigger] w.chunks[i]).len
        == w.chunks[i].cap by {
        assert(w.chunks[i] == v.chunks[i]);
    }
}

/// Dropping the head chunk and handing its slot back keeps the rest linked.
pub proof fn lemma_popped_linked(v: NetBufView, arena: ArenaView)
    requires
        v.linked(arena),
        v.chunks.len() > 0,
    ensures
        v.popped().linked(arena.released(v.chunks[0].token)),
        v.popped().tokens() == v.tokens().skip(1),
        gathered(v.popped().chunks, arena.released(v.chunks[0].token)) == gathered(
            v.chunks.skip(1),
            arena,
        ),
{
    let t = v.chunks[0].token;
    let after = arena.released(t);
    let w = v.popped();
    arena.lemma_released(t);
    assert(w.tokens() =~= v.tokens().skip(1));
    assert forall|i: int| 0 <= i < w.chunks.len() implies (#[trigger] w.chunks[i]).wf()
        && w.chunks[i].fits(after) && after.is_live(w.chunks[i].token) by {
        assert(w.chunks[i] == v.chunks[i + 1]);
        assert(v.chunks[0].token != v.chunks[i + 1].token);
    }
    assert forall|i: int, j: int| 0 <= i < j < w.chunks.len() implies (#[trigger] w.chunks[i]).token
        != (#[trigger] w.chunks[j]).token by {
        assert(v.chunks[i + 1].token != v.chunks[j + 1].token);
    }
    assert forall|i: int| 0 <= i < w.chunks.len() - 1 implies (#[trigger] w.chunks[i]).len
        == w.chunks[i].cap by {
        assert(v.chunks[i + 1].len == v.chunks[i + 1].cap);
    }
    lemma_gathered_frame(w.chunks, arena, after);
}

/// What waits in a well-formed buffer starts with what waits in its head
/// chunk, which is at least one byte.
pub proof fn lemma_head(v: NetBufView, arena: ArenaView)
    requires
        v.wf(arena),
        v.len() > 0,
    ensures
        v.chunks.len() > 0,
        v.head(arena).len() == v.chunks[0].len - v.pos,
        1 <= v.head(arena).len() <= v.len(),
        v.contents(arena).len() == v.len(),
        v.contents(arena) == v.head(arena) + gathered(v.chunks.skip(1), arena),
        v.len() == v.head(arena).len() + total_len(v.chunks.skip(1)),
{
    lemma_gathered_len(v.chunks, arena);
    lemma_gathered_front(v.chunks, arena);
    let c = v.chunks[0];
    arena.lemma_slot_bounds(c.token);
    assert(arena.slabs[c.token.holder as int].len() == arena.slab_len());
    assert(v.contents(arena) =~= v.head(arena) + gathered(v.chunks.skip(1), arena));
}

/// A well-formed buffer is empty exactly when it has no chunk.
pub proof fn lemma_empty_iff(v: NetBufView, arena: ArenaView)
    requires
        v.wf(arena),
    ensures
        v.len() == 0 <==> v.chunks.len() == 0,
        v.contents(arena).len() == v.len(),
{
    lemma_gathered_len(v.chunks, arena);
    if v.chunks.len() > 0 {
        lemma_gathered_front(v.chunks, arena);
    }
}

/// Draining the head chunk to its end removes exactly its waiting bytes
/// from the front of the buffer.
pub proof fn lemma_popped(v: NetBufView, arena: ArenaView)
    requires
        v.wf(arena),
        v.len() > 0,
    ensures
        v.popped().wf(arena.released(v.chunks[0].token)),
        v.popped().contents(arena.released(v.chunks[0].token)) == v.contents(arena).skip(
            v.head(arena).len() as int,
        ),
        v.contents(arena).take(v.head(arena).len() as int) == v.head(arena),
        v.popped().len() == v.len() - v.head(arena).len(),
{
    let t = v.chunks[0].token;
    let after = arena.released(t);
    let w = v.popped();
    lemma_head(v, arena);
    lemma_popped_linked(v, arena);
    let rest = gathered(v.chunks.skip(1), arena);
    assert((v.head(arena) + rest).skip(v.head(arena).len() as int) =~= rest);
    assert((v.head(arena) + rest).take(v.head(arena).len() as int) =~= v.head(arena));
    assert(w.contents(after) =~= rest);
    if w.chunks.len() > 0 {
        assert(w.chunks[0] == v.chunks[1]);
        assert(w.chunks.last() == v.chunks.last());
        if w.chunks.len() > 1 {
            assert(v.chunks[1].len == v.chunks[1].cap);
        }
        lemma_gathered_front(w.chunks, after);
    }
}

/// Draining part of the head chunk removes exactly those bytes from the
/// front of the buffer.
pub proof fn lemma_skipped(v: NetBufView, arena: ArenaView, n: nat)
    requires
        v.wf(arena),
        v.len() > 0,
        n < v.head(arena).len(),
    ensures
        v.skipped(n).wf(arena),
        v.skipped(n).contents(arena) == v.contents(arena).skip(n as int),
        v.contents(arena).take(n as int) == v.head(arena).take(n as int),
        v.skipped(n).len() == v.len() - n,
{
    lemma_head(v, arena);
    lemma_gathered_len(v.chunks, arena);
    lemma_gathered_front(v.chunks, arena);
    let rest = gathered(v.chunks.skip(1), arena);
    assert((v.head(arena) + rest).take(n as int) =~= v.head(arena).take(n as int));
    assert(v.skipped(n).contents(arena) =~= v.contents(arena).skip(n as int));
}

/// A chunk that lies in its slot reads the front of that slot.
pub proof fn lemma_bytes_in_slot(c: ChunkView, arena: ArenaView)
    requires
        arena.wf(),
        c.wf(),
        c.fits(arena),
    ensures
        c.bytes_in(arena) == arena.slot(c.token).take(c.len as int),
{
    arena.lemma_slot_bounds(c.token);
    assert(c.bytes_in(arena) =~= arena.slot(c.token).take(c.len as int));
}

} // verus!
