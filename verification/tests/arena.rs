use netbuf::{Arena, ChunkToken, NetWriter, PartialResult, Releasable};
use std::io;

/// A sink that takes `cap` bytes in all and fails with what is offered
/// beyond that.
struct Sink {
    data: Vec<u8>,
    cap: usize,
}

impl Sink {
    fn with_capacity(cap: usize) -> Sink {
        Sink { data: Vec::with_capacity(cap), cap }
    }
}

impl NetWriter for Sink {
    // The two functions that follow stand in contracts only; nothing calls
    // them when the program runs.
    fn accepted(&self) -> vstd::seq::Seq<u8> {
        panic!("only read in contracts")
    }

    fn failure(&self) -> Option<io::Error> {
        panic!("only read in contracts")
    }

    fn write(&mut self, buf: &[u8]) -> Result<usize, PartialResult> {
        let room = self.cap - self.data.len();
        let taken = if room < buf.len() { room } else { buf.len() };
        self.data.extend_from_slice(&buf[..taken]);
        if taken < buf.len() {
            return Err(PartialResult(taken, io::Error::new(io::ErrorKind::Other, "some error")));
        }
        Ok(buf.len())
    }
}

#[test]
fn test_creates_buf() {
    let arena = Arena::new(2, 2);
    let buf = arena.new_buf();
    assert_eq!(buf.len(), 0);
    assert_eq!(arena.free_chunks(), 0)
}

#[test]
fn test_creates_chunks() {
    let mut arena = Arena::new(2, 3);
    let _chunk = arena.new_chunk();
    assert_eq!(arena.free_chunks(), 2)
}

#[test]
fn test_allocates_if_full() {
    let mut arena = Arena::new(2, 1);
    let mut buf = arena.new_buf();
    buf.write(&mut arena, b"asdf");
    buf.write(&mut arena, b"qwerty");
    assert_eq!(buf.len(), 10);

    let mut data = Sink::with_capacity(20);
    assert!(buf.write_to(&mut arena, &mut data).is_ok());

    assert_eq!(data.data, b"asdfqwerty");

    assert_eq!(buf.len(), 0);
    assert_eq!(arena.free_chunks(), 5)
}

#[test]
fn test_is_releasable() {
    let mut arena = Arena::new(2, 1);
    assert_eq!(arena.free_chunks(), 0);
    arena.release(ChunkToken::new(0, 0));
    assert_eq!(arena.free_chunks(), 1);
    arena.release(ChunkToken::new(1, 1));
    assert_eq!(arena.free_chunks(), 2);
}

#[test]
fn test_frees_space_on_chunk_drop() {
    let mut arena = Arena::new(2, 2);
    assert_eq!(arena.free_chunks(), 0);
    let chunk = arena.new_chunk();
    assert_eq!(arena.free_chunks(), 1);
    let chunk2 = arena.new_chunk();
    assert_eq!(arena.free_chunks(), 0);
    chunk.release(&mut arena);
    assert_eq!(arena.free_chunks(), 1);
    chunk2.release(&mut arena);
    assert_eq!(arena.free_chunks(), 2);
}

#[test]
fn slab_slots_are_issued_from_the_top_down() {
    let mut arena = Arena::new(2, 4);
    let a = arena.new_chunk();
    let b = arena.new_chunk();
    let c = arena.new_chunk();
    let d = arena.new_chunk();
    assert_eq!(a.token(), ChunkToken::new(0, 3));
    assert_eq!(b.token(), ChunkToken::new(0, 2));
    assert_eq!(c.token(), ChunkToken::new(0, 1));
    assert_eq!(d.token(), ChunkToken::new(0, 0));
    assert_eq!(a.mem(), 6);
    assert_eq!(b.mem(), 4);
    assert_eq!(c.mem(), 2);
    assert_eq!(d.mem(), 0);
    assert_eq!(a.cap(), 2);
    assert_eq!(a.len(), 0);
    assert_eq!(arena.free_chunks(), 0);
    let e = arena.new_chunk();
    assert_eq!(e.token(), ChunkToken::new(1, 3));
    assert_eq!(arena.free_chunks(), 3);
}

#[test]
fn released_slot_is_the_next_one_issued() {
    let mut arena = Arena::new(2, 4);
    let _first = arena.new_chunk();
    let _second = arena.new_chunk();
    let third = arena.new_chunk();
    let _fourth = arena.new_chunk();
    let slot = third.token();
    third.release(&mut arena);
    let again = arena.new_chunk();
    assert_eq!(again.token(), slot);
    assert_eq!(again.len(), 0);
}

#[test]
fn release_without_buffer() {
    let mut arena = Arena::new(2, 1);
    assert_eq!(arena.free_chunks(), 0);
    let a = arena.new_chunk();
    let b = arena.new_chunk();
    assert_eq!(arena.free_chunks(), 0);
    a.release(&mut arena);
    b.release(&mut arena);
    assert_eq!(arena.free_chunks(), 2);
}

#[test]
fn free_and_live_slots_add_up_to_all_slots() {
    let mut arena = Arena::new(3, 4);
    let mut live = Vec::new();
    for _ in 0..6 {
        live.push(arena.new_chunk());
    }
    // two slabs of four slots each
    assert_eq!(arena.free_chunks() + live.len(), 8);
    let c = live.pop().unwrap();
    let before = arena.free_chunks();
    c.release(&mut arena);
    assert_eq!(arena.free_chunks(), before + 1);
    assert_eq!(arena.free_chunks() + live.len(), 8);
    while let Some(c) = live.pop() {
        c.release(&mut arena);
    }
    assert_eq!(arena.free_chunks(), 8);
}

#[test]
fn chunks_have_the_arena_chunk_size() {
    let mut arena = Arena::new(7, 3);
    let a = arena.new_chunk();
    let b = arena.new_chunk();
    assert_eq!(a.cap(), 7);
    assert_eq!(b.cap(), 7);
    assert_eq!(a.mem(), 14);
    assert_eq!(b.mem(), 7);
    assert_eq!(arena.slab(0).len(), 21);
}

#[test]
fn chunks_write_into_their_own_slots() {
    let mut arena = Arena::new(2, 2);
    let mut a = arena.new_chunk();
    let mut b = arena.new_chunk();
    assert_eq!(arena.write_chunk(&mut a, b"xyz"), 2);
    assert_eq!(arena.write_chunk(&mut b, b"q"), 1);
    assert_eq!(arena.write_chunk(&mut a, b"z"), 0);
    assert_eq!(a.as_slice(arena.slab(a.token().holder)), b"xy");
    assert_eq!(b.as_slice(arena.slab(b.token().holder)), b"q");
    assert_eq!(arena.slab(0), &[b'q', 0, b'x', b'y']);
}

#[test]
fn buffer_release_returns_every_chunk() {
    let mut arena = Arena::new(2, 1);
    let mut buf = arena.new_buf();
    buf.write(&mut arena, b"asdf");
    buf.write(&mut arena, b"qwerty");
    assert_eq!(arena.free_chunks(), 0);
    buf.release(&mut arena);
    assert_eq!(arena.free_chunks(), 5);
}

#[test]
fn no_slot_is_held_by_two_chunks() {
    let mut arena = Arena::new(1, 3);
    let mut live = Vec::new();
    for round in 0..5 {
        for _ in 0..4 {
            let c = arena.new_chunk();
            assert!(live.iter().all(|other: &netbuf::Chunk| other.token() != c.token()));
            live.push(c);
        }
        for _ in 0..(round % 3 + 1) {
            let c = live.remove(0);
            c.release(&mut arena);
        }
    }
    // at most thirteen chunks were live at once: five slabs of three slots
    assert_eq!(live.len(), 11);
    assert_eq!(arena.free_chunks() + live.len(), 15);
}
