use netbuf::{Arena, NetBuf, NetWriter, PartialResult};
use std::io;

/// A sink that takes `cap` bytes in all and fails with what is offered
/// beyond that.
struct Sink {
    data: Vec<u8>,
    cap: usize,
}

impl Sink {
    fn with_capacity(cap: usize) -> Sink {
        Sink { data: Vec::with_capacity(cap), cap }
    }
}

impl NetWriter for Sink {
    // The two functions that follow stand in contracts only; nothing calls
    // them when the program runs.
    fn accepted(&self) -> vstd::seq::Seq<u8> {
        panic!("only read in contracts")
    }

    fn failure(&self) -> Option<io::Error> {
        panic!("only read in contracts")
    }

    fn write(&mut self, buf: &[u8]) -> Result<usize, PartialResult> {
        let room = self.cap - self.data.len();
        let taken = if room < buf.len() { room } else { buf.len() };
        self.data.extend_from_slice(&buf[..taken]);
        if taken < buf.len() {
            return Err(PartialResult(taken, io::Error::new(io::ErrorKind::Other, "some error")));
        }
        Ok(buf.len())
    }
}

#[test]
fn test_write_write_to() {
    let mut arena = Arena::new(4, 1);

    let mut buf = arena.new_buf();
    buf.write(&mut arena, b"test");
    assert_eq!(buf.len(), 4);

    let mut res = Sink::with_capacity(4);
    match buf.write_to(&mut arena, &mut res) {
        Ok(_) => {}
        Err(err) => {
            panic!("write_to failed: {}", err)
        }
    }

    assert_eq!(res.data.as_slice(), b"test");
}

#[test]
fn one_chunk_goes_back_after_the_drain() {
    let mut arena = Arena::new(4, 1);
    let mut buf = arena.new_buf();
    buf.write(&mut arena, b"test");
    assert_eq!(arena.free_chunks(), 0);
    let mut sink = Sink::with_capacity(4);
    assert!(buf.write_to(&mut arena, &mut sink).is_ok());
    assert_eq!(sink.data, b"test");
    assert_eq!(buf.len(), 0);
    assert_eq!(arena.free_chunks(), 1);
}

#[test]
fn test_chunks() {
    let mut arena = Arena::new(2, 5);

    let mut buf = arena.new_buf();
    buf.write(&mut arena, b"asdf");
    assert_eq!(buf.len(), 4);

    let mut res = Sink::with_capacity(4);
    match buf.write_to(&mut arena, &mut res) {
        Ok(_) => {}
        Err(err) => {
            panic!("write_to failed: {}", err)
        }
    }

    assert_eq!(res.data.as_slice(), b"asdf");

    assert_eq!(buf.len(), 0);
}

#[test]
fn test_pos() {
    let mut arena = Arena::new(2, 5);

    let mut buf = arena.new_buf();
    buf.write(&mut arena, b"asdf");
    assert_eq!(buf.len(), 4);

    ////
    let mut res = Sink::with_capacity(1);
    match buf.write_to(&mut arena, &mut res) {
        Ok(_) => {
            panic!("write_to is expected to fail, res: {:?}, full str: {:?}", res.data, b"asdf")
        }
        Err(_err) => {}
    }

    assert_eq!(res.data.as_slice(), b"a");

    assert_eq!(buf.len(), 3);

    ////
    let mut second_res = Sink::with_capacity(2);
    match buf.write_to(&mut arena, &mut second_res) {
        Ok(_) => {
            panic!(
                "write_to is expected to fail, second_res: {:?}, full str: {:?}",
                second_res.data, b"asdf"
            )
        }
        Err(_err) => {}
    }

    assert_eq!(second_res.data.as_slice(), b"sd");
    assert_eq!(buf.len(), 1);

    ////
    let mut last_res = Sink::with_capacity(2);
    match buf.write_to(&mut arena, &mut last_res) {
        Ok(_) => {}
        Err(err) => {
            panic!("write_to failed: {}", err)
        }
    }

    assert_eq!(last_res.data.as_slice(), b"f");
    assert_eq!(buf.len(), 0);
}

#[test]
fn new_buffer_is_empty() {
    let arena = Arena::new(2, 2);
    let buf = NetBuf::new(&arena);
    assert_eq!(buf.len(), 0);
}

#[test]
fn length_is_the_sum_of_what_was_written() {
    let mut arena = Arena::new(3, 2);
    let mut buf = arena.new_buf();
    let inputs: [&[u8]; 5] = [b"a", b"", b"bcdef", b"gh", b"ijklmnopq"];
    let mut sum = 0;
    for x in inputs.iter() {
        buf.write(&mut arena, x);
        sum += x.len();
        assert_eq!(buf.len(), sum);
    }
    assert_eq!(buf.len(), 17);
}

#[test]
fn empty_write_takes_no_chunk() {
    let mut arena = Arena::new(2, 3);
    let mut buf = arena.new_buf();
    buf.write(&mut arena, b"");
    assert_eq!(buf.len(), 0);
    assert_eq!(arena.free_chunks(), 0);
    buf.write(&mut arena, b"ab");
    assert_eq!(arena.free_chunks(), 2);
    buf.write(&mut arena, b"");
    assert_eq!(arena.free_chunks(), 2);
    assert_eq!(buf.len(), 2);
}

#[test]
fn chunks_are_taken_only_as_needed() {
    let mut arena = Arena::new(4, 8);
    let mut buf = arena.new_buf();
    buf.write(&mut arena, b"abcd");
    assert_eq!(arena.free_chunks(), 7);
    buf.write(&mut arena, b"e");
    assert_eq!(arena.free_chunks(), 6);
    buf.write(&mut arena, b"fgh");
    assert_eq!(arena.free_chunks(), 6);
    buf.write(&mut arena, b"ijklmnopq");
    assert_eq!(arena.free_chunks(), 3);
    assert_eq!(buf.len(), 17);
}

#[test]
fn draining_an_empty_buffer_is_ok_and_offers_nothing() {
    let mut arena = Arena::new(2, 2);
    let mut buf = arena.new_buf();
    let mut sink = Sink::with_capacity(0);
    assert!(buf.write_to(&mut arena, &mut sink).is_ok());
    assert_eq!(sink.data.len(), 0);
    assert_eq!(buf.len(), 0);
}

#[test]
fn round_trip_gives_back_the_inputs_in_order() {
    let mut arena = Arena::new(3, 2);
    let mut buf = arena.new_buf();
    buf.write(&mut arena, b"hello ");
    buf.write(&mut arena, b"chunked ");
    buf.write(&mut arena, b"world");
    let mut sink = Sink::with_capacity(64);
    assert!(buf.write_to(&mut arena, &mut sink).is_ok());
    assert_eq!(sink.data, b"hello chunked world");
    assert_eq!(buf.len(), 0);
    // seven chunks were needed: four slabs of two slots
    assert_eq!(arena.free_chunks(), 8);
}

#[test]
fn drain_resumes_after_every_short_write() {
    let text = b"the quick brown fox jumps over the lazy dog";
    for cap in 1..=text.len() {
        let mut arena = Arena::new(4, 3);
        let mut buf = arena.new_buf();
        buf.write(&mut arena, text);
        let mut out: Vec<u8> = Vec::new();
        loop {
            let before = buf.len();
            let mut sink = Sink::with_capacity(cap);
            let res = buf.write_to(&mut arena, &mut sink);
            assert_eq!(before - buf.len(), sink.data.len());
            out.extend_from_slice(&sink.data);
            match res {
                Ok(()) => {
                    assert_eq!(buf.len(), 0);
                    break;
                }
                Err(e) => {
                    assert_eq!(e.kind(), io::ErrorKind::Other);
                    assert!(buf.len() > 0);
                    assert_eq!(sink.data.len(), cap);
                }
            }
        }
        assert_eq!(out, text);
    }
}

#[test]
fn writes_between_drains_keep_the_order() {
    let mut arena = Arena::new(2, 2);
    let mut buf = arena.new_buf();
    buf.write(&mut arena, b"abcde");
    let mut first = Sink::with_capacity(3);
    assert!(buf.write_to(&mut arena, &mut first).is_err());
    assert_eq!(first.data, b"abc");
    buf.write(&mut arena, b"fgh");
    assert_eq!(buf.len(), 5);
    let mut second = Sink::with_capacity(10);
    assert!(buf.write_to(&mut arena, &mut second).is_ok());
    assert_eq!(second.data, b"defgh");
    assert_eq!(buf.len(), 0);
}

#[test]
fn pending_and_advance_step_through_the_chunks() {
    let mut arena = Arena::new(2, 2);
    let mut buf = arena.new_buf();
    buf.write(&mut arena, b"abcde");
    assert_eq!(buf.pending(&arena), b"ab");
    let short = Err(PartialResult(1, io::Error::new(io::ErrorKind::WouldBlock, "later")));
    match buf.advance(&mut arena, short) {
        Err(e) => assert_eq!(e.kind(), io::ErrorKind::WouldBlock),
        Ok(_) => panic!("a short write hands the error on"),
    }
    assert_eq!(buf.len(), 4);
    assert_eq!(buf.pending(&arena), b"b");
    assert!(matches!(buf.advance(&mut arena, Ok(1)), Ok(false)));
    assert_eq!(buf.pending(&arena), b"cd");
    assert!(matches!(buf.advance(&mut arena, Ok(2)), Ok(false)));
    assert_eq!(buf.pending(&arena), b"e");
    assert!(matches!(buf.advance(&mut arena, Ok(1)), Ok(true)));
    assert_eq!(buf.len(), 0);
    assert_eq!(arena.free_chunks(), 4);
}

#[test]
fn two_buffers_share_one_arena() {
    let mut arena = Arena::new(2, 4);
    let mut a = arena.new_buf();
    let mut b = arena.new_buf();
    a.write(&mut arena, b"aaa");
    b.write(&mut arena, b"bbbbb");
    a.write(&mut arena, b"AA");
    let mut sa = Sink::with_capacity(16);
    let mut sb = Sink::with_capacity(16);
    assert!(b.write_to(&mut arena, &mut sb).is_ok());
    assert!(a.write_to(&mut arena, &mut sa).is_ok());
    assert_eq!(sa.data, b"aaaAA");
    assert_eq!(sb.data, b"bbbbb");
    assert_eq!(arena.free_chunks(), 8);
}

#[test]
fn the_count_in_an_ok_answer_is_not_looked_at() {
    let mut arena = Arena::new(3, 1);
    let mut buf = arena.new_buf();
    buf.write(&mut arena, b"abcd");
    assert_eq!(buf.pending(&arena), b"abc");
    assert!(matches!(buf.advance(&mut arena, Ok(999)), Ok(false)));
    assert_eq!(buf.len(), 1);
    assert_eq!(buf.pending(&arena), b"d");
    assert!(matches!(buf.advance(&mut arena, Ok(0)), Ok(true)));
    assert_eq!(buf.len(), 0);
    assert_eq!(arena.free_chunks(), 2);
}

#[test]
fn a_short_write_of_nothing_keeps_the_buffer() {
    let mut arena = Arena::new(2, 2);
    let mut buf = arena.new_buf();
    buf.write(&mut arena, b"abc");
    let mut sink = Sink::with_capacity(0);
    assert!(buf.write_to(&mut arena, &mut sink).is_err());
    assert_eq!(sink.data.len(), 0);
    assert_eq!(buf.len(), 3);
    assert_eq!(buf.pending(&arena), b"ab");
    assert_eq!(arena.free_chunks(), 0);
}

#[test]
fn mixed_writes_and_drains_behave_like_a_plain_queue() {
    let mut seed: u32 = 12345;
    let mut next = move |bound: usize| -> usize {
        seed = seed.wrapping_mul(1664525).wrapping_add(1013904223);
        ((seed >> 8) as usize) % bound
    };
    let mut arena = Arena::new(5, 3);
    let mut buf = arena.new_buf();
    let mut model: Vec<u8> = Vec::new();
    let mut byte: u8 = 0;
    for _ in 0..400 {
        if next(2) == 0 {
            let n = next(17);
            let mut data = Vec::new();
            for _ in 0..n {
                byte = byte.wrapping_add(1);
                data.push(byte);
            }
            buf.write(&mut arena, &data);
            model.extend_from_slice(&data);
        } else {
            let cap = next(23);
            let mut sink = Sink::with_capacity(cap);
            let res = buf.write_to(&mut arena, &mut sink);
            let taken = if cap < model.len() { cap } else { model.len() };
            assert_eq!(sink.data, &model[..taken]);
            model.drain(..taken);
            assert_eq!(res.is_ok(), model.is_empty());
        }
        assert_eq!(buf.len(), model.len());
        if model.is_empty() {
            // an empty buffer holds no chunk: every slot of every slab is free
            assert_eq!(arena.free_chunks() % 3, 0);
        }
    }
    let mut rest = Sink::with_capacity(model.len());
    assert!(buf.write_to(&mut arena, &mut rest).is_ok());
    assert_eq!(rest.data, model);
    assert_eq!(arena.free_chunks() % 3, 0);
}
