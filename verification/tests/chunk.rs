use netbuf::{Chunk, ChunkToken, Releasable};

struct TestReleaser {
    tokens: Vec<ChunkToken>,
}

impl TestReleaser {
    fn new() -> TestReleaser {
        TestReleaser { tokens: Vec::new() }
    }
}

impl Releasable for TestReleaser {
    // The two functions that follow stand in contracts only; nothing calls
    // them when the program runs.
    fn held(&self) -> vstd::seq::Seq<ChunkToken> {
        panic!("only read in contracts")
    }

    fn kept(&self, _after: &Self) -> bool {
        panic!("only read in contracts")
    }

    fn release(&mut self, token: ChunkToken) {
        self.tokens.push(token);
    }
}

#[test]
fn test_base_write_read() {
    let mut mem = vec![0u8; 4];

    let mut chunk = Chunk::new(0, 4, ChunkToken::new(0, 0));
    assert_eq!(chunk.cap(), 4);
    assert_eq!(chunk.len(), 0);

    let written = chunk.write(&mut mem, b"asdf");
    assert_eq!(written, 4);

    assert_eq!(chunk.as_slice(&mem), b"asdf");

    assert_eq!(chunk.len(), 4);
}

#[test]
fn test_append() {
    let mut mem = vec![0u8; 4];

    let mut chunk = Chunk::new(0, 4, ChunkToken::new(0, 0));
    assert_eq!(chunk.cap(), 4);
    assert_eq!(chunk.len(), 0);

    let written = chunk.write(&mut mem, b"as");
    assert_eq!(written, 2);

    assert_eq!(chunk.as_slice(&mem), b"as");
    assert_eq!(chunk.len(), 2);

    let written = chunk.write(&mut mem, b"df");
    assert_eq!(written, 2);

    assert_eq!(chunk.as_slice(&mem), b"asdf");
    assert_eq!(chunk.len(), 4);
}

#[test]
fn test_not_enough_space() {
    let mut mem = vec![0u8; 2];

    let mut chunk = Chunk::new(0, 2, ChunkToken::new(0, 0));
    assert_eq!(chunk.cap(), 2);
    assert_eq!(chunk.len(), 0);

    let written = chunk.write(&mut mem, b"asdf");
    assert_eq!(written, 2);

    assert_eq!(chunk.as_slice(&mem), b"as");

    assert_eq!(chunk.len(), 2);

    let written = chunk.write(&mut mem, b"qwerty");
    assert_eq!(written, 0);

    assert_eq!(chunk.as_slice(&mem), b"as");
    assert_eq!(chunk.len(), 2);
}

#[test]
fn test_releases() {
    let mut releaser = TestReleaser::new();
    {
        assert_eq!(releaser.tokens.len(), 0);
        let chunk = Chunk::new(0, 2, ChunkToken::new(33, 44));
        chunk.release(&mut releaser);
    }

    assert_eq!(releaser.tokens.len(), 1);
    assert_eq!(releaser.tokens[0], ChunkToken::new(33, 44));
}

#[test]
fn chunk_writes_inside_its_region_only() {
    let mut mem = vec![b'.'; 8];
    let mut chunk = Chunk::new(3, 3, ChunkToken::new(0, 1));
    assert_eq!(chunk.write(&mut mem, b"ab"), 2);
    assert_eq!(mem, b"...ab...");
    assert_eq!(chunk.write(&mut mem, b"cdef"), 1);
    assert_eq!(mem, b"...abc..");
    assert_eq!(chunk.as_slice(&mem), b"abc");
    assert_eq!(chunk.write(&mut mem, b"x"), 0);
    assert_eq!(mem, b"...abc..");
    assert_eq!(chunk.mem(), 3);
    assert_eq!(chunk.token(), ChunkToken::new(0, 1));
}

#[test]
fn empty_write_takes_nothing() {
    let mut mem = vec![0u8; 2];
    let mut chunk = Chunk::new(0, 2, ChunkToken::new(0, 0));
    assert_eq!(chunk.write(&mut mem, b""), 0);
    assert_eq!(chunk.len(), 0);
    assert_eq!(chunk.as_slice(&mem), b"");
}

#[test]
fn token_equality_is_by_both_fields() {
    assert_eq!(ChunkToken::new(1, 2), ChunkToken::new(1, 2));
    assert_ne!(ChunkToken::new(1, 2), ChunkToken::new(2, 1));
    assert_ne!(ChunkToken::new(1, 2), ChunkToken::new(1, 3));
    let t = ChunkToken::new(5, 6);
    assert_eq!(t.holder, 5);
    assert_eq!(t.offset, 6);
}
