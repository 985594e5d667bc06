//! The sink that a buffer drains into.

use vstd::prelude::*;

verus! {

/// The error type `std::io::Error`, carried through unopened.
#[verifier::external_type_specification]
#[verifier::external_body]
pub struct ExIoError(std::io::Error);

/// A short write: how many bytes the sink took before it failed, and why it
/// failed.
pub struct PartialResult(pub usize, pub std::io::Error);

/// A byte sink that reports exactly how far each write got.
pub trait NetWriter {
    /// Every byte the sink has taken so far, in the order it took them.
    spec fn accepted(&self) -> Seq<u8>;

    /// The error with which the latest write fell short, if it did.
    spec fn failure(&self) -> Option<std::io::Error>;

    /// Offers `buf` to the sink. `Ok(n)` means that all of `buf` was taken
    /// and `n` is its length. `Err(PartialResult(n, e))` means that the first
    /// `n` bytes were taken, fewer than were offered, and the sink failed with
    /// `e`.
    fn write(&mut self, buf: &[u8]) -> (res: Result<usize, PartialResult>)
        ensures
            (match res {
                Ok(n) => {
                    &&& n == buf@.len()
                    &&& final(self).accepted() == old(self).accepted() + buf@
                    &&& final(self).failure() is None
                },
                Err(PartialResult(n, e)) => {
                    &&& n < buf@.len()
                    &&& final(self).accepted() == old(self).accepted() + buf@.take(n as int)
                    &&& final(self).failure() == Some(e)
                },
            }),
    ;
}

} // verus!
