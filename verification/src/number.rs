//! A small utility for minting fresh numeric identifiers from a counter.

use vstd::prelude::*;

verus! {

/// Error returned when an identifier generator has exhausted its range.
#[derive(Debug, Clone, Copy, PartialEq, Eq, Structural)]
pub struct GenOverflowError;

impl GenOverflowError {
    pub fn new() -> (e: GenOverflowError)
        ensures
            e == GenOverflowError,
    {
        GenOverflowError
    }

    /// A human-readable description of the failure.
    pub fn message(&self) -> (m: &'static str)
        ensures
            m@ == "generator overflowed: identifier space exhausted"@,
    {
        "generator overflowed: identifier space exhausted"
    }
}

/// A counter that hands out fresh, strictly increasing identifiers.
///
/// Generation fails with a [`GenOverflowError`] instead of wrapping once the
/// counter reaches its limit.
pub trait NumberGenExt: Sized {
    /// The current state of the counter.
    spec fn counter(&self) -> int;

    /// The largest identifier the counter can hand out.
    spec fn limit_spec() -> int;

    fn limit() -> (r: u64)
        ensures
            r == Self::limit_spec(),
    ;

    fn try_generate(&mut self) -> (r: Result<u64, GenOverflowError>)
        ensures
            old(self).counter() < Self::limit_spec() ==> {
                &&& final(self).counter() == old(self).counter() + 1
                &&& r == Ok::<u64, GenOverflowError>((old(self).counter() + 1) as u64)
            },
            old(self).counter() >= Self::limit_spec() ==> {
                &&& final(self).counter() == old(self).counter()
                &&& r == Err::<u64, GenOverflowError>(GenOverflowError)
            },
    ;
}

impl NumberGenExt for u64 {
    open spec fn counter(&self) -> int {
        *self as int
    }

    open spec fn limit_spec() -> int {
        u64::MAX as int
    }

    fn limit() -> u64 {
        u64::MAX
    }

    fn try_generate(&mut self) -> Result<u64, GenOverflowError> {
        if *self < u64::MAX {
            *self = *self + 1;
            Ok(*self)
        } else {
            Err(GenOverflowError)
        }
    }
}

} // verus!
