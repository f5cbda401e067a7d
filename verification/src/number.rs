//! The numeric interface that a sample has to offer.

use vstd::prelude::*;

verus! {

/// A sample: a small value that is copied freely and stands for an integer
/// that fits in 64 signed bits.
pub trait NumberLike: Copy {
    /// The integer that the sample stands for.
    spec fn value(&self) -> int;

    /// The sample as a signed 64-bit integer, with nothing lost.
    fn to_i64(&self) -> (r: i64)
        ensures
            r as int == self.value(),
    ;
}

impl NumberLike for i8 {
    open spec fn value(&self) -> int {
        *self as int
    }

    fn to_i64(&self) -> (r: i64) {
        *self as i64
    }
}

impl NumberLike for i16 {
    open spec fn value(&self) -> int {
        *self as int
    }

    fn to_i64(&self) -> (r: i64) {
        *self as i64
    }
}

impl NumberLike for i32 {
    open spec fn value(&self) -> int {
        *self as int
    }

    fn to_i64(&self) -> (r: i64) {
        *self as i64
    }
}

impl NumberLike for i64 {
    open spec fn value(&self) -> int {
        *self as int
    }

    fn to_i64(&self) -> (r: i64) {
        *self
    }
}

impl NumberLike for isize {
    open spec fn value(&self) -> int {
        *self as int
    }

    fn to_i64(&self) -> (r: i64) {
        *self as i64
    }
}

impl NumberLike for u8 {
    open spec fn value(&self) -> int {
        *self as int
    }

    fn to_i64(&self) -> (r: i64) {
        *self as i64
    }
}

impl NumberLike for u16 {
    open spec fn value(&self) -> int {
        *self as int
    }

    fn to_i64(&self) -> (r: i64) {
        *self as i64
    }
}

impl NumberLike for u32 {
    open spec fn value(&self) -> int {
        *self as int
    }

    fn to_i64(&self) -> (r: i64) {
        *self as i64
    }
}

} // verus!
