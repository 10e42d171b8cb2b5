//! The order on keys.

use vstd::prelude::*;

verus! {

/// A key of fixed width. Its order is that of an integer, its rank, and two
/// keys of one rank are the same key. Every type with finitely many values
/// and a total order can be ranked so.
pub trait Key: Copy {
    /// The integer by which the key is ordered.
    spec fn rank(&self) -> int;

    /// Keys of equal rank are equal.
    proof fn rank_is_injective(a: Self, b: Self)
        requires
            a.rank() == b.rank(),
        ensures
            a == b,
    ;

    /// Whether `self` comes strictly before `other`.
    fn precedes(&self, other: &Self) -> (b: bool)
        ensures
            b == (self.rank() < other.rank()),
    ;
}

impl Key for i8 {
    open spec fn rank(&self) -> int {
        *self as int
    }

    proof fn rank_is_injective(a: Self, b: Self) {
    }

    fn precedes(&self, other: &Self) -> (b: bool) {
        *self < *other
    }
}

impl Key for i16 {
    open spec fn rank(&self) -> int {
        *self as int
    }

    proof fn rank_is_injective(a: Self, b: Self) {
    }

    fn precedes(&self, other: &Self) -> (b: bool) {
        *self < *other
    }
}

impl Key for i32 {
    open spec fn rank(&self) -> int {
        *self as int
    }

    proof fn rank_is_injective(a: Self, b: Self) {
    }

    fn precedes(&self, other: &Self) -> (b: bool) {
        *self < *other
    }
}

impl Key for i64 {
    open spec fn rank(&self) -> int {
        *self as int
    }

    proof fn rank_is_injective(a: Self, b: Self) {
    }

    fn precedes(&self, other: &Self) -> (b: bool) {
        *self < *other
    }
}

impl Key for isize {
    open spec fn rank(&self) -> int {
        *self as int
    }

    proof fn rank_is_injective(a: Self, b: Self) {
    }

    fn precedes(&self, other: &Self) -> (b: bool) {
        *self < *other
    }
}

impl Key for u8 {
    open spec fn rank(&self) -> int {
        *self as int
    }

    proof fn rank_is_injective(a: Self, b: Self) {
    }

    fn precedes(&self, other: &Self) -> (b: bool) {
        *self < *other
    }
}

impl Key for u16 {
    open spec fn rank(&self) -> int {
        *self as int
    }

    proof fn rank_is_injective(a: Self, b: Self) {
    }

    fn precedes(&self, other: &Self) -> (b: bool) {
        *self < *other
    }
}

impl Key for u32 {
    open spec fn rank(&self) -> int {
        *self as int
    }

    proof fn rank_is_injective(a: Self, b: Self) {
    }

    fn precedes(&self, other: &Self) -> (b: bool) {
        *self < *other
    }
}

impl Key for u64 {
    open spec fn rank(&self) -> int {
        *self as int
    }

    proof fn rank_is_injective(a: Self, b: Self) {
    }

    fn precedes(&self, other: &Self) -> (b: bool) {
        *self < *other
    }
}

impl Key for usize {
    open spec fn rank(&self) -> int {
        *self as int
    }

    proof fn rank_is_injective(a: Self, b: Self) {
    }

    fn precedes(&self, other: &Self) -> (b: bool) {
        *self < *other
    }
}

} // verus!
