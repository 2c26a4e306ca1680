//! Totally ordered keys that the heap can hold.

use vstd::prelude::*;

verus! {

/// A value with a total order, given by a rank in the integers.
///
/// Two values compare as their ranks do; values of equal rank are
/// interchangeable as far as the heap's order is concerned.
pub trait HeapKey: Sized {
    spec fn rank(&self) -> int;

    fn less_than(&self, other: &Self) -> (r: bool)
        ensures
            r == (self.rank() < other.rank()),
    ;
}

impl HeapKey for u8 {
    open spec fn rank(&self) -> int {
        *self as int
    }

    fn less_than(&self, other: &Self) -> (r: bool) {
        *self < *other
    }
}

impl HeapKey for u16 {
    open spec fn rank(&self) -> int {
        *self as int
    }

    fn less_than(&self, other: &Self) -> (r: bool) {
        *self < *other
    }
}

impl HeapKey for u32 {
    open spec fn rank(&self) -> int {
        *self as int
    }

    fn less_than(&self, other: &Self) -> (r: bool) {
        *self < *other
    }
}

impl HeapKey for u64 {
    open spec fn rank(&self) -> int {
        *self as int
    }

    fn less_than(&self, other: &Self) -> (r: bool) {
        *self < *other
    }
}

impl HeapKey for u128 {
    open spec fn rank(&self) -> int {
        *self as int
    }

    fn less_than(&self, other: &Self) -> (r: bool) {
        *self < *other
    }
}

impl HeapKey for usize {
    open spec fn rank(&self) -> int {
        *self as int
    }

    fn less_than(&self, other: &Self) -> (r: bool) {
        *self < *other
    }
}

impl HeapKey for i32 {
    open spec fn rank(&self) -> int {
        *self as int
    }

    fn less_than(&self, other: &Self) -> (r: bool) {
        *self < *other
    }
}

impl HeapKey for i64 {
    open spec fn rank(&self) -> int {
        *self as int
    }

    fn less_than(&self, other: &Self) -> (r: bool) {
        *self < *other
    }
}

/// Pairs compare lexicographically: by the first component, then the second.
impl HeapKey for (u64, u64) {
    open spec fn rank(&self) -> int {
        self.0 as int * 0x1_0000_0000_0000_0000 + self.1 as int
    }

    fn less_than(&self, other: &Self) -> (r: bool) {
        let r = self.0 < other.0 || (self.0 == other.0 && self.1 < other.1);
        proof {
            let (a0, a1, b0, b1) = (self.0 as int, self.1 as int, other.0 as int, other.1 as int);
            let k: int = 0x1_0000_0000_0000_0000;
            assert(a0 < b0 ==> a0 * k + a1 < b0 * k + b1) by (nonlinear_arith)
                requires
                    0 <= a1 < k,
                    0 <= b1 < k,
                    k > 0,
            ;
            assert(a0 > b0 ==> a0 * k + a1 > b0 * k + b1) by (nonlinear_arith)
                requires
                    0 <= a1 < k,
                    0 <= b1 < k,
                    k > 0,
            ;
        }
        r
    }
}

} // verus!
