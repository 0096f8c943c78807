//! Keys of the tree: types with a total order given by an integer rank.
use vstd::prelude::*;
use core::cmp::Ordering;

verus! {

/// A key type whose order is that of an integer rank.
pub trait SgKey: Sized {
    /// The position of the key in the order.
    spec fn rank(&self) -> int;

    /// Distinct keys have distinct ranks.
    proof fn lemma_rank_injective(a: &Self, b: &Self)
        requires
            a.rank() == b.rank(),
        ensures
            *a == *b;

    /// Three-way comparison by rank; `Equal` exactly for equal keys.
    fn compare(&self, other: &Self) -> (c: Ordering)
        ensures
            (c == Ordering::Less) <==> self.rank() < other.rank(),
            (c == Ordering::Greater) <==> self.rank() > other.rank(),
            (c == Ordering::Equal) <==> *self == *other;
}

impl SgKey for u8 {
    open spec fn rank(&self) -> int { *self as int }
    proof fn lemma_rank_injective(a: &Self, b: &Self) {}
    fn compare(&self, other: &Self) -> (c: Ordering) {
        if *self < *other { Ordering::Less } else if *self > *other { Ordering::Greater } else { Ordering::Equal }
    }
}

impl SgKey for u16 {
    open spec fn rank(&self) -> int { *self as int }
    proof fn lemma_rank_injective(a: &Self, b: &Self) {}
    fn compare(&self, other: &Self) -> (c: Ordering) {
        if *self < *other { Ordering::Less } else if *self > *other { Ordering::Greater } else { Ordering::Equal }
    }
}

impl SgKey for u32 {
    open spec fn rank(&self) -> int { *self as int }
    proof fn lemma_rank_injective(a: &Self, b: &Self) {}
    fn compare(&self, other: &Self) -> (c: Ordering) {
        if *self < *other { Ordering::Less } else if *self > *other { Ordering::Greater } else { Ordering::Equal }
    }
}

impl SgKey for u64 {
    open spec fn rank(&self) -> int { *self as int }
    proof fn lemma_rank_injective(a: &Self, b: &Self) {}
    fn compare(&self, other: &Self) -> (c: Ordering) {
        if *self < *other { Ordering::Less } else if *self > *other { Ordering::Greater } else { Ordering::Equal }
    }
}

impl SgKey for usize {
    open spec fn rank(&self) -> int { *self as int }
    proof fn lemma_rank_injective(a: &Self, b: &Self) {}
    fn compare(&self, other: &Self) -> (c: Ordering) {
        if *self < *other { Ordering::Less } else if *self > *other { Ordering::Greater } else { Ordering::Equal }
    }
}

impl SgKey for i8 {
    open spec fn rank(&self) -> int { *self as int }
    proof fn lemma_rank_injective(a: &Self, b: &Self) {}
    fn compare(&self, other: &Self) -> (c: Ordering) {
        if *self < *other { Ordering::Less } else if *self > *other { Ordering::Greater } else { Ordering::Equal }
    }
}

impl SgKey for i16 {
    open spec fn rank(&self) -> int { *self as int }
    proof fn lemma_rank_injective(a: &Self, b: &Self) {}
    fn compare(&self, other: &Self) -> (c: Ordering) {
        if *self < *other { Ordering::Less } else if *self > *other { Ordering::Greater } else { Ordering::Equal }
    }
}

impl SgKey for i32 {
    open spec fn rank(&self) -> int { *self as int }
    proof fn lemma_rank_injective(a: &Self, b: &Self) {}
    fn compare(&self, other: &Self) -> (c: Ordering) {
        if *self < *other { Ordering::Less } else if *self > *other { Ordering::Greater } else { Ordering::Equal }
    }
}

impl SgKey for i64 {
    open spec fn rank(&self) -> int { *self as int }
    proof fn lemma_rank_injective(a: &Self, b: &Self) {}
    fn compare(&self, other: &Self) -> (c: Ordering) {
        if *self < *other { Ordering::Less } else if *self > *other { Ordering::Greater } else { Ordering::Equal }
    }
}

impl SgKey for isize {
    open spec fn rank(&self) -> int { *self as int }
    proof fn lemma_rank_injective(a: &Self, b: &Self) {}
    fn compare(&self, other: &Self) -> (c: Ordering) {
        if *self < *other { Ordering::Less } else if *self > *other { Ordering::Greater } else { Ordering::Equal }
    }
}

} // verus!
