//! Ordering capabilities: totally ordered keys, and the order
//! predicate (comparator) that a heap is built around.

use vstd::prelude::*;

verus! {

/// A key type with a strict total order and an executable comparison.
///
/// `lt_spec` is the mathematical "sorts strictly before" relation;
/// `lt_laws` obliges every implementor to prove that it really is a
/// strict total order; `lt` is the runtime comparison, tied to the
/// spec by its postcondition.
pub trait TotalOrder: Sized {
    /// `a` sorts strictly before `b`.
    spec fn lt_spec(a: Self, b: Self) -> bool;

    /// The relation is irreflexive, transitive, splits around any
    /// middle value, and relates any two distinct values.
    proof fn lt_laws(a: Self, b: Self, c: Self)
        ensures
            !Self::lt_spec(a, a),
            Self::lt_spec(a, b) && Self::lt_spec(b, c) ==> Self::lt_spec(a, c),
            Self::lt_spec(a, c) ==> Self::lt_spec(a, b) || Self::lt_spec(b, c),
            a == b || Self::lt_spec(a, b) || Self::lt_spec(b, a),
    ;

    /// Executable comparison agreeing with `lt_spec`.
    fn lt(a: &Self, b: &Self) -> (r: bool)
        ensures
            r == Self::lt_spec(*a, *b),
    ;
}

impl TotalOrder for i32 {
    open spec fn lt_spec(a: i32, b: i32) -> bool {
        a < b
    }

    proof fn lt_laws(a: i32, b: i32, c: i32) {
    }

    fn lt(a: &i32, b: &i32) -> (r: bool) {
        *a < *b
    }
}

impl TotalOrder for i64 {
    open spec fn lt_spec(a: i64, b: i64) -> bool {
        a < b
    }

    proof fn lt_laws(a: i64, b: i64, c: i64) {
    }

    fn lt(a: &i64, b: &i64) -> (r: bool) {
        *a < *b
    }
}

impl TotalOrder for u32 {
    open spec fn lt_spec(a: u32, b: u32) -> bool {
        a < b
    }

    proof fn lt_laws(a: u32, b: u32, c: u32) {
    }

    fn lt(a: &u32, b: &u32) -> (r: bool) {
        *a < *b
    }
}

impl TotalOrder for u64 {
    open spec fn lt_spec(a: u64, b: u64) -> bool {
        a < b
    }

    proof fn lt_laws(a: u64, b: u64, c: u64) {
    }

    fn lt(a: &u64, b: &u64) -> (r: bool) {
        *a < *b
    }
}

impl TotalOrder for usize {
    open spec fn lt_spec(a: usize, b: usize) -> bool {
        a < b
    }

    proof fn lt_laws(a: usize, b: usize, c: usize) {
    }

    fn lt(a: &usize, b: &usize) -> (r: bool) {
        *a < *b
    }
}

impl TotalOrder for u8 {
    open spec fn lt_spec(a: u8, b: u8) -> bool {
        a < b
    }

    proof fn lt_laws(a: u8, b: u8, c: u8) {
    }

    fn lt(a: &u8, b: &u8) -> (r: bool) {
        *a < *b
    }
}

/// An order predicate over `T`: `spec_outranks(a, b)` says that `a`
/// must sit strictly nearer the root of a heap than `b`.
///
/// The predicate must be a strict weak ordering; `outranks_laws`
/// obliges every implementor to prove that.  A heap fixes one
/// comparator at construction time and consults it through
/// `outranks`, whose postcondition ties it to the spec relation.
pub trait Comparator<T>: Sized {
    /// `a` belongs strictly nearer the root than `b`.
    spec fn spec_outranks(a: T, b: T) -> bool;

    /// The relation is irreflexive, transitive, and splits around any
    /// middle value (so ranking equivalence is transitive too).
    proof fn outranks_laws(a: T, b: T, c: T)
        ensures
            !Self::spec_outranks(a, a),
            Self::spec_outranks(a, b) && Self::spec_outranks(b, c) ==> Self::spec_outranks(a, c),
            Self::spec_outranks(a, c) ==> Self::spec_outranks(a, b) || Self::spec_outranks(b, c),
    ;

    /// Executable test agreeing with `spec_outranks`.
    fn outranks(&self, a: &T, b: &T) -> (r: bool)
        ensures
            r == Self::spec_outranks(*a, *b),
    ;
}

/// The min-heap comparator: smaller keys outrank larger ones.
pub struct MinOrder;

impl<T: TotalOrder> Comparator<T> for MinOrder {
    open spec fn spec_outranks(a: T, b: T) -> bool {
        T::lt_spec(a, b)
    }

    proof fn outranks_laws(a: T, b: T, c: T) {
        T::lt_laws(a, b, c);
    }

    fn outranks(&self, a: &T, b: &T) -> (r: bool) {
        T::lt(a, b)
    }
}

/// The max-heap comparator: larger keys outrank smaller ones.
pub struct MaxOrder;

impl<T: TotalOrder> Comparator<T> for MaxOrder {
    open spec fn spec_outranks(a: T, b: T) -> bool {
        T::lt_spec(b, a)
    }

    proof fn outranks_laws(a: T, b: T, c: T) {
        T::lt_laws(a, a, a);
        T::lt_laws(c, b, a);
    }

    fn outranks(&self, a: &T, b: &T) -> (r: bool) {
        T::lt(b, a)
    }
}

} // verus!
