//! Three-way comparison: the result type, the comparator abstraction that the
//! heap is ordered by, and ready-made comparators for integers and characters.

use vstd::prelude::*;

verus! {

/// Outcome of comparing two elements.
#[derive(Clone, Copy, Debug, PartialEq, Eq, Structural)]
pub enum ComparatorResult {
    Greater,
    Less,
    Equal,
}

/// A total preorder on `T`, given as a ghost relation `le` ("`a` ranks no
/// higher than `b`") together with an executable three-way comparison that
/// agrees with it.
///
/// `le` is required to be total and transitive; it need not be antisymmetric,
/// so two distinct elements may compare [`ComparatorResult::Equal`].
/// An element `a` outranks `b` exactly when `compare(&a, &b)` returns
/// [`ComparatorResult::Greater`], that is when `le(b, a) && !le(a, b)`.
pub trait Comparator<T>: Sized {
    /// The ordering relation this comparator decides.
    spec fn le(&self, a: T, b: T) -> bool;

    /// Any two elements are comparable.
    proof fn total(&self, a: T, b: T)
        ensures
            self.le(a, b) || self.le(b, a),
    ;

    /// The ordering relation is transitive.
    proof fn transitive(&self, a: T, b: T, c: T)
        requires
            self.le(a, b),
            self.le(b, c),
        ensures
            self.le(a, c),
    ;

    /// Executable three-way comparison, faithful to `le`.
    fn compare(&self, a: &T, b: &T) -> (r: ComparatorResult)
        ensures
            (r == ComparatorResult::Greater <==> self.le(*b, *a) && !self.le(*a, *b)),
            (r == ComparatorResult::Less <==> self.le(*a, *b) && !self.le(*b, *a)),
            (r == ComparatorResult::Equal <==> self.le(*a, *b) && self.le(*b, *a)),
    ;
}

/// Quantified forms of the `Comparator` obligations, for use as ambient facts
/// inside proofs about heap order.
pub proof fn lemma_le_properties<T, C: Comparator<T>>(c: &C)
    ensures
        forall|a: T| #[trigger] c.le(a, a),
        forall|a: T, b: T| #[trigger] c.le(a, b) || #[trigger] c.le(b, a),
        forall|a: T, b: T, d: T|
            #![trigger c.le(a, b), c.le(b, d)]
            c.le(a, b) && c.le(b, d) ==> c.le(a, d),
{
    assert forall|a: T| #[trigger] c.le(a, a) by {
        c.total(a, a);
    }
    assert forall|a: T, b: T| #[trigger] c.le(a, b) || #[trigger] c.le(b, a) by {
        c.total(a, b);
    }
    assert forall|a: T, b: T, d: T|
        #![trigger c.le(a, b), c.le(b, d)]
        c.le(a, b) && c.le(b, d) implies c.le(a, d) by {
        c.transitive(a, b, d);
    }
}

/// A comparator under which mutually `le`-related elements are equal. Integer
/// and character comparators have this property; a comparator that ignores
/// some fields of its element type does not.
pub open spec fn antisymmetric<T, C: Comparator<T>>(c: C) -> bool {
    forall|a: T, b: T| #![trigger c.le(a, b), c.le(b, a)] c.le(a, b) && c.le(b, a) ==> a == b
}

/// Orders `i32` values ascending: larger numbers rank higher.
#[derive(Clone, Copy, Debug, PartialEq, Eq, Structural)]
pub struct I32Ascending;

impl Comparator<i32> for I32Ascending {
    open spec fn le(&self, a: i32, b: i32) -> bool {
        a <= b
    }

    proof fn total(&self, a: i32, b: i32) {
    }

    proof fn transitive(&self, a: i32, b: i32, c: i32) {
    }

    fn compare(&self, a: &i32, b: &i32) -> (r: ComparatorResult) {
        if *a > *b {
            ComparatorResult::Greater
        } else if *a < *b {
            ComparatorResult::Less
        } else {
            ComparatorResult::Equal
        }
    }
}

/// Orders `i32` values descending: smaller numbers rank higher.
#[derive(Clone, Copy, Debug, PartialEq, Eq, Structural)]
pub struct I32Descending;

impl Comparator<i32> for I32Descending {
    open spec fn le(&self, a: i32, b: i32) -> bool {
        b <= a
    }

    proof fn total(&self, a: i32, b: i32) {
    }

    proof fn transitive(&self, a: i32, b: i32, c: i32) {
    }

    fn compare(&self, a: &i32, b: &i32) -> (r: ComparatorResult) {
        if *a < *b {
            ComparatorResult::Greater
        } else if *a > *b {
            ComparatorResult::Less
        } else {
            ComparatorResult::Equal
        }
    }
}

/// Orders `char` values ascending by code point.
#[derive(Clone, Copy, Debug, PartialEq, Eq, Structural)]
pub struct CharAscending;

impl Comparator<char> for CharAscending {
    open spec fn le(&self, a: char, b: char) -> bool {
        (a as u32) <= (b as u32)
    }

    proof fn total(&self, a: char, b: char) {
    }

    proof fn transitive(&self, a: char, b: char, c: char) {
    }

    fn compare(&self, a: &char, b: &char) -> (r: ComparatorResult) {
        let x = *a as u32;
        let y = *b as u32;
        if x > y {
            ComparatorResult::Greater
        } else if x < y {
            ComparatorResult::Less
        } else {
            ComparatorResult::Equal
        }
    }
}

} // verus!
