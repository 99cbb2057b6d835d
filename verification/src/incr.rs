//! The capability an id type must supply for the unidirectional compact map:
//! a zero starting value, equality, cheap duplication, and a successor
//! operation that may fail at the type's largest representable value.

use vstd::prelude::*;

verus! {

/// An id type usable by [`crate::unimap::CompactIdMap`].
///
/// Every id stands for one mathematical value, `id_val`; ids are handed out
/// starting from zero and advance by one. `next` returns nothing exactly
/// when the id has no representable successor, so allocation can fail
/// explicitly instead of wrapping or aborting.
pub trait Incrementable: Sized + Copy {
    /// The mathematical value this id stands for.
    spec fn id_val(self) -> int;

    /// Whether this id has a representable successor.
    spec fn has_next(self) -> bool;

    /// The zero/start value.
    fn zero() -> (r: Self)
        ensures
            r.id_val() == 0,
    ;

    /// The successor, or nothing when no successor is representable.
    fn next(&self) -> (r: Option<Self>)
        ensures
            r matches Some(n) ==> self.has_next() && n.id_val() == self.id_val() + 1,
            r is None ==> !self.has_next(),
    ;

    /// Whether two ids stand for the same value.
    fn id_eq(&self, other: &Self) -> (r: bool)
        ensures
            r <==> self.id_val() == other.id_val(),
    ;

    /// Whether this id stands for a smaller value than the other: ids are
    /// totally ordered by the values they stand for.
    fn id_lt(&self, other: &Self) -> (r: bool)
        ensures
            r <==> self.id_val() < other.id_val(),
    ;
}

impl Incrementable for u8 {
    open spec fn id_val(self) -> int {
        self as int
    }

    open spec fn has_next(self) -> bool {
        self < u8::MAX
    }

    fn zero() -> (r: Self) {
        0
    }

    fn next(&self) -> (r: Option<Self>) {
        if *self < u8::MAX {
            Some(*self + 1)
        } else {
            None
        }
    }

    fn id_eq(&self, other: &Self) -> (r: bool) {
        *self == *other
    }

    fn id_lt(&self, other: &Self) -> (r: bool) {
        *self < *other
    }
}

impl Incrementable for u16 {
    open spec fn id_val(self) -> int {
        self as int
    }

    open spec fn has_next(self) -> bool {
        self < u16::MAX
    }

    fn zero() -> (r: Self) {
        0
    }

    fn next(&self) -> (r: Option<Self>) {
        if *self < u16::MAX {
            Some(*self + 1)
        } else {
            None
        }
    }

    fn id_eq(&self, other: &Self) -> (r: bool) {
        *self == *other
    }

    fn id_lt(&self, other: &Self) -> (r: bool) {
        *self < *other
    }
}

impl Incrementable for u32 {
    open spec fn id_val(self) -> int {
        self as int
    }

    open spec fn has_next(self) -> bool {
        self < u32::MAX
    }

    fn zero() -> (r: Self) {
        0
    }

    fn next(&self) -> (r: Option<Self>) {
        if *self < u32::MAX {
            Some(*self + 1)
        } else {
            None
        }
    }

    fn id_eq(&self, other: &Self) -> (r: bool) {
        *self == *other
    }

    fn id_lt(&self, other: &Self) -> (r: bool) {
        *self < *other
    }
}

impl Incrementable for u64 {
    open spec fn id_val(self) -> int {
        self as int
    }

    open spec fn has_next(self) -> bool {
        self < u64::MAX
    }

    fn zero() -> (r: Self) {
        0
    }

    fn next(&self) -> (r: Option<Self>) {
        if *self < u64::MAX {
            Some(*self + 1)
        } else {
            None
        }
    }

    fn id_eq(&self, other: &Self) -> (r: bool) {
        *self == *other
    }

    fn id_lt(&self, other: &Self) -> (r: bool) {
        *self < *other
    }
}

impl Incrementable for usize {
    open spec fn id_val(self) -> int {
        self as int
    }

    open spec fn has_next(self) -> bool {
        self < usize::MAX
    }

    fn zero() -> (r: Self) {
        0
    }

    fn next(&self) -> (r: Option<Self>) {
        if *self < usize::MAX {
            Some(*self + 1)
        } else {
            None
        }
    }

    fn id_eq(&self, other: &Self) -> (r: bool) {
        *self == *other
    }

    fn id_lt(&self, other: &Self) -> (r: bool) {
        *self < *other
    }
}

} // verus!
