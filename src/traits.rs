//! Numeric capabilities that matrix entries provide.
use vstd::prelude::*;

verus! {

/// A type with a zero value and a test for zero.
pub trait Zeroable: Sized {
    /// The zero value.
    spec fn spec_zero() -> Self;

    /// Whether a value counts as zero.
    spec fn spec_is_zero(&self) -> bool;

    /// Returns the zero value.
    fn zero() -> (r: Self)
        ensures
            r == Self::spec_zero(),
            r.spec_is_zero(),
    ;

    /// Tests whether the value counts as zero.
    fn is_zero(&self) -> (r: bool)
        ensures
            r == self.spec_is_zero(),
    ;
}

/// A type with a unit value and a test for it.
pub trait Oneable: Sized {
    /// The unit value.
    spec fn spec_one() -> Self;

    /// Whether a value counts as one.
    spec fn spec_is_one(&self) -> bool;

    /// Returns the unit value.
    fn one() -> (r: Self)
        ensures
            r == Self::spec_one(),
            r.spec_is_one(),
    ;

    /// Tests whether the value counts as one.
    fn is_one(&self) -> (r: bool)
        ensures
            r == self.spec_is_one(),
    ;
}

/// A type whose values have a sign that can be dropped or reversed.
pub trait Signed: Sized {
    /// Whether the value's negation is representable.
    spec fn spec_negatable(&self) -> bool;

    /// The value with its sign reversed.
    spec fn spec_negated(&self) -> Self;

    /// The magnitude of the value.
    spec fn spec_abs(&self) -> Self;

    /// Returns the magnitude of the value.
    fn abs(&self) -> (r: Self)
        requires
            self.spec_negatable(),
        ensures
            r == self.spec_abs(),
    ;

    /// Reverses the sign of the value in place.
    fn flip(&mut self)
        requires
            old(self).spec_negatable(),
        ensures
            *final(self) == old(self).spec_negated(),
    ;
}

impl Zeroable for i32 {
    open spec fn spec_zero() -> Self {
        0
    }

    open spec fn spec_is_zero(&self) -> bool {
        *self == 0
    }

    fn zero() -> (r: Self) {
        0
    }

    fn is_zero(&self) -> (r: bool) {
        *self == 0
    }
}

impl Oneable for i32 {
    open spec fn spec_one() -> Self {
        1
    }

    open spec fn spec_is_one(&self) -> bool {
        *self == 1
    }

    fn one() -> (r: Self) {
        1
    }

    fn is_one(&self) -> (r: bool) {
        *self == 1
    }
}

impl Signed for i32 {
    open spec fn spec_negatable(&self) -> bool {
        *self != i32::MIN
    }

    open spec fn spec_negated(&self) -> Self {
        (-*self) as i32
    }

    open spec fn spec_abs(&self) -> Self {
        if *self < 0 {
            (-*self) as i32
        } else {
            *self
        }
    }

    fn abs(&self) -> (r: Self) {
        if *self < 0 {
            -*self
        } else {
            *self
        }
    }

    fn flip(&mut self) {
        *self = -*self;
    }
}

impl Zeroable for i64 {
    open spec fn spec_zero() -> Self {
        0
    }

    open spec fn spec_is_zero(&self) -> bool {
        *self == 0
    }

    fn zero() -> (r: Self) {
        0
    }

    fn is_zero(&self) -> (r: bool) {
        *self == 0
    }
}

impl Oneable for i64 {
    open spec fn spec_one() -> Self {
        1
    }

    open spec fn spec_is_one(&self) -> bool {
        *self == 1
    }

    fn one() -> (r: Self) {
        1
    }

    fn is_one(&self) -> (r: bool) {
        *self == 1
    }
}

impl Signed for i64 {
    open spec fn spec_negatable(&self) -> bool {
        *self != i64::MIN
    }

    open spec fn spec_negated(&self) -> Self {
        (-*self) as i64
    }

    open spec fn spec_abs(&self) -> Self {
        if *self < 0 {
            (-*self) as i64
        } else {
            *self
        }
    }

    fn abs(&self) -> (r: Self) {
        if *self < 0 {
            -*self
        } else {
            *self
        }
    }

    fn flip(&mut self) {
        *self = -*self;
    }
}

impl Zeroable for u64 {
    open spec fn spec_zero() -> Self {
        0
    }

    open spec fn spec_is_zero(&self) -> bool {
        *self == 0
    }

    fn zero() -> (r: Self) {
        0
    }

    fn is_zero(&self) -> (r: bool) {
        *self == 0
    }
}

impl Oneable for u64 {
    open spec fn spec_one() -> Self {
        1
    }

    open spec fn spec_is_one(&self) -> bool {
        *self == 1
    }

    fn one() -> (r: Self) {
        1
    }

    fn is_one(&self) -> (r: bool) {
        *self == 1
    }
}

} // verus!
