//! The metric that every stored point supplies.

use vstd::prelude::*;
use vstd::std_specs::cmp::PartialEqSpec;

verus! {

/// A point of a metric space whose distances are natural numbers.
///
/// The tree never looks inside a point: it only measures distances. Its search is exact
/// because distances are symmetric and obey the triangle inequality, so every
/// implementation proves both.
pub trait MetricSpace: Sized {
    /// The distance between two points.
    spec fn dist(self, rhs: Self) -> nat;

    /// A distance does not depend on the direction in which it is measured.
    proof fn lemma_dist_symmetric(a: Self, b: Self)
        ensures
            a.dist(b) == b.dist(a),
    ;

    /// A detour over a third point is never shorter than the direct way.
    proof fn lemma_dist_triangle(a: Self, b: Self, c: Self)
        ensures
            a.dist(c) <= a.dist(b) + b.dist(c),
    ;

    /// Calculates the distance between two points.
    fn distance(self, rhs: Self) -> (d: u64)
        ensures
            d == self.dist(rhs),
    ;
}

/// What a value needs to be stored in a cover tree: a metric, and an equality that holds of
/// two points exactly when they are the same point.
pub trait Point: MetricSpace + PartialEq + PartialOrd + Copy {
    /// `==` on points decides whether they are the same point.
    proof fn lemma_eq_is_identity()
        ensures
            Self::obeys_eq_spec(),
            forall|a: Self, b: Self| a.eq_spec(&b) == (a == b),
    ;
}

/// 8-bit integers on the number line.
pub type MetricI8 = i8;

/// 16-bit integers on the number line.
pub type MetricI16 = i16;

/// 32-bit integers on the number line.
pub type MetricI32 = i32;

/// 64-bit integers on the number line.
pub type MetricI64 = i64;

/// The distance between two integers on the number line.
pub open spec fn gap(a: int, b: int) -> nat {
    if a <= b {
        (b - a) as nat
    } else {
        (a - b) as nat
    }
}

impl MetricSpace for i8 {
    open spec fn dist(self, rhs: Self) -> nat {
        gap(self as int, rhs as int)
    }

    proof fn lemma_dist_symmetric(a: Self, b: Self) {
    }

    proof fn lemma_dist_triangle(a: Self, b: Self, c: Self) {
    }

    fn distance(self, rhs: Self) -> (d: u64) {
        if self <= rhs {
            (rhs as i16 - self as i16) as u64
        } else {
            (self as i16 - rhs as i16) as u64
        }
    }
}

impl MetricSpace for i16 {
    open spec fn dist(self, rhs: Self) -> nat {
        gap(self as int, rhs as int)
    }

    proof fn lemma_dist_symmetric(a: Self, b: Self) {
    }

    proof fn lemma_dist_triangle(a: Self, b: Self, c: Self) {
    }

    fn distance(self, rhs: Self) -> (d: u64) {
        if self <= rhs {
            (rhs as i32 - self as i32) as u64
        } else {
            (self as i32 - rhs as i32) as u64
        }
    }
}

impl MetricSpace for i32 {
    open spec fn dist(self, rhs: Self) -> nat {
        gap(self as int, rhs as int)
    }

    proof fn lemma_dist_symmetric(a: Self, b: Self) {
    }

    proof fn lemma_dist_triangle(a: Self, b: Self, c: Self) {
    }

    fn distance(self, rhs: Self) -> (d: u64) {
        if self <= rhs {
            (rhs as i64 - self as i64) as u64
        } else {
            (self as i64 - rhs as i64) as u64
        }
    }
}

impl MetricSpace for i64 {
    open spec fn dist(self, rhs: Self) -> nat {
        gap(self as int, rhs as int)
    }

    proof fn lemma_dist_symmetric(a: Self, b: Self) {
    }

    proof fn lemma_dist_triangle(a: Self, b: Self, c: Self) {
    }

    fn distance(self, rhs: Self) -> (d: u64) {
        if self <= rhs {
            (rhs as i128 - self as i128) as u64
        } else {
            (self as i128 - rhs as i128) as u64
        }
    }
}

impl Point for i8 {
    proof fn lemma_eq_is_identity() {
    }
}

impl Point for i16 {
    proof fn lemma_eq_is_identity() {
    }
}

impl Point for i32 {
    proof fn lemma_eq_is_identity() {
    }
}

impl Point for i64 {
    proof fn lemma_eq_is_identity() {
    }
}

} // verus!
