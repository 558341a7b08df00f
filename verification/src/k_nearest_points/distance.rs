//! Exact squared distances between lattice points.
//!
//! The square of the distance between two points with `i64` coordinates can
//! need 129 bits. It is kept whole, as 128 low bits and a carry, so that
//! distances compare exactly over the entire coordinate range.

use crate::k_nearest_points::{squared_distance, Point};
use vstd::prelude::*;

verus! {

/// The number one past the largest `u128`.
pub open spec fn carry_weight() -> int {
    0x1_0000_0000_0000_0000_0000_0000_0000_0000int
}

/// The square of a distance on the integer plane.
#[derive(Debug, Clone, Copy, PartialEq, Eq)]
pub struct SquaredDistance {
    /// Set when the square does not fit in 128 bits.
    pub carry: bool,
    /// The low 128 bits of the square.
    pub low: u128,
}

impl SquaredDistance {
    /// The number that this value stands for.
    pub open spec fn value(self) -> int {
        if self.carry {
            carry_weight() + self.low
        } else {
            self.low as int
        }
    }

    /// Whether this distance is shorter than `other`.
    pub fn is_less_than(&self, other: &SquaredDistance) -> (less: bool)
        ensures
            less == (self.value() < other.value()),
    {
        if self.carry == other.carry {
            self.low < other.low
        } else {
            other.carry
        }
    }

    /// Whether this distance is as long as `other`.
    pub fn is_same_as(&self, other: &SquaredDistance) -> (same: bool)
        ensures
            same == (self.value() == other.value()),
    {
        self.carry == other.carry && self.low == other.low
    }
}

/// How far apart two coordinates are.
spec fn gap(a: i64, b: i64) -> int {
    if a >= b {
        a - b
    } else {
        b - a
    }
}

/// Computes how far apart two coordinates are.
fn coordinate_gap(a: i64, b: i64) -> (g: u64)
    ensures
        g == gap(a, b),
{
    if a >= b {
        (a as i128 - b as i128) as u64
    } else {
        (b as i128 - a as i128) as u64
    }
}

/// Computes the square of a coordinate gap.
fn gap_squared(g: u64) -> (square: u128)
    ensures
        square == g * g,
        square <= 0xFFFF_FFFF_FFFF_FFFE_0000_0000_0000_0001,
{
    assert(g * g <= 0xFFFF_FFFF_FFFF_FFFE_0000_0000_0000_0001) by (nonlinear_arith)
        requires
            0 <= g <= 0xFFFF_FFFF_FFFF_FFFF,
    ;
    let wide = g as u128;
    wide * wide
}

/// Adds two squares without losing the bit that may not fit.
fn sum_of_squares(x: u128, y: u128) -> (total: SquaredDistance)
    ensures
        total.value() == x + y,
{
    match x.checked_add(y) {
        Some(low) => SquaredDistance { carry: false, low },
        None => SquaredDistance { carry: true, low: x - (u128::MAX - y) - 1 },
    }
}

impl Point {
    /// Computes the square of the distance from another point, exactly.
    pub fn squared_distance_from(&self, other: &Point) -> (d: SquaredDistance)
        ensures
            d.value() == squared_distance(*self, *other),
    {
        let across = coordinate_gap(self.0, other.0);
        let along = coordinate_gap(self.1, other.1);
        assert(across * across == (self.0 - other.0) * (self.0 - other.0)) by (nonlinear_arith)
            requires
                across == self.0 - other.0 || across == other.0 - self.0,
        ;
        assert(along * along == (self.1 - other.1) * (self.1 - other.1)) by (nonlinear_arith)
            requires
                along == self.1 - other.1 || along == other.1 - self.1,
        ;
        sum_of_squares(gap_squared(across), gap_squared(along))
    }
}

} // verus!
