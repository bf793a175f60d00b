//! Planar and space-time points.

use vstd::prelude::*;

verus! {

/// A point in the plane.
#[derive(Debug, Copy, Clone, PartialEq, Eq, Hash)]
pub struct XYPoint<T> {
    pub x: T,
    pub y: T,
}

impl<T> XYPoint<T> {
    pub fn new(x: T, y: T) -> (p: Self)
        ensures
            p.x == x,
            p.y == y,
    {
        Self { x, y }
    }
}

/// A point in the plane observed at time `t`.
#[derive(Debug, Copy, Clone, PartialEq, Eq, Hash)]
pub struct XYTPoint<T> {
    pub x: T,
    pub y: T,
    pub t: T,
}

impl<T> XYTPoint<T> {
    pub fn new(x: T, y: T, t: T) -> (p: Self)
        ensures
            p.x == x,
            p.y == y,
            p.t == t,
    {
        Self { x, y, t }
    }
}

} // verus!
