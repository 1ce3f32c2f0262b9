//! The integer geometric values the drivers print: points, boxes, octagons,
//! lines and the tile shapes built from them.
use vstd::prelude::*;

verus! {

/// A point with integer coordinates.
#[derive(Clone, Copy, PartialEq, Eq, Debug)]
pub struct IntPoint {
    pub x: i32,
    pub y: i32,
}

/// An axis-parallel box given by its lower-left and upper-right corners.
#[derive(Clone, Copy, PartialEq, Eq, Debug)]
pub struct IntBox {
    pub ll: IntPoint,
    pub ur: IntPoint,
}

/// An octagon given by its four sides and its four diagonal intercepts.
#[derive(Clone, Copy, PartialEq, Eq, Debug)]
pub struct IntOctagon {
    pub left_x: i32,
    pub bottom_y: i32,
    pub right_x: i32,
    pub top_y: i32,
    pub upper_left_diagonal_x: i32,
    pub lower_right_diagonal_x: i32,
    pub lower_left_diagonal_x: i32,
    pub upper_right_diagonal_x: i32,
}

/// A point that is either integral or rational; the drivers only read the
/// coordinates of an integral one.
#[derive(Clone, Copy, PartialEq, Eq, Debug)]
pub enum Point {
    Int(IntPoint),
    Rational,
}

/// A line through two integer points.
#[derive(Clone, Copy, PartialEq, Eq, Debug)]
pub struct Line {
    pub a: IntPoint,
    pub b: IntPoint,
}

/// The bounding shape a search-tree node keeps: a box or an octagon.
#[derive(Clone, Copy, PartialEq, Eq, Debug)]
pub enum RegularTileShape {
    Box(IntBox),
    Octagon(IntOctagon),
}

impl IntPoint {
    /// The point `(x, y)`.
    pub fn new(x: i32, y: i32) -> (p: IntPoint)
        ensures
            p.x == x,
            p.y == y,
    {
        IntPoint { x, y }
    }
}

impl IntBox {
    /// The box with lower-left `(ll_x, ll_y)` and upper-right `(ur_x, ur_y)`.
    pub open spec fn from_coords_spec(ll_x: i32, ll_y: i32, ur_x: i32, ur_y: i32) -> IntBox {
        IntBox { ll: IntPoint { x: ll_x, y: ll_y }, ur: IntPoint { x: ur_x, y: ur_y } }
    }

    /// The box with lower-left `(ll_x, ll_y)` and upper-right `(ur_x, ur_y)`.
    pub fn from_coords(ll_x: i32, ll_y: i32, ur_x: i32, ur_y: i32) -> (b: IntBox)
        ensures
            b == IntBox::from_coords_spec(ll_x, ll_y, ur_x, ur_y),
    {
        IntBox { ll: IntPoint { x: ll_x, y: ll_y }, ur: IntPoint { x: ur_x, y: ur_y } }
    }
}

} // verus!
