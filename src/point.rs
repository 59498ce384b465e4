use vstd::prelude::*;
use vstd::string::StringExecFns;

use crate::text::{decimal, decimal_text};

verus! {

/// The coordinate domain of the tree: signed integers, whose halving
/// truncates toward zero.
pub type Coordinate = i32;

/// A location in the plane.
#[derive(Clone, Copy, Debug, PartialEq, Eq, Structural)]
pub struct Point {
    pub x: Coordinate,
    pub y: Coordinate,
}

impl Point {
    pub fn new(x: Coordinate, y: Coordinate) -> (r: Point)
        ensures
            r.x == x,
            r.y == y,
    {
        Point { x, y }
    }

    pub fn as_tuple(&self) -> (r: (Coordinate, Coordinate))
        ensures
            r == (self.x, self.y),
    {
        (self.x, self.y)
    }

    /// The point as text: `(x, y)`.
    pub fn to_text(&self) -> (r: String)
        ensures
            r@ == seq!['('] + decimal(self.x as int) + seq![',', ' '] + decimal(self.y as int)
                + seq![')'],
    {
        proof {
            reveal_strlit("(");
            reveal_strlit(", ");
            reveal_strlit(")");
        }
        let mut s = String::new();
        s.append("(");
        s.append(decimal_text(self.x).as_str());
        s.append(", ");
        s.append(decimal_text(self.y).as_str());
        s.append(")");
        assert(s@ =~= seq!['('] + decimal(self.x as int) + seq![',', ' '] + decimal(self.y as int)
            + seq![')']);
        s
    }
}

} // verus!
