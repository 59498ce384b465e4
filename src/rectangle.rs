use vstd::prelude::*;
use vstd::string::StringExecFns;

use crate::point::{Coordinate, Point};
use crate::text::{decimal, decimal_text};

verus! {

/// Half of `a + b`, truncated toward zero.
pub open spec fn half_sum(a: int, b: int) -> int {
    let s = a + b;
    if s >= 0 {
        s / 2
    } else {
        -((-s) / 2)
    }
}

/// The halfway value lies between its two ends.
pub proof fn lemma_half_sum_between(a: int, b: int)
    ensures
        a <= b ==> a <= half_sum(a, b) <= b,
        b <= a ==> b <= half_sum(a, b) <= a,
        b - a >= 2 ==> a < half_sum(a, b) < b,
{
}

/// An axis-aligned box; the geometry assumes `x0 <= x1` and `y0 <= y1`.
#[derive(Clone, Copy, Debug, PartialEq, Eq, Structural)]
pub struct Rectangle {
    pub x0: Coordinate,
    pub y0: Coordinate,
    pub x1: Coordinate,
    pub y1: Coordinate,
}

impl Rectangle {
    /// Half-open containment: `[x0, x1) x [y0, y1)`.
    pub open spec fn contains(self, p: Point) -> bool {
        self.x0 <= p.x < self.x1 && self.y0 <= p.y < self.y1
    }

    pub open spec fn center_x(self) -> int {
        half_sum(self.x0 as int, self.x1 as int)
    }

    pub open spec fn center_y(self) -> int {
        half_sum(self.y0 as int, self.y1 as int)
    }

    /// Closed-interval subset test.
    pub open spec fn within(self, other: Rectangle) -> bool {
        self.x0 >= other.x0 && self.y0 >= other.y0 && self.x1 <= other.x1 && self.y1 <= other.y1
    }

    /// True unless one box lies wholly to one side of the other on some axis.
    pub open spec fn meets(self, other: Rectangle) -> bool {
        !(other.x1 <= self.x0 || other.x0 >= self.x1 || other.y1 <= self.y0 || other.y0
            >= self.y1)
    }

    pub fn new(x0: Coordinate, y0: Coordinate, x1: Coordinate, y1: Coordinate) -> (r: Rectangle)
        ensures
            r == (Rectangle { x0, y0, x1, y1 }),
    {
        Rectangle { x0, y0, x1, y1 }
    }

    pub fn as_tuple(&self) -> (r: (Coordinate, Coordinate, Coordinate, Coordinate))
        ensures
            r == (self.x0, self.y0, self.x1, self.y1),
    {
        (self.x0, self.y0, self.x1, self.y1)
    }

    /// The box as text: `((x0, y0) - (x1, y1))`.
    pub open spec fn text(self) -> Seq<char> {
        seq!['(', '('] + decimal(self.x0 as int) + seq![',', ' '] + decimal(self.y0 as int) + seq![
            ')',
            ' ',
            '-',
            ' ',
            '(',
        ] + decimal(self.x1 as int) + seq![',', ' '] + decimal(self.y1 as int) + seq![')', ')']
    }

    pub fn to_text(&self) -> (r: String)
        ensures
            r@ == self.text(),
    {
        proof {
            reveal_strlit("((");
            reveal_strlit(", ");
            reveal_strlit(") - (");
            reveal_strlit("))");
        }
        let mut s = String::new();
        s.append("((");
        s.append(decimal_text(self.x0).as_str());
        s.append(", ");
        s.append(decimal_text(self.y0).as_str());
        s.append(") - (");
        s.append(decimal_text(self.x1).as_str());
        s.append(", ");
        s.append(decimal_text(self.y1).as_str());
        s.append("))");
        assert(s@ =~= self.text());
        s
    }

    pub fn center(&self) -> (r: Point)
        ensures
            r.x == self.center_x(),
            r.y == self.center_y(),
    {
        proof {
            lemma_half_sum_between(self.x0 as int, self.x1 as int);
            lemma_half_sum_between(self.y0 as int, self.y1 as int);
        }
        Point { x: halve_sum(self.x0, self.x1), y: halve_sum(self.y0, self.y1) }
    }

    pub fn is_inside_of(&self, other: &Rectangle) -> (r: bool)
        ensures
            r == self.within(*other),
    {
        self.x0 >= other.x0 && self.y0 >= other.y0 && self.x1 <= other.x1 && self.y1 <= other.y1
    }

    pub fn is_point_inside(&self, point: &Point) -> (r: bool)
        ensures
            r == self.contains(*point),
    {
        point.x >= self.x0 && point.x < self.x1 && point.y >= self.y0 && point.y < self.y1
    }

    pub fn overlaps(&self, other: &Rectangle) -> (r: bool)
        ensures
            r == self.meets(*other),
    {
        !(other.x1 <= self.x0 || other.x0 >= self.x1 || other.y1 <= self.y0 || other.y0
            >= self.y1)
    }
}

fn halve_sum(a: Coordinate, b: Coordinate) -> (r: Coordinate)
    ensures
        r == half_sum(a as int, b as int),
{
    proof {
        lemma_half_sum_between(a as int, b as int);
    }
    let s: i64 = a as i64 + b as i64;
    let h: i64 = if s >= 0 {
        s / 2
    } else {
        -((-s) / 2)
    };
    h as Coordinate
}

} // verus!
