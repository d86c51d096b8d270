//! Geometry shared by the other modules

use vstd::prelude::*;

verus! {

/// A rectangle defined by its top-left corner and dimensions
#[derive(Copy, Clone, Debug, PartialEq, Eq, Structural, Default)]
pub struct Rectangle {
    /// horizontal position of the top-left corner of the rectangle, in surface coordinates
    pub x: i32,
    /// vertical position of the top-left corner of the rectangle, in surface coordinates
    pub y: i32,
    /// width of the rectangle
    pub width: i32,
    /// height of the rectangle
    pub height: i32,
}

impl Rectangle {
    /// Whether the rectangle covers the point (`x`, `y`): the left and top edges
    /// belong to the rectangle, the right and bottom edges do not
    pub open spec fn covers(self, x: int, y: int) -> bool {
        &&& self.x <= x < self.x + self.width
        &&& self.y <= y < self.y + self.height
    }

    /// The points of the plane that the rectangle covers
    pub open spec fn points(self) -> Set<(int, int)> {
        Set::new(|p: (int, int)| self.covers(p.0, p.1))
    }

    /// Checks whether given point is inside a rectangle
    pub fn contains(&self, point: (i32, i32)) -> (inside: bool)
        ensures
            inside == self.covers(point.0 as int, point.1 as int),
            inside <==> self.x <= point.0 < self.x + self.width && self.y <= point.1 < self.y
                + self.height,
    {
        let (x, y) = point;
        let right: i64 = self.x as i64 + self.width as i64;
        let bottom: i64 = self.y as i64 + self.height as i64;
        x >= self.x && (x as i64) < right && y >= self.y && (y as i64) < bottom
    }
}

/// A rectangle covers the points from its left edge on to just before its right edge, and from its
/// top edge on to just before its bottom edge: those are as far apart as it is wide and high.
pub proof fn law_rectangle_spans_its_sides(rect: Rectangle, x: int, y: int)
    ensures
        rect.points().contains((x, y)) <==> {
            &&& 0 <= x - rect.x < rect.width
            &&& 0 <= y - rect.y < rect.height
        },
        rect.covers(x, y) <==> rect.points().contains((x, y)),
{
}

/// The pairs of integers of two ranges are as many as the product of the lengths of the ranges
proof fn lemma_pairs_of_ranges(x: int, width: nat, y: int, height: nat)
    ensures
        ({
            let pairs = Set::new(
                |p: (int, int)| x <= p.0 < x + width && y <= p.1 < y + height,
            );
            pairs.finite() && pairs.len() == width * height
        }),
    decreases width, height,
{
    let pairs = Set::new(|p: (int, int)| x <= p.0 < x + width && y <= p.1 < y + height);
    if width == 0 || height == 0 {
        assert(pairs == Set::<(int, int)>::empty());
        assert(width * height == 0) by (nonlinear_arith)
            requires
                width == 0 || height == 0,
        ;
    } else if width == 1 {
        let less = (height - 1) as nat;
        lemma_pairs_of_ranges(x, width, y, less);
        let fewer = Set::new(|p: (int, int)| x <= p.0 < x + width && y <= p.1 < y + less);
        assert(pairs == fewer.insert((x, y + less)));
    } else {
        let less = (width - 1) as nat;
        lemma_pairs_of_ranges(x, less, y, height);
        lemma_pairs_of_ranges(x + less, 1, y, height);
        let left = Set::new(|p: (int, int)| x <= p.0 < x + less && y <= p.1 < y + height);
        let right = Set::new(
            |p: (int, int)| x + less <= p.0 < x + less + 1 && y <= p.1 < y + height,
        );
        assert(pairs == left + right);
        assert(left.disjoint(right));
        vstd::set_lib::lemma_set_disjoint_lens(left, right);
        assert(width * height == less * height + height) by (nonlinear_arith)
            requires
                width == less + 1,
        ;
    }
}

/// A rectangle with sides that are not negative covers as many points as the product of its sides.
pub proof fn law_rectangle_covers_its_area(rect: Rectangle)
    requires
        rect.width >= 0,
        rect.height >= 0,
    ensures
        rect.points().finite(),
        rect.points().len() == rect.width * rect.height,
{
    lemma_pairs_of_ranges(
        rect.x as int,
        rect.width as nat,
        rect.y as int,
        rect.height as nat,
    );
    assert(rect.points() == Set::new(
        |p: (int, int)|
            rect.x <= p.0 < rect.x + rect.width as nat && rect.y <= p.1 < rect.y
                + rect.height as nat,
    ));
}

} // verus!
