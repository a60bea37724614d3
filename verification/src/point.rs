use vstd::prelude::*;

verus! {

/// A position in a text, counted in rows and UTF-16 code units within a row.
/// A point is also used as the two-dimensional extent of a piece of text.
#[derive(Clone, Copy, Debug, PartialEq, Eq, Structural, Hash)]
pub struct Point {
    pub row: u32,
    pub column: u32,
}

/// The extent obtained by following extent `a` with extent `b`: when `b` spans no
/// newline its columns continue `a`'s last row, otherwise `b`'s last row wins.
pub open spec fn point_sum(a: Point, b: Point) -> (int, int) {
    if b.row == 0 {
        (a.row as int, a.column + b.column)
    } else {
        (a.row + b.row, b.column as int)
    }
}

/// The extent that leads from `b` to `a` (defined when `b` does not lie after `a`).
pub open spec fn point_diff(a: Point, b: Point) -> (int, int) {
    if a.row == b.row {
        (0, a.column - b.column)
    } else {
        (a.row - b.row, a.column as int)
    }
}

/// Row-major order on points.
pub open spec fn point_le(a: Point, b: Point) -> bool {
    a.row < b.row || (a.row == b.row && a.column <= b.column)
}

/// How two points compare in row-major order.
pub open spec fn point_order(a: Point, b: Point) -> std::cmp::Ordering {
    if a.row < b.row || (a.row == b.row && a.column < b.column) {
        std::cmp::Ordering::Less
    } else if a.row == b.row && a.column == b.column {
        std::cmp::Ordering::Equal
    } else {
        std::cmp::Ordering::Greater
    }
}

pub open spec fn point_of(p: (int, int)) -> Point {
    Point { row: p.0 as u32, column: p.1 as u32 }
}

pub open spec fn fits_u32(p: (int, int)) -> bool {
    0 <= p.0 <= u32::MAX && 0 <= p.1 <= u32::MAX
}

impl Point {
    pub fn new(row: u32, column: u32) -> (p: Point)
        ensures
            p.row == row,
            p.column == column,
    {
        Point { row, column }
    }

    pub fn zero() -> (p: Point)
        ensures
            p.row == 0,
            p.column == 0,
    {
        Point::new(0, 0)
    }

    pub fn is_zero(&self) -> (b: bool)
        ensures
            b == (self.row == 0 && self.column == 0),
    {
        self.row == 0 && self.column == 0
    }

    /// Appends extent `other` to `self`.
    pub fn add(self, other: &Point) -> (p: Point)
        requires
            fits_u32(point_sum(self, *other)),
        ensures
            (p.row as int, p.column as int) == point_sum(self, *other),
    {
        if other.row == 0 {
            Point::new(self.row, self.column + other.column)
        } else {
            Point::new(self.row + other.row, other.column)
        }
    }

    /// The extent from `other` to `self`; `other` must not lie after `self`.
    pub fn sub(self, other: &Point) -> (p: Point)
        requires
            point_le(*other, self),
        ensures
            (p.row as int, p.column as int) == point_diff(self, *other),
    {
        if self.row == other.row {
            Point::new(0, self.column - other.column)
        } else {
            Point::new(self.row - other.row, self.column)
        }
    }

    /// In-place form of [`Point::add`].
    pub fn add_assign(&mut self, other: &Point)
        requires
            fits_u32(point_sum(*old(self), *other)),
        ensures
            (final(self).row as int, final(self).column as int) == point_sum(*old(self), *other),
    {
        if other.row == 0 {
            self.column = self.column + other.column;
        } else {
            self.row = self.row + other.row;
            self.column = other.column;
        }
    }

    /// Row-major comparison of `self` with `other`.
    pub fn cmp(&self, other: &Point) -> (o: std::cmp::Ordering)
        ensures
            o == point_order(*self, *other),
    {
        if self.row < other.row {
            std::cmp::Ordering::Less
        } else if self.row > other.row {
            std::cmp::Ordering::Greater
        } else if self.column < other.column {
            std::cmp::Ordering::Less
        } else if self.column > other.column {
            std::cmp::Ordering::Greater
        } else {
            std::cmp::Ordering::Equal
        }
    }

    /// Row-major comparison: `true` when `self` does not lie after `other`.
    pub fn le(&self, other: &Point) -> (b: bool)
        ensures
            b == point_le(*self, *other),
    {
        self.row < other.row || (self.row == other.row && self.column <= other.column)
    }
}

/// The zero extent is neutral on both sides of `+`.
pub proof fn lemma_zero_is_identity(p: Point)
    ensures
        point_sum(Point { row: 0, column: 0 }, p) == (p.row as int, p.column as int),
        point_sum(p, Point { row: 0, column: 0 }) == (p.row as int, p.column as int),
{
}

/// Concatenating extents is associative.
pub proof fn lemma_add_associative(a: Point, b: Point, c: Point)
    requires
        fits_u32(point_sum(a, b)),
        fits_u32(point_sum(b, c)),
    ensures
        point_sum(point_of(point_sum(a, b)), c) == point_sum(a, point_of(point_sum(b, c))),
{
}

/// Subtracting the start again undoes an addition: `(a + b) - a == b`.
pub proof fn lemma_add_then_sub(a: Point, b: Point)
    requires
        fits_u32(point_sum(a, b)),
    ensures
        point_le(a, point_of(point_sum(a, b))),
        point_diff(point_of(point_sum(a, b)), a) == (b.row as int, b.column as int),
{
}

/// Adding the difference restores the end point: `a + (b - a) == b` when `a <= b`.
pub proof fn lemma_sub_then_add(a: Point, b: Point)
    requires
        point_le(a, b),
    ensures
        fits_u32(point_diff(b, a)),
        point_sum(a, point_of(point_diff(b, a))) == (b.row as int, b.column as int),
{
}

} // verus!
