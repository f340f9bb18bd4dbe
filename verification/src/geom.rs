//! Axis-aligned rectangles in discrete coordinates: a position that may be
//! negative and a size that cannot.

use vstd::prelude::*;

verus! {

/// A position: column and row.
pub type XYi = (i32, i32);

/// A size: width and height.
pub type WHi = (u32, u32);

/// A rectangle: the position of its top left corner, then its size.
pub type XYWHi = (i32, i32, u32, u32);

/// The column just past the right edge.
pub open spec fn right_edge(rect: XYWHi) -> int {
    rect.0 + rect.2
}

/// The row just past the bottom edge.
pub open spec fn bottom_edge(rect: XYWHi) -> int {
    rect.1 + rect.3
}

/// Whether the cell `(x, y)` lies in the rectangle: a rectangle of width `w`
/// at `x0` spans the columns `x0 <= x < x0 + w`, and likewise for rows.
pub open spec fn contains(rect: XYWHi, x: int, y: int) -> bool {
    rect.0 <= x < right_edge(rect) && rect.1 <= y < bottom_edge(rect)
}

/// The rectangle between the innermost edges of two rectangles, or `None`
/// where the edges cross on an axis. Rectangles that only touch meet in a
/// rectangle with no area, which is still returned.
pub open spec fn intersect_spec(a: XYWHi, b: XYWHi) -> Option<XYWHi> {
    let x1 = vstd::math::max(a.0 as int, b.0 as int);
    let y1 = vstd::math::max(a.1 as int, b.1 as int);
    let x2 = vstd::math::min(right_edge(a), right_edge(b));
    let y2 = vstd::math::min(bottom_edge(a), bottom_edge(b));
    if x1 > x2 || y1 > y2 {
        None
    } else {
        Some((x1 as i32, y1 as i32, (x2 - x1) as u32, (y2 - y1) as u32))
    }
}

/// Finds the intersection of two rectangles.
pub fn intersect(rect1: XYWHi, rect2: XYWHi) -> (shared: Option<XYWHi>)
    ensures
        shared == intersect_spec(rect1, rect2),
{
    let x1: i64 = if rect1.0 >= rect2.0 { rect1.0 as i64 } else { rect2.0 as i64 };
    let y1: i64 = if rect1.1 >= rect2.1 { rect1.1 as i64 } else { rect2.1 as i64 };
    let right1: i64 = rect1.0 as i64 + rect1.2 as i64;
    let right2: i64 = rect2.0 as i64 + rect2.2 as i64;
    let bottom1: i64 = rect1.1 as i64 + rect1.3 as i64;
    let bottom2: i64 = rect2.1 as i64 + rect2.3 as i64;
    let x2: i64 = if right1 <= right2 { right1 } else { right2 };
    let y2: i64 = if bottom1 <= bottom2 { bottom1 } else { bottom2 };
    if x1 > x2 || y1 > y2 {
        None
    } else {
        Some((x1 as i32, y1 as i32, (x2 - x1) as u32, (y2 - y1) as u32))
    }
}

/// The order of the two rectangles does not matter.
pub proof fn lemma_intersect_commutes(a: XYWHi, b: XYWHi)
    ensures
        intersect_spec(a, b) == intersect_spec(b, a),
{
}

/// A rectangle meets itself in itself.
pub proof fn lemma_intersect_self(a: XYWHi)
    ensures
        intersect_spec(a, a) == Some(a),
{
}

/// An intersection holds exactly the cells that both rectangles hold, lies
/// within both, and where there is none the rectangles share no cell.
pub proof fn lemma_intersect_cells(a: XYWHi, b: XYWHi)
    ensures
        match intersect_spec(a, b) {
            Some(shared) => {
                &&& forall|x: int, y: int|
                    contains(shared, x, y) <==> contains(a, x, y) && contains(b, x, y)
                &&& a.0 <= shared.0 && right_edge(shared) <= right_edge(a)
                &&& b.0 <= shared.0 && right_edge(shared) <= right_edge(b)
                &&& a.1 <= shared.1 && bottom_edge(shared) <= bottom_edge(a)
                &&& b.1 <= shared.1 && bottom_edge(shared) <= bottom_edge(b)
            },
            None => forall|x: int, y: int| !(contains(a, x, y) && contains(b, x, y)),
        },
{
}

} // verus!
