//! The geometry primitive: axis-aligned rectangles and their overlap.

use vstd::math::{max, min};
use vstd::multiset::Multiset;
use vstd::prelude::*;

verus! {

/// An axis-aligned rectangle on the integer grid: lower-left corner `(x, y)`,
/// width `w` and height `h`. It covers the unit cells `(px, py)` with
/// `x <= px < x + w` and `y <= py < y + h`.
#[derive(Debug, Clone, Copy, PartialEq, Eq, Structural)]
pub struct Rectangle {
    pub x: i32,
    pub y: i32,
    pub w: u32,
    pub h: u32,
}

impl Rectangle {
    /// The left edge.
    pub open spec fn left(self) -> int {
        self.x as int
    }

    /// The right edge, one past the last covered column.
    pub open spec fn right(self) -> int {
        self.x + self.w
    }

    /// The bottom edge.
    pub open spec fn bottom(self) -> int {
        self.y as int
    }

    /// The top edge, one past the last covered row.
    pub open spec fn top(self) -> int {
        self.y + self.h
    }

    /// A rectangle occupies space when both its width and its height are positive.
    pub open spec fn occupies_space(self) -> bool {
        self.w > 0 && self.h > 0
    }

    /// Whether the unit cell with lower-left corner `(px, py)` lies inside the rectangle.
    pub open spec fn covers(self, px: int, py: int) -> bool {
        self.left() <= px < self.right() && self.bottom() <= py < self.top()
    }
}

/// The region shared by two rectangles: the box between the larger of the two
/// left edges and the smaller of the two right edges, and likewise between
/// bottom and top. A shared region without area counts as no overlap at all.
pub open spec fn overlap(a: Rectangle, b: Rectangle) -> Option<Rectangle> {
    let l = max(a.left(), b.left());
    let r = min(a.right(), b.right());
    let bo = max(a.bottom(), b.bottom());
    let t = min(a.top(), b.top());
    if l < r && bo < t {
        Some(Rectangle { x: l as i32, y: bo as i32, w: (r - l) as u32, h: (t - bo) as u32 })
    } else {
        None
    }
}

/// Whether two rectangles share at least one unit cell.
pub open spec fn overlapping(a: Rectangle, b: Rectangle) -> bool {
    overlap(a, b) is Some
}

/// Computes the region shared by two rectangles, or `None` when they share no area.
pub fn intersection(rect1: &Rectangle, rect2: &Rectangle) -> (result: Option<Rectangle>)
    ensures
        result == overlap(*rect1, *rect2),
{
    let max_l: i32 = if rect1.x >= rect2.x { rect1.x } else { rect2.x };
    let max_b: i32 = if rect1.y >= rect2.y { rect1.y } else { rect2.y };
    let right1: i64 = rect1.x as i64 + rect1.w as i64;
    let right2: i64 = rect2.x as i64 + rect2.w as i64;
    let top1: i64 = rect1.y as i64 + rect1.h as i64;
    let top2: i64 = rect2.y as i64 + rect2.h as i64;
    let min_r: i64 = if right1 <= right2 { right1 } else { right2 };
    let min_t: i64 = if top1 <= top2 { top1 } else { top2 };

    if max_l as i64 > min_r || max_b as i64 > min_t {
        None
    } else {
        let w: u32 = (min_r - max_l as i64) as u32;
        let h: u32 = (min_t - max_b as i64) as u32;
        if w == 0 || h == 0 {
            None
        } else {
            Some(Rectangle { x: max_l, y: max_b, w, h })
        }
    }
}

/// Whether a rectangle overlaps at least one rectangle of a sequence.
pub open spec fn overlaps_any(rect: Rectangle, others: Seq<Rectangle>) -> bool {
    exists|k: int| 0 <= k < others.len() && overlapping(rect, #[trigger] others[k])
}

/// The width and height of a rectangle.
pub open spec fn size_of(r: Rectangle) -> (u32, u32) {
    (r.w, r.h)
}

/// The sizes of the rectangles of a sequence, each as often as it occurs.
pub open spec fn sizes(rooms: Seq<Rectangle>) -> Multiset<(u32, u32)> {
    Seq::new(rooms.len(), |k: int| size_of(rooms[k])).to_multiset()
}

/// No two rectangles of the sequence overlap.
pub open spec fn pairwise_disjoint(rooms: Seq<Rectangle>) -> bool {
    forall|i: int, j: int|
        0 <= i < j < rooms.len() ==> !overlapping(#[trigger] rooms[i], #[trigger] rooms[j])
}

/// Tells whether `rect` overlaps any of `others`.
pub fn intersects_any(rect: &Rectangle, others: &Vec<Rectangle>) -> (hit: bool)
    ensures
        hit == overlaps_any(*rect, others@),
{
    let mut k: usize = 0;
    while k < others.len()
        invariant
            k <= others.len(),
            forall|m: int| 0 <= m < k ==> !overlapping(*rect, #[trigger] others@[m]),
        decreases others.len() - k,
    {
        if intersection(rect, &others[k]).is_some() {
            return true;
        }
        k += 1;
    }
    false
}

/// The overlap of two rectangles does not depend on the order in which they are given.
pub proof fn overlap_is_symmetric(a: Rectangle, b: Rectangle)
    ensures
        overlap(a, b) == overlap(b, a),
{
}

/// Rectangles that merely touch do not overlap: when the shared box has no
/// width or no height, there is no overlap.
pub proof fn touching_is_not_overlapping(a: Rectangle, b: Rectangle)
    requires
        min(a.right(), b.right()) - max(a.left(), b.left()) == 0 || min(a.top(), b.top()) - max(
            a.bottom(),
            b.bottom(),
        ) == 0,
    ensures
        overlap(a, b) is None,
{
}

/// The overlap is exactly the common area: when it exists it occupies space
/// and covers the cells that both rectangles cover, and when it does not
/// exist the two rectangles have no cell in common.
pub proof fn overlap_is_common_area(a: Rectangle, b: Rectangle)
    ensures
        match overlap(a, b) {
            Some(r) => r.occupies_space() && forall|px: int, py: int| #[trigger]
                r.covers(px, py) <==> a.covers(px, py) && b.covers(px, py),
            None => forall|px: int, py: int|
                !(#[trigger] a.covers(px, py) && b.covers(px, py)),
        },
{
    let l = max(a.left(), b.left());
    let bo = max(a.bottom(), b.bottom());
    if overlap(a, b) is None {
        assert forall|px: int, py: int| !(#[trigger] a.covers(px, py) && b.covers(px, py)) by {
            if a.covers(px, py) && b.covers(px, py) {
                assert(l <= px && bo <= py);
            }
        }
    }
}

/// A rectangle that occupies space overlaps with itself, and the overlap is the rectangle.
pub proof fn overlap_with_itself(a: Rectangle)
    requires
        a.occupies_space(),
    ensures
        overlap(a, a) == Some(a),
{
}

} // verus!
