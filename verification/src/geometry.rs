//! Pixel rectangles and the bounding box of several of them.

use vstd::prelude::*;

verus! {

/// An axis-aligned block of pixels: the columns `left..right` of the rows
/// `top..bottom`. A rectangle whose right edge is not beyond its left edge, or
/// whose bottom edge is not below its top edge, covers no pixel.
#[derive(Clone, Copy, Debug, PartialEq, Eq, Structural)]
pub struct Rect {
    pub left: usize,
    pub top: usize,
    pub right: usize,
    pub bottom: usize,
}

impl Rect {
    /// No pixel lies in the rectangle.
    pub open spec fn vacant(self) -> bool {
        self.right <= self.left || self.bottom <= self.top
    }

    /// The pixel in column `x` of row `y` lies in the rectangle.
    pub open spec fn covers(self, x: int, y: int) -> bool {
        self.left <= x < self.right && self.top <= y < self.bottom
    }

    /// Every pixel of the rectangle lies in `outer`.
    pub open spec fn within(self, outer: Rect) -> bool {
        self.vacant() || (outer.left <= self.left && self.right <= outer.right && outer.top
            <= self.top && self.bottom <= outer.bottom)
    }

    /// The bounding box of two rectangles. A rectangle without pixels adds
    /// nothing to it.
    pub open spec fn joined(self, other: Rect) -> Rect {
        if self.vacant() {
            other
        } else if other.vacant() {
            self
        } else {
            Rect {
                left: if self.left <= other.left { self.left } else { other.left },
                top: if self.top <= other.top { self.top } else { other.top },
                right: if self.right >= other.right { self.right } else { other.right },
                bottom: if self.bottom >= other.bottom { self.bottom } else { other.bottom },
            }
        }
    }

    /// The pixels that two rectangles share.
    pub open spec fn common(self, other: Rect) -> Rect {
        Rect {
            left: if self.left >= other.left { self.left } else { other.left },
            top: if self.top >= other.top { self.top } else { other.top },
            right: if self.right <= other.right { self.right } else { other.right },
            bottom: if self.bottom <= other.bottom { self.bottom } else { other.bottom },
        }
    }

    /// The rectangle without pixels that an empty region is written as.
    pub open spec fn nothing() -> Rect {
        Rect { left: 0, top: 0, right: 0, bottom: 0 }
    }

    /// The rectangle with the given edges.
    pub fn new(left: usize, top: usize, right: usize, bottom: usize) -> (r: Rect)
        ensures
            r == (Rect { left, top, right, bottom }),
    {
        Rect { left, top, right, bottom }
    }

    /// The rectangle of `width` columns and `height` rows whose top left pixel
    /// is (`x`, `y`), or `None` where an edge would lie beyond `usize::MAX`.
    pub fn from_size(x: usize, y: usize, width: usize, height: usize) -> (r: Option<Rect>)
        ensures
            r.is_some() <==> x + width <= usize::MAX && y + height <= usize::MAX,
            r matches Some(rect) ==> rect.left == x && rect.top == y && rect.right == x + width
                && rect.bottom == y + height,
    {
        match (x.checked_add(width), y.checked_add(height)) {
            (Some(right), Some(bottom)) => Some(Rect { left: x, top: y, right, bottom }),
            _ => None,
        }
    }

    /// A rectangle without pixels.
    pub fn empty() -> (r: Rect)
        ensures
            r == Rect::nothing(),
            r.vacant(),
    {
        Rect { left: 0, top: 0, right: 0, bottom: 0 }
    }

    /// Whether no pixel lies in the rectangle.
    pub fn is_empty(&self) -> (b: bool)
        ensures
            b == self.vacant(),
    {
        self.right <= self.left || self.bottom <= self.top
    }

    /// Number of columns; 0 for a rectangle without pixels.
    pub fn width(&self) -> (w: usize)
        ensures
            self.vacant() ==> w == 0,
            !self.vacant() ==> w == self.right - self.left,
    {
        if self.is_empty() {
            0
        } else {
            self.right - self.left
        }
    }

    /// Number of rows; 0 for a rectangle without pixels.
    pub fn height(&self) -> (h: usize)
        ensures
            self.vacant() ==> h == 0,
            !self.vacant() ==> h == self.bottom - self.top,
    {
        if self.is_empty() {
            0
        } else {
            self.bottom - self.top
        }
    }

    /// Whether the pixel in column `x` of row `y` lies in the rectangle.
    pub fn contains(&self, x: usize, y: usize) -> (b: bool)
        ensures
            b == self.covers(x as int, y as int),
    {
        self.left <= x && x < self.right && self.top <= y && y < self.bottom
    }

    /// Whether every pixel of the rectangle lies in `outer`.
    pub fn is_within(&self, outer: &Rect) -> (b: bool)
        ensures
            b == self.within(*outer),
    {
        self.is_empty() || (outer.left <= self.left && self.right <= outer.right && outer.top
            <= self.top && self.bottom <= outer.bottom)
    }

    /// Bounding box of `self` and `other`.
    pub fn hull(&self, other: &Rect) -> (r: Rect)
        ensures
            r == self.joined(*other),
    {
        if self.is_empty() {
            *other
        } else if other.is_empty() {
            *self
        } else {
            Rect {
                left: if self.left <= other.left { self.left } else { other.left },
                top: if self.top <= other.top { self.top } else { other.top },
                right: if self.right >= other.right { self.right } else { other.right },
                bottom: if self.bottom >= other.bottom { self.bottom } else { other.bottom },
            }
        }
    }

    /// The part of `self` that lies in `other`.
    pub fn intersect(&self, other: &Rect) -> (r: Rect)
        ensures
            r == self.common(*other),
    {
        Rect {
            left: if self.left >= other.left { self.left } else { other.left },
            top: if self.top >= other.top { self.top } else { other.top },
            right: if self.right <= other.right { self.right } else { other.right },
            bottom: if self.bottom <= other.bottom { self.bottom } else { other.bottom },
        }
    }
}

/// The bounding box of a list of rectangles, taken from first to last.
pub open spec fn hull_of(rects: Seq<Rect>) -> Rect
    decreases rects.len(),
{
    if rects.len() == 0 {
        Rect::nothing()
    } else {
        hull_of(rects.drop_last()).joined(rects.last())
    }
}

/// The bounding box of two rectangles holds every pixel of either, and is the
/// smallest rectangle that does: whatever holds both holds the box.
pub proof fn lemma_joined_is_bounding_box(a: Rect, b: Rect, outer: Rect)
    ensures
        a.within(a.joined(b)),
        b.within(a.joined(b)),
        a.within(outer) && b.within(outer) ==> a.joined(b).within(outer),
        a.joined(b).vacant() <==> a.vacant() && b.vacant(),
{
}

/// The bounding box of a list holds every rectangle of the list, lies in
/// whatever holds them all, and has no pixel exactly when none of them has.
pub proof fn lemma_hull_of_is_bounding_box(rects: Seq<Rect>, outer: Rect)
    ensures
        forall|i: int| 0 <= i < rects.len() ==> (#[trigger] rects[i]).within(hull_of(rects)),
        (forall|i: int| 0 <= i < rects.len() ==> (#[trigger] rects[i]).within(outer)) ==> hull_of(
            rects,
        ).within(outer),
        hull_of(rects).vacant() <==> (forall|i: int|
            0 <= i < rects.len() ==> (#[trigger] rects[i]).vacant()),
    decreases rects.len(),
{
    if rects.len() > 0 {
        let front = rects.drop_last();
        lemma_hull_of_is_bounding_box(front, outer);
        lemma_joined_is_bounding_box(hull_of(front), rects.last(), outer);
        assert forall|i: int| 0 <= i < rects.len() implies (#[trigger] rects[i]).within(
            hull_of(rects),
        ) by {
            if i < rects.len() - 1 {
                assert(front[i] == rects[i]);
                assert(front[i].within(hull_of(front)));
            }
        }
        if forall|i: int| 0 <= i < rects.len() ==> (#[trigger] rects[i]).within(outer) {
            assert forall|i: int| 0 <= i < front.len() implies (#[trigger] front[i]).within(
                outer,
            ) by {
                assert(front[i] == rects[i]);
            }
        }
        if hull_of(rects).vacant() {
            assert forall|i: int| 0 <= i < rects.len() implies (#[trigger] rects[i]).vacant() by {
                if i < rects.len() - 1 {
                    assert(front[i] == rects[i]);
                }
            }
        }
        if forall|i: int| 0 <= i < rects.len() ==> (#[trigger] rects[i]).vacant() {
            assert forall|i: int| 0 <= i < front.len() implies (#[trigger] front[i]).vacant() by {
                assert(front[i] == rects[i]);
            }
            assert(rects.last() == rects[rects.len() - 1]);
        }
    }
}

} // verus!
