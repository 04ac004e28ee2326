//! Integer raster drawing over 2-dimensional tensors: filled and stroked
//! rectangles, non-antialiased lines and polygon outlines, and a
//! scan-line iterator over the pixels inside a polygon.
use vstd::prelude::*;

use crate::layout::{index_in_bounds, offset_of};
use crate::ndtensor::NdTensorBase;
use crate::storage::StorageMut;

verus! {

broadcast use vstd::array::group_array_axioms;

/// A point in an image, with `y` growing downwards.
#[derive(Clone, Copy, Debug, PartialEq, Eq, Structural)]
pub struct Point {
    pub y: i32,
    pub x: i32,
}

impl Point {
    /// A point from row and column coordinates.
    pub fn from_yx(y: i32, x: i32) -> (r: Point)
        ensures
            r.y == y && r.x == x,
    {
        Point { y, x }
    }

    /// The point as a `[row, column]` tensor index.
    pub fn coord(&self) -> (r: [usize; 2])
        requires
            self.y >= 0,
            self.x >= 0,
        ensures
            r@ == seq![self.y as usize, self.x as usize],
    {
        let r: [usize; 2] = [self.y as usize, self.x as usize];
        proof {
            assert(r@ =~= seq![self.y as usize, self.x as usize]);
        }
        r
    }

    /// Move the point by an offset in each axis.
    pub fn move_by(&mut self, dy: i32, dx: i32)
        requires
            i32::MIN <= old(self).y + dy <= i32::MAX,
            i32::MIN <= old(self).x + dx <= i32::MAX,
        ensures
            final(self).y == old(self).y + dy,
            final(self).x == old(self).x + dx,
    {
        self.y = self.y + dy;
        self.x = self.x + dx;
    }

    /// Move the point to absolute coordinates.
    pub fn move_to(&mut self, y: i32, x: i32)
        ensures
            final(self).y == y && final(self).x == x,
    {
        self.y = y;
        self.x = x;
    }
}

/// A line segment between two points.
#[derive(Clone, Copy, Debug, PartialEq, Eq, Structural)]
pub struct Line {
    pub start: Point,
    pub end: Point,
}

impl Line {
    /// A line from its two endpoints.
    pub fn from_endpoints(start: Point, end: Point) -> (r: Line)
        ensures
            r.start == start && r.end == end,
    {
        Line { start, end }
    }
}

/// An axis-aligned rectangle given by its top-left and bottom-right
/// corners. Drawing operations treat `bottom` and `right` as exclusive.
#[derive(Clone, Copy, Debug, PartialEq, Eq, Structural)]
pub struct Rect {
    pub top: i32,
    pub left: i32,
    pub bottom: i32,
    pub right: i32,
}

impl Rect {
    /// A rectangle from its top, left, bottom and right coordinates.
    pub fn from_tlbr(top: i32, left: i32, bottom: i32, right: i32) -> (r: Rect)
        ensures
            r.top == top && r.left == left && r.bottom == bottom && r.right == right,
    {
        Rect { top, left, bottom, right }
    }

    /// The top coordinate.
    pub fn top(&self) -> (r: i32)
        ensures
            r == self.top,
    {
        self.top
    }

    /// The left coordinate.
    pub fn left(&self) -> (r: i32)
        ensures
            r == self.left,
    {
        self.left
    }

    /// The bottom coordinate.
    pub fn bottom(&self) -> (r: i32)
        ensures
            r == self.bottom,
    {
        self.bottom
    }

    /// The right coordinate.
    pub fn right(&self) -> (r: i32)
        ensures
            r == self.right,
    {
        self.right
    }

    /// True when the rectangle contains no points.
    pub fn is_empty(&self) -> (r: bool)
        ensures
            r == (self.bottom <= self.top || self.right <= self.left),
    {
        self.bottom <= self.top || self.right <= self.left
    }

    /// The top-left corner.
    pub fn top_left(&self) -> (r: Point)
        ensures
            r.y == self.top && r.x == self.left,
    {
        Point { y: self.top, x: self.left }
    }

    /// The bottom-right corner.
    pub fn bottom_right(&self) -> (r: Point)
        ensures
            r.y == self.bottom && r.x == self.right,
    {
        Point { y: self.bottom, x: self.right }
    }

    /// A copy of the rectangle with each coordinate adjusted by an
    /// offset.
    pub fn adjust_tlbr(&self, top: i32, left: i32, bottom: i32, right: i32) -> (r: Rect)
        requires
            i32::MIN <= self.top + top <= i32::MAX,
            i32::MIN <= self.left + left <= i32::MAX,
            i32::MIN <= self.bottom + bottom <= i32::MAX,
            i32::MIN <= self.right + right <= i32::MAX,
        ensures
            r.top == self.top + top,
            r.left == self.left + left,
            r.bottom == self.bottom + bottom,
            r.right == self.right + right,
    {
        Rect {
            top: self.top + top,
            left: self.left + left,
            bottom: self.bottom + bottom,
            right: self.right + right,
        }
    }
}

/// A closed polygon over a borrowed list of vertices.
pub struct Polygon<'a> {
    pub points: &'a [Point],
}

impl<'a> Polygon<'a> {
    /// A polygon from its vertices, closed implicitly from the last back
    /// to the first.
    pub fn new(points: &'a [Point]) -> (r: Polygon<'a>)
        ensures
            r.points@ == points@,
    {
        Polygon { points }
    }

    /// The edges of the polygon: one segment from each vertex to the
    /// next, and one closing segment from the last vertex to the first.
    pub fn edges(&self) -> (r: Vec<Line>)
        ensures
            r@.len() == self.points@.len(),
            forall|i: int|
                0 <= i < self.points@.len() ==> (#[trigger] r@[i]).start == self.points@[i]
                    && r@[i].end == self.points@[(i + 1) % (self.points@.len() as int)],
    {
        let n = self.points.len();
        let mut r: Vec<Line> = Vec::new();
        let mut i: usize = 0;
        while i < n
            invariant
                i <= n,
                n == self.points@.len(),
                r@.len() == i,
                forall|j: int|
                    0 <= j < i ==> (#[trigger] r@[j]).start == self.points@[j] && r@[j].end
                        == self.points@[(j + 1) % (n as int)],
            decreases n - i,
        {
            let next: usize = if i + 1 == n {
                0
            } else {
                i + 1
            };
            proof {
                assert((i + 1) % (n as int) == next) by (nonlinear_arith)
                    requires
                        n >= 1,
                        0 <= i < n,
                        next == if i + 1 == n {
                            0int
                        } else {
                            i + 1
                        },
                ;
            }
            r.push(Line { start: self.points[i], end: self.points[next] });
            i = i + 1;
        }
        r
    }

    /// The smallest rectangle whose corner coordinates bound every
    /// vertex; the maxima are stored inclusively.
    pub fn bounding_rect(&self) -> (r: Rect)
        ensures
            r == poly_rect(self.points@),
            self.points@.len() == 0 ==> r == (Rect { top: 0i32, left: 0i32, bottom: 0i32, right: 0i32 }),
            self.points@.len() > 0 ==> {
                &&& forall|i: int|
                    0 <= i < self.points@.len() ==> r.top <= (#[trigger] self.points@[i]).y
                        <= r.bottom && r.left <= self.points@[i].x <= r.right
                &&& exists|i: int| 0 <= i < self.points@.len() && (#[trigger] self.points@[i]).y == r.top
                &&& exists|i: int|
                    0 <= i < self.points@.len() && (#[trigger] self.points@[i]).y == r.bottom
                &&& exists|i: int|
                    0 <= i < self.points@.len() && (#[trigger] self.points@[i]).x == r.left
                &&& exists|i: int|
                    0 <= i < self.points@.len() && (#[trigger] self.points@[i]).x == r.right
            },
    {
        let n = self.points.len();
        if n == 0 {
            return Rect { top: 0, left: 0, bottom: 0, right: 0 };
        }
        let p0 = self.points[0];
        let mut top = p0.y;
        let mut bottom = p0.y;
        let mut left = p0.x;
        let mut right = p0.x;
        let mut i: usize = 1;
        proof {
            assert(self.points@.take(1) =~= seq![self.points@[0]]);
            assert((Rect { top, left, bottom, right }) == poly_rect(self.points@.take(1)));
        }
        while i < n
            invariant
                1 <= i <= n,
                n == self.points@.len(),
                (Rect { top, left, bottom, right }) == poly_rect(self.points@.take(i as int)),
                forall|j: int|
                    0 <= j < i ==> top <= (#[trigger] self.points@[j]).y <= bottom && left
                        <= self.points@[j].x <= right,
                exists|j: int| 0 <= j < i && (#[trigger] self.points@[j]).y == top,
                exists|j: int| 0 <= j < i && (#[trigger] self.points@[j]).y == bottom,
                exists|j: int| 0 <= j < i && (#[trigger] self.points@[j]).x == left,
                exists|j: int| 0 <= j < i && (#[trigger] self.points@[j]).x == right,
            decreases n - i,
        {
            let p = self.points[i];
            if p.y < top {
                top = p.y;
            }
            if p.y > bottom {
                bottom = p.y;
            }
            if p.x < left {
                left = p.x;
            }
            if p.x > right {
                right = p.x;
            }
            i = i + 1;
            proof {
                assert(self.points@.take(i as int).drop_last() =~= self.points@.take(i - 1));
                assert(self.points@.take(i as int).last() == self.points@[i - 1]);
            }
        }
        proof {
            assert(self.points@.take(n as int) =~= self.points@);
        }
        Rect { top, left, bottom, right }
    }
}

/// A point lies inside a rectangle's drawing region: rows `top..bottom`
/// and columns `left..right`.
pub open spec fn in_rect(r: Rect, y: int, x: int) -> bool {
    r.top <= y < r.bottom && r.left <= x < r.right
}

/// Fill all points inside `rect` with the value `value`.
///
/// Every storage element addressed by an in-rectangle index takes the
/// value; storage not addressed by any in-rectangle index is unchanged.
pub fn fill_rect<T: Copy, S: StorageMut<T>>(mask: &mut NdTensorBase<T, S, 2>, rect: Rect, value: T)
    requires
        old(mask).wf(),
        rect.bottom > rect.top && rect.right > rect.left ==> 0 <= rect.top && 0 <= rect.left
            && rect.bottom <= old(mask).shape_seq()[0] && rect.right <= old(mask).shape_seq()[1],
    ensures
        final(mask).wf(),
        final(mask).layout == old(mask).layout,
        final(mask).data_seq().len() == old(mask).data_seq().len(),
        forall|y: int, x: int|
            in_rect(rect, y, x) ==> final(mask).data_seq()[offset_of(
                #[trigger] seq![y as usize, x as usize],
                old(mask).strides_seq(),
            )] == value,
        forall|j: int|
            0 <= j < old(mask).data_seq().len() && !(exists|y: int, x: int|
                in_rect(rect, y, x) && j == offset_of(
                    #[trigger] seq![y as usize, x as usize],
                    old(mask).strides_seq(),
                )) ==> final(mask).data_seq()[j] == old(mask).data_seq()[j],
{
    if rect.bottom <= rect.top || rect.right <= rect.left {
        return;
    }
    let ghost st = mask.strides_seq();
    let mut y = rect.top;
    while y < rect.bottom
        invariant
            rect.top <= y <= rect.bottom,
            rect.bottom > rect.top && rect.right > rect.left,
            0 <= rect.top && 0 <= rect.left,
            mask.wf(),
            mask.layout == old(mask).layout,
            st == mask.strides_seq(),
            rect.bottom <= mask.shape_seq()[0] && rect.right <= mask.shape_seq()[1],
            mask.data_seq().len() == old(mask).data_seq().len(),
            forall|yy: int, xx: int|
                in_rect(rect, yy, xx) && yy < y ==> mask.data_seq()[offset_of(
                    #[trigger] seq![yy as usize, xx as usize],
                    st,
                )] == value,
            forall|j: int|
                0 <= j < old(mask).data_seq().len() && !(exists|yy: int, xx: int|
                    in_rect(rect, yy, xx) && j == offset_of(
                        #[trigger] seq![yy as usize, xx as usize],
                        st,
                    )) ==> mask.data_seq()[j] == old(mask).data_seq()[j],
        decreases rect.bottom - y,
    {
        let mut x = rect.left;
        while x < rect.right
            invariant
                rect.left <= x <= rect.right,
                rect.top <= y < rect.bottom,
                rect.bottom > rect.top && rect.right > rect.left,
                0 <= rect.top && 0 <= rect.left,
                mask.wf(),
                mask.layout == old(mask).layout,
                st == mask.strides_seq(),
                rect.bottom <= mask.shape_seq()[0] && rect.right <= mask.shape_seq()[1],
                mask.data_seq().len() == old(mask).data_seq().len(),
                forall|yy: int, xx: int|
                    in_rect(rect, yy, xx) && (yy < y || (yy == y && xx < x)) ==> mask.data_seq()[
                        offset_of(#[trigger] seq![yy as usize, xx as usize], st)] == value,
                forall|j: int|
                    0 <= j < old(mask).data_seq().len() && !(exists|yy: int, xx: int|
                        in_rect(rect, yy, xx) && j == offset_of(
                            #[trigger] seq![yy as usize, xx as usize],
                            st,
                        )) ==> mask.data_seq()[j] == old(mask).data_seq()[j],
            decreases rect.right - x,
        {
            let index: [usize; 2] = [y as usize, x as usize];
            proof {
                assert(index@ =~= seq![y as usize, x as usize]);
                assert(index_in_bounds(index@, mask.shape_seq()));
            }
            let ghost before = mask.data_seq();
            mask.set(index, value);
            x = x + 1;
            proof {
                let off = offset_of(index@, st);
                crate::layout::lemma_elem_count_pos(mask.shape_seq());
                crate::layout::lemma_offset_bounded(index@, mask.shape_seq(), st);
                assert(mask.data_seq() == before.update(off, value));
                assert forall|yy: int, xx: int|
                    in_rect(rect, yy, xx) && (yy < y || (yy == y && xx < x)) implies mask.data_seq()[
                    offset_of(#[trigger] seq![yy as usize, xx as usize], st)] == value by {
                    crate::layout::lemma_offset_bounded(
                        seq![yy as usize, xx as usize],
                        mask.shape_seq(),
                        st,
                    );
                    if yy == y && xx == x - 1 {
                        assert(seq![yy as usize, xx as usize] =~= index@);
                    } else {
                        assert(before[offset_of(seq![yy as usize, xx as usize], st)] == value);
                    }
                }
                assert forall|j: int|
                    0 <= j < old(mask).data_seq().len() && !(exists|yy: int, xx: int|
                        in_rect(rect, yy, xx) && j == offset_of(
                            #[trigger] seq![yy as usize, xx as usize],
                            st,
                        )) implies mask.data_seq()[j] == old(mask).data_seq()[j] by {
                    assert(in_rect(rect, y as int, (x - 1) as int));
                    assert(seq![(y as int) as usize, ((x - 1) as int) as usize] =~= index@);
                    assert(j != off);
                }
            }
        }
        y = y + 1;
    }
}

} // verus!

verus! {

/// The left band of a stroked rectangle outline.
pub open spec fn stroke_left(rect: Rect, w: int) -> Rect {
    Rect { top: rect.top, left: rect.left, bottom: rect.bottom, right: (rect.left + w) as i32 }
}

/// The top band of a stroked rectangle outline, without the corners.
pub open spec fn stroke_top(rect: Rect, w: int) -> Rect {
    Rect {
        top: rect.top,
        left: (rect.left + w) as i32,
        bottom: (rect.top + w) as i32,
        right: (rect.right - w) as i32,
    }
}

/// The right band of a stroked rectangle outline.
pub open spec fn stroke_right(rect: Rect, w: int) -> Rect {
    Rect { top: rect.top, left: (rect.right - w) as i32, bottom: rect.bottom, right: rect.right }
}

/// The bottom band of a stroked rectangle outline, without the corners.
pub open spec fn stroke_bottom(rect: Rect, w: int) -> Rect {
    Rect {
        top: (rect.bottom - w) as i32,
        left: (rect.left + w) as i32,
        bottom: rect.bottom,
        right: (rect.right - w) as i32,
    }
}

/// A point lies on the outline of `rect` drawn with band width `w`.
pub open spec fn in_stroke(rect: Rect, w: int, y: int, x: int) -> bool {
    ||| in_rect(stroke_left(rect, w), y, x)
    ||| in_rect(stroke_top(rect, w), y, x)
    ||| in_rect(stroke_right(rect, w), y, x)
    ||| in_rect(stroke_bottom(rect, w), y, x)
}

/// Draw the outline of a rectangle `rect` with border width `width`.
///
/// The outline is drawn such that the bounding box of the outermost
/// pixels will be `rect`. Every storage element addressed by an outline
/// point takes the value; storage not addressed by any outline point is
/// unchanged.
pub fn stroke_rect<T: Copy, S: StorageMut<T>>(
    mask: &mut NdTensorBase<T, S, 2>,
    rect: Rect,
    value: T,
    width: u32,
)
    requires
        old(mask).wf(),
        width <= 0x3000_0000,
        -0x3000_0000 <= rect.top <= 0x3000_0000,
        -0x3000_0000 <= rect.left <= 0x3000_0000,
        -0x3000_0000 <= rect.bottom <= 0x3000_0000,
        -0x3000_0000 <= rect.right <= 0x3000_0000,
        ({
            let w = width as int;
            &&& (!rect_empty(stroke_left(rect, w)) ==> rect_in_grid(
                stroke_left(rect, w),
                old(mask).shape_seq(),
            ))
            &&& (!rect_empty(stroke_top(rect, w)) ==> rect_in_grid(
                stroke_top(rect, w),
                old(mask).shape_seq(),
            ))
            &&& (!rect_empty(stroke_right(rect, w)) ==> rect_in_grid(
                stroke_right(rect, w),
                old(mask).shape_seq(),
            ))
            &&& (!rect_empty(stroke_bottom(rect, w)) ==> rect_in_grid(
                stroke_bottom(rect, w),
                old(mask).shape_seq(),
            ))
        }),
    ensures
        final(mask).wf(),
        final(mask).layout == old(mask).layout,
        final(mask).data_seq().len() == old(mask).data_seq().len(),
        forall|y: int, x: int|
            in_stroke(rect, width as int, y, x) ==> final(mask).data_seq()[offset_of(
                #[trigger] seq![y as usize, x as usize],
                old(mask).strides_seq(),
            )] == value,
        forall|j: int|
            0 <= j < old(mask).data_seq().len() && !(exists|y: int, x: int|
                in_stroke(rect, width as int, y, x) && j == offset_of(
                    #[trigger] seq![y as usize, x as usize],
                    old(mask).strides_seq(),
                )) ==> final(mask).data_seq()[j] == old(mask).data_seq()[j],
{
    let w = width as i32;
    let ghost st = old(mask).strides_seq();
    let r1 = Rect { top: rect.top, left: rect.left, bottom: rect.bottom, right: rect.left + w };
    let r2 = Rect {
        top: rect.top,
        left: rect.left + w,
        bottom: rect.top + w,
        right: rect.right - w,
    };
    let r3 = Rect { top: rect.top, left: rect.right - w, bottom: rect.bottom, right: rect.right };
    let r4 = Rect {
        top: rect.bottom - w,
        left: rect.left + w,
        bottom: rect.bottom,
        right: rect.right - w,
    };
    // Left edge
    fill_rect(mask, r1, value);
    let ghost m1 = mask.data_seq();
    // Top edge (minus ends)
    fill_rect(mask, r2, value);
    let ghost m2 = mask.data_seq();
    // Right edge
    fill_rect(mask, r3, value);
    let ghost m3 = mask.data_seq();
    // Bottom edge (minus ends)
    fill_rect(mask, r4, value);
    proof {
        let wi = width as int;
        assert(r1 == stroke_left(rect, wi));
        assert(r2 == stroke_top(rect, wi));
        assert(r3 == stroke_right(rect, wi));
        assert(r4 == stroke_bottom(rect, wi));
        let sh = old(mask).shape_seq();
        crate::layout::lemma_elem_count_pos(sh);
        assert forall|y: int, x: int|
            in_stroke(rect, wi, y, x) implies final(mask).data_seq()[offset_of(
            #[trigger] seq![y as usize, x as usize],
            st,
        )] == value by {
            let o = offset_of(seq![y as usize, x as usize], st);
            assert(index_in_bounds(seq![y as usize, x as usize], sh));
            crate::layout::lemma_offset_bounded(seq![y as usize, x as usize], sh, st);
            assert(0 <= o < old(mask).data_seq().len());
            if in_rect(r4, y, x) {
            } else if in_rect(r3, y, x) {
                assert(m3[o] == value);
                lemma_value_carries(m3, final(mask).data_seq(), r4, st, o, value);
            } else if in_rect(r2, y, x) {
                assert(m2[o] == value);
                lemma_value_carries(m2, m3, r3, st, o, value);
                lemma_value_carries(m3, final(mask).data_seq(), r4, st, o, value);
            } else {
                assert(in_rect(r1, y, x));
                assert(m1[o] == value);
                lemma_value_carries(m1, m2, r2, st, o, value);
                lemma_value_carries(m2, m3, r3, st, o, value);
                lemma_value_carries(m3, final(mask).data_seq(), r4, st, o, value);
            }
        }
        assert forall|j: int|
            0 <= j < old(mask).data_seq().len() && !(exists|y: int, x: int|
                in_stroke(rect, wi, y, x) && j == offset_of(
                    #[trigger] seq![y as usize, x as usize],
                    st,
                )) implies final(mask).data_seq()[j] == old(mask).data_seq()[j] by {
            assert forall|y: int, x: int|
                !(in_rect(r1, y, x) && j == offset_of(
                    #[trigger] seq![y as usize, x as usize],
                    st,
                )) && !(in_rect(r2, y, x) && j == offset_of(seq![y as usize, x as usize], st)) && !(
                in_rect(r3, y, x) && j == offset_of(seq![y as usize, x as usize], st)) && !(in_rect(
                r4,
                y,
                x,
            ) && j == offset_of(seq![y as usize, x as usize], st)) by {
                if in_stroke(rect, wi, y, x) && j == offset_of(seq![y as usize, x as usize], st) {
                    assert(false);
                }
            }
            assert(m1[j] == old(mask).data_seq()[j]);
            assert(m2[j] == m1[j]);
            assert(m3[j] == m2[j]);
            assert(final(mask).data_seq()[j] == m3[j]);
        }
    }
}

/// A storage element already holding the drawn value keeps it across one
/// more band fill: the fill either rewrites it with the value or leaves
/// it alone.
proof fn lemma_value_carries<T>(
    prev: Seq<T>,
    cur: Seq<T>,
    band: Rect,
    st: Seq<usize>,
    o: int,
    value: T,
)
    requires
        cur.len() == prev.len(),
        forall|yy: int, xx: int|
            in_rect(band, yy, xx) ==> cur[offset_of(
                #[trigger] seq![yy as usize, xx as usize],
                st,
            )] == value,
        forall|j: int|
            0 <= j < prev.len() && !(exists|yy: int, xx: int|
                in_rect(band, yy, xx) && j == offset_of(
                    #[trigger] seq![yy as usize, xx as usize],
                    st,
                )) ==> cur[j] == prev[j],
        0 <= o < prev.len(),
        prev[o] == value,
    ensures
        cur[o] == value,
{
    if exists|yy: int, xx: int|
        in_rect(band, yy, xx) && o == offset_of(#[trigger] seq![yy as usize, xx as usize], st) {
        let (yy, xx) = choose|yy: int, xx: int|
            in_rect(band, yy, xx) && o == offset_of(#[trigger] seq![yy as usize, xx as usize], st);
        assert(cur[offset_of(seq![yy as usize, xx as usize], st)] == value);
    }
}

/// A rectangle holds no points.
pub open spec fn rect_empty(r: Rect) -> bool {
    r.bottom <= r.top || r.right <= r.left
}

/// A rectangle's drawing region lies within a grid of the given shape.
pub open spec fn rect_in_grid(r: Rect, shape: Seq<usize>) -> bool {
    0 <= r.top && 0 <= r.left && r.bottom <= shape[0] && r.right <= shape[1]
}

} // verus!

verus! {

/// Return a copy of `p` with X and Y coordinates clamped to `[0, width)`
/// and `[0, height)` respectively.
pub fn clamp_to_bounds(p: Point, height: i32, width: i32) -> (r: Point)
    ensures
        r.y == if p.y < 0 {
            0int
        } else if height >= 1 && p.y > height - 1 {
            height - 1
        } else if height < 1 && p.y > 0 {
            0int
        } else {
            p.y as int
        },
        r.x == if p.x < 0 {
            0int
        } else if width >= 1 && p.x > width - 1 {
            width - 1
        } else if width < 1 && p.x > 0 {
            0int
        } else {
            p.x as int
        },
        0 <= r.y && 0 <= r.x,
        height >= 1 ==> r.y <= height - 1,
        width >= 1 ==> r.x <= width - 1,
{
    let hi_y: i32 = if height > 1 {
        height - 1
    } else {
        0
    };
    let hi_x: i32 = if width > 1 {
        width - 1
    } else {
        0
    };
    let y: i32 = if p.y < 0 {
        0
    } else if p.y > hi_y {
        hi_y
    } else {
        p.y
    };
    let x: i32 = if p.x < 0 {
        0
    } else if p.x > hi_x {
        hi_x
    } else {
        p.x
    };
    Point { y, x }
}

/// State of a walk over the points of a line, as determined by the
/// Bresenham algorithm.
pub struct BreshamPoints {
    /// Next point to return.
    pub current: Point,
    /// Remaining points to return.
    pub remaining_steps: u32,
    /// Twice the total change in X along the line.
    pub dx: i32,
    /// Twice the total change in Y along the line.
    pub dy: i32,
    /// Error between the integer points walked and the true coordinate.
    pub error: i32,
    /// Increment to the X coordinate of `current`.
    pub x_step: i32,
    /// Increment to the Y coordinate of `current`.
    pub y_step: i32,
}

/// The walk's arithmetic stays within `i32`.
pub open spec fn bp_wf(b: BreshamPoints) -> bool {
    &&& 0 <= b.dx < 0x4000_0000
    &&& 0 <= b.dy < 0x4000_0000
    &&& -1 <= b.x_step <= 1
    &&& -1 <= b.y_step <= 1
    &&& -0x3000_0000 + b.remaining_steps <= b.current.y <= 0x3000_0000 - b.remaining_steps
    &&& -0x3000_0000 + b.remaining_steps <= b.current.x <= 0x3000_0000 - b.remaining_steps
    &&& b.remaining_steps <= 0x2000_0000
    &&& -(b.dx + b.dy) <= b.error <= b.dx + b.dy
}

/// One step of the walk: the coordinate update the algorithm performs
/// after yielding a point.
pub open spec fn bp_step(b: BreshamPoints) -> BreshamPoints {
    let stepped = if b.x_step == 0 {
        BreshamPoints { current: Point { y: (b.current.y + b.y_step) as i32, ..b.current }, ..b }
    } else if b.y_step == 0 {
        BreshamPoints { current: Point { x: (b.current.x + b.x_step) as i32, ..b.current }, ..b }
    } else if b.dx >= b.dy {
        let adj = if b.error >= 0 {
            BreshamPoints {
                current: Point { y: (b.current.y + b.y_step) as i32, ..b.current },
                error: (b.error - b.dx) as i32,
                ..b
            }
        } else {
            b
        };
        BreshamPoints {
            current: Point { x: (adj.current.x + adj.x_step) as i32, ..adj.current },
            error: (adj.error + adj.dy) as i32,
            ..adj
        }
    } else {
        let adj = if b.error >= 0 {
            BreshamPoints {
                current: Point { x: (b.current.x + b.x_step) as i32, ..b.current },
                error: (b.error - b.dy) as i32,
                ..b
            }
        } else {
            b
        };
        BreshamPoints {
            current: Point { y: (adj.current.y + adj.y_step) as i32, ..adj.current },
            error: (adj.error + adj.dx) as i32,
            ..adj
        }
    };
    BreshamPoints { remaining_steps: (b.remaining_steps - 1) as u32, ..stepped }
}

/// The points the walk will yield, in order.
pub open spec fn bp_points(b: BreshamPoints) -> Seq<Point>
    decreases b.remaining_steps,
{
    if b.remaining_steps == 0 {
        Seq::empty()
    } else {
        seq![b.current] + bp_points(bp_step(b))
    }
}

impl BreshamPoints {
    /// Start a walk over the points of `l`.
    pub fn new(l: Line) -> (r: BreshamPoints)
        requires
            -0x0FFF_FFFF <= l.start.y <= 0x0FFF_FFFF,
            -0x0FFF_FFFF <= l.start.x <= 0x0FFF_FFFF,
            -0x0FFF_FFFF <= l.end.y <= 0x0FFF_FFFF,
            -0x0FFF_FFFF <= l.end.x <= 0x0FFF_FFFF,
        ensures
            bp_wf(r),
            r.current == l.start,
            r.dx == 2 * abs_i32(l.end.x - l.start.x),
            r.dy == 2 * abs_i32(l.end.y - l.start.y),
            r.remaining_steps == max_i32(
                abs_i32(l.end.x - l.start.x),
                abs_i32(l.end.y - l.start.y),
            ),
            r.error == if abs_i32(l.end.x - l.start.x) >= abs_i32(l.end.y - l.start.y) {
                2 * abs_i32(l.end.y - l.start.y) - abs_i32(l.end.x - l.start.x)
            } else {
                2 * abs_i32(l.end.x - l.start.x) - abs_i32(l.end.y - l.start.y)
            },
            r.x_step == signum_i32(l.end.x - l.start.x),
            r.y_step == signum_i32(l.end.y - l.start.y),
    {
        let dxw = l.end.x - l.start.x;
        let dyw = l.end.y - l.start.y;
        let dx: i32 = if dxw < 0 {
            -dxw
        } else {
            dxw
        };
        let dy: i32 = if dyw < 0 {
            -dyw
        } else {
            dyw
        };
        let x_step: i32 = if dxw > 0 {
            1
        } else if dxw < 0 {
            -1
        } else {
            0
        };
        let y_step: i32 = if dyw > 0 {
            1
        } else if dyw < 0 {
            -1
        } else {
            0
        };
        BreshamPoints {
            current: l.start,
            remaining_steps: (if dx >= dy {
                dx
            } else {
                dy
            }) as u32,
            // Doubling dx and dy makes stepping simpler.
            dx: dx * 2,
            dy: dy * 2,
            error: if dx >= dy {
                dy * 2 - dx
            } else {
                dx * 2 - dy
            },
            x_step,
            y_step,
        }
    }

    /// The next point on the line, or `None` when the walk is done.
    pub fn next_point(&mut self) -> (r: Option<Point>)
        requires
            bp_wf(*old(self)),
        ensures
            bp_wf(*final(self)),
            old(self).remaining_steps == 0 ==> r is None && *final(self) == *old(self),
            old(self).remaining_steps > 0 ==> r == Some(old(self).current) && *final(self)
                == bp_step(*old(self)),
            bp_points(*old(self)) == if r is None {
                Seq::<Point>::empty()
            } else {
                seq![old(self).current] + bp_points(*final(self))
            },
    {
        if self.remaining_steps == 0 {
            return None;
        }
        let current = self.current;
        self.remaining_steps = self.remaining_steps - 1;
        if self.x_step == 0 {
            // Vertical line.
            self.current.y = self.current.y + self.y_step;
        } else if self.y_step == 0 {
            // Horizontal line.
            self.current.x = self.current.x + self.x_step;
        } else if self.dx >= self.dy {
            // X-major line: X advances on each step, Y on some steps.
            if self.error >= 0 {
                self.current.y = self.current.y + self.y_step;
                self.error = self.error - self.dx;
            }
            self.error = self.error + self.dy;
            self.current.x = self.current.x + self.x_step;
        } else {
            // Y-major line: Y advances on each step, X on some steps.
            if self.error >= 0 {
                self.current.x = self.current.x + self.x_step;
                self.error = self.error - self.dy;
            }
            self.error = self.error + self.dx;
            self.current.y = self.current.y + self.y_step;
        }
        Some(current)
    }
}

/// The absolute value of an integer.
pub open spec fn abs_i32(v: int) -> int {
    if v < 0 {
        -v
    } else {
        v
    }
}

/// The larger of two non-negative magnitudes.
pub open spec fn max_i32(a: int, b: int) -> int {
    if a >= b {
        a
    } else {
        b
    }
}

/// The sign of an integer.
pub open spec fn signum_i32(v: int) -> int {
    if v > 0 {
        1
    } else if v < 0 {
        -1
    } else {
        0
    }
}

} // verus!

verus! {

/// The clamp of [`clamp_to_bounds`], as a value.
pub open spec fn clamp_spec(p: Point, height: int, width: int) -> Point {
    let y: int = if p.y < 0 {
        0
    } else if height >= 1 && p.y > height - 1 {
        height - 1
    } else if height < 1 && p.y > 0 {
        0
    } else {
        p.y as int
    };
    let x: int = if p.x < 0 {
        0
    } else if width >= 1 && p.x > width - 1 {
        width - 1
    } else if width < 1 && p.x > 0 {
        0
    } else {
        p.x as int
    };
    Point { y: y as i32, x: x as i32 }
}

/// The walker [`BreshamPoints::new`] starts with, as a value.
pub open spec fn bp_init(l: Line) -> BreshamPoints {
    let adx = abs_i32(l.end.x - l.start.x);
    let ady = abs_i32(l.end.y - l.start.y);
    BreshamPoints {
        current: l.start,
        remaining_steps: max_i32(adx, ady) as u32,
        dx: (2 * adx) as i32,
        dy: (2 * ady) as i32,
        error: if adx >= ady {
            (2 * ady - adx) as i32
        } else {
            (2 * adx - ady) as i32
        },
        x_step: signum_i32(l.end.x - l.start.x) as i32,
        y_step: signum_i32(l.end.y - l.start.y) as i32,
    }
}

/// The points a line covers in an image of the given size: the Bresenham
/// walk between the clamped endpoints.
pub open spec fn line_points(line: Line, height: int, width: int) -> Seq<Point> {
    bp_points(
        bp_init(
            Line {
                start: clamp_spec(line.start, height, width),
                end: clamp_spec(line.end, height, width),
            },
        ),
    )
}

/// A point names a pixel of a grid with the given shape.
pub open spec fn point_in_grid(p: Point, shape: Seq<usize>) -> bool {
    0 <= p.y < shape[0] && 0 <= p.x < shape[1]
}

/// Draw a non-antialiased line in an image, using Bresenham's algorithm
/// between the endpoints clamped to the image.
///
/// Every storage element addressed by an in-image point of the walk
/// takes the value; storage not addressed by any such point is
/// unchanged.
pub fn draw_line<T: Copy, S: StorageMut<T>>(
    image: &mut NdTensorBase<T, S, 2>,
    line: Line,
    value: T,
)
    requires
        old(image).wf(),
        old(image).shape_seq()[0] <= 0x0FFF_FFFF,
        old(image).shape_seq()[1] <= 0x0FFF_FFFF,
    ensures
        final(image).wf(),
        final(image).layout == old(image).layout,
        final(image).data_seq().len() == old(image).data_seq().len(),
        ({
            let pts = line_points(
                line,
                old(image).shape_seq()[0] as int,
                old(image).shape_seq()[1] as int,
            );
            &&& forall|k: int|
                0 <= k < pts.len() && point_in_grid(#[trigger] pts[k], old(image).shape_seq())
                    ==> final(image).data_seq()[offset_of(
                    seq![pts[k].y as usize, pts[k].x as usize],
                    old(image).strides_seq(),
                )] == value
            &&& forall|j: int|
                0 <= j < old(image).data_seq().len() && !(exists|k: int|
                    0 <= k < pts.len() && point_in_grid(#[trigger] pts[k], old(image).shape_seq())
                        && j == offset_of(
                        seq![pts[k].y as usize, pts[k].x as usize],
                        old(image).strides_seq(),
                    )) ==> final(image).data_seq()[j] == old(image).data_seq()[j]
        }),
{
    let ghost sh = old(image).shape_seq();
    let ghost st = old(image).strides_seq();
    let rows = image.size(0);
    let cols = image.size(1);
    let height = rows as i32;
    let width = cols as i32;
    let start = clamp_to_bounds(line.start, height, width);
    let end = clamp_to_bounds(line.end, height, width);
    let clamped = Line { start, end };
    proof {
        assert(clamped == Line {
            start: clamp_spec(line.start, sh[0] as int, sh[1] as int),
            end: clamp_spec(line.end, sh[0] as int, sh[1] as int),
        });
    }
    let mut walker = BreshamPoints::new(clamped);
    proof {
        assert(walker == bp_init(clamped));
    }
    let ghost pts = line_points(line, sh[0] as int, sh[1] as int);
    proof {
        lemma_bp_points_len(walker);
        let zero: int = 0;
        assert(pts.take(zero) =~= Seq::<Point>::empty());
        assert(pts =~= pts.take(zero) + bp_points(walker));
    }
    let mut k: usize = 0;
    loop
        invariant
            image.wf(),
            image.layout == old(image).layout,
            sh == image.shape_seq(),
            st == image.strides_seq(),
            rows == sh[0],
            cols == sh[1],
            sh[0] <= 0x0FFF_FFFF,
            sh[1] <= 0x0FFF_FFFF,
            image.data_seq().len() == old(image).data_seq().len(),
            bp_wf(walker),
            pts.len() <= 0x2000_0000,
            k + walker.remaining_steps == pts.len(),
            pts == pts.take(k as int) + bp_points(walker),
            forall|kk: int|
                0 <= kk < k && point_in_grid(#[trigger] pts[kk], sh) ==> image.data_seq()[offset_of(
                    seq![pts[kk].y as usize, pts[kk].x as usize],
                    st,
                )] == value,
            forall|j: int|
                0 <= j < old(image).data_seq().len() && !(exists|kk: int|
                    0 <= kk < k && point_in_grid(#[trigger] pts[kk], sh) && j == offset_of(
                        seq![pts[kk].y as usize, pts[kk].x as usize],
                        st,
                    )) ==> image.data_seq()[j] == old(image).data_seq()[j],
        ensures
            walker.remaining_steps == 0,
        decreases walker.remaining_steps,
    {
        let p = match walker.next_point() {
            Some(p) => p,
            None => {
                break;
            },
        };
        proof {
            lemma_bp_points_len(walker);
            assert(pts[k as int] == p);
            assert(pts.take(k + 1) =~= pts.take(k as int) + seq![p]);
            assert(pts =~= pts.take(k + 1) + bp_points(walker));
        }
        let ghost before = image.data_seq();
        if 0 <= p.y && (p.y as usize) < rows && 0 <= p.x && (p.x as usize) < cols {
            let index = p.coord();
            proof {
                assert(index@ =~= seq![p.y as usize, p.x as usize]);
                assert(index_in_bounds(index@, sh));
            }
            image.set(index, value);
            proof {
                crate::layout::lemma_elem_count_pos(sh);
                crate::layout::lemma_offset_bounded(index@, sh, st);
            }
        }
        k = k + 1;
        proof {
            assert forall|kk: int|
                0 <= kk < k && point_in_grid(#[trigger] pts[kk], sh) implies image.data_seq()[
                offset_of(seq![pts[kk].y as usize, pts[kk].x as usize], st)] == value by {
                crate::layout::lemma_elem_count_pos(sh);
                crate::layout::lemma_offset_bounded(
                    seq![pts[kk].y as usize, pts[kk].x as usize],
                    sh,
                    st,
                );
                if kk == k - 1 {
                    assert(point_in_grid(p, sh));
                } else {
                    assert(before[offset_of(seq![pts[kk].y as usize, pts[kk].x as usize], st)]
                        == value);
                }
            }
        }
    }
    proof {
        assert(bp_points(walker) =~= Seq::<Point>::empty());
        assert(pts =~= pts.take(k as int));
    }
}


/// The walk of one polygon edge across an image of the given shape.
pub open spec fn edge_walk(points: Seq<Point>, e: int, shape: Seq<usize>) -> Seq<Point> {
    line_points(polygon_edge(points, e), shape[0] as int, shape[1] as int)
}

/// Point `k` of edge `e`'s walk exists and lies inside the grid.
pub open spec fn edge_pt_ok(points: Seq<Point>, e: int, k: int, shape: Seq<usize>) -> bool {
    &&& 0 <= k < edge_walk(points, e, shape).len()
    &&& point_in_grid(edge_walk(points, e, shape)[k], shape)
}

/// The storage offset of point `k` of edge `e`'s walk.
pub open spec fn edge_pt_off(
    points: Seq<Point>,
    e: int,
    k: int,
    shape: Seq<usize>,
    strides: Seq<usize>,
) -> int {
    offset_of(
        seq![
            edge_walk(points, e, shape)[k].y as usize,
            edge_walk(points, e, shape)[k].x as usize,
        ],
        strides,
    )
}

/// A storage element already holding the drawn value keeps it across one
/// more line: the line either rewrites it with the value or leaves it
/// alone.
proof fn lemma_line_value_carries<T>(
    prev: Seq<T>,
    cur: Seq<T>,
    line: Line,
    sh: Seq<usize>,
    st: Seq<usize>,
    o: int,
    value: T,
)
    requires
        cur.len() == prev.len(),
        forall|k: int|
            0 <= k < line_points(line, sh[0] as int, sh[1] as int).len() && point_in_grid(
                #[trigger] line_points(line, sh[0] as int, sh[1] as int)[k],
                sh,
            ) ==> cur[offset_of(
                seq![
                    line_points(line, sh[0] as int, sh[1] as int)[k].y as usize,
                    line_points(line, sh[0] as int, sh[1] as int)[k].x as usize,
                ],
                st,
            )] == value,
        forall|j: int|
            0 <= j < prev.len() && !(exists|k: int|
                0 <= k < line_points(line, sh[0] as int, sh[1] as int).len() && point_in_grid(
                    #[trigger] line_points(line, sh[0] as int, sh[1] as int)[k],
                    sh,
                ) && j == offset_of(
                    seq![
                        line_points(line, sh[0] as int, sh[1] as int)[k].y as usize,
                        line_points(line, sh[0] as int, sh[1] as int)[k].x as usize,
                    ],
                    st,
                )) ==> cur[j] == prev[j],
        0 <= o < prev.len(),
        prev[o] == value,
    ensures
        cur[o] == value,
{
    let pts = line_points(line, sh[0] as int, sh[1] as int);
    if exists|k: int|
        0 <= k < pts.len() && point_in_grid(#[trigger] pts[k], sh) && o == offset_of(
            seq![pts[k].y as usize, pts[k].x as usize],
            st,
        ) {
        let k = choose|k: int|
            0 <= k < pts.len() && point_in_grid(#[trigger] pts[k], sh) && o == offset_of(
                seq![pts[k].y as usize, pts[k].x as usize],
                st,
            );
        assert(cur[offset_of(seq![pts[k].y as usize, pts[k].x as usize], st)] == value);
    }
}

/// Draw the outline of a non-antialiased polygon in an image: one line
/// for each edge, including the closing edge.
///
/// Every storage element addressed by an in-image point of any edge's
/// walk takes the value; storage not addressed by any such point is
/// unchanged.
pub fn draw_polygon<T: Copy, S: StorageMut<T>>(
    image: &mut NdTensorBase<T, S, 2>,
    poly: &[Point],
    value: T,
)
    requires
        old(image).wf(),
        old(image).shape_seq()[0] <= 0x0FFF_FFFF,
        old(image).shape_seq()[1] <= 0x0FFF_FFFF,
    ensures
        final(image).wf(),
        final(image).layout == old(image).layout,
        final(image).data_seq().len() == old(image).data_seq().len(),
        forall|e: int, k: int|
            0 <= e < poly@.len() && #[trigger] edge_pt_ok(poly@, e, k, old(image).shape_seq())
                ==> final(image).data_seq()[edge_pt_off(
                poly@,
                e,
                k,
                old(image).shape_seq(),
                old(image).strides_seq(),
            )] == value,
        forall|j: int|
            0 <= j < old(image).data_seq().len() && !(exists|e: int, k: int|
                {
                    &&& 0 <= e < poly@.len()
                    &&& 0 <= k < line_points(
                        polygon_edge(poly@, e),
                        old(image).shape_seq()[0] as int,
                        old(image).shape_seq()[1] as int,
                    ).len()
                    &&& point_in_grid(
                        #[trigger] line_points(
                            polygon_edge(poly@, e),
                            old(image).shape_seq()[0] as int,
                            old(image).shape_seq()[1] as int,
                        )[k],
                        old(image).shape_seq(),
                    )
                    &&& j == offset_of(
                        seq![
                            line_points(
                                polygon_edge(poly@, e),
                                old(image).shape_seq()[0] as int,
                                old(image).shape_seq()[1] as int,
                            )[k].y as usize,
                            line_points(
                                polygon_edge(poly@, e),
                                old(image).shape_seq()[0] as int,
                                old(image).shape_seq()[1] as int,
                            )[k].x as usize,
                        ],
                        old(image).strides_seq(),
                    )
                }) ==> final(image).data_seq()[j] == old(image).data_seq()[j],
{
    let pg = Polygon::new(poly);
    let edges = pg.edges();
    let ghost sh = old(image).shape_seq();
    let ghost st = old(image).strides_seq();
    let n = edges.len();
    let mut i: usize = 0;
    while i < n
        invariant
            i <= n,
            n == poly@.len(),
            image.wf(),
            image.layout == old(image).layout,
            sh == image.shape_seq(),
            st == image.strides_seq(),
            sh[0] <= 0x0FFF_FFFF,
            sh[1] <= 0x0FFF_FFFF,
            image.data_seq().len() == old(image).data_seq().len(),
            edges@.len() == n,
            forall|e: int| 0 <= e < n ==> #[trigger] edges@[e] == polygon_edge(poly@, e),
            forall|e: int, k: int|
                0 <= e < i && #[trigger] edge_pt_ok(poly@, e, k, sh) ==> image.data_seq()[
                    edge_pt_off(poly@, e, k, sh, st)] == value,
            forall|j: int|
                0 <= j < old(image).data_seq().len() && !(exists|e: int, k: int|
                    {
                        &&& 0 <= e < i
                        &&& 0 <= k < line_points(
                            polygon_edge(poly@, e),
                            sh[0] as int,
                            sh[1] as int,
                        ).len()
                        &&& point_in_grid(
                            #[trigger] line_points(
                                polygon_edge(poly@, e),
                                sh[0] as int,
                                sh[1] as int,
                            )[k],
                            sh,
                        )
                        &&& j == offset_of(
                            seq![
                                line_points(polygon_edge(poly@, e), sh[0] as int, sh[1] as int)[
                                    k
                                ].y as usize,
                                line_points(polygon_edge(poly@, e), sh[0] as int, sh[1] as int)[
                                    k
                                ].x as usize,
                            ],
                            st,
                        )
                    }) ==> image.data_seq()[j] == old(image).data_seq()[j],
        decreases n - i,
    {
        let ghost before = image.data_seq();
        let e = edges[i];
        draw_line(image, e, value);
        i = i + 1;
        proof {
            assert forall|e2: int, k: int|
                0 <= e2 < i && #[trigger] edge_pt_ok(poly@, e2, k, sh) implies image.data_seq()[
                edge_pt_off(poly@, e2, k, sh, st)] == value by {
                let p = edge_walk(poly@, e2, sh)[k];
                let o = edge_pt_off(poly@, e2, k, sh, st);
                assert(index_in_bounds(seq![p.y as usize, p.x as usize], sh));
                crate::layout::lemma_elem_count_pos(sh);
                crate::layout::lemma_offset_bounded(seq![p.y as usize, p.x as usize], sh, st);
                if e2 == i - 1 {
                    assert(e == polygon_edge(poly@, i - 1));
                    assert(point_in_grid(line_points(e, sh[0] as int, sh[1] as int)[k], sh));
                } else {
                    assert(before[o] == value);
                    lemma_line_value_carries(before, image.data_seq(), e, sh, st, o, value);
                }
            }
            assert forall|j: int|
                0 <= j < old(image).data_seq().len() && !(exists|e2: int, k: int|
                    {
                        &&& 0 <= e2 < i
                        &&& 0 <= k < line_points(
                            polygon_edge(poly@, e2),
                            sh[0] as int,
                            sh[1] as int,
                        ).len()
                        &&& point_in_grid(
                            #[trigger] line_points(
                                polygon_edge(poly@, e2),
                                sh[0] as int,
                                sh[1] as int,
                            )[k],
                            sh,
                        )
                        &&& j == offset_of(
                            seq![
                                line_points(polygon_edge(poly@, e2), sh[0] as int, sh[1] as int)[
                                    k
                                ].y as usize,
                                line_points(polygon_edge(poly@, e2), sh[0] as int, sh[1] as int)[
                                    k
                                ].x as usize,
                            ],
                            st,
                        )
                    }) implies image.data_seq()[j] == old(image).data_seq()[j] by {
                assert(before[j] == old(image).data_seq()[j]);
            }
        }
    }
}

/// A walk yields exactly as many points as it has remaining steps.
pub proof fn lemma_bp_points_len(b: BreshamPoints)
    ensures
        bp_points(b).len() == b.remaining_steps,
    decreases b.remaining_steps,
{
    if b.remaining_steps > 0 {
        lemma_bp_points_len(bp_step(b));
    }
}

/// Edge `e` of a closed polygon: from vertex `e` to the next vertex,
/// wrapping at the end.
pub open spec fn polygon_edge(points: Seq<Point>, e: int) -> Line {
    Line { start: points[e], end: points[(e + 1) % (points.len() as int)] }
}

} // verus!

verus! {

/// Tracks data about one edge of a polygon being traversed by
/// [`FillIter`].
#[derive(Clone, Copy, Debug)]
pub struct Edge {
    /// Y coordinate where this edge starts.
    pub start_y: i32,
    /// Number of scanlines remaining for this edge.
    pub y_steps: u32,
    /// X coordinate where this edge intersects the current scanline.
    /// Widened beyond the coordinate range so that stepping can never
    /// wrap.
    pub x: i64,
    /// Error term: the difference between the true X coordinate for the
    /// current scanline and `x`.
    pub error: i64,
    /// Amount to increment `error` for every scanline.
    pub error_incr: i64,
    /// Amount to decrement `error` by when it becomes positive.
    pub error_decr: i64,
    /// Amount to increment `x` for every scanline.
    pub x_step: i64,
    /// Amount to increment `x` when `error` becomes positive.
    pub extra_x_step: i64,
}

/// The arithmetic of one traversed edge stays in range: the error term
/// cycles below zero, and `x` can drift at most one step per remaining
/// scanline.
pub open spec fn edge_wf(e: Edge) -> bool {
    &&& 1 <= e.error_decr <= 0x2000_0000
    &&& 0 <= e.error_incr < e.error_decr
    &&& -e.error_decr < e.error <= 0
    &&& -0x2000_0000 <= e.x_step <= 0x2000_0000
    &&& -1 <= e.extra_x_step <= 1
    &&& e.y_steps <= 0x2000_0000
    &&& -0x1000_0000_0000_0000 + (abs_i32(e.x_step as int) + 1) * e.y_steps <= e.x
        <= 0x1000_0000_0000_0000 - (abs_i32(e.x_step as int) + 1) * e.y_steps
    &&& -0x2000_0000 <= e.start_y <= 0x2000_0000
}

/// Iterator state over coordinates of pixels that fill a polygon.
///
/// The implementation follows the classic scan-line polygon fill: edges
/// become active when the scanline reaches them, their X intersections
/// advance by an integer step plus an error-driven correction, and a
/// pixel is inside the polygon when an odd number of active edges lie at
/// or left of it.
pub struct FillIter {
    /// Edges of the polygon not yet reached, sorted by descending start
    /// scanline so the next to activate is last.
    pub edges: Vec<Edge>,
    /// Edges that intersect the current scanline, kept sorted by X.
    pub active_edges: Vec<Edge>,
    /// Bounding rectangle of the polygon, maxima stored inclusively.
    pub bounds: Rect,
    /// Coordinates of the next pixel to consider.
    pub cursor: Point,
}

/// An iterator's state is well formed; see [`fs_wf`].
pub open spec fn fi_wf(f: FillIter) -> bool {
    fs_wf(fi_state(f))
}

impl FillIter {
    /// Update the active edge list after moving to a new scanline:
    /// retire edges that ended, advance the X intersection of the rest,
    /// and take in edges that start here.
    fn update_active_edges(&mut self)
        requires
            -0x2000_0000 <= old(self).bounds.top <= 0x2000_0000,
            -0x2000_0000 <= old(self).bounds.left <= 0x2000_0000,
            -0x2000_0000 <= old(self).bounds.bottom <= 0x2000_0000,
            -0x2000_0000 <= old(self).bounds.right <= 0x2000_0000,
            old(self).bounds.top <= old(self).bounds.bottom,
            old(self).bounds.left <= old(self).bounds.right,
            old(self).bounds.top <= old(self).cursor.y <= old(self).bounds.bottom,
            old(self).bounds.left <= old(self).cursor.x <= old(self).bounds.right,
            forall|i: int|
                0 <= i < old(self).active_edges@.len() ==> edge_wf(
                    #[trigger] old(self).active_edges@[i],
                ) && old(self).active_edges@[i].y_steps >= 1 && old(self).cursor.y + old(
                    self,
                ).active_edges@[i].y_steps <= old(self).bounds.bottom + 1,
            forall|i: int|
                0 <= i < old(self).edges@.len() ==> edge_wf(#[trigger] old(self).edges@[i]) && old(
                    self,
                ).edges@[i].y_steps >= 1 && old(self).edges@[i].start_y + old(self).edges@[i].y_steps
                    <= old(self).bounds.bottom && old(self).edges@[i].start_y >= old(self).cursor.y,
            forall|i: int, j: int|
                0 <= i < j < old(self).edges@.len() ==> (#[trigger] old(self).edges@[i]).start_y
                    >= (#[trigger] old(self).edges@[j]).start_y,
        ensures
            fi_wf(*final(self)),
            final(self).bounds == old(self).bounds,
            final(self).cursor == old(self).cursor,
            final(self).active_edges@ == ua_active(
                old(self).active_edges@,
                old(self).edges@,
                old(self).cursor.y as int,
            ),
            final(self).edges@ == ua_pending(
                old(self).active_edges@,
                old(self).edges@,
                old(self).cursor.y as int,
            ),
    {
        let ghost cy = self.cursor.y;
        let ghost b = self.bounds;
        proof {
            let zero: int = 0;
            assert(self.active_edges@.skip(zero) =~= self.active_edges@);
            assert(Seq::<Edge>::empty() + retire_edges(old(self).active_edges@) =~= retire_edges(
                old(self).active_edges@,
            ));
        }
        // Retire edges that end at this scanline and advance the rest.
        let mut kept: Vec<Edge> = Vec::new();
        let mut i: usize = 0;
        let n = self.active_edges.len();
        while i < n
            invariant
                i <= n,
                n == self.active_edges@.len(),
                self.cursor == old(self).cursor,
                self.bounds == old(self).bounds,
                self.edges@ == old(self).edges@,
                cy == self.cursor.y,
                b == self.bounds,
                forall|j: int|
                    0 <= j < self.active_edges@.len() ==> edge_wf(
                        #[trigger] self.active_edges@[j],
                    ) && self.active_edges@[j].y_steps >= 1 && cy + self.active_edges@[j].y_steps
                        <= b.bottom + 1,
                forall|j: int|
                    0 <= j < kept@.len() ==> edge_wf(#[trigger] kept@[j]) && kept@[j].y_steps >= 1
                        && cy + kept@[j].y_steps <= b.bottom,
                retire_edges(old(self).active_edges@) == kept@ + retire_edges(
                    self.active_edges@.skip(i as int),
                ),
            decreases n - i,
        {
            proof {
                assert(self.active_edges@.skip(i as int).skip(1) =~= self.active_edges@.skip(
                    i + 1,
                ));
                assert(self.active_edges@.skip(i as int)[0] == self.active_edges@[i as int]);
            }
            let ghost kept0 = kept@;
            let e = self.active_edges[i];
            if e.y_steps > 1 {
                let mut e2 = e;
                e2.y_steps = e.y_steps - 1;
                // Advance the X intersection and the error term that
                // tracks the true crossing.
                proof {
                    let a = abs_i32(e.x_step as int) + 1;
                    assert(a * e.y_steps == a * (e.y_steps - 1) + a) by (nonlinear_arith);
                }
                e2.x = e.x + e.x_step;
                e2.error = e.error + e.error_incr;
                if e2.error > 0 {
                    e2.error = e2.error - e2.error_decr;
                    e2.x = e2.x + e2.extra_x_step;
                }
                proof {
                    assert(e2 == advance_edge(e));
                }
                kept.push(e2);
                proof {
                    assert(kept@ + retire_edges(self.active_edges@.skip(i + 1)) =~= kept0 + (seq![
                        advance_edge(e),
                    ] + retire_edges(self.active_edges@.skip(i + 1))));
                }
            }
            i = i + 1;
        }
        proof {
            assert(self.active_edges@.skip(n as int) =~= Seq::<Edge>::empty());
            assert(kept@ + Seq::<Edge>::empty() =~= kept@);
        }
        self.active_edges = kept;
        // Take in edges that begin at this scanline.
        let mut more = true;
        while more
            invariant
                self.cursor == old(self).cursor,
                self.bounds == old(self).bounds,
                cy == self.cursor.y,
                b == self.bounds,
                forall|j: int|
                    0 <= j < self.active_edges@.len() ==> edge_wf(
                        #[trigger] self.active_edges@[j],
                    ) && self.active_edges@[j].y_steps >= 1 && cy + self.active_edges@[j].y_steps
                        <= b.bottom,
                forall|j: int|
                    0 <= j < self.edges@.len() ==> edge_wf(#[trigger] self.edges@[j])
                        && self.edges@[j].y_steps >= 1 && self.edges@[j].start_y
                        + self.edges@[j].y_steps <= b.bottom && self.edges@[j].start_y >= cy,
                forall|i2: int, j2: int|
                    0 <= i2 < j2 < self.edges@.len() ==> (#[trigger] self.edges@[i2]).start_y >= (
                    #[trigger] self.edges@[j2]).start_y,
                !more ==> (self.edges@.len() == 0 || self.edges@.last().start_y > cy),
                admit_pending(
                    old(self).edges@,
                    retire_edges(old(self).active_edges@),
                    cy as int,
                ) == admit_pending(self.edges@, self.active_edges@, cy as int),
            decreases self.edges@.len() + (if more {
                1int
            } else {
                0int
            }),
        {
            let last = self.edges.len();
            if last == 0 {
                more = false;
            } else {
                let edge = self.edges[last - 1];
                if edge.start_y > self.cursor.y {
                    // Remaining entries start on later scanlines.
                    more = false;
                } else {
                    self.edges.pop();
                    self.active_edges.push(edge);
                }
            }
        }
        proof {
            assert forall|j: int| 0 <= j < self.edges@.len() implies (#[trigger] self.edges@[j]).start_y
                > cy by {
                assert(self.edges@[j].start_y >= self.edges@.last().start_y);
            }
            assert(admit_pending(self.edges@, self.active_edges@, cy as int) == (
                self.edges@,
                self.active_edges@,
            ));
        }
        // Keep the active edges ordered by X intersection.
        let ghost src = self.active_edges@;
        let mut sorted: Vec<Edge> = Vec::new();
        let mut k: usize = 0;
        let m = self.active_edges.len();
        while k < m
            invariant
                k <= m,
                m == self.active_edges@.len(),
                src == self.active_edges@,
                sorted@ == sort_by_x(src.take(k as int)),
                src == admit_pending(
                    old(self).edges@,
                    retire_edges(old(self).active_edges@),
                    cy as int,
                ).1,
                self.edges@ == admit_pending(
                    old(self).edges@,
                    retire_edges(old(self).active_edges@),
                    cy as int,
                ).0,
                self.cursor == old(self).cursor,
                self.bounds == old(self).bounds,
                cy == self.cursor.y,
                b == self.bounds,
                forall|j: int|
                    0 <= j < self.edges@.len() ==> edge_wf(#[trigger] self.edges@[j])
                        && self.edges@[j].y_steps >= 1 && self.edges@[j].start_y
                        + self.edges@[j].y_steps <= b.bottom && self.edges@[j].start_y > cy,
                forall|i2: int, j2: int|
                    0 <= i2 < j2 < self.edges@.len() ==> (#[trigger] self.edges@[i2]).start_y >= (
                    #[trigger] self.edges@[j2]).start_y,
                forall|j: int|
                    0 <= j < src.len() ==> edge_wf(#[trigger] src[j]) && src[j].y_steps >= 1 && cy
                        + src[j].y_steps <= b.bottom,
                forall|j: int|
                    0 <= j < sorted@.len() ==> edge_wf(#[trigger] sorted@[j]) && sorted@[j].y_steps
                        >= 1 && cy + sorted@[j].y_steps <= b.bottom,
            decreases m - k,
        {
            let e = self.active_edges[k];
            let mut pos = sorted.len();
            while pos > 0 && sorted[pos - 1].x > e.x
                invariant
                    pos <= sorted@.len(),
                    forall|j: int| pos <= j < sorted@.len() ==> (#[trigger] sorted@[j]).x > e.x,
                decreases pos,
            {
                pos = pos - 1;
            }
            let ghost prev = sorted@;
            proof {
                lemma_insert_x_at_pos(prev, e, pos as int);
                assert(src.take(k + 1).drop_last() =~= src.take(k as int));
                assert(src.take(k + 1).last() == src[k as int]);
            }
            sorted.insert(pos, e);
            proof {
                assert(sorted@ == insert_by_x(prev, e));
                assert forall|j: int|
                    0 <= j < sorted@.len() implies edge_wf(#[trigger] sorted@[j])
                    && sorted@[j].y_steps >= 1 && cy + sorted@[j].y_steps <= b.bottom by {
                    assert(sorted@ == prev.insert(pos as int, e));
                    assert(sorted@ =~= prev.take(pos as int) + seq![e] + prev.skip(pos as int));
                    if j < pos {
                        assert(sorted@[j] == prev[j]);
                    } else if j > pos {
                        assert(sorted@[j] == prev[j - 1]);
                    }
                }
            }
            k = k + 1;
        }
        proof {
            assert(src.take(m as int) =~= src);
        }
        self.active_edges = sorted;
    }

    /// The next pixel inside the polygon, or `None` when the traversal
    /// is complete. Pixels are yielded row by row, left to right, by the
    /// even-odd rule: a pixel is inside when an odd number of active
    /// edges lie at or left of it. The yielded pixel and the new state
    /// are exactly those of the traversal spec [`fs_next`].
    pub fn next_point(&mut self) -> (r: Option<Point>)
        requires
            fi_wf(*old(self)),
        ensures
            fi_wf(*final(self)),
            final(self).bounds == old(self).bounds,
            r == fs_next(fi_state(*old(self))).0,
            fi_state(*final(self)) == fs_next(fi_state(*old(self))).1,
            match r {
                Some(p) => {
                    &&& old(self).bounds.top <= p.y < old(self).bounds.bottom
                    &&& old(self).bounds.left <= p.x <= old(self).bounds.right
                },
                None => final(self).active_edges@.len() == 0,
            },
    {
        proof {
            assert(fs_wf(fi_state(*old(self))));
        }
        while self.active_edges.len() != 0
            invariant
                fi_wf(*self),
                self.bounds == old(self).bounds,
                fs_wf(fi_state(*self)),
                fs_next(fi_state(*old(self))) == fs_next(fi_state(*self)),
            decreases (self.bounds.bottom - self.cursor.y) * (
            self.bounds.right - self.bounds.left + 1) + (self.bounds.right - self.cursor.x),
        {
            let ghost pre = *self;
            let current = self.cursor;
            proof {
                assert(self.cursor.y + self.active_edges@[0].y_steps <= self.bounds.bottom);
                assert(self.cursor.y < self.bounds.bottom);
                let zero: int = 0;
                assert(self.active_edges@.skip(zero) =~= self.active_edges@);
            }
            // Count the active edges at or left of the cursor; an odd
            // count means the pixel is inside the polygon.
            let mut intersections: usize = 0;
            let mut i: usize = 0;
            let n = self.active_edges.len();
            while i < n
                invariant
                    i <= n,
                    n == self.active_edges@.len(),
                    current == self.cursor,
                    intersections <= i,
                    intersections + crossings(
                        self.active_edges@.skip(i as int),
                        current.x as int,
                    ) == crossings(self.active_edges@, current.x as int),
                decreases n - i,
            {
                proof {
                    assert(self.active_edges@.skip(i as int).skip(1) =~= self.active_edges@.skip(
                        i + 1,
                    ));
                    assert(self.active_edges@.skip(i as int)[0] == self.active_edges@[i as int]);
                }
                if self.active_edges[i].x <= current.x as i64 {
                    intersections = intersections + 1;
                }
                i = i + 1;
            }
            proof {
                assert(self.active_edges@.skip(n as int) =~= Seq::<Edge>::empty());
                assert(intersections == crossings(pre.active_edges@, current.x as int));
            }
            self.cursor.x = self.cursor.x + 1;
            if self.cursor.x >= self.bounds.right {
                self.cursor.y = current.y + 1;
                self.cursor.x = self.bounds.left;
                self.update_active_edges();
            }
            proof {
                assert(fi_state(*self) == fs_step(fi_state(pre)));
                lemma_fs_step_wf(fi_state(pre));
                let w = self.bounds.right - self.bounds.left + 1;
                if pre.cursor.x + 1 >= pre.bounds.right {
                    assert((self.bounds.bottom - self.cursor.y) * w + (self.bounds.right
                        - self.cursor.x) < (self.bounds.bottom - pre.cursor.y) * w + (
                    self.bounds.right - pre.cursor.x)) by (nonlinear_arith)
                        requires
                            w >= 1,
                            self.cursor.y == pre.cursor.y + 1,
                            self.cursor.x == self.bounds.left,
                            pre.cursor.x + 1 >= self.bounds.right,
                            pre.cursor.x <= self.bounds.right,
                            self.bounds == pre.bounds,
                            w == self.bounds.right - self.bounds.left + 1,
                    ;
                }
            }
            if intersections % 2 == 1 {
                proof {
                    assert(fs_next(fi_state(pre)) == (Some(current), fi_state(*self)));
                }
                return Some(current);
            }
            proof {
                assert(fs_next(fi_state(pre)) == fs_next(fi_state(*self)));
            }
        }
        proof {
            assert(fs_next(fi_state(*self)) == (None::<Point>, fi_state(*self)));
        }
        None
    }
}

} // verus!

verus! {

impl FillIter {
    /// Start a scan-line traversal of the pixels inside `poly`.
    ///
    /// Horizontal edges never cross a scanline and are ignored; every
    /// other edge is normalised to run downwards and enters the pending
    /// list sorted by descending start scanline, so the next edge to
    /// activate is last.
    pub fn new(poly: Polygon<'_>) -> (r: FillIter)
        requires
            forall|i: int|
                0 <= i < poly.points@.len() ==> -0x0FFF_FFFF <= (#[trigger] poly.points@[i]).y
                    <= 0x0FFF_FFFF && -0x0FFF_FFFF <= poly.points@[i].x <= 0x0FFF_FFFF,
        ensures
            fi_wf(r),
            fi_state(r) == fi_init(poly.points@),
    {
        let bounds = poly.bounding_rect();
        let lines = poly.edges();
        proof {
            assert(lines@ =~= poly_lines(poly.points@)) by {
                assert forall|i: int| 0 <= i < poly.points@.len() implies lines@[i] == poly_lines(
                    poly.points@,
                )[i] by {
                    assert(lines@[i] == polygon_edge(poly.points@, i));
                }
            }
        }
        proof {
            if poly.points@.len() > 0 {
                let w1 = choose|i: int|
                    0 <= i < poly.points@.len() && (#[trigger] poly.points@[i]).y == bounds.top;
                let w2 = choose|i: int|
                    0 <= i < poly.points@.len() && (#[trigger] poly.points@[i]).y == bounds.bottom;
                let w3 = choose|i: int|
                    0 <= i < poly.points@.len() && (#[trigger] poly.points@[i]).x == bounds.left;
                let w4 = choose|i: int|
                    0 <= i < poly.points@.len() && (#[trigger] poly.points@[i]).x == bounds.right;
            }
        }
        let empty = bounds.is_empty();
        let cursor = if empty {
            bounds.bottom_right()
        } else {
            bounds.top_left()
        };
        let mut iter = FillIter { edges: Vec::new(), active_edges: Vec::new(), bounds, cursor };
        if empty {
            // An empty bounding region yields no pixels; the cursor
            // starts past the end so the traversal stops at once.
            proof {
                assert(iter.edges@ =~= Seq::<Edge>::empty());
                assert(iter.active_edges@ =~= Seq::<Edge>::empty());
            }
            return iter;
        }
        proof {
            let zero: int = 0;
            assert(lines@.take(zero) =~= Seq::<Line>::empty());
        }
        let n = lines.len();
        let mut k: usize = 0;
        while k < n
            invariant
                k <= n,
                n == lines@.len(),
                iter.bounds == bounds,
                iter.cursor == cursor,
                cursor.y == bounds.top,
                cursor.x == bounds.left,
                bounds.top < bounds.bottom || bounds.left < bounds.right,
                bounds.top <= bounds.bottom,
                bounds.left <= bounds.right,
                -0x0FFF_FFFF <= bounds.top <= 0x0FFF_FFFF,
                -0x0FFF_FFFF <= bounds.left <= 0x0FFF_FFFF,
                -0x0FFF_FFFF <= bounds.bottom <= 0x0FFF_FFFF,
                -0x0FFF_FFFF <= bounds.right <= 0x0FFF_FFFF,
                iter.active_edges@.len() == 0,
                forall|j: int|
                    0 <= j < lines@.len() ==> -0x0FFF_FFFF <= (#[trigger] lines@[j]).start.y
                        <= 0x0FFF_FFFF && -0x0FFF_FFFF <= lines@[j].start.x <= 0x0FFF_FFFF
                        && -0x0FFF_FFFF <= lines@[j].end.y <= 0x0FFF_FFFF && -0x0FFF_FFFF
                        <= lines@[j].end.x <= 0x0FFF_FFFF && bounds.top <= lines@[j].start.y
                        <= bounds.bottom && bounds.top <= lines@[j].end.y <= bounds.bottom,
                forall|j: int|
                    0 <= j < iter.edges@.len() ==> edge_wf(#[trigger] iter.edges@[j])
                        && iter.edges@[j].y_steps >= 1 && iter.edges@[j].start_y
                        + iter.edges@[j].y_steps <= bounds.bottom && iter.edges@[j].start_y
                        >= bounds.top,
                forall|i2: int, j2: int|
                    0 <= i2 < j2 < iter.edges@.len() ==> (#[trigger] iter.edges@[i2]).start_y >= (
                    #[trigger] iter.edges@[j2]).start_y,
                iter.edges@ == pending_of(lines@.take(k as int)),
            decreases n - k,
        {
            proof {
                assert(lines@.take(k + 1).drop_last() =~= lines@.take(k as int));
                assert(lines@.take(k + 1).last() == lines@[k as int]);
            }
            let l = lines[k];
            if l.start.y != l.end.y {
                // Normalise the edge so that it runs downwards.
                let (top_p, bot_p) = if l.start.y <= l.end.y {
                    (l.start, l.end)
                } else {
                    (l.end, l.start)
                };
                let delta_x = bot_p.x - top_p.x;
                let delta_y = bot_p.y - top_p.y;
                let adx: i32 = if delta_x < 0 {
                    -delta_x
                } else {
                    delta_x
                };
                let q = adx / delta_y;
                proof {
                    vstd::arithmetic::div_mod::lemma_div_is_ordered_by_denominator(
                        adx as int,
                        1,
                        delta_y as int,
                    );
                    vstd::arithmetic::div_mod::lemma_mod_bound(adx as int, delta_y as int);
                    assert(0 <= q <= adx);
                }
                let e = Edge {
                    start_y: top_p.y,
                    y_steps: delta_y as u32,
                    x: top_p.x as i64,
                    // The integer part of the inverse slope.
                    x_step: if delta_x < 0 {
                        -(q as i64)
                    } else {
                        q as i64
                    },
                    // The error term tracks when `x` needs an extra step
                    // because of the fractional part of the inverse
                    // slope; the initialisation follows the reference
                    // scan-line fill formula.
                    error: if delta_x >= 0 {
                        0
                    } else {
                        -(delta_y as i64) + 1
                    },
                    error_incr: (adx % delta_y) as i64,
                    error_decr: delta_y as i64,
                    extra_x_step: if delta_x > 0 {
                        1
                    } else if delta_x < 0 {
                        -1
                    } else {
                        0
                    },
                };
                proof {
                    let a = abs_i32(e.x_step as int) + 1;
                    assert(a * e.y_steps <= (0x2000_0000 + 1) * 0x2000_0000) by (nonlinear_arith)
                        requires 0 <= a <= 0x2000_0000 + 1, 0 <= e.y_steps <= 0x2000_0000;
                    assert(edge_wf(e));
                }
                proof {
                    assert(e == edge_of_line(l));
                }
                // Insert sorted by descending start scanline.
                let mut pos = iter.edges.len();
                while pos > 0 && iter.edges[pos - 1].start_y < e.start_y
                    invariant
                        pos <= iter.edges@.len(),
                        forall|j: int|
                            pos <= j < iter.edges@.len() ==> (#[trigger] iter.edges@[j]).start_y
                                < e.start_y,
                    decreases pos,
                {
                    pos = pos - 1;
                }
                let ghost prev = iter.edges@;
                proof {
                    lemma_insert_start_at_pos(prev, e, pos as int);
                }
                iter.edges.insert(pos, e);
                proof {
                    assert(iter.edges@ == insert_by_start(prev, e));
                    assert(iter.edges@ =~= prev.take(pos as int) + seq![e] + prev.skip(pos as int));
                    assert forall|j: int|
                        0 <= j < iter.edges@.len() implies edge_wf(#[trigger] iter.edges@[j])
                        && iter.edges@[j].y_steps >= 1 && iter.edges@[j].start_y
                        + iter.edges@[j].y_steps <= bounds.bottom && iter.edges@[j].start_y
                        >= bounds.top by {
                        if j < pos {
                            assert(iter.edges@[j] == prev[j]);
                        } else if j > pos {
                            assert(iter.edges@[j] == prev[j - 1]);
                        }
                    }
                    assert forall|i2: int, j2: int|
                        0 <= i2 < j2 < iter.edges@.len() implies (
                    #[trigger] iter.edges@[i2]).start_y >= (#[trigger] iter.edges@[j2]).start_y by {
                        if i2 < pos && j2 < pos {
                            assert(iter.edges@[i2] == prev[i2] && iter.edges@[j2] == prev[j2]);
                        } else if i2 < pos && j2 == pos {
                            assert(iter.edges@[i2] == prev[i2]);
                            assert(prev[pos - 1].start_y >= e.start_y);
                            assert(prev[i2].start_y >= prev[pos - 1].start_y);
                        } else if i2 < pos && j2 > pos {
                            assert(iter.edges@[i2] == prev[i2] && iter.edges@[j2] == prev[j2 - 1]);
                        } else if i2 == pos {
                            assert(iter.edges@[j2] == prev[j2 - 1]);
                            assert(prev[j2 - 1].start_y < e.start_y);
                        } else {
                            assert(iter.edges@[i2] == prev[i2 - 1] && iter.edges@[j2] == prev[j2
                                - 1]);
                        }
                    }
                }
            }
            k = k + 1;
        }
        proof {
            assert(lines@.take(n as int) =~= lines@);
            assert(iter.edges@ == pending_of(poly_lines(poly.points@)));
        }
        iter.update_active_edges();
        proof {
            assert(fi_state(iter) == fi_init(poly.points@));
        }
        iter
    }
}

impl<'a> Polygon<'a> {
    /// An iterator-like traversal of the pixels inside this polygon, by
    /// scanlines.
    pub fn fill_iter(&self) -> (r: FillIter)
        requires
            forall|i: int|
                0 <= i < self.points@.len() ==> -0x0FFF_FFFF <= (#[trigger] self.points@[i]).y
                    <= 0x0FFF_FFFF && -0x0FFF_FFFF <= self.points@[i].x <= 0x0FFF_FFFF,
        ensures
            fi_wf(r),
            fi_state(r) == fi_init(self.points@),
    {
        FillIter::new(Polygon { points: self.points })
    }
}

} // verus!

verus! {

/// One scanline step of a traversed edge: one X advance plus the
/// error-driven correction.
pub open spec fn advance_edge(e: Edge) -> Edge {
    let e1 = Edge {
        y_steps: (e.y_steps - 1) as u32,
        x: (e.x + e.x_step) as i64,
        error: (e.error + e.error_incr) as i64,
        ..e
    };
    if e1.error > 0 {
        Edge { error: (e1.error - e1.error_decr) as i64, x: (e1.x + e1.extra_x_step) as i64, ..e1 }
    } else {
        e1
    }
}

/// Retire the edges whose last scanline this was and advance the rest,
/// keeping their order.
pub open spec fn retire_edges(active: Seq<Edge>) -> Seq<Edge>
    decreases active.len(),
{
    if active.len() == 0 {
        Seq::empty()
    } else {
        let rest = retire_edges(active.skip(1));
        if active[0].y_steps > 1 {
            seq![advance_edge(active[0])] + rest
        } else {
            rest
        }
    }
}

/// Move every pending edge that starts at or before scanline `cy` from
/// the back of the pending list onto the active list.
pub open spec fn admit_pending(pending: Seq<Edge>, active: Seq<Edge>, cy: int) -> (
    Seq<Edge>,
    Seq<Edge>,
)
    decreases pending.len(),
{
    if pending.len() == 0 || pending.last().start_y > cy {
        (pending, active)
    } else {
        admit_pending(pending.drop_last(), active.push(pending.last()), cy)
    }
}

/// Insert an edge into a list sorted by ascending X intersection.
pub open spec fn insert_by_x(sorted: Seq<Edge>, e: Edge) -> Seq<Edge>
    decreases sorted.len(),
{
    if sorted.len() == 0 || sorted.last().x <= e.x {
        sorted.push(e)
    } else {
        insert_by_x(sorted.drop_last(), e).push(sorted.last())
    }
}

/// Sort edges by ascending X intersection, by repeated insertion.
pub open spec fn sort_by_x(v: Seq<Edge>) -> Seq<Edge>
    decreases v.len(),
{
    if v.len() == 0 {
        Seq::empty()
    } else {
        insert_by_x(sort_by_x(v.drop_last()), v.last())
    }
}

/// The active list after one scanline update: retire and advance, take
/// in the edges that start here, and re-sort by X.
pub open spec fn ua_active(active: Seq<Edge>, pending: Seq<Edge>, cy: int) -> Seq<Edge> {
    sort_by_x(admit_pending(pending, retire_edges(active), cy).1)
}

/// The pending list after one scanline update.
pub open spec fn ua_pending(active: Seq<Edge>, pending: Seq<Edge>, cy: int) -> Seq<Edge> {
    admit_pending(pending, retire_edges(active), cy).0
}

/// Inserting at the position found by scanning from the back equals the
/// recursive insertion by X.
proof fn lemma_insert_x_at_pos(s: Seq<Edge>, e: Edge, pos: int)
    requires
        0 <= pos <= s.len(),
        forall|j: int| pos <= j < s.len() ==> (#[trigger] s[j]).x > e.x,
        pos > 0 ==> s[pos - 1].x <= e.x,
    ensures
        insert_by_x(s, e) == s.insert(pos, e),
    decreases s.len(),
{
    if s.len() == 0 {
        assert(insert_by_x(s, e) =~= s.insert(0, e));
    } else if s.last().x <= e.x {
        assert(pos == s.len());
        assert(s.push(e) =~= s.insert(pos, e));
    } else {
        assert(pos < s.len());
        assert forall|j: int| pos <= j < s.drop_last().len() implies (#[trigger] s.drop_last()[j]).x
            > e.x by {
            assert(s.drop_last()[j] == s[j]);
        }
        lemma_insert_x_at_pos(s.drop_last(), e, pos);
        assert(insert_by_x(s.drop_last(), e).push(s.last()) =~= s.insert(pos, e));
    }
}

} // verus!

verus! {

/// The traversal state of a [`FillIter`], as mathematical sequences.
pub struct FillState {
    pub active: Seq<Edge>,
    pub pending: Seq<Edge>,
    pub bounds: Rect,
    pub cursor: Point,
}

/// The state a [`FillIter`] is in.
pub open spec fn fi_state(f: FillIter) -> FillState {
    FillState {
        active: f.active_edges@,
        pending: f.edges@,
        bounds: f.bounds,
        cursor: f.cursor,
    }
}

/// The traversal state stays consistent: the cursor walks the bounding
/// rectangle, every live edge expires before the bottom scanline, and
/// the pending edges start below the cursor, sorted by descending start
/// scanline.
pub open spec fn fs_wf(s: FillState) -> bool {
    &&& -0x2000_0000 <= s.bounds.top <= 0x2000_0000
    &&& -0x2000_0000 <= s.bounds.left <= 0x2000_0000
    &&& -0x2000_0000 <= s.bounds.bottom <= 0x2000_0000
    &&& -0x2000_0000 <= s.bounds.right <= 0x2000_0000
    &&& s.bounds.top <= s.bounds.bottom
    &&& s.bounds.left <= s.bounds.right
    &&& s.bounds.top <= s.cursor.y <= s.bounds.bottom
    &&& s.bounds.left <= s.cursor.x <= s.bounds.right
    &&& forall|i: int|
        0 <= i < s.active.len() ==> edge_wf(#[trigger] s.active[i]) && s.active[i].y_steps >= 1
            && s.cursor.y + s.active[i].y_steps <= s.bounds.bottom
    &&& forall|i: int|
        0 <= i < s.pending.len() ==> edge_wf(#[trigger] s.pending[i]) && s.pending[i].y_steps >= 1
            && s.pending[i].start_y + s.pending[i].y_steps <= s.bounds.bottom
            && s.pending[i].start_y > s.cursor.y
    &&& forall|i: int, j: int|
        0 <= i < j < s.pending.len() ==> (#[trigger] s.pending[i]).start_y >= (
        #[trigger] s.pending[j]).start_y
}

/// How many active edges cross the scanline at or left of column `x`.
pub open spec fn crossings(active: Seq<Edge>, x: int) -> int
    decreases active.len(),
{
    if active.len() == 0 {
        0
    } else {
        (if active[0].x <= x {
            1int
        } else {
            0int
        }) + crossings(active.skip(1), x)
    }
}

/// One cursor step of the traversal: advance one column, and at the end
/// of a row move to the next scanline and update the edge lists.
pub open spec fn fs_step(s: FillState) -> FillState {
    if s.cursor.x + 1 >= s.bounds.right {
        let ny = s.cursor.y + 1;
        FillState {
            active: ua_active(s.active, s.pending, ny),
            pending: ua_pending(s.active, s.pending, ny),
            bounds: s.bounds,
            cursor: Point { y: ny as i32, x: s.bounds.left },
        }
    } else {
        FillState {
            active: s.active,
            pending: s.pending,
            bounds: s.bounds,
            cursor: Point { y: s.cursor.y, x: (s.cursor.x + 1) as i32 },
        }
    }
}

/// How many cursor positions the traversal can still visit.
pub open spec fn fs_measure(s: FillState) -> int {
    (s.bounds.bottom - s.cursor.y) * (s.bounds.right - s.bounds.left + 1) + (s.bounds.right
        - s.cursor.x)
}

/// Advancing a live edge preserves its well-formedness for the next
/// scanline.
proof fn lemma_advance_edge_wf(e: Edge, cy: int, bottom: int)
    requires
        edge_wf(e),
        e.y_steps > 1,
        cy + e.y_steps <= bottom + 1,
    ensures
        edge_wf(advance_edge(e)),
        advance_edge(e).y_steps >= 1,
        cy + advance_edge(e).y_steps <= bottom,
{
    let a = abs_i32(e.x_step as int) + 1;
    assert(a * e.y_steps == a * (e.y_steps - 1) + a) by (nonlinear_arith);
}

/// Retiring and advancing preserves edge well-formedness for the new
/// scanline.
proof fn lemma_retire_props(active: Seq<Edge>, cy: int, bottom: int)
    requires
        forall|i: int|
            0 <= i < active.len() ==> edge_wf(#[trigger] active[i]) && active[i].y_steps >= 1 && cy
                + active[i].y_steps <= bottom + 1,
    ensures
        forall|i: int|
            0 <= i < retire_edges(active).len() ==> edge_wf(#[trigger] retire_edges(active)[i])
                && retire_edges(active)[i].y_steps >= 1 && cy + retire_edges(active)[i].y_steps
                <= bottom,
    decreases active.len(),
{
    if active.len() > 0 {
        assert forall|i: int|
            0 <= i < active.skip(1).len() implies edge_wf(#[trigger] active.skip(1)[i])
            && active.skip(1)[i].y_steps >= 1 && cy + active.skip(1)[i].y_steps <= bottom + 1 by {
            assert(active.skip(1)[i] == active[i + 1]);
        }
        lemma_retire_props(active.skip(1), cy, bottom);
        let rest = retire_edges(active.skip(1));
        let whole = retire_edges(active);
        if active[0].y_steps > 1 {
            lemma_advance_edge_wf(active[0], cy, bottom);
            assert forall|i: int|
                0 <= i < whole.len() implies edge_wf(#[trigger] whole[i]) && whole[i].y_steps >= 1
                && cy + whole[i].y_steps <= bottom by {
                if i > 0 {
                    assert(whole[i] == rest[i - 1]);
                }
            }
        }
    }
}

/// Taking in the edges that start at the current scanline preserves all
/// list properties.
proof fn lemma_admit_props(pending: Seq<Edge>, active: Seq<Edge>, cy: int, bottom: int)
    requires
        forall|i: int|
            0 <= i < pending.len() ==> edge_wf(#[trigger] pending[i]) && pending[i].y_steps >= 1
                && pending[i].start_y + pending[i].y_steps <= bottom && pending[i].start_y >= cy,
        forall|i: int, j: int|
            0 <= i < j < pending.len() ==> (#[trigger] pending[i]).start_y >= (
            #[trigger] pending[j]).start_y,
        forall|i: int|
            0 <= i < active.len() ==> edge_wf(#[trigger] active[i]) && active[i].y_steps >= 1 && cy
                + active[i].y_steps <= bottom,
    ensures
        ({
            let (p2, a2) = admit_pending(pending, active, cy);
            &&& forall|i: int|
                0 <= i < p2.len() ==> edge_wf(#[trigger] p2[i]) && p2[i].y_steps >= 1
                    && p2[i].start_y + p2[i].y_steps <= bottom && p2[i].start_y > cy
            &&& forall|i: int, j: int|
                0 <= i < j < p2.len() ==> (#[trigger] p2[i]).start_y >= (#[trigger] p2[j]).start_y
            &&& forall|i: int|
                0 <= i < a2.len() ==> edge_wf(#[trigger] a2[i]) && a2[i].y_steps >= 1 && cy
                    + a2[i].y_steps <= bottom
        }),
    decreases pending.len(),
{
    if pending.len() == 0 {
    } else if pending.last().start_y > cy {
        let (p2, a2) = admit_pending(pending, active, cy);
        assert(p2 == pending && a2 == active);
        assert forall|i: int| 0 <= i < p2.len() implies edge_wf(#[trigger] p2[i]) && p2[i].y_steps
            >= 1 && p2[i].start_y + p2[i].y_steps <= bottom && p2[i].start_y > cy by {
            assert(p2[i].start_y >= pending.last().start_y);
        }
    } else {
        let e = pending.last();
        assert(e.start_y == cy);
        let a1 = active.push(e);
        assert forall|i: int| 0 <= i < a1.len() implies edge_wf(#[trigger] a1[i]) && a1[i].y_steps
            >= 1 && cy + a1[i].y_steps <= bottom by {
            if i < active.len() {
                assert(a1[i] == active[i]);
            } else {
                assert(a1[i] == e);
            }
        }
        let p1 = pending.drop_last();
        assert forall|i: int|
            0 <= i < p1.len() implies edge_wf(#[trigger] p1[i]) && p1[i].y_steps >= 1
            && p1[i].start_y + p1[i].y_steps <= bottom && p1[i].start_y >= cy by {
            assert(p1[i] == pending[i]);
        }
        assert forall|i: int, j: int|
            0 <= i < j < p1.len() implies (#[trigger] p1[i]).start_y >= (
        #[trigger] p1[j]).start_y by {
            assert(p1[i] == pending[i] && p1[j] == pending[j]);
        }
        lemma_admit_props(p1, a1, cy, bottom);
        assert(admit_pending(pending, active, cy) == admit_pending(p1, a1, cy));
    }
}

/// Insertion by X preserves edge well-formedness.
proof fn lemma_insert_x_props(s: Seq<Edge>, e: Edge, cy: int, bottom: int)
    requires
        forall|j: int|
            0 <= j < s.len() ==> edge_wf(#[trigger] s[j]) && s[j].y_steps >= 1 && cy + s[j].y_steps
                <= bottom,
        edge_wf(e) && e.y_steps >= 1 && cy + e.y_steps <= bottom,
    ensures
        forall|j: int|
            0 <= j < insert_by_x(s, e).len() ==> edge_wf(#[trigger] insert_by_x(s, e)[j])
                && insert_by_x(s, e)[j].y_steps >= 1 && cy + insert_by_x(s, e)[j].y_steps
                <= bottom,
    decreases s.len(),
{
    if s.len() == 0 || s.last().x <= e.x {
        let r = s.push(e);
        assert forall|j: int| 0 <= j < r.len() implies edge_wf(#[trigger] r[j]) && r[j].y_steps >= 1
            && cy + r[j].y_steps <= bottom by {
            if j < s.len() {
                assert(r[j] == s[j]);
            } else {
                assert(r[j] == e);
            }
        }
    } else {
        assert forall|j: int|
            0 <= j < s.drop_last().len() implies edge_wf(#[trigger] s.drop_last()[j])
            && s.drop_last()[j].y_steps >= 1 && cy + s.drop_last()[j].y_steps <= bottom by {
            assert(s.drop_last()[j] == s[j]);
        }
        lemma_insert_x_props(s.drop_last(), e, cy, bottom);
        let inner = insert_by_x(s.drop_last(), e);
        let r = inner.push(s.last());
        assert forall|j: int| 0 <= j < r.len() implies edge_wf(#[trigger] r[j]) && r[j].y_steps >= 1
            && cy + r[j].y_steps <= bottom by {
            if j < inner.len() {
                assert(r[j] == inner[j]);
            } else {
                assert(r[j] == s.last());
            }
        }
    }
}

/// Sorting by X preserves edge well-formedness.
proof fn lemma_sort_x_props(v: Seq<Edge>, cy: int, bottom: int)
    requires
        forall|j: int|
            0 <= j < v.len() ==> edge_wf(#[trigger] v[j]) && v[j].y_steps >= 1 && cy + v[j].y_steps
                <= bottom,
    ensures
        forall|j: int|
            0 <= j < sort_by_x(v).len() ==> edge_wf(#[trigger] sort_by_x(v)[j])
                && sort_by_x(v)[j].y_steps >= 1 && cy + sort_by_x(v)[j].y_steps <= bottom,
    decreases v.len(),
{
    if v.len() > 0 {
        assert forall|j: int|
            0 <= j < v.drop_last().len() implies edge_wf(#[trigger] v.drop_last()[j])
            && v.drop_last()[j].y_steps >= 1 && cy + v.drop_last()[j].y_steps <= bottom by {
            assert(v.drop_last()[j] == v[j]);
        }
        lemma_sort_x_props(v.drop_last(), cy, bottom);
        lemma_insert_x_props(sort_by_x(v.drop_last()), v.last(), cy, bottom);
    }
}

/// A well-formed state with live edges steps to a well-formed state of
/// strictly smaller measure.
pub proof fn lemma_fs_step_wf(s: FillState)
    requires
        fs_wf(s),
        s.active.len() != 0,
    ensures
        fs_wf(fs_step(s)),
        0 <= fs_measure(fs_step(s)) < fs_measure(s),
{
    assert(s.cursor.y + s.active[0].y_steps <= s.bounds.bottom);
    assert(s.cursor.y < s.bounds.bottom);
    let s2 = fs_step(s);
    if s.cursor.x + 1 >= s.bounds.right {
        let ny = s.cursor.y + 1;
        assert forall|i: int|
            0 <= i < s.active.len() implies edge_wf(#[trigger] s.active[i]) && s.active[i].y_steps
            >= 1 && ny + s.active[i].y_steps <= s.bounds.bottom + 1 by {}
        lemma_retire_props(s.active, ny, s.bounds.bottom as int);
        assert forall|i: int|
            0 <= i < s.pending.len() implies edge_wf(#[trigger] s.pending[i])
            && s.pending[i].y_steps >= 1 && s.pending[i].start_y + s.pending[i].y_steps
            <= s.bounds.bottom && s.pending[i].start_y >= ny by {}
        lemma_admit_props(s.pending, retire_edges(s.active), ny, s.bounds.bottom as int);
        lemma_sort_x_props(
            admit_pending(s.pending, retire_edges(s.active), ny).1,
            ny,
            s.bounds.bottom as int,
        );
        let w = s.bounds.right - s.bounds.left + 1;
        assert((s.bounds.bottom - s2.cursor.y) * w + (s.bounds.right - s2.cursor.x) < (
        s.bounds.bottom - s.cursor.y) * w + (s.bounds.right - s.cursor.x)) by (nonlinear_arith)
            requires
                w >= 1,
                s2.cursor.y == s.cursor.y + 1,
                s2.cursor.x == s.bounds.left,
                s.cursor.x + 1 >= s.bounds.right,
                s.cursor.x <= s.bounds.right,
                s2.bounds == s.bounds,
                w == s.bounds.right - s.bounds.left + 1,
        ;
        assert(fs_measure(s2) >= 0) by (nonlinear_arith)
            requires
                s2.cursor.y <= s2.bounds.bottom,
                s2.cursor.x <= s2.bounds.right,
                s2.bounds.left <= s2.bounds.right,
                fs_measure(s2) == (s2.bounds.bottom - s2.cursor.y) * (s2.bounds.right
                    - s2.bounds.left + 1) + (s2.bounds.right - s2.cursor.x),
        ;
    } else {
        assert(fs_measure(s2) >= 0) by (nonlinear_arith)
            requires
                s2.cursor.y <= s2.bounds.bottom,
                s2.cursor.x <= s2.bounds.right,
                s2.bounds.left <= s2.bounds.right,
                fs_measure(s2) == (s2.bounds.bottom - s2.cursor.y) * (s2.bounds.right
                    - s2.bounds.left + 1) + (s2.bounds.right - s2.cursor.x),
        ;
    }
}

/// The pixels the traversal yields: at each cursor position an odd
/// crossing count emits the pixel, and the walk ends when no edge is
/// live.
pub open spec fn fs_next(s: FillState) -> (Option<Point>, FillState)
    decreases fs_measure(s)
        when fs_wf(s)
        via fs_next_decreases
{
    if s.active.len() == 0 {
        (None::<Point>, s)
    } else {
        let cur = s.cursor;
        let s2 = fs_step(s);
        if crossings(s.active, cur.x as int) % 2 == 1 {
            (Some(cur), s2)
        } else {
            fs_next(s2)
        }
    }
}

#[via_fn]
proof fn fs_next_decreases(s: FillState) {
    if s.active.len() != 0 {
        lemma_fs_step_wf(s);
    }
}

} // verus!

verus! {

/// The bounding rectangle of a vertex list, maxima inclusive, folded
/// vertex by vertex.
pub open spec fn poly_rect(points: Seq<Point>) -> Rect
    decreases points.len(),
{
    if points.len() == 0 {
        Rect { top: 0i32, left: 0i32, bottom: 0i32, right: 0i32 }
    } else if points.len() == 1 {
        Rect { top: points[0].y, left: points[0].x, bottom: points[0].y, right: points[0].x }
    } else {
        let r = poly_rect(points.drop_last());
        let p = points.last();
        Rect {
            top: if p.y < r.top {
                p.y
            } else {
                r.top
            },
            left: if p.x < r.left {
                p.x
            } else {
                r.left
            },
            bottom: if p.y > r.bottom {
                p.y
            } else {
                r.bottom
            },
            right: if p.x > r.right {
                p.x
            } else {
                r.right
            },
        }
    }
}

/// The edges of a closed polygon, in vertex order.
pub open spec fn poly_lines(points: Seq<Point>) -> Seq<Line> {
    Seq::new(points.len(), |i: int| polygon_edge(points, i))
}

/// The scan-line edge record of a non-horizontal line, normalised to run
/// downwards.
pub open spec fn edge_of_line(l: Line) -> Edge {
    let tp = if l.start.y <= l.end.y {
        l.start
    } else {
        l.end
    };
    let bp = if l.start.y <= l.end.y {
        l.end
    } else {
        l.start
    };
    let dx = bp.x - tp.x;
    let dy = bp.y - tp.y;
    let adx = abs_i32(dx);
    let q = adx / dy;
    Edge {
        start_y: tp.y,
        y_steps: dy as u32,
        x: tp.x as i64,
        x_step: (if dx < 0 {
            -q
        } else {
            q
        }) as i64,
        error: (if dx >= 0 {
            0int
        } else {
            -dy + 1
        }) as i64,
        error_incr: (adx % dy) as i64,
        error_decr: dy as i64,
        extra_x_step: (if dx > 0 {
            1int
        } else if dx < 0 {
            -1int
        } else {
            0int
        }) as i64,
    }
}

/// Insert an edge into a list sorted by descending start scanline.
pub open spec fn insert_by_start(sorted: Seq<Edge>, e: Edge) -> Seq<Edge>
    decreases sorted.len(),
{
    if sorted.len() == 0 || sorted.last().start_y >= e.start_y {
        sorted.push(e)
    } else {
        insert_by_start(sorted.drop_last(), e).push(sorted.last())
    }
}

/// The pending edge table of a line list: every non-horizontal line
/// becomes an edge record, kept sorted by descending start scanline.
pub open spec fn pending_of(lines: Seq<Line>) -> Seq<Edge>
    decreases lines.len(),
{
    if lines.len() == 0 {
        Seq::empty()
    } else {
        let rest = pending_of(lines.drop_last());
        let l = lines.last();
        if l.start.y == l.end.y {
            rest
        } else {
            insert_by_start(rest, edge_of_line(l))
        }
    }
}

/// The traversal state [`FillIter::new`] builds for a vertex list.
pub open spec fn fi_init(points: Seq<Point>) -> FillState {
    let bounds = poly_rect(points);
    if bounds.bottom <= bounds.top || bounds.right <= bounds.left {
        FillState {
            active: Seq::empty(),
            pending: Seq::empty(),
            bounds,
            cursor: Point { y: bounds.bottom, x: bounds.right },
        }
    } else {
        let pending0 = pending_of(poly_lines(points));
        FillState {
            active: ua_active(Seq::empty(), pending0, bounds.top as int),
            pending: ua_pending(Seq::empty(), pending0, bounds.top as int),
            bounds,
            cursor: Point { y: bounds.top, x: bounds.left },
        }
    }
}

/// Inserting at the position found by scanning from the back equals the
/// recursive insertion by descending start scanline.
proof fn lemma_insert_start_at_pos(s: Seq<Edge>, e: Edge, pos: int)
    requires
        0 <= pos <= s.len(),
        forall|j: int| pos <= j < s.len() ==> (#[trigger] s[j]).start_y < e.start_y,
        pos > 0 ==> s[pos - 1].start_y >= e.start_y,
    ensures
        insert_by_start(s, e) == s.insert(pos, e),
    decreases s.len(),
{
    if s.len() == 0 {
        assert(insert_by_start(s, e) =~= s.insert(0, e));
    } else if s.last().start_y >= e.start_y {
        assert(pos == s.len());
        assert(s.push(e) =~= s.insert(pos, e));
    } else {
        assert(pos < s.len());
        assert forall|j: int|
            pos <= j < s.drop_last().len() implies (#[trigger] s.drop_last()[j]).start_y
            < e.start_y by {
            assert(s.drop_last()[j] == s[j]);
        }
        lemma_insert_start_at_pos(s.drop_last(), e, pos);
        assert(insert_by_start(s.drop_last(), e).push(s.last()) =~= s.insert(pos, e));
    }
}

} // verus!
