//! Geometry primitives: positions, sizes, rectangles and exclusive ranges.
//!
//! A rectangle is a position (its top-left corner) plus a size. All
//! coordinates are container-relative, non-negative integers; the y axis
//! grows downward, so `top <= bottom` and `left <= right`.

use vstd::prelude::*;

verus! {

/// An axis-aligned rectangle, given by its top-left corner and its size.
#[derive(Clone, Copy, Debug, PartialEq, Eq, Hash, Structural)]
pub struct Rect {
    pub pos: Pos,
    pub size: Size,
}

/// A point: `x` grows rightward, `y` grows downward.
#[derive(Clone, Copy, Debug, PartialEq, Eq, Hash, Structural)]
pub struct Pos {
    pub x: usize,
    pub y: usize,
}

/// A width/height pair.
#[derive(Clone, Copy, Debug, PartialEq, Eq, Hash, Structural)]
pub struct Size {
    pub width: usize,
    pub height: usize,
}

/// The right edge of `r`, as a mathematical integer.
pub open spec fn right_of(r: Rect) -> int {
    r.pos.x + r.size.width
}

/// The bottom edge of `r`, as a mathematical integer.
pub open spec fn bottom_of(r: Rect) -> int {
    r.pos.y + r.size.height
}

/// `r` lies entirely inside a container of size `c` anchored at the origin.
pub open spec fn contained_in(r: Rect, c: Size) -> bool {
    right_of(r) <= c.width && bottom_of(r) <= c.height
}

/// `r` has positive width and height.
pub open spec fn sized(r: Rect) -> bool {
    r.size.width >= 1 && r.size.height >= 1
}

/// `r` can be handled without arithmetic overflow: its derived edges fit in
/// `usize`.
pub open spec fn rect_wf(r: Rect) -> bool {
    right_of(r) <= usize::MAX && bottom_of(r) <= usize::MAX
}

/// Manhattan distance between two points.
pub open spec fn dist_of(a: Pos, b: Pos) -> int {
    abs_diff(a.x as int, b.x as int) + abs_diff(a.y as int, b.y as int)
}

/// `|a - b|`.
pub open spec fn abs_diff(a: int, b: int) -> int {
    if a >= b {
        a - b
    } else {
        b - a
    }
}

impl Rect {
    pub fn new(x: usize, y: usize, width: usize, height: usize) -> (r: Self)
        ensures
            r == (Rect { pos: Pos { x, y }, size: Size { width, height } }),
    {
        Self { pos: Pos { x, y }, size: Size { width, height } }
    }

    pub fn left(&self) -> (r: usize)
        ensures
            r == self.pos.x,
    {
        self.pos.x
    }

    pub fn right(&self) -> (r: usize)
        requires
            rect_wf(*self),
        ensures
            r == right_of(*self),
    {
        self.pos.x + self.size.width
    }

    pub fn top(&self) -> (r: usize)
        ensures
            r == self.pos.y,
    {
        self.pos.y
    }

    pub fn bottom(&self) -> (r: usize)
        requires
            rect_wf(*self),
        ensures
            r == bottom_of(*self),
    {
        self.pos.y + self.size.height
    }

    pub fn center(&self) -> (r: Pos)
        requires
            rect_wf(*self),
        ensures
            r.x == self.pos.x + self.size.width / 2,
            r.y == self.pos.y + self.size.height / 2,
    {
        Pos::new(self.center_x(), self.center_y())
    }

    pub fn center_x(&self) -> (r: usize)
        requires
            rect_wf(*self),
        ensures
            r == self.pos.x + self.size.width / 2,
    {
        self.left() + self.size.width / 2
    }

    pub fn center_y(&self) -> (r: usize)
        requires
            rect_wf(*self),
        ensures
            r == self.pos.y + self.size.height / 2,
    {
        self.top() + self.size.height / 2
    }

    pub fn top_left(&self) -> (r: Pos)
        ensures
            r == (Pos { x: self.pos.x, y: self.pos.y }),
    {
        Pos { y: self.top(), x: self.left() }
    }

    pub fn top_right(&self) -> (r: Pos)
        requires
            rect_wf(*self),
        ensures
            r.x == right_of(*self),
            r.y == self.pos.y,
    {
        Pos { y: self.top(), x: self.right() }
    }

    pub fn bottom_left(&self) -> (r: Pos)
        requires
            rect_wf(*self),
        ensures
            r.x == self.pos.x,
            r.y == bottom_of(*self),
    {
        Pos { y: self.bottom(), x: self.left() }
    }

    pub fn bottom_right(&self) -> (r: Pos)
        requires
            rect_wf(*self),
        ensures
            r.x == right_of(*self),
            r.y == bottom_of(*self),
    {
        Pos { y: self.bottom(), x: self.right() }
    }

    /// Move the left edge `value` units leftward, keeping the right edge
    /// fixed.
    pub fn expand_left(&mut self, value: usize)
        requires
            value <= old(self).pos.x,
            rect_wf(*old(self)),
        ensures
            final(self).pos.x == old(self).pos.x - value,
            final(self).size.width == old(self).size.width + value,
            final(self).pos.y == old(self).pos.y,
            final(self).size.height == old(self).size.height,
    {
        self.pos.x -= value;
        self.size.width += value;
    }

    /// Move the right edge `value` units rightward, keeping the left edge
    /// fixed.
    pub fn expand_right(&mut self, value: usize)
        requires
            right_of(*old(self)) + value <= usize::MAX,
        ensures
            final(self).size.width == old(self).size.width + value,
            final(self).pos == old(self).pos,
            final(self).size.height == old(self).size.height,
    {
        self.size.width += value;
    }

    /// Move the top edge `value` units upward, keeping the bottom edge fixed.
    pub fn expand_top(&mut self, value: usize)
        requires
            value <= old(self).pos.y,
            rect_wf(*old(self)),
        ensures
            final(self).pos.y == old(self).pos.y - value,
            final(self).size.height == old(self).size.height + value,
            final(self).pos.x == old(self).pos.x,
            final(self).size.width == old(self).size.width,
    {
        self.pos.y -= value;
        self.size.height += value;
    }

    /// Move the bottom edge `value` units downward, keeping the top edge
    /// fixed.
    pub fn expand_bottom(&mut self, value: usize)
        requires
            bottom_of(*old(self)) + value <= usize::MAX,
        ensures
            final(self).size.height == old(self).size.height + value,
            final(self).pos == old(self).pos,
            final(self).size.width == old(self).size.width,
    {
        self.size.height += value;
    }

    pub fn x_range_exclusive(&self) -> (r: RangeExclusive)
        requires
            rect_wf(*self),
        ensures
            r.0 == self.pos.x,
            r.1 == right_of(*self),
    {
        RangeExclusive(self.left(), self.right())
    }

    pub fn y_range_exclusive(&self) -> (r: RangeExclusive)
        requires
            rect_wf(*self),
        ensures
            r.0 == self.pos.y,
            r.1 == bottom_of(*self),
    {
        RangeExclusive(self.top(), self.bottom())
    }

    pub fn area(&self) -> (r: usize)
        requires
            self.size.width * self.size.height <= usize::MAX,
        ensures
            r == self.size.width * self.size.height,
    {
        self.size.area()
    }

    /// The intersection of two rectangles, or `None` when their interiors are
    /// disjoint.
    pub fn overlap(&self, other: &Rect) -> (r: Option<Rect>)
        requires
            rect_wf(*self),
            rect_wf(*other),
        ensures
            r == overlap_of(*self, *other),
    {
        let left = if self.left() >= other.left() {
            self.left()
        } else {
            other.left()
        };
        let right = if self.right() <= other.right() {
            self.right()
        } else {
            other.right()
        };
        let top = if self.top() >= other.top() {
            self.top()
        } else {
            other.top()
        };
        let bottom = if self.bottom() <= other.bottom() {
            self.bottom()
        } else {
            other.bottom()
        };
        if left < right && top < bottom {
            Some(
                Rect {
                    pos: Pos { x: left, y: top },
                    size: Size { width: right - left, height: bottom - top },
                },
            )
        } else {
            None
        }
    }

    /// Manhattan distance between two rectangles in (x, y, width, height)
    /// space.
    pub fn diff(&self, other: Rect) -> (r: usize)
        requires
            rect_wf(*self),
            rect_wf(other),
            diff_of(*self, other) <= usize::MAX,
        ensures
            r == diff_of(*self, other),
    {
        let dx = if self.pos.x >= other.pos.x {
            self.pos.x - other.pos.x
        } else {
            other.pos.x - self.pos.x
        };
        let dy = if self.pos.y >= other.pos.y {
            self.pos.y - other.pos.y
        } else {
            other.pos.y - self.pos.y
        };
        let dw = if self.size.width >= other.size.width {
            self.size.width - other.size.width
        } else {
            other.size.width - self.size.width
        };
        let dh = if self.size.height >= other.size.height {
            self.size.height - other.size.height
        } else {
            other.size.height - self.size.height
        };
        dx + dy + dw + dh
    }
}

/// The greater of the two lower edges and the lesser of the two upper edges,
/// on both axes; a rectangle only when both spans are non-empty.
pub open spec fn overlap_of(a: Rect, b: Rect) -> Option<Rect> {
    let left = if a.pos.x >= b.pos.x {
        a.pos.x as int
    } else {
        b.pos.x as int
    };
    let right = if right_of(a) <= right_of(b) {
        right_of(a)
    } else {
        right_of(b)
    };
    let top = if a.pos.y >= b.pos.y {
        a.pos.y as int
    } else {
        b.pos.y as int
    };
    let bottom = if bottom_of(a) <= bottom_of(b) {
        bottom_of(a)
    } else {
        bottom_of(b)
    };
    if left < right && top < bottom {
        Some(
            Rect {
                pos: Pos { x: left as usize, y: top as usize },
                size: Size { width: (right - left) as usize, height: (bottom - top) as usize },
            },
        )
    } else {
        None
    }
}

/// Manhattan distance between rectangles in (x, y, width, height) space.
pub open spec fn diff_of(a: Rect, b: Rect) -> int {
    abs_diff(a.pos.x as int, b.pos.x as int) + abs_diff(a.pos.y as int, b.pos.y as int) + abs_diff(
        a.size.width as int,
        b.size.width as int,
    ) + abs_diff(a.size.height as int, b.size.height as int)
}

impl Pos {
    pub fn new(x: usize, y: usize) -> (r: Self)
        ensures
            r == (Pos { x, y }),
    {
        Self { x, y }
    }

    /// Manhattan distance between positions.
    pub fn dist(self, other: Pos) -> (r: usize)
        requires
            dist_of(self, other) <= usize::MAX,
        ensures
            r == dist_of(self, other),
    {
        (if self.x > other.x {
            self.x - other.x
        } else {
            other.x - self.x
        }) + (if self.y > other.y {
            self.y - other.y
        } else {
            other.y - self.y
        })
    }
}

impl Size {
    pub fn new(width: usize, height: usize) -> (r: Self)
        ensures
            r == (Size { width, height }),
    {
        Self { width, height }
    }

    pub fn area(&self) -> (r: usize)
        requires
            self.width * self.height <= usize::MAX,
        ensures
            r == self.width * self.height,
    {
        self.width * self.height
    }
}

// ---------------------------------------------------------------------------
// Covered area: the area of the union of a set of rectangles.
//
// The union's area is modelled column by column: for each integer column x,
// `col_cells` is the set of y coordinates covered by some rectangle, and the
// covered area is the sum of the cardinalities of these sets over all
// columns.
// ---------------------------------------------------------------------------

/// Rectangle `r` covers the unit cell at `(x, y)`.
pub open spec fn covers(r: Rect, x: int, y: int) -> bool {
    r.pos.x <= x < right_of(r) && r.pos.y <= y < bottom_of(r)
}

/// Rectangle `r` covers column `x`.
pub open spec fn covers_col(r: Rect, x: int) -> bool {
    r.pos.x <= x < right_of(r)
}

/// The y coordinates covered at column `x` by some rectangle of `rects`.
pub open spec fn col_cells(rects: Seq<Rect>, x: int) -> Set<int> {
    Set::new(|y: int| exists|i: int| 0 <= i < rects.len() && covers(#[trigger] rects[i], x, y))
}

/// The largest right edge among `rects` (0 when empty).
pub open spec fn max_right(rects: Seq<Rect>) -> int
    decreases rects.len(),
{
    if rects.len() == 0 {
        0
    } else {
        let m = max_right(rects.drop_last());
        if right_of(rects.last()) > m {
            right_of(rects.last())
        } else {
            m
        }
    }
}

/// The largest bottom edge among `rects` (0 when empty).
pub open spec fn max_bottom(rects: Seq<Rect>) -> int
    decreases rects.len(),
{
    if rects.len() == 0 {
        0
    } else {
        let m = max_bottom(rects.drop_last());
        if bottom_of(rects.last()) > m {
            bottom_of(rects.last())
        } else {
            m
        }
    }
}

/// Sum of covered column heights over columns `0 .. n`.
pub open spec fn col_sum(rects: Seq<Rect>, n: nat) -> nat
    decreases n,
{
    if n == 0 {
        0
    } else {
        col_sum(rects, (n - 1) as nat) + col_cells(rects, n - 1).len()
    }
}

/// The area of the union of `rects`: the sum over all columns of the number
/// of covered cells in that column.
pub open spec fn covered_area_of(rects: Seq<Rect>) -> nat {
    col_sum(rects, max_right(rects) as nat)
}

/// Every right edge is bounded by `max_right`, every bottom edge by
/// `max_bottom`, and both are non-negative.
pub proof fn lemma_max_edges(rects: Seq<Rect>)
    ensures
        max_right(rects) >= 0,
        max_bottom(rects) >= 0,
        forall|i: int|
            0 <= i < rects.len() ==> right_of(#[trigger] rects[i]) <= max_right(rects),
        forall|i: int|
            0 <= i < rects.len() ==> bottom_of(#[trigger] rects[i]) <= max_bottom(rects),
    decreases rects.len(),
{
    if rects.len() > 0 {
        lemma_max_edges(rects.drop_last());
        assert forall|i: int| 0 <= i < rects.len() implies right_of(#[trigger] rects[i])
            <= max_right(rects) && bottom_of(rects[i]) <= max_bottom(rects) by {
            if i < rects.len() - 1 {
                assert(rects.drop_last()[i] == rects[i]);
            } else {
                assert(rects[i] == rects.last());
            }
        }
    }
}

/// If every right edge of `rects` is at most `m >= 0`, so is `max_right`;
/// and the analogue for bottom edges.
pub proof fn lemma_max_edges_bounded(rects: Seq<Rect>, mr: int, mb: int)
    requires
        mr >= 0,
        mb >= 0,
        forall|i: int| 0 <= i < rects.len() ==> right_of(#[trigger] rects[i]) <= mr,
        forall|i: int| 0 <= i < rects.len() ==> bottom_of(#[trigger] rects[i]) <= mb,
    ensures
        max_right(rects) <= mr,
        max_bottom(rects) <= mb,
    decreases rects.len(),
{
    if rects.len() > 0 {
        assert(forall|i: int|
            0 <= i < rects.len() - 1 ==> rects[i] == #[trigger] rects.drop_last()[i]);
        lemma_max_edges_bounded(rects.drop_last(), mr, mb);
    }
}

/// Column cell sets are finite, bounded by `[0, max_bottom)`, and empty
/// outside `[0, max_right)`.
pub proof fn lemma_col_cells_basic(rects: Seq<Rect>, x: int)
    ensures
        col_cells(rects, x).finite(),
        col_cells(rects, x).len() <= max_bottom(rects),
        col_cells(rects, x).subset_of(
            vstd::set_lib::set_int_range(0, max_bottom(rects)),
        ),
        !(0 <= x < max_right(rects)) ==> col_cells(rects, x) =~= Set::<int>::empty(),
{
    lemma_max_edges(rects);
    let range = vstd::set_lib::set_int_range(0, max_bottom(rects));
    vstd::set_lib::lemma_int_range(0, max_bottom(rects));
    assert(col_cells(rects, x).subset_of(range));
    vstd::set_lib::lemma_len_subset(col_cells(rects, x), range);
}

/// If every element of `a` occurs in `b`, then every covered cell of `a` is
/// covered in `b`.
pub proof fn lemma_col_cells_sub(a: Seq<Rect>, b: Seq<Rect>, x: int)
    requires
        forall|r: Rect| a.contains(r) ==> b.contains(r),
    ensures
        col_cells(a, x).subset_of(col_cells(b, x)),
{
    assert forall|y: int| col_cells(a, x).contains(y) implies col_cells(b, x).contains(y) by {
        let i = choose|i: int| 0 <= i < a.len() && covers(#[trigger] a[i], x, y);
        assert(a.contains(a[i]));
        let j = choose|j: int| 0 <= j < b.len() && b[j] == a[i];
        assert(covers(b[j], x, y));
    }
}

/// `max_right` depends only on which rectangles occur in the sequence.
pub proof fn lemma_max_edges_congruent(a: Seq<Rect>, b: Seq<Rect>)
    requires
        forall|r: Rect| a.contains(r) <==> b.contains(r),
    ensures
        max_right(a) == max_right(b),
        max_bottom(a) == max_bottom(b),
{
    lemma_max_edges(a);
    lemma_max_edges(b);
    assert(forall|i: int|
        0 <= i < a.len() ==> b.contains(#[trigger] a[i]) && right_of(a[i]) <= max_right(b)
            && bottom_of(a[i]) <= max_bottom(b)) by {
        assert(forall|i: int| 0 <= i < a.len() ==> a.contains(#[trigger] a[i]));
    }
    lemma_max_edges_bounded(a, max_right(b), max_bottom(b));
    assert(forall|i: int|
        0 <= i < b.len() ==> a.contains(#[trigger] b[i]) && right_of(b[i]) <= max_right(a)
            && bottom_of(b[i]) <= max_bottom(a)) by {
        assert(forall|i: int| 0 <= i < b.len() ==> b.contains(#[trigger] b[i]));
    }
    lemma_max_edges_bounded(b, max_right(a), max_bottom(a));
}

/// Column sums of sequences with the same elements and equal column cells.
pub proof fn lemma_col_sum_congruent(a: Seq<Rect>, b: Seq<Rect>, n: nat)
    requires
        forall|r: Rect| a.contains(r) <==> b.contains(r),
    ensures
        col_sum(a, n) == col_sum(b, n),
    decreases n,
{
    if n > 0 {
        lemma_col_sum_congruent(a, b, (n - 1) as nat);
        lemma_col_cells_sub(a, b, n - 1);
        lemma_col_cells_sub(b, a, n - 1);
        assert(col_cells(a, n - 1) =~= col_cells(b, n - 1));
    }
}

/// Covered area depends only on which rectangles occur in the sequence.
pub proof fn lemma_covered_area_congruent(a: Seq<Rect>, b: Seq<Rect>)
    requires
        forall|r: Rect| a.contains(r) <==> b.contains(r),
    ensures
        covered_area_of(a) == covered_area_of(b),
{
    lemma_max_edges_congruent(a, b);
    lemma_col_sum_congruent(a, b, max_right(a) as nat);
}

/// Column sums are bounded by the number of columns times the tallest
/// column.
pub proof fn lemma_col_sum_bound(rects: Seq<Rect>, n: nat)
    ensures
        col_sum(rects, n) <= n * max_bottom(rects),
    decreases n,
{
    lemma_max_edges(rects);
    if n > 0 {
        lemma_col_sum_bound(rects, (n - 1) as nat);
        lemma_col_cells_basic(rects, n - 1);
        assert((n - 1) * max_bottom(rects) + max_bottom(rects) == n * max_bottom(rects))
            by (nonlinear_arith);
    }
}

/// The sequence is ordered by non-decreasing top edge.
pub open spec fn sorted_by_top(s: Seq<Rect>) -> bool {
    forall|k1: int, k2: int|
        0 <= k1 <= k2 < s.len() ==> #[trigger] s[k1].pos.y <= #[trigger] s[k2].pos.y
}

/// Copy `rects` into a new vector ordered by top edge. The result holds
/// exactly the same rectangles (as a set of values).
fn sort_by_top(rects: &Vec<Rect>) -> (out: Vec<Rect>)
    ensures
        sorted_by_top(out@),
        forall|r: Rect| out@.contains(r) <==> rects@.contains(r),
{
    let mut out: Vec<Rect> = Vec::new();
    let mut i: usize = 0;
    while i < rects.len()
        invariant
            i <= rects.len(),
            sorted_by_top(out@),
            forall|r: Rect| out@.contains(r) <==> rects@.take(i as int).contains(r),
        decreases rects.len() - i,
    {
        let v = rects[i];
        let mut j: usize = 0;
        while j < out.len() && out[j].top() <= v.top()
            invariant
                j <= out.len(),
                forall|k: int| 0 <= k < j ==> out@[k].pos.y <= #[trigger] v.pos.y,
            decreases out.len() - j,
        {
            j += 1;
        }
        let ghost prev = out@;
        out.insert(j, v);
        proof {
            prev.insert_ensures(j as int, v);
            assert(sorted_by_top(out@)) by {
                assert forall|k1: int, k2: int|
                    0 <= k1 <= k2 < out@.len() implies #[trigger] out@[k1].pos.y
                    <= #[trigger] out@[k2].pos.y by {
                    if k1 < j && k2 > j {
                        assert(out@[k1] == prev[k1]);
                        assert(out@[k2] == prev[k2 - 1]);
                    } else if k1 == j && k2 > j {
                        assert(out@[k2] == prev[k2 - 1]);
                        assert(prev[j as int].pos.y > v.pos.y);
                    } else if k1 < j && k2 == j {
                        assert(out@[k1] == prev[k1]);
                    }
                }
            }
            assert forall|r: Rect| out@.contains(r) implies rects@.take(
                i + 1,
            ).contains(r) by {
                let k = choose|k: int| 0 <= k < out@.len() && out@[k] == r;
                if k == j {
                    assert(rects@.take(i + 1)[i as int] == v);
                } else {
                    if k < j {
                        assert(prev[k] == r);
                    } else {
                        assert(prev[k - 1] == r);
                    }
                    assert(prev.contains(r));
                    assert(rects@.take(i as int).contains(r));
                    let m = choose|m: int|
                        0 <= m < rects@.take(i as int).len() && rects@.take(i as int)[m] == r;
                    assert(rects@.take(i + 1)[m] == r);
                }
            }
            assert forall|r: Rect| rects@.take(i + 1).contains(r) implies out@.contains(
                r,
            ) by {
                let m = choose|m: int|
                    0 <= m < rects@.take(i + 1).len() && #[trigger] rects@.take(i + 1)[m] == r;
                if m < i {
                    assert(rects@.take(i as int)[m] == r);
                    assert(rects@.take(i as int).contains(r));
                    assert(prev.contains(r));
                    let k = choose|k: int| 0 <= k < prev.len() && prev[k] == r;
                    if k < j {
                        assert(out@[k] == r);
                    } else {
                        assert(out@[k + 1] == r);
                    }
                } else {
                    assert(r == v);
                    assert(out@[j as int] == v);
                }
            }
        }
        i += 1;
    }
    proof {
        assert(rects@.take(rects@.len() as int) =~= rects@);
    }
    out
}

/// The number of cells covered in column `x`, computed by a top-to-bottom
/// sweep over rectangles ordered by top edge.
#[verifier::rlimit(60)]
fn col_measure(rects: &Vec<Rect>, x: usize) -> (r: usize)
    requires
        sorted_by_top(rects@),
        forall|i: int| 0 <= i < rects@.len() ==> rect_wf(#[trigger] rects@[i]),
        max_bottom(rects@) <= usize::MAX,
    ensures
        r == col_cells(rects@, x as int).len(),
{
    proof {
        lemma_max_edges(rects@);
        assert(col_cells(rects@.take(0), x as int) =~= Set::<int>::empty());
    }
    let mut acc: usize = 0;
    let mut last_end: usize = 0;
    let mut j: usize = 0;
    while j < rects.len()
        invariant
            j <= rects.len(),
            sorted_by_top(rects@),
            forall|i: int| 0 <= i < rects@.len() ==> rect_wf(#[trigger] rects@[i]),
            max_bottom(rects@) <= usize::MAX,
            last_end <= max_bottom(rects@),
            acc == col_cells(rects@.take(j as int), x as int).len(),
            acc <= last_end,
            forall|y: int| col_cells(rects@.take(j as int), x as int).contains(y) ==> 0 <= y < last_end,
            last_end > 0 ==> exists|k: int|
                0 <= k < j && covers_col(#[trigger] rects@[k], x as int) && bottom_of(rects@[k])
                    == last_end,
        decreases rects.len() - j,
    {
        let rct = rects[j];
        let ghost prefix = rects@.take(j as int);
        let ghost prefix2 = rects@.take(j + 1);
        let ghost cells = col_cells(prefix, x as int);
        let ghost cells2 = col_cells(prefix2, x as int);
        proof {
            lemma_max_edges(rects@);
            lemma_col_cells_basic(rects@, x as int);
            assert(forall|i: int| 0 <= i < j ==> prefix[i] == #[trigger] rects@[i]);
            assert(forall|i: int| 0 <= i <= j ==> prefix2[i] == #[trigger] rects@[i]);
            lemma_col_cells_sub(prefix, rects@, x as int);
            lemma_col_cells_sub(rects@, rects@, x as int);
            lemma_col_cells_basic(prefix, x as int);
            lemma_col_cells_basic(prefix2, x as int);
        }
        if rct.left() <= x && x < rct.right() {
            let t = rct.top();
            let b = rct.bottom();
            let lo = if t >= last_end {
                t
            } else {
                last_end
            };
            proof {
                // The cells of the new prefix are the old cells plus the
                // rectangle's own span.
                assert(cells2 =~= cells.union(vstd::set_lib::set_int_range(t as int, b as int)))
                    by {
                    assert forall|y: int| cells2.contains(y) implies cells.contains(y)
                        || (t <= y < b) by {
                        let k = choose|k: int|
                            0 <= k < prefix2.len() && covers(#[trigger] prefix2[k], x as int, y);
                        if k < j {
                            assert(prefix[k] == prefix2[k]);
                        }
                    }
                    assert forall|y: int| cells.contains(y) implies cells2.contains(y) by {
                        let k = choose|k: int|
                            0 <= k < prefix.len() && covers(#[trigger] prefix[k], x as int, y);
                        assert(covers(prefix2[k], x as int, y));
                    }
                    assert forall|y: int| t <= y < b implies cells2.contains(y) by {
                        assert(covers(prefix2[j as int], x as int, y));
                    }
                }
                // Anything between this rectangle's top and the sweep line is
                // already covered: the rectangle that set `last_end` started
                // no later than this one.
                if last_end > 0 {
                    let k = choose|k: int|
                        0 <= k < j && covers_col(#[trigger] rects@[k], x as int) && bottom_of(
                            rects@[k],
                        ) == last_end;
                    assert(rects@[k].pos.y <= rct.pos.y);
                    assert forall|y: int| t <= y < last_end implies cells.contains(y) by {
                        assert(covers(prefix[k], x as int, y));
                    }
                }
                vstd::set_lib::lemma_int_range(t as int, b as int);
            }
            if b > lo {
                proof {
                    assert(cells2 =~= cells.union(
                        vstd::set_lib::set_int_range(lo as int, b as int),
                    ));
                    assert(cells.disjoint(vstd::set_lib::set_int_range(lo as int, b as int)));
                    vstd::set_lib::lemma_int_range(lo as int, b as int);
                    vstd::set_lib::lemma_set_disjoint_lens(
                        cells,
                        vstd::set_lib::set_int_range(lo as int, b as int),
                    );
                    assert(cells.union(vstd::set_lib::set_int_range(lo as int, b as int)) =~= cells
                        + vstd::set_lib::set_int_range(lo as int, b as int));
                    assert(bottom_of(rects@[j as int]) <= max_bottom(rects@));
                }
                acc += b - lo;
            } else {
                proof {
                    assert(cells2 =~= cells);
                }
            }
            if b > last_end {
                last_end = b;
                proof {
                    assert(covers_col(rects@[j as int], x as int) && bottom_of(rects@[j as int])
                        == last_end);
                }
            }
        } else {
            proof {
                assert(cells2 =~= cells) by {
                    assert forall|y: int| cells2.contains(y) implies cells.contains(y) by {
                        let k = choose|k: int|
                            0 <= k < prefix2.len() && covers(#[trigger] prefix2[k], x as int, y);
                        assert(k != j);
                        assert(prefix[k] == prefix2[k]);
                    }
                    assert forall|y: int| cells.contains(y) implies cells2.contains(y) by {
                        let k = choose|k: int|
                            0 <= k < prefix.len() && covers(#[trigger] prefix[k], x as int, y);
                        assert(covers(prefix2[k], x as int, y));
                    }
                }
            }
        }
        j += 1;
    }
    proof {
        assert(rects@.take(rects@.len() as int) =~= rects@);
    }
    acc
}

/// Beyond the last occupied column, extending the column range does not
/// change the sum.
pub proof fn lemma_col_sum_stable(rects: Seq<Rect>, m: nat, n: nat)
    requires
        max_right(rects) <= m <= n,
    ensures
        col_sum(rects, n) == col_sum(rects, m),
    decreases n,
{
    if n > m {
        lemma_col_cells_basic(rects, n - 1);
        assert(col_cells(rects, n - 1).len() == 0);
        lemma_col_sum_stable(rects, m, (n - 1) as nat);
    }
}

/// The covered area equals the column sum over any range wide enough.
pub proof fn lemma_covered_area_at(rects: Seq<Rect>, n: nat)
    requires
        max_right(rects) <= n,
    ensures
        covered_area_of(rects) == col_sum(rects, n),
{
    lemma_max_edges(rects);
    lemma_col_sum_stable(rects, max_right(rects) as nat, n);
}

/// Appending sequences appends their coverage: column cells unite.
pub proof fn lemma_col_cells_add(a: Seq<Rect>, b: Seq<Rect>, x: int)
    ensures
        col_cells(a + b, x) =~= col_cells(a, x).union(col_cells(b, x)),
{
    assert forall|y: int| col_cells(a + b, x).contains(y) implies col_cells(a, x).contains(y)
        || col_cells(b, x).contains(y) by {
        let i = choose|i: int| 0 <= i < (a + b).len() && covers(#[trigger] (a + b)[i], x, y);
        if i < a.len() {
            assert(covers(a[i], x, y));
        } else {
            assert(covers(b[i - a.len()], x, y));
        }
    }
    assert forall|y: int|
        col_cells(a, x).contains(y) || col_cells(b, x).contains(y) implies col_cells(
        a + b,
        x,
    ).contains(y) by {
        if col_cells(a, x).contains(y) {
            let i = choose|i: int| 0 <= i < a.len() && covers(#[trigger] a[i], x, y);
            assert(covers((a + b)[i], x, y));
        } else {
            let i = choose|i: int| 0 <= i < b.len() && covers(#[trigger] b[i], x, y);
            assert(covers((a + b)[i + a.len()], x, y));
        }
    }
}

/// Column sums are subadditive under concatenation.
pub proof fn lemma_col_sum_subadditive(a: Seq<Rect>, b: Seq<Rect>, n: nat)
    ensures
        col_sum(a + b, n) <= col_sum(a, n) + col_sum(b, n),
    decreases n,
{
    if n > 0 {
        lemma_col_sum_subadditive(a, b, (n - 1) as nat);
        lemma_col_cells_add(a, b, n - 1);
        lemma_col_cells_basic(a, n - 1);
        lemma_col_cells_basic(b, n - 1);
        vstd::set_lib::lemma_len_union(col_cells(a, n - 1), col_cells(b, n - 1));
    }
}

/// The union of two groups of rectangles covers at most what the groups
/// cover separately.
pub proof fn lemma_covered_subadditive(a: Seq<Rect>, b: Seq<Rect>)
    ensures
        covered_area_of(a + b) <= covered_area_of(a) + covered_area_of(b),
{
    lemma_max_edges(a);
    lemma_max_edges(b);
    let n = (max_right(a) + max_right(b)) as nat;
    assert forall|i: int| 0 <= i < (a + b).len() implies right_of(#[trigger] (a + b)[i])
        <= n by {
        if i < a.len() {
            assert((a + b)[i] == a[i]);
        } else {
            assert((a + b)[i] == b[i - a.len()]);
        }
    }
    lemma_max_edges(a + b);
    lemma_max_edges_bounded(a + b, n as int, max_bottom(a + b) as int);
    lemma_covered_area_at(a + b, n);
    lemma_covered_area_at(a, n);
    lemma_covered_area_at(b, n);
    lemma_col_sum_subadditive(a, b, n);
}

/// Column sums only grow when every rectangle of `a` also occurs in `b`.
pub proof fn lemma_col_sum_mono(a: Seq<Rect>, b: Seq<Rect>, n: nat)
    requires
        forall|r: Rect| a.contains(r) ==> b.contains(r),
    ensures
        col_sum(a, n) <= col_sum(b, n),
    decreases n,
{
    if n > 0 {
        lemma_col_sum_mono(a, b, (n - 1) as nat);
        lemma_col_cells_sub(a, b, n - 1);
        lemma_col_cells_basic(b, n - 1);
        vstd::set_lib::lemma_len_subset(col_cells(a, n - 1), col_cells(b, n - 1));
    }
}

/// A group of rectangles covers at least what any part of it covers.
pub proof fn lemma_covered_mono(a: Seq<Rect>, b: Seq<Rect>)
    requires
        forall|r: Rect| a.contains(r) ==> b.contains(r),
    ensures
        covered_area_of(a) <= covered_area_of(b),
{
    lemma_max_edges(a);
    lemma_max_edges(b);
    let n = (max_right(a) + max_right(b)) as nat;
    lemma_covered_area_at(a, n);
    lemma_covered_area_at(b, n);
    lemma_col_sum_mono(a, b, n);
}

/// Rectangles contained in a container cover at most its area.
pub proof fn lemma_covered_bound(rects: Seq<Rect>, c: Size)
    requires
        forall|i: int| 0 <= i < rects.len() ==> contained_in(#[trigger] rects[i], c),
    ensures
        covered_area_of(rects) <= c.width * c.height,
{
    lemma_max_edges_bounded(rects, c.width as int, c.height as int);
    lemma_col_sum_bound(rects, max_right(rects) as nat);
    assert(max_right(rects) * max_bottom(rects) <= c.width * c.height) by (nonlinear_arith)
        requires
            0 <= max_right(rects) <= c.width,
            0 <= max_bottom(rects) <= c.height,
    ;
    assert(col_sum(rects, max_right(rects) as nat) <= max_right(rects) * max_bottom(rects));
}

/// A non-empty group whose first rectangle has positive size covers at least
/// one cell.
pub proof fn lemma_covered_pos(rects: Seq<Rect>)
    requires
        rects.len() > 0,
        sized(rects[0]),
    ensures
        covered_area_of(rects) >= 1,
{
    let x0 = rects[0].pos.x as int;
    let y0 = rects[0].pos.y as int;
    assert(covers(rects[0], x0, y0));
    assert(col_cells(rects, x0).contains(y0));
    lemma_col_cells_basic(rects, x0);
    lemma_max_edges(rects);
    assert(0 <= x0 < max_right(rects));
    assert(col_cells(rects, x0).len() >= 1);
    lemma_col_sum_contrib(rects, x0, max_right(rects) as nat);
}

/// Each column's contribution is at most the whole sum.
proof fn lemma_col_sum_contrib(rects: Seq<Rect>, x: int, n: nat)
    requires
        0 <= x < n,
    ensures
        col_sum(rects, n) >= col_cells(rects, x).len(),
    decreases n,
{
    if x < n - 1 {
        lemma_col_sum_contrib(rects, x, (n - 1) as nat);
    }
}

/// The total area of the union of `rects`: overlapping regions are counted
/// once.
pub fn covered_area(rects: &Vec<Rect>) -> (r: usize)
    requires
        forall|i: int| 0 <= i < rects@.len() ==> rect_wf(#[trigger] rects@[i]),
        max_right(rects@) * max_bottom(rects@) <= usize::MAX,
    ensures
        r == covered_area_of(rects@),
{
    let sorted = sort_by_top(rects);
    proof {
        lemma_covered_area_congruent(sorted@, rects@);
        lemma_max_edges_congruent(sorted@, rects@);
        assert forall|i: int| 0 <= i < sorted@.len() implies rect_wf(#[trigger] sorted@[i]) by {
            assert(sorted@.contains(sorted@[i]));
            let k = choose|k: int| 0 <= k < rects@.len() && rects@[k] == sorted@[i];
        }
        lemma_max_edges(sorted@);
        lemma_max_edges_bounded(sorted@, usize::MAX as int, usize::MAX as int);
        assert(sorted@.take(0) =~= Seq::<Rect>::empty());
    }
    let mut w: usize = 0;
    let mut i: usize = 0;
    while i < sorted.len()
        invariant
            i <= sorted.len(),
            forall|k: int| 0 <= k < sorted@.len() ==> rect_wf(#[trigger] sorted@[k]),
            max_right(sorted@) <= usize::MAX,
            w == max_right(sorted@.take(i as int)),
        decreases sorted.len() - i,
    {
        proof {
            lemma_max_edges(sorted@.take(i + 1));
            assert(sorted@.take(i + 1).drop_last() =~= sorted@.take(i as int));
            assert(sorted@.take(i + 1).last() == sorted@[i as int]);
            assert(forall|k: int|
                0 <= k < i ==> #[trigger] sorted@.take(i as int)[k] == sorted@[k]);
            lemma_max_edges(sorted@);
            lemma_max_edges_bounded(
                sorted@.take(i as int),
                max_right(sorted@),
                max_bottom(sorted@),
            );
        }
        let rt = sorted[i].right();
        if rt > w {
            w = rt;
        }
        i += 1;
    }
    proof {
        assert(sorted@.take(sorted@.len() as int) =~= sorted@);
        assert(w == max_right(sorted@));
    }
    let ghost mb = max_bottom(sorted@);
    let mut acc: usize = 0;
    let mut x: usize = 0;
    while x < w
        invariant
            x <= w,
            sorted_by_top(sorted@),
            forall|k: int| 0 <= k < sorted@.len() ==> rect_wf(#[trigger] sorted@[k]),
            mb == max_bottom(sorted@),
            mb >= 0,
            w == max_right(sorted@),
            w * mb <= usize::MAX,
            acc == col_sum(sorted@, x as nat),
        decreases w - x,
    {
        proof {
            lemma_col_sum_bound(sorted@, x as nat);
            lemma_col_cells_basic(sorted@, x as int);
            assert(x * mb + mb == (x + 1) * mb) by (nonlinear_arith);
            assert((x + 1) * mb <= w * mb) by (nonlinear_arith)
                requires
                    x + 1 <= w,
                    mb >= 0,
            ;
        }
        let m = col_measure(&sorted, x);
        acc += m;
        x += 1;
    }
    acc
}

// ---------------------------------------------------------------------------
// Obscured area: overlap counted once per overlapping pair beyond the first.
// ---------------------------------------------------------------------------

/// The overlaps of `rects[i]` with `rects[j]` for `j` in `0 .. k`, `j != i`.
pub open spec fn pair_overlaps(rects: Seq<Rect>, i: int, k: int) -> Seq<Rect>
    decreases k,
{
    if k <= 0 {
        Seq::empty()
    } else {
        let rest = pair_overlaps(rects, i, k - 1);
        if k - 1 != i && overlap_of(rects[i], rects[k - 1]) is Some {
            rest.push(overlap_of(rects[i], rects[k - 1])->0)
        } else {
            rest
        }
    }
}

/// The overlaps of `rects[i]` with every other rectangle.
pub open spec fn overlaps_of_idx(rects: Seq<Rect>, i: int) -> Seq<Rect> {
    pair_overlaps(rects, i, rects.len() as int)
}

/// Sum over `i` in `0 .. k` of the covered area of index `i`'s overlaps.
pub open spec fn sum_overlap_areas(rects: Seq<Rect>, k: int) -> nat
    decreases k,
{
    if k <= 0 {
        0
    } else {
        sum_overlap_areas(rects, k - 1) + covered_area_of(overlaps_of_idx(rects, k - 1))
    }
}

/// All pairwise overlaps of the first `k` rectangles with every rectangle,
/// concatenated.
pub open spec fn all_overlaps(rects: Seq<Rect>, k: int) -> Seq<Rect>
    decreases k,
{
    if k <= 0 {
        Seq::empty()
    } else {
        all_overlaps(rects, k - 1) + overlaps_of_idx(rects, k - 1)
    }
}

/// The total obscured area: per-rectangle overlap coverage summed, minus the
/// coverage of the union of all overlaps, so that an area overlapped by `n`
/// further rectangles counts `n` times rather than `n + 1`.
pub open spec fn obscured_area_of(rects: Seq<Rect>) -> int {
    if rects.len() < 2 {
        0
    } else {
        sum_overlap_areas(rects, rects.len() as int) - covered_area_of(
            all_overlaps(rects, rects.len() as int),
        )
    }
}

/// Every rectangle produced by `pair_overlaps` fits inside `rects[i]`'s
/// edges.
pub proof fn lemma_pair_overlaps_elems(rects: Seq<Rect>, i: int, k: int)
    requires
        0 <= i < rects.len(),
        k <= rects.len(),
    ensures
        forall|m: int|
            0 <= m < pair_overlaps(rects, i, k).len() ==> right_of(
                #[trigger] pair_overlaps(rects, i, k)[m],
            ) <= right_of(rects[i]) && bottom_of(pair_overlaps(rects, i, k)[m]) <= bottom_of(
                rects[i],
            ),
    decreases k,
{
    if k > 0 {
        lemma_pair_overlaps_elems(rects, i, k - 1);
        let prev = pair_overlaps(rects, i, k - 1);
        let cur = pair_overlaps(rects, i, k);
        assert forall|m: int| 0 <= m < cur.len() implies right_of(#[trigger] cur[m]) <= right_of(
            rects[i],
        ) && bottom_of(cur[m]) <= bottom_of(rects[i]) by {
            if m < prev.len() {
                assert(cur[m] == prev[m]);
            }
        }
    }
}

/// The union of all overlap groups covers no more than the groups cover
/// separately.
pub proof fn lemma_all_overlaps_bound(rects: Seq<Rect>, k: int)
    ensures
        covered_area_of(all_overlaps(rects, k)) <= sum_overlap_areas(rects, k),
    decreases k,
{
    if k <= 0 {
        assert(col_cells(Seq::<Rect>::empty(), 0) =~= Set::<int>::empty());
        assert(covered_area_of(Seq::<Rect>::empty()) == 0);
    } else {
        lemma_all_overlaps_bound(rects, k - 1);
        lemma_covered_subadditive(all_overlaps(rects, k - 1), overlaps_of_idx(rects, k - 1));
    }
}

/// The total area obscured in a set of rectangles. If `n` rectangles are
/// overlapped by an `n + 1`th rectangle, the overlapped area is counted `n`
/// times, but not `n + 1` times.
pub fn obscured_area(rects: &Vec<Rect>) -> (r: usize)
    requires
        forall|i: int| 0 <= i < rects@.len() ==> rect_wf(#[trigger] rects@[i]),
        rects@.len() * (max_right(rects@) * max_bottom(rects@)) <= usize::MAX,
    ensures
        r == obscured_area_of(rects@),
{
    if rects.len() < 2 {
        return 0;
    }
    proof {
        lemma_max_edges(rects@);
        lemma_max_edges_bounded(rects@, usize::MAX as int, usize::MAX as int);
        assert(max_right(rects@) * max_bottom(rects@) <= usize::MAX) by (nonlinear_arith)
            requires
                rects@.len() >= 2,
                0 <= max_right(rects@) * max_bottom(rects@),
                rects@.len() * (max_right(rects@) * max_bottom(rects@)) <= usize::MAX,
        ;
    }
    let ghost mr = max_right(rects@);
    let ghost mb = max_bottom(rects@);
    let ghost cap = Size { width: mr as usize, height: mb as usize };
    let mut sum: usize = 0;
    let mut all: Vec<Rect> = Vec::new();
    let mut i: usize = 0;
    while i < rects.len()
        invariant
            2 <= rects.len(),
            i <= rects.len(),
            forall|k: int| 0 <= k < rects@.len() ==> rect_wf(#[trigger] rects@[k]),
            mr == max_right(rects@),
            mb == max_bottom(rects@),
            0 <= mr <= usize::MAX,
            0 <= mb <= usize::MAX,
            cap == (Size { width: mr as usize, height: mb as usize }),
            rects@.len() * (mr * mb) <= usize::MAX,
            mr * mb <= usize::MAX,
            sum == sum_overlap_areas(rects@, i as int),
            sum <= i * (mr * mb),
            all@ == all_overlaps(rects@, i as int),
            forall|k: int| 0 <= k < all@.len() ==> contained_in(#[trigger] all@[k], cap),
        decreases rects.len() - i,
    {
        let mut ov: Vec<Rect> = Vec::new();
        let mut j: usize = 0;
        while j < rects.len()
            invariant
                i < rects.len(),
                j <= rects.len(),
                forall|k: int| 0 <= k < rects@.len() ==> rect_wf(#[trigger] rects@[k]),
                mr == max_right(rects@),
                mb == max_bottom(rects@),
                0 <= mr <= usize::MAX,
                0 <= mb <= usize::MAX,
                cap == (Size { width: mr as usize, height: mb as usize }),
                ov@ == pair_overlaps(rects@, i as int, j as int),
                forall|k: int| 0 <= k < ov@.len() ==> contained_in(#[trigger] ov@[k], cap),
            decreases rects.len() - j,
        {
            if j != i {
                let o = rects[i].overlap(&rects[j]);
                match o {
                    Some(x) => {
                        let ghost prev = ov@;
                        proof {
                            lemma_max_edges(rects@);
                            assert(right_of(x) <= right_of(rects@[i as int]));
                            assert(contained_in(x, cap));
                        }
                        ov.push(x);
                        proof {
                            assert forall|k: int| 0 <= k < ov@.len() implies contained_in(
                                #[trigger] ov@[k],
                                cap,
                            ) by {
                                if k < prev.len() {
                                    assert(ov@[k] == prev[k]);
                                }
                            }
                        }
                    },
                    None => {},
                }
            }
            j += 1;
        }
        proof {
            assert forall|k: int| 0 <= k < ov@.len() implies rect_wf(#[trigger] ov@[k]) by {
                assert(contained_in(ov@[k], cap));
            }
            lemma_max_edges_bounded(ov@, mr, mb);
            assert(max_right(ov@) * max_bottom(ov@) <= mr * mb) by (nonlinear_arith)
                requires
                    0 <= max_right(ov@) <= mr,
                    0 <= max_bottom(ov@) <= mb,
            ;
        }
        let cov = covered_area(&ov);
        proof {
            lemma_covered_bound(ov@, cap);
            assert(i * (mr * mb) + mr * mb == (i + 1) * (mr * mb)) by (nonlinear_arith);
            assert((i + 1) * (mr * mb) <= rects@.len() * (mr * mb)) by (nonlinear_arith)
                requires
                    i + 1 <= rects@.len(),
                    0 <= mr * mb,
            ;
            assert(cap.width * cap.height == mr * mb);
        }
        sum += cov;
        let mut k: usize = 0;
        let ghost all_prev = all@;
        while k < ov.len()
            invariant
                k <= ov.len(),
                all@ == all_prev + ov@.take(k as int),
                forall|m: int| 0 <= m < ov@.len() ==> contained_in(#[trigger] ov@[m], cap),
                forall|m: int| 0 <= m < all_prev.len() ==> contained_in(#[trigger] all_prev[m], cap),
            decreases ov.len() - k,
        {
            proof {
                assert(all_prev + ov@.take(k + 1) =~= (all_prev + ov@.take(k as int)).push(
                    ov@[k as int],
                ));
            }
            let v = ov[k];
            all.push(v);
            k += 1;
            proof {
                assert forall|m: int| 0 <= m < all@.len() implies contained_in(
                    #[trigger] all@[m],
                    cap,
                ) by {
                    if m < all_prev.len() {
                        assert(all@[m] == all_prev[m]);
                    } else {
                        assert(all@[m] == ov@[m - all_prev.len()]);
                    }
                }
            }
        }
        proof {
            assert(ov@.take(ov@.len() as int) =~= ov@);
            assert(all@ == all_overlaps(rects@, i + 1));
        }
        i += 1;
    }
    proof {
        assert forall|k: int| 0 <= k < all@.len() implies rect_wf(#[trigger] all@[k]) by {
            assert(contained_in(all@[k], cap));
        }
        lemma_max_edges_bounded(all@, mr, mb);
        assert(max_right(all@) * max_bottom(all@) <= mr * mb) by (nonlinear_arith)
            requires
                0 <= max_right(all@) <= mr,
                0 <= max_bottom(all@) <= mb,
        ;
        lemma_all_overlaps_bound(rects@, rects@.len() as int);
    }
    let total = covered_area(&all);
    sum - total
}

/// Every overlap of one rectangle occurs among all overlaps.
proof fn lemma_chunk_in_all(rects: Seq<Rect>, i: int, k: int)
    requires
        0 <= i < k,
    ensures
        forall|r: Rect|
            overlaps_of_idx(rects, i).contains(r) ==> all_overlaps(rects, k).contains(r),
    decreases k,
{
    let left = all_overlaps(rects, k - 1);
    let chunk = overlaps_of_idx(rects, k - 1);
    if i == k - 1 {
        assert forall|r: Rect| overlaps_of_idx(rects, i).contains(r) implies all_overlaps(
            rects,
            k,
        ).contains(r) by {
            let m = choose|m: int| 0 <= m < chunk.len() && chunk[m] == r;
            assert((left + chunk)[left.len() + m] == r);
        }
    } else {
        lemma_chunk_in_all(rects, i, k - 1);
        assert forall|r: Rect| overlaps_of_idx(rects, i).contains(r) implies all_overlaps(
            rects,
            k,
        ).contains(r) by {
            let m = choose|m: int| 0 <= m < left.len() && left[m] == r;
            assert((left + chunk)[m] == r);
        }
    }
}

/// Partial sums of overlap areas, with every term but the first bounded by
/// `a`.
proof fn lemma_sum_minus_first(rects: Seq<Rect>, k: int, a: int)
    requires
        k >= 1,
        a >= 0,
        forall|i: int|
            0 <= i < k ==> covered_area_of(#[trigger] overlaps_of_idx(rects, i)) <= a,
    ensures
        sum_overlap_areas(rects, k) <= covered_area_of(overlaps_of_idx(rects, 0)) + (k - 1) * a,
    decreases k,
{
    if k == 1 {
        assert(sum_overlap_areas(rects, 1) == sum_overlap_areas(rects, 0) + covered_area_of(
            overlaps_of_idx(rects, 0),
        ));
    } else {
        lemma_sum_minus_first(rects, k - 1, a);
        assert(sum_overlap_areas(rects, k) == sum_overlap_areas(rects, k - 1) + covered_area_of(
            overlaps_of_idx(rects, k - 1),
        ));
        assert(covered_area_of(overlaps_of_idx(rects, k - 1)) <= a);
        assert((k - 2) * a + a == (k - 1) * a) by (nonlinear_arith);
    }
}

/// The obscured area is non-negative and, for rectangles contained in a
/// container, at most `count - 1` times the container's area.
pub proof fn lemma_obscured_bound(rects: Seq<Rect>, c: Size)
    requires
        forall|i: int| 0 <= i < rects.len() ==> contained_in(#[trigger] rects[i], c),
    ensures
        0 <= obscured_area_of(rects),
        rects.len() >= 1 ==> obscured_area_of(rects) <= (rects.len() - 1) * (c.width * c.height),
{
    let n = rects.len() as int;
    lemma_all_overlaps_bound(rects, n);
    if rects.len() >= 2 {
        let ghost area = (c.width * c.height) as int;
        vstd::arithmetic::mul::lemma_mul_nonnegative(c.width as int, c.height as int);
        assert forall|i: int| 0 <= i < n implies covered_area_of(
            #[trigger] overlaps_of_idx(rects, i),
        ) <= area by {
            lemma_pair_overlaps_elems(rects, i, n);
            assert(forall|m: int|
                0 <= m < overlaps_of_idx(rects, i).len() ==> contained_in(
                    #[trigger] overlaps_of_idx(rects, i)[m],
                    c,
                ));
            lemma_covered_bound(overlaps_of_idx(rects, i), c);
        }
        lemma_sum_minus_first(rects, n, area);
        lemma_chunk_in_all(rects, 0, n);
        lemma_covered_mono(overlaps_of_idx(rects, 0), all_overlaps(rects, n));
    } else {
        assert(obscured_area_of(rects) == 0);
        if rects.len() >= 1 {
            vstd::arithmetic::mul::lemma_mul_nonnegative(c.width as int, c.height as int);
            vstd::arithmetic::mul::lemma_mul_nonnegative(
                rects.len() - 1,
                (c.width * c.height) as int,
            );
        }
    }
}

/// An open interval `(lo, hi)` of coordinates; used for edge spans, where
/// merely touching at an endpoint does not count as intersecting.
#[derive(Clone, Copy, Debug, PartialEq, Eq, Structural)]
pub struct RangeExclusive(pub usize, pub usize);

/// Membership in the open interval.
pub open spec fn range_contains(r: RangeExclusive, x: int) -> bool {
    x > r.0 && x < r.1
}

/// Two open intervals intersect when they are identical or one holds an
/// endpoint of the other strictly inside itself.
pub open spec fn ranges_intersect(a: RangeExclusive, b: RangeExclusive) -> bool {
    a == b || range_contains(a, b.0 as int) || range_contains(a, b.1 as int) || range_contains(
        b,
        a.0 as int,
    ) || range_contains(b, a.1 as int)
}

impl RangeExclusive {
    pub fn intersects(self, other: RangeExclusive) -> (r: bool)
        ensures
            r == ranges_intersect(self, other),
    {
        (self.0 == other.0 && self.1 == other.1) || self.contains_either(other)
            || other.contains_either(self)
    }

    fn contains_either(self, other: RangeExclusive) -> (r: bool)
        ensures
            r == (range_contains(self, other.0 as int) || range_contains(self, other.1 as int)),
    {
        self.contains(other.0) || self.contains(other.1)
    }

    pub fn contains(self, x: usize) -> (r: bool)
        ensures
            r == range_contains(self, x as int),
    {
        x > self.0 && x < self.1
    }
}

} // verus!
