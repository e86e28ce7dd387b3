//! The adjacent-close objective: keep consecutive rectangles near each
//! other.

use crate::frac::Frac;
use crate::rect::{contained_in, dist_of, rect_wf, sized, Pos, Rect, Size};
use vstd::prelude::*;

verus! {

/// The top-left corner of `r`.
pub open spec fn tl(r: Rect) -> Pos {
    r.pos
}

/// The top-right corner of `r`.
pub open spec fn tr(r: Rect) -> Pos {
    Pos { x: (r.pos.x + r.size.width) as usize, y: r.pos.y }
}

/// The bottom-left corner of `r`.
pub open spec fn bl(r: Rect) -> Pos {
    Pos { x: r.pos.x, y: (r.pos.y + r.size.height) as usize }
}

/// The bottom-right corner of `r`.
pub open spec fn br(r: Rect) -> Pos {
    Pos { x: (r.pos.x + r.size.width) as usize, y: (r.pos.y + r.size.height) as usize }
}

/// The smaller of two integers.
pub open spec fn imin(a: int, b: int) -> int {
    if a <= b {
        a
    } else {
        b
    }
}

/// The minimum Manhattan distance among the eight cross-corner pairs of two
/// rectangles.
pub open spec fn min8(a: Rect, b: Rect) -> int {
    imin(
        imin(
            imin(dist_of(tl(a), tr(b)), dist_of(tl(a), bl(b))),
            imin(dist_of(tr(a), tl(b)), dist_of(tr(a), br(b))),
        ),
        imin(
            imin(dist_of(bl(a), tl(b)), dist_of(bl(a), br(b))),
            imin(dist_of(br(a), tr(b)), dist_of(br(a), bl(b))),
        ),
    )
}

/// The summed corner distances of the first `n` consecutive pairs.
pub open spec fn pair_dist_sum(rects: Seq<Rect>, n: int) -> int
    decreases n,
{
    if n < 2 {
        0
    } else {
        pair_dist_sum(rects, n - 1) + min8(rects[n - 2], rects[n - 1])
    }
}

/// The normalizing distance: from just inside the origin to just inside
/// the opposite corner, comparing only the corner pairs the objective
/// compares.
pub open spec fn adjacent_worst_unit(c: Size) -> int {
    dist_of(Pos { x: 1, y: 1 }, Pos { x: c.width, y: (c.height - 1) as usize })
}

/// For containers of at least three units a side, the nearest corner pair
/// of two contained rectangles is never farther than the normalizing
/// distance.
pub proof fn lemma_min8_bound(a: Rect, b: Rect, c: Size)
    requires
        contained_in(a, c),
        contained_in(b, c),
        sized(a),
        sized(b),
        c.width >= 3,
        c.height >= 3,
    ensures
        min8(a, b) <= adjacent_worst_unit(c),
{
    assert(min8(a, b) <= adjacent_worst_unit(c)) by {
        assert(dist_of(tl(a), bl(b)) + dist_of(tr(a), br(b)) + dist_of(bl(a), tl(b)) + dist_of(
            br(a),
            tr(b),
        ) >= 0);
    }
}

/// The least Manhattan distance among the eight compared corner pairs.
#[verifier::rlimit(100)]
fn min_corner_dist(a: Rect, b: Rect, c: Size) -> (m: usize)
    requires
        contained_in(a, c),
        contained_in(b, c),
        c.width + c.height <= usize::MAX / 4,
    ensures
        m == min8(a, b),
        m <= 2 * (c.width + c.height),
{
    let atl = a.top_left();
    let atr = a.top_right();
    let abl = a.bottom_left();
    let abr = a.bottom_right();
    let btl = b.top_left();
    let btr = b.top_right();
    let bbl = b.bottom_left();
    let bbr = b.bottom_right();
    let mut m = atl.dist(btr);
    let d2 = atl.dist(bbl);
    if d2 < m {
        m = d2;
    }
    let d3 = atr.dist(btl);
    if d3 < m {
        m = d3;
    }
    let d4 = atr.dist(bbr);
    if d4 < m {
        m = d4;
    }
    let d5 = abl.dist(btl);
    if d5 < m {
        m = d5;
    }
    let d6 = abl.dist(bbr);
    if d6 < m {
        m = d6;
    }
    let d7 = abr.dist(btr);
    if d7 < m {
        m = d7;
    }
    let d8 = abr.dist(bbl);
    if d8 < m {
        m = d8;
    }
    m
}

/// Scores the distance between consecutive rectangles, normalized against
/// opposite-corner placement.
#[derive(Clone, Copy, Debug, PartialEq, Eq, Structural)]
pub struct PlaceAdjacentClose {
    pub container: Size,
    pub count: usize,
    pub worst_case: usize,
}

impl PlaceAdjacentClose {
    pub open spec fn wf(self) -> bool {
        &&& self.container.width >= 1
        &&& self.container.height >= 1
        &&& self.container.width + self.container.height <= usize::MAX / 4
        &&& self.count * (self.container.width + self.container.height) <= usize::MAX / 2
        &&& (self.count >= 2 ==> adjacent_worst_unit(self.container) >= 1)
        &&& self.worst_case == (if self.count >= 1 {
            (self.count - 1) * adjacent_worst_unit(self.container)
        } else {
            0int
        })
    }

    /// The score: summed nearest-corner distances of consecutive pairs
    /// over the worst case; 0 for fewer than two rectangles.
    pub open spec fn score(self, rects: Seq<Rect>) -> (int, int) {
        if rects.len() < 2 {
            (0int, 1int)
        } else {
            (pair_dist_sum(rects, rects.len() as int), self.worst_case as int)
        }
    }

    pub fn new(container: Size, count: usize) -> (r: Self)
        requires
            container.width >= 1,
            container.height >= 1,
            container.width + container.height <= usize::MAX / 4,
            count * (container.width + container.height) <= usize::MAX / 2,
            count >= 2 ==> adjacent_worst_unit(container) >= 1,
        ensures
            r.wf(),
            r.container == container,
            r.count == count,
    {
        let unit = Pos::new(1, 1).dist(Pos::new(container.width, container.height - 1));
        proof {
            if count >= 1 {
                assert(0 <= (count - 1) * adjacent_worst_unit(container) && (count - 1) * (unit
                    as int) <= count * ((container.width + container.height) as int))
                    by (nonlinear_arith)
                    requires
                        count >= 1,
                        0 <= unit <= container.width + container.height,
                        unit == adjacent_worst_unit(container),
                ;
            }
        }
        let worst = if count >= 1 {
            (count - 1) * unit
        } else {
            0
        };
        PlaceAdjacentClose { container, count, worst_case: worst }
    }

    /// Evaluate the summed nearest-corner distance of consecutive pairs.
    /// In `[0, 1]` for exactly `count` contained rectangles in a container
    /// of at least three units a side.
    #[verifier::rlimit(100)]
    pub fn evaluate(&self, rects: &Vec<Rect>) -> (r: Frac)
        requires
            self.wf(),
            rects@.len() == self.count,
            forall|i: int|
                0 <= i < rects@.len() ==> contained_in(#[trigger] rects@[i], self.container)
                    && sized(rects@[i]),
        ensures
            (r.num as int, r.den as int) == self.score(rects@),
            self.container.width >= 3 && self.container.height >= 3 ==> r.num <= r.den,
            r.den >= 1,
    {
        let n = rects.len();
        if n < 2 {
            return Frac::zero();
        }
        let ghost unit = adjacent_worst_unit(self.container);
        let mut acc: usize = 0;
        let mut k: usize = 0;
        while k < n - 1
            invariant
                self.wf(),
                n == rects@.len() == self.count,
                n >= 2,
                k <= n - 1,
                forall|i: int|
                    0 <= i < rects@.len() ==> contained_in(#[trigger] rects@[i], self.container)
                        && sized(rects@[i]),
                unit == adjacent_worst_unit(self.container),
                acc == pair_dist_sum(rects@, k + 1),
                acc <= k * (2 * (self.container.width + self.container.height)),
                self.container.width >= 3 && self.container.height >= 3 ==> acc <= k * unit,
            decreases n - k,
        {
            let a = rects[k];
            let b = rects[k + 1];
            proof {
                assert(contained_in(rects@[k as int], self.container));
                assert(contained_in(rects@[k + 1], self.container));
                assert(rect_wf(a) && rect_wf(b));
            }
            let m = min_corner_dist(a, b, self.container);
            proof {
                assert(m <= 2 * (self.container.width + self.container.height));
                if self.container.width >= 3 && self.container.height >= 3 {
                    lemma_min8_bound(rects@[k as int], rects@[k + 1], self.container);
                }
                assert((k + 1) * (2 * (self.container.width + self.container.height)) == k * (2
                    * (self.container.width + self.container.height)) + 2 * (self.container.width
                    + self.container.height)) by (nonlinear_arith);
                assert((k + 1) * unit == k * unit + unit) by (nonlinear_arith);
                assert(k + 1 <= self.count);
                assert((k + 1) * (2 * ((self.container.width + self.container.height) as int))
                    <= self.count * (2 * ((self.container.width + self.container.height) as int)))
                    by (nonlinear_arith)
                    requires
                        k + 1 <= self.count,
                        0 <= self.container.width + self.container.height,
                ;
                assert(self.count * (2 * ((self.container.width + self.container.height) as int))
                    == 2 * (self.count * ((self.container.width + self.container.height) as int)))
                    by (nonlinear_arith);
            }
            acc = acc + m;
            k += 1;
        }
        proof {
            if self.container.width >= 3 && self.container.height >= 3 {
                assert((n - 1) * unit == self.worst_case);
            }
            assert(self.worst_case >= 1) by (nonlinear_arith)
                requires
                    self.worst_case == (self.count - 1) * adjacent_worst_unit(self.container),
                    self.count >= 2,
                    adjacent_worst_unit(self.container) >= 1,
            ;
        }
        Frac::new(acc, self.worst_case)
    }
}

} // verus!
