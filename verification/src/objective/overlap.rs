//! The overlap objective: minimize obscured area.

use crate::frac::Frac;
use crate::rect::{
    contained_in, lemma_max_edges_bounded, lemma_obscured_bound, max_bottom, max_right,
    obscured_area, obscured_area_of, Rect, Size,
};
use vstd::prelude::*;

verus! {

/// Scores how much area rectangles take from one another, normalized
/// against every rectangle covering the whole container.
#[derive(Clone, Copy, Debug, PartialEq, Eq, Structural)]
pub struct MinimizeOverlap {
    pub container: Size,
    pub count: usize,
    pub worst_case: usize,
}

impl MinimizeOverlap {
    pub open spec fn wf(self) -> bool {
        &&& self.container.width * self.container.height >= 1
        &&& self.count * (self.container.width * self.container.height) <= usize::MAX
        &&& self.worst_case == (if self.count >= 1 {
            (self.count - 1) * (self.container.width * self.container.height)
        } else {
            0int
        })
    }

    /// The score as an exact fraction: obscured area over `(count - 1)`
    /// containers, and 0 for fewer than two rectangles.
    pub open spec fn score(self, rects: Seq<Rect>) -> (int, int) {
        if rects.len() < 2 {
            (0int, 1int)
        } else {
            (obscured_area_of(rects), self.worst_case as int)
        }
    }

    pub fn new(container: Size, count: usize) -> (r: Self)
        requires
            1 <= container.width * container.height <= usize::MAX,
            count * (container.width * container.height) <= usize::MAX,
        ensures
            r.wf(),
            r.container == container,
            r.count == count,
    {
        proof {
            if count >= 1 {
                assert((count - 1) * (container.width * container.height) <= count * (
                container.width * container.height) && 0 <= (count - 1) * (container.width
                    * container.height)) by (nonlinear_arith)
                    requires
                        count >= 1,
                        0 <= container.width * container.height,
                ;
            }
        }
        let area = container.area();
        let worst = if count >= 1 {
            (count - 1) * area
        } else {
            0
        };
        MinimizeOverlap { container, count, worst_case: worst }
    }

    /// Evaluate the obscured fraction. In `[0, 1]` for a contained
    /// arrangement of exactly `count` rectangles.
    pub fn evaluate(&self, rects: &Vec<Rect>) -> (r: Frac)
        requires
            self.wf(),
            rects@.len() == self.count,
            forall|i: int|
                0 <= i < rects@.len() ==> contained_in(#[trigger] rects@[i], self.container),
        ensures
            (r.num as int, r.den as int) == self.score(rects@),
            r.num <= r.den,
            r.den >= 1,
    {
        if rects.len() < 2 {
            Frac::zero()
        } else {
            proof {
                lemma_max_edges_bounded(
                    rects@,
                    self.container.width as int,
                    self.container.height as int,
                );
                assert(max_right(rects@) * max_bottom(rects@) <= self.container.width
                    * self.container.height) by (nonlinear_arith)
                    requires
                        0 <= max_right(rects@) <= self.container.width,
                        0 <= max_bottom(rects@) <= self.container.height,
                ;
                vstd::arithmetic::mul::lemma_mul_inequality(
                    max_right(rects@) * max_bottom(rects@),
                    (self.container.width * self.container.height) as int,
                    rects@.len() as int,
                );
                assert(rects@.len() * (max_right(rects@) * max_bottom(rects@)) <= rects@.len()
                    * (self.container.width * self.container.height)) by (nonlinear_arith)
                    requires
                        max_right(rects@) * max_bottom(rects@) <= self.container.width
                            * self.container.height,
                        rects@.len() >= 0,
                ;
                lemma_obscured_bound(rects@, self.container);
                assert((rects@.len() - 1) * (self.container.width * self.container.height)
                    == self.worst_case);
                assert(self.worst_case >= 1) by (nonlinear_arith)
                    requires
                        self.worst_case == (self.count - 1) * (self.container.width
                            * self.container.height),
                        self.count >= 2,
                        self.container.width * self.container.height >= 1,
                ;
            }
            let ob = obscured_area(rects);
            Frac::new(ob, self.worst_case)
        }
    }
}

} // verus!
