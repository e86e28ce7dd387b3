//! The gaps objective: minimize empty space.

use crate::frac::Frac;
use crate::rect::{contained_in, covered_area, covered_area_of, max_right, max_bottom, Rect, Size};
use crate::rect::{lemma_covered_bound, lemma_covered_pos, lemma_max_edges_bounded, sized};
use vstd::prelude::*;

verus! {

/// Scores how much of the container is left uncovered, normalized so that
/// an empty arrangement scores 1 and an exact tiling scores 0.
#[derive(Clone, Copy, Debug, PartialEq, Eq, Structural)]
pub struct MinimizeGaps {
    pub container: Size,
    pub worst_case: usize,
}

impl MinimizeGaps {
    /// The constructor's promise: the worst case is the container's area
    /// less one, the most that can be uncovered when any rectangle at all
    /// is placed.
    pub open spec fn wf(self) -> bool {
        &&& self.container.width * self.container.height >= 2
        &&& self.container.width * self.container.height <= usize::MAX
        &&& self.worst_case == self.container.width * self.container.height - 1
    }

    /// The score as an exact fraction: uncovered area over the worst case,
    /// and exactly 1 for an empty arrangement.
    pub open spec fn score(self, rects: Seq<Rect>) -> (int, int) {
        if rects.len() == 0 {
            (1int, 1int)
        } else {
            (
                self.container.width * self.container.height - covered_area_of(rects),
                self.container.width * self.container.height - 1,
            )
        }
    }

    pub fn new(container: Size) -> (r: Self)
        requires
            2 <= container.width * container.height <= usize::MAX,
        ensures
            r.wf(),
            r.container == container,
    {
        MinimizeGaps { container, worst_case: container.area() - 1 }
    }

    /// Evaluate the uncovered fraction of the container. In `[0, 1]` for
    /// any contained arrangement of positive-size rectangles.
    pub fn evaluate(&self, rects: &Vec<Rect>) -> (r: Frac)
        requires
            self.wf(),
            forall|i: int|
                0 <= i < rects@.len() ==> contained_in(#[trigger] rects@[i], self.container)
                    && sized(rects@[i]),
        ensures
            (r.num as int, r.den as int) == self.score(rects@),
            r.num <= r.den,
            r.den >= 1,
    {
        if rects.len() == 0 {
            Frac::one()
        } else {
            proof {
                lemma_max_edges_bounded(
                    rects@,
                    self.container.width as int,
                    self.container.height as int,
                );
                assert(max_right(rects@) * max_bottom(rects@) <= self.container.width
                    * self.container.height) by (nonlinear_arith)
                    requires
                        0 <= max_right(rects@) <= self.container.width,
                        0 <= max_bottom(rects@) <= self.container.height,
                ;
                lemma_covered_bound(rects@, self.container);
                lemma_covered_pos(rects@);
            }
            let cov = covered_area(rects);
            Frac::new(self.container.area() - cov, self.worst_case)
        }
    }
}

} // verus!
