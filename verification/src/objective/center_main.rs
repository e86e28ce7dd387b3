//! The center-main objective: place the primary rectangle centrally.

use crate::frac::Frac;
use crate::rect::{contained_in, dist_of, rect_wf, sized, Pos, Rect, Size};
use vstd::prelude::*;

verus! {

/// The container's center point.
pub open spec fn center_of(c: Size) -> Pos {
    Pos { x: (c.width / 2) as usize, y: (c.height / 2) as usize }
}

/// The center point of rectangle `r`.
pub open spec fn rect_center(r: Rect) -> Pos {
    Pos { x: (r.pos.x + r.size.width / 2) as usize, y: (r.pos.y + r.size.height / 2) as usize }
}

/// Scores the primary rectangle's distance from the container's center,
/// normalized against the farther of the container's origin and opposite
/// corner.
#[derive(Clone, Copy, Debug, PartialEq, Eq, Structural)]
pub struct CenterMain {
    pub container: Size,
    pub center: Pos,
    pub worst_case: usize,
}

impl CenterMain {
    pub open spec fn worst_spec(self) -> int {
        let to_origin = dist_of(self.center, Pos { x: 0, y: 0 });
        let to_corner = dist_of(
            self.center,
            Pos { x: self.container.width, y: self.container.height },
        );
        if to_origin >= to_corner {
            to_origin
        } else {
            to_corner
        }
    }

    pub open spec fn wf(self) -> bool {
        &&& self.container.width >= 1
        &&& self.container.height >= 1
        &&& self.container.width + self.container.height <= usize::MAX
        &&& self.center == center_of(self.container)
        &&& self.worst_case == self.worst_spec()
    }

    /// The score: the main rectangle's center-to-center distance over the
    /// worst case; 0 when there are no rectangles.
    pub open spec fn score(self, rects: Seq<Rect>) -> (int, int) {
        if rects.len() == 0 {
            (0int, 1int)
        } else {
            (dist_of(rect_center(rects[0]), self.center), self.worst_case as int)
        }
    }

    pub fn new(container: Size) -> (r: Self)
        requires
            container.width >= 1,
            container.height >= 1,
            container.width + container.height <= usize::MAX,
        ensures
            r.wf(),
            r.container == container,
    {
        let center = Pos::new(container.width / 2, container.height / 2);
        let to_origin = center.dist(Pos::new(0, 0));
        let to_corner = center.dist(Pos::new(container.width, container.height));
        let worst = if to_origin >= to_corner {
            to_origin
        } else {
            to_corner
        };
        CenterMain { container, center, worst_case: worst }
    }

    /// Evaluate how far the primary rectangle sits from the container's
    /// center. In `[0, 1]` for contained rectangles.
    pub fn evaluate(&self, rects: &Vec<Rect>) -> (r: Frac)
        requires
            self.wf(),
            forall|i: int|
                0 <= i < rects@.len() ==> contained_in(#[trigger] rects@[i], self.container)
                    && sized(rects@[i]),
        ensures
            (r.num as int, r.den as int) == self.score(rects@),
            r.num <= r.den,
            r.den >= 1,
    {
        if rects.len() == 0 {
            return Frac::zero();
        }
        let main = rects[0];
        proof {
            assert(contained_in(rects@[0], self.container));
            assert(rect_wf(main));
        }
        let c = main.center();
        let d = c.dist(self.center);
        proof {
            // The center lies in the container, and the worst case is the
            // distance to the far corner, which dominates any contained
            // point's distance to the center.
            let cw = self.container.width as int;
            let ch = self.container.height as int;
            let cx = self.center.x as int;
            let cy = self.center.y as int;
            assert(cx <= cw - cx && cy <= ch - cy);
            assert(rect_center(main).x <= cw && rect_center(main).y <= ch);
            assert(dist_of(rect_center(main), self.center) <= (cw - cx) + (ch - cy));
            assert((cw - cx) + (ch - cy) == dist_of(
                self.center,
                Pos { x: self.container.width, y: self.container.height },
            ));
        }
        Frac::new(d, self.worst_case)
    }
}

} // verus!
