//! The consistency objective: stay close to the previous arrangement.

use crate::frac::Frac;
use crate::rect::{contained_in, diff_of, rect_wf, sized, Pos, Rect, Size};
use vstd::prelude::*;

verus! {

/// The largest of two integers.
pub open spec fn imax(a: int, b: int) -> int {
    if a >= b {
        a
    } else {
        b
    }
}

/// The nine extreme rectangles of a container: every feasible combination
/// of a corner position with a minimal or maximal size.
pub open spec fn extreme(c: Size, k: int) -> Rect {
    let mx = (c.width - 1) as usize;
    let my = (c.height - 1) as usize;
    if k == 0 {
        Rect { pos: Pos { x: 0, y: 0 }, size: Size { width: 1, height: 1 } }
    } else if k == 1 {
        Rect { pos: Pos { x: 0, y: 0 }, size: Size { width: c.width, height: 1 } }
    } else if k == 2 {
        Rect { pos: Pos { x: 0, y: 0 }, size: Size { width: 1, height: c.height } }
    } else if k == 3 {
        Rect { pos: Pos { x: 0, y: 0 }, size: Size { width: c.width, height: c.height } }
    } else if k == 4 {
        Rect { pos: Pos { x: mx, y: 0 }, size: Size { width: 1, height: 1 } }
    } else if k == 5 {
        Rect { pos: Pos { x: mx, y: 0 }, size: Size { width: 1, height: c.height } }
    } else if k == 6 {
        Rect { pos: Pos { x: 0, y: my }, size: Size { width: 1, height: 1 } }
    } else if k == 7 {
        Rect { pos: Pos { x: 0, y: my }, size: Size { width: c.width, height: 1 } }
    } else {
        Rect { pos: Pos { x: mx, y: my }, size: Size { width: 1, height: 1 } }
    }
}

/// The farthest any contained rectangle can sit, in (x, y, width, height)
/// space, from `p`: its distance to the farthest of the nine extremes.
pub open spec fn max9(p: Rect, c: Size) -> int
    decreases 9int,
{
    imax(
        imax(
            imax(diff_of(p, extreme(c, 0)), diff_of(p, extreme(c, 1))),
            imax(diff_of(p, extreme(c, 2)), diff_of(p, extreme(c, 3))),
        ),
        imax(
            imax(diff_of(p, extreme(c, 4)), diff_of(p, extreme(c, 5))),
            imax(
                imax(diff_of(p, extreme(c, 6)), diff_of(p, extreme(c, 7))),
                diff_of(p, extreme(c, 8)),
            ),
        ),
    )
}

/// The summed worst-case distances of the first `n` previous rectangles.
pub open spec fn worst9_sum(prev: Seq<Rect>, c: Size, n: int) -> int
    decreases n,
{
    if n <= 0 {
        0
    } else {
        worst9_sum(prev, c, n - 1) + max9(prev[n - 1], c)
    }
}

/// The summed distances between the first `n` rectangles and their
/// previous counterparts.
pub open spec fn diff_sum(rects: Seq<Rect>, prev: Seq<Rect>, n: int) -> int
    decreases n,
{
    if n <= 0 {
        0
    } else {
        diff_sum(rects, prev, n - 1) + diff_of(rects[n - 1], prev[n - 1])
    }
}

/// A contained rectangle is never farther from `p` than the farthest
/// extreme: on each axis the feasible (position, size) pairs form a
/// triangle whose vertices are among the extremes.
pub proof fn lemma_diff_le_max9(r: Rect, p: Rect, c: Size)
    requires
        contained_in(r, c),
        sized(r),
        c.width >= 1,
        c.height >= 1,
    ensures
        diff_of(r, p) <= max9(p, c),
{
}

/// Scores the distance from the previous arrangement, normalized against
/// the farthest contained arrangement.
#[derive(Clone, Debug)]
pub struct MaximizeConsistency {
    pub container: Size,
    pub previous_layout: Vec<Rect>,
    pub worst_case: usize,
}

impl MaximizeConsistency {
    pub open spec fn wf(self) -> bool {
        &&& self.container.width >= 1
        &&& self.container.height >= 1
        &&& self.container.width + self.container.height <= usize::MAX / 4
        &&& self.previous_layout@.len() * (4 * (self.container.width + self.container.height))
            <= usize::MAX
        &&& forall|i: int|
            0 <= i < self.previous_layout@.len() ==> contained_in(
                #[trigger] self.previous_layout@[i],
                self.container,
            ) && sized(self.previous_layout@[i])
        &&& self.worst_case == worst9_sum(
            self.previous_layout@,
            self.container,
            self.previous_layout@.len() as int,
        )
    }

    /// The number of compared rectangles: the shorter of the two layouts.
    pub open spec fn zipped(self, rects: Seq<Rect>) -> int {
        if rects.len() <= self.previous_layout@.len() {
            rects.len() as int
        } else {
            self.previous_layout@.len() as int
        }
    }

    /// The score: summed distances to the previous layout over the worst
    /// case, or 0 when the worst case is itself 0.
    pub open spec fn score(self, rects: Seq<Rect>) -> (int, int) {
        if self.worst_case == 0 {
            (0int, 1int)
        } else {
            (diff_sum(rects, self.previous_layout@, self.zipped(rects)), self.worst_case as int)
        }
    }

    #[verifier::rlimit(100)]
    pub fn new(container: Size, previous_layout: Vec<Rect>) -> (r: Self)
        requires
            container.width >= 1,
            container.height >= 1,
            container.width + container.height <= usize::MAX / 4,
            previous_layout@.len() * (4 * (container.width + container.height)) <= usize::MAX,
            forall|i: int|
                0 <= i < previous_layout@.len() ==> contained_in(
                    #[trigger] previous_layout@[i],
                    container,
                ) && sized(previous_layout@[i]),
        ensures
            r.wf(),
            r.container == container,
            r.previous_layout == previous_layout,
    {
        let n = previous_layout.len();
        let ghost cap = 4 * ((container.width + container.height) as int);
        let mx = container.width - 1;
        let my = container.height - 1;
        let mut worst: usize = 0;
        let mut i: usize = 0;
        while i < n
            invariant
                container.width >= 1,
                container.height >= 1,
                container.width + container.height <= usize::MAX / 4,
                mx == container.width - 1,
                my == container.height - 1,
                n == previous_layout@.len(),
                n * (4 * (container.width + container.height)) <= usize::MAX,
                cap == 4 * ((container.width + container.height) as int),
                forall|k: int|
                    0 <= k < previous_layout@.len() ==> contained_in(
                        #[trigger] previous_layout@[k],
                        container,
                    ) && sized(previous_layout@[k]),
                i <= n,
                worst == worst9_sum(previous_layout@, container, i as int),
                worst <= i * cap,
            decreases n - i,
        {
            let p = previous_layout[i];
            proof {
                assert(contained_in(previous_layout@[i as int], container));
                assert(rect_wf(p));
            }
            let e0 = Rect::new(0, 0, 1, 1);
            let e1 = Rect::new(0, 0, container.width, 1);
            let e2 = Rect::new(0, 0, 1, container.height);
            let e3 = Rect::new(0, 0, container.width, container.height);
            let e4 = Rect::new(mx, 0, 1, 1);
            let e5 = Rect::new(mx, 0, 1, container.height);
            let e6 = Rect::new(0, my, 1, 1);
            let e7 = Rect::new(0, my, container.width, 1);
            let e8 = Rect::new(mx, my, 1, 1);
            let mut m = p.diff(e0);
            let d1 = p.diff(e1);
            if d1 > m {
                m = d1;
            }
            let d2 = p.diff(e2);
            if d2 > m {
                m = d2;
            }
            let d3 = p.diff(e3);
            if d3 > m {
                m = d3;
            }
            let d4 = p.diff(e4);
            if d4 > m {
                m = d4;
            }
            let d5 = p.diff(e5);
            if d5 > m {
                m = d5;
            }
            let d6 = p.diff(e6);
            if d6 > m {
                m = d6;
            }
            let d7 = p.diff(e7);
            if d7 > m {
                m = d7;
            }
            let d8 = p.diff(e8);
            if d8 > m {
                m = d8;
            }
            proof {
                assert(m == max9(previous_layout@[i as int], container));
                assert(m <= cap);
                assert((i + 1) * cap == i * cap + cap) by (nonlinear_arith);
                assert((i + 1) * cap <= n * cap) by (nonlinear_arith)
                    requires
                        i + 1 <= n,
                        cap >= 0,
                ;
                assert(n * cap == n * (4 * ((container.width + container.height) as int)));
            }
            worst = worst + m;
            i += 1;
        }
        MaximizeConsistency { container, previous_layout, worst_case: worst }
    }

    /// Evaluate the distance from the previous arrangement. In `[0, 1]`
    /// for contained rectangles when at least as many rectangles are given
    /// as the previous layout holds.
    #[verifier::rlimit(100)]
    pub fn evaluate(&self, rects: &Vec<Rect>) -> (r: Frac)
        requires
            self.wf(),
            forall|i: int|
                0 <= i < rects@.len() ==> contained_in(#[trigger] rects@[i], self.container)
                    && sized(rects@[i]),
        ensures
            (r.num as int, r.den as int) == self.score(rects@),
            rects@.len() >= self.previous_layout@.len() ==> r.num <= r.den,
            r.den >= 1,
    {
        if self.worst_case == 0 {
            return Frac::zero();
        }
        let n = if rects.len() <= self.previous_layout.len() {
            rects.len()
        } else {
            self.previous_layout.len()
        };
        let mut acc: usize = 0;
        let mut i: usize = 0;
        while i < n
            invariant
                self.wf(),
                n == self.zipped(rects@),
                n <= rects@.len(),
                n <= self.previous_layout@.len(),
                forall|k: int|
                    0 <= k < rects@.len() ==> contained_in(#[trigger] rects@[k], self.container)
                        && sized(rects@[k]),
                i <= n,
                acc == diff_sum(rects@, self.previous_layout@, i as int),
                acc <= worst9_sum(self.previous_layout@, self.container, i as int),
            decreases n - i,
        {
            let a = rects[i];
            let p = self.previous_layout[i];
            proof {
                assert(contained_in(rects@[i as int], self.container));
                assert(contained_in(self.previous_layout@[i as int], self.container));
                assert(rect_wf(a) && rect_wf(p));
                lemma_diff_le_max9(rects@[i as int], self.previous_layout@[i as int],
                    self.container);
                lemma_worst9_prefix(self.previous_layout@, self.container, i + 1,
                    self.previous_layout@.len() as int);
            }
            let d = a.diff(p);
            acc = acc + d;
            i += 1;
        }
        proof {
            lemma_worst9_prefix(
                self.previous_layout@,
                self.container,
                n as int,
                self.previous_layout@.len() as int,
            );
        }
        Frac::new(acc, self.worst_case)
    }
}

/// Worst-case sums only grow with more previous rectangles.
proof fn lemma_worst9_prefix(prev: Seq<Rect>, c: Size, m: int, n: int)
    requires
        0 <= m <= n <= prev.len(),
        c.width >= 1,
        c.height >= 1,
        forall|i: int|
            0 <= i < prev.len() ==> contained_in(#[trigger] prev[i], c) && sized(prev[i]),
    ensures
        worst9_sum(prev, c, m) <= worst9_sum(prev, c, n),
    decreases n,
{
    if n > m {
        lemma_worst9_prefix(prev, c, m, n - 1);
        lemma_diff_le_max9(prev[n - 1], prev[n - 1], c);
        assert(diff_of(prev[n - 1], prev[n - 1]) == 0);
        assert(max9(prev[n - 1], c) >= 0);
    }
}

} // verus!
