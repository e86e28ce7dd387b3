//! The reading-order objective: penalize pairs out of top-to-bottom,
//! left-to-right order.

use crate::frac::Frac;
use crate::rect::Rect;
use vstd::prelude::*;

verus! {

/// A consecutive pair violates reading order when the later rectangle is
/// strictly above or strictly left of the earlier one.
pub open spec fn violates(a: Rect, b: Rect) -> bool {
    b.pos.y < a.pos.y || b.pos.x < a.pos.x
}

/// The number of consecutive pairs among the first `n` rectangles that
/// violate reading order.
pub open spec fn violations(rects: Seq<Rect>, n: int) -> int
    decreases n,
{
    if n < 2 {
        0
    } else {
        violations(rects, n - 1) + if violates(rects[n - 2], rects[n - 1]) {
            1int
        } else {
            0int
        }
    }
}

/// Violations among `n` rectangles never exceed the `n - 1` pairs.
pub proof fn lemma_violations_bound(rects: Seq<Rect>, n: int)
    ensures
        0 <= violations(rects, n),
        n >= 1 ==> violations(rects, n) <= n - 1,
    decreases n,
{
    if n >= 2 {
        lemma_violations_bound(rects, n - 1);
    }
}

/// Scores how far the arrangement is from reading order.
#[derive(Clone, Copy, Debug, PartialEq, Eq, Structural)]
pub struct PlaceInReadingOrder {
    pub count: usize,
    pub worst_case: usize,
}

impl PlaceInReadingOrder {
    pub open spec fn wf(self) -> bool {
        self.worst_case == if self.count >= 1 {
            self.count - 1
        } else {
            0int
        }
    }

    /// The score: violating pairs over `count - 1`, 0 for fewer than two
    /// rectangles.
    pub open spec fn score(self, rects: Seq<Rect>) -> (int, int) {
        if rects.len() < 2 {
            (0int, 1int)
        } else {
            (violations(rects, rects.len() as int), self.worst_case as int)
        }
    }

    pub fn new(count: usize) -> (r: Self)
        ensures
            r.wf(),
            r.count == count,
    {
        PlaceInReadingOrder { count, worst_case: if count >= 1 {
            count - 1
        } else {
            0
        } }
    }

    /// Evaluate the violating fraction of consecutive pairs. In `[0, 1]`
    /// for exactly `count` rectangles.
    pub fn evaluate(&self, rects: &Vec<Rect>) -> (r: Frac)
        requires
            self.wf(),
            rects@.len() == self.count,
        ensures
            (r.num as int, r.den as int) == self.score(rects@),
            r.num <= r.den,
            r.den >= 1,
    {
        let n = rects.len();
        if n < 2 {
            return Frac::zero();
        }
        proof {
            lemma_violations_bound(rects@, n as int);
        }
        let mut v: usize = 0;
        let mut k: usize = 0;
        while k < n - 1
            invariant
                k <= n - 1,
                n == rects@.len(),
                n >= 2,
                v == violations(rects@, k + 1),
            decreases n - k,
        {
            proof {
                lemma_violations_bound(rects@, k + 1);
                lemma_violations_bound(rects@, k + 2);
            }
            let a = rects[k];
            let b = rects[k + 1];
            if b.top() < a.top() || b.left() < a.left() {
                v += 1;
            }
            k += 1;
        }
        Frac::new(v, self.worst_case)
    }
}

} // verus!
