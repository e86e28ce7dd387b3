//! The multi-objective fitness evaluator.
//!
//! Eight independent scoring functions, each returning an exact fraction
//! analytically normalized to `[0, 1]`, combined into one fitness value by
//! non-negative fixed-point weights; a weight of zero disables its
//! objective. Lower fitness is better.

pub mod adjacent_close;
pub mod area_ratios;
pub mod aspect_ratios;
pub mod center_main;
pub mod consistency;
pub mod gaps;
pub mod overlap;
pub mod reading_order;


use crate::frac::{Frac, UNIT};
use crate::objective::adjacent_close::PlaceAdjacentClose;
use crate::objective::area_ratios::{max_num, AreaRatio, MaintainAreaRatios};
use crate::objective::aspect_ratios::{max_aspect_num, AspectRatio, MaintainAspectRatios};
use crate::objective::center_main::CenterMain;
use crate::objective::consistency::MaximizeConsistency;
use crate::objective::gaps::MinimizeGaps;
use crate::objective::overlap::MinimizeOverlap;
use crate::objective::reading_order::PlaceInReadingOrder;
use crate::rect::{contained_in, sized, Rect, Size};
use vstd::prelude::*;

verus! {

/// A non-negative objective weight: the fixed-point value
/// `num / `[`crate::frac::UNIT`]. Zero disables the weighted objective.
#[derive(Clone, Copy, Debug, PartialEq, Eq, Structural)]
pub struct Weight {
    pub num: usize,
}

impl Weight {
    /// Every fixed-point numerator is at or above the lower bound of zero,
    /// so construction cannot fail.
    pub fn new(num: usize) -> (r: Self)
        ensures
            r == (Weight { num }),
    {
        Weight { num }
    }
}

/// The importance of each objective.
#[derive(Clone, Copy, Debug, PartialEq, Eq, Structural)]
pub struct Weights {
    pub gaps_weight: Weight,
    pub overlap_weight: Weight,
    pub area_ratios_weight: Weight,
    pub aspect_ratios_weight: Weight,
    pub adjacent_close_weight: Weight,
    pub reading_order_weight: Weight,
    pub center_main_weight: Weight,
    pub consistency_weight: Weight,
}



/// One weighted fitness term: the weight times the score, in fixed point,
/// rounded down; zero-weighted objectives contribute nothing.
pub open spec fn fitness_term(wn: int, s: (int, int)) -> int {
    if wn > 0 {
        wn * s.0 / s.1
    } else {
        0
    }
}

/// A weighted term of a score within `[0, 1]` is at most the weight.
proof fn lemma_term_le(wn: int, n: int, d: int)
    requires
        0 <= wn,
        0 <= n <= d,
        1 <= d,
    ensures
        0 <= fitness_term(wn, (n, d)) <= wn,
{
    if wn > 0 {
        vstd::arithmetic::mul::lemma_mul_inequality(n, d, wn);
        assert(wn * n == n * wn && wn * d == d * wn) by (nonlinear_arith);
        vstd::arithmetic::div_mod::lemma_div_is_ordered(wn * n, wn * d, d);
        vstd::arithmetic::div_mod::lemma_div_multiples_vanish(wn, d);
        assert(wn * d == d * wn) by (nonlinear_arith);
        vstd::arithmetic::mul::lemma_mul_nonnegative(wn, n);
        vstd::arithmetic::div_mod::lemma_div_pos_is_pos(wn * n, d);
    }
}

/// A weighted term is never negative.
proof fn lemma_term_nonneg(wn: int, n: int, d: int)
    requires
        0 <= wn,
        0 <= n,
        1 <= d,
    ensures
        0 <= fitness_term(wn, (n, d)),
{
    if wn > 0 {
        vstd::arithmetic::mul::lemma_mul_nonnegative(wn, n);
        vstd::arithmetic::div_mod::lemma_div_pos_is_pos(wn * n, d);
    }
}

/// The full multi-objective problem: the eight objectives with their
/// weights, configured once per (container, count) pair.
#[derive(Clone, Debug)]
pub struct Problem {
    pub weights: Weights,
    pub gaps: MinimizeGaps,
    pub overlap: MinimizeOverlap,
    pub area_ratios: MaintainAreaRatios,
    pub aspect_ratios: MaintainAspectRatios,
    pub adjacent_close: PlaceAdjacentClose,
    pub reading_order: PlaceInReadingOrder,
    pub center_main: CenterMain,
    pub consistency: MaximizeConsistency,
}

impl Problem {
    /// The shared configuration: every objective built from the same
    /// container, maximum size and count, with bounded weights.
    pub open spec fn wf(self) -> bool {
        &&& self.gaps.wf()
        &&& self.overlap.wf()
        &&& self.area_ratios.wf()
        &&& self.aspect_ratios.wf()
        &&& self.adjacent_close.wf()
        &&& self.reading_order.wf()
        &&& self.center_main.wf()
        &&& self.consistency.wf()
        &&& self.overlap.container == self.gaps.container
        &&& self.adjacent_close.container == self.gaps.container
        &&& self.center_main.container == self.gaps.container
        &&& self.consistency.container == self.gaps.container
        &&& self.overlap.count == self.adjacent_close.count
        &&& self.overlap.count == self.reading_order.count
        &&& self.overlap.count == self.consistency.previous_layout@.len() + 1
        &&& self.area_ratios.count == self.overlap.count
        &&& self.aspect_ratios.count == self.overlap.count
        &&& self.area_ratios.max_area == self.aspect_ratios.max_size.width
            * self.aspect_ratios.max_size.height
        &&& self.weights.gaps_weight.num <= 0xFFFF_FFFF
        &&& self.weights.overlap_weight.num <= 0xFFFF_FFFF
        &&& self.weights.area_ratios_weight.num <= 0xFFFF_FFFF
        &&& self.weights.aspect_ratios_weight.num <= 0xFFFF_FFFF
        &&& self.weights.adjacent_close_weight.num <= 0xFFFF_FFFF
        &&& self.weights.reading_order_weight.num <= 0xFFFF_FFFF
        &&& self.weights.center_main_weight.num <= 0xFFFF_FFFF
        &&& self.weights.consistency_weight.num <= 0xFFFF_FFFF
    }

    /// The exact fitness: each enabled objective's score weighted in fixed
    /// point and summed. Lower is better; the result is scaled by `UNIT`
    /// relative to the weights.
    pub open spec fn fitness_spec(self, rects: Seq<Rect>) -> int {
        fitness_term(self.weights.gaps_weight.num as int, self.gaps.score(rects)) + fitness_term(
            self.weights.overlap_weight.num as int,
            self.overlap.score(rects),
        ) + fitness_term(
            self.weights.area_ratios_weight.num as int,
            self.area_ratios.score(rects),
        ) + fitness_term(
            self.weights.aspect_ratios_weight.num as int,
            self.aspect_ratios.score(rects),
        ) + fitness_term(
            self.weights.adjacent_close_weight.num as int,
            self.adjacent_close.score(rects),
        ) + fitness_term(
            self.weights.reading_order_weight.num as int,
            self.reading_order.score(rects),
        ) + fitness_term(
            self.weights.center_main_weight.num as int,
            self.center_main.score(rects),
        ) + fitness_term(
            self.weights.consistency_weight.num as int,
            self.consistency.score(rects),
        )
    }

    /// The sum of all weight numerators: the fitness of a candidate whose
    /// every objective scores 1.
    pub open spec fn weight_sum(self) -> int {
        self.weights.gaps_weight.num + self.weights.overlap_weight.num
            + self.weights.area_ratios_weight.num + self.weights.aspect_ratios_weight.num
            + self.weights.adjacent_close_weight.num + self.weights.reading_order_weight.num
            + self.weights.center_main_weight.num + self.weights.consistency_weight.num
    }

    pub fn new(
        weights: Weights,
        area_ratios: Vec<AreaRatio>,
        aspect_ratios: Vec<AspectRatio>,
        max_size: Size,
        container: Size,
        prev_layout: Vec<Rect>,
    ) -> (r: Self)
        requires
            prev_layout@.len() < usize::MAX,
            2 <= container.width * container.height <= usize::MAX,
            (prev_layout@.len() + 1) * (container.width * container.height) <= usize::MAX,
            forall|k: int| 0 <= k < area_ratios@.len() ==> (#[trigger] area_ratios@[k]).valid(),
            1 <= max_size.width * max_size.height <= usize::MAX,
            (prev_layout@.len() + 1) * ((max_num(area_ratios@) + UNIT) * (max_size.width
                * max_size.height)) <= usize::MAX,
            forall|k: int|
                0 <= k < aspect_ratios@.len() ==> (#[trigger] aspect_ratios@[k]).valid(),
            max_size.width >= 1,
            max_size.height >= 1,
            (prev_layout@.len() + 1) * ((max_size.width * UNIT + max_size.height
                * max_aspect_num(aspect_ratios@)) * UNIT) <= usize::MAX,
            max_size.width * UNIT + max_size.height * max_aspect_num(aspect_ratios@)
                <= usize::MAX / UNIT,
            container.width >= 1,
            container.height >= 1,
            container.width + container.height <= usize::MAX / 4,
            (prev_layout@.len() + 1) * (container.width + container.height) <= usize::MAX / 2,
            prev_layout@.len() + 1 >= 2 ==> crate::objective::adjacent_close::adjacent_worst_unit(
                container,
            ) >= 1,
            prev_layout@.len() * (4 * (container.width + container.height)) <= usize::MAX,
            forall|k: int|
                0 <= k < prev_layout@.len() ==> contained_in(#[trigger] prev_layout@[k], container)
                    && sized(prev_layout@[k]),
            weights.gaps_weight.num <= 0xFFFF_FFFF,
            weights.overlap_weight.num <= 0xFFFF_FFFF,
            weights.area_ratios_weight.num <= 0xFFFF_FFFF,
            weights.aspect_ratios_weight.num <= 0xFFFF_FFFF,
            weights.adjacent_close_weight.num <= 0xFFFF_FFFF,
            weights.reading_order_weight.num <= 0xFFFF_FFFF,
            weights.center_main_weight.num <= 0xFFFF_FFFF,
            weights.consistency_weight.num <= 0xFFFF_FFFF,
        ensures
            r.wf(),
            r.weights == weights,
            r.gaps.container == container,
            r.overlap.count == prev_layout@.len() + 1,
            r.area_ratios.ratios == area_ratios,
            r.aspect_ratios.ratios == aspect_ratios,
            r.aspect_ratios.max_size == max_size,
            r.consistency.previous_layout == prev_layout,
    {
        let count = prev_layout.len() + 1;
        Problem {
            weights,
            gaps: MinimizeGaps::new(container),
            overlap: MinimizeOverlap::new(container, count),
            area_ratios: MaintainAreaRatios::new(area_ratios, max_size, count),
            aspect_ratios: MaintainAspectRatios::new(aspect_ratios, max_size, count),
            adjacent_close: PlaceAdjacentClose::new(container, count),
            reading_order: PlaceInReadingOrder::new(count),
            center_main: CenterMain::new(container),
            consistency: MaximizeConsistency::new(container, prev_layout),
        }
    }

    /// Evaluate the weighted fitness of a candidate arrangement, skipping
    /// zero-weighted objectives. Exact per the fixed-point formula; at most
    /// the sum of the weights whenever every objective's score is within
    /// its normalization (which holds for containers of at least three
    /// units a side whose area-ratio score stays within its worst case).
    pub fn evaluate(&self, rects: &Vec<Rect>) -> (r: u128)
        requires
            self.wf(),
            rects@.len() == self.overlap.count,
            forall|i: int|
                0 <= i < rects@.len() ==> contained_in(#[trigger] rects@[i], self.gaps.container)
                    && sized(rects@[i]) && rects@[i].size.width <= self.aspect_ratios.max_size.width
                    && rects@[i].size.height <= self.aspect_ratios.max_size.height,
        ensures
            r == self.fitness_spec(rects@),
            self.gaps.container.width >= 3 && self.gaps.container.height >= 3
                && self.area_ratios.score(rects@).0 <= self.area_ratios.score(rects@).1 ==> r
                <= self.weight_sum(),
    {
        proof {
            assert forall|i: int| 0 <= i < rects@.len() implies (#[trigger] rects@[i]).size.width
                * rects@[i].size.height <= self.area_ratios.max_area by {
                assert(rects@[i].size.width * rects@[i].size.height
                    <= self.aspect_ratios.max_size.width * self.aspect_ratios.max_size.height)
                    by (nonlinear_arith)
                    requires
                        0 <= rects@[i].size.width <= self.aspect_ratios.max_size.width,
                        0 <= rects@[i].size.height <= self.aspect_ratios.max_size.height,
                ;
            }
        }
        let s1 = self.gaps.evaluate(rects);
        let s2 = self.overlap.evaluate(rects);
        let s3 = self.area_ratios.evaluate(rects);
        let s4 = self.aspect_ratios.evaluate(rects);
        let s5 = self.adjacent_close.evaluate(rects);
        let s6 = self.reading_order.evaluate(rects);
        let s7 = self.center_main.evaluate(rects);
        let s8 = self.consistency.evaluate(rects);
        let t1 = weighted(self.weights.gaps_weight, s1);
        let t2 = weighted(self.weights.overlap_weight, s2);
        let t3 = weighted(self.weights.area_ratios_weight, s3);
        let t4 = weighted(self.weights.aspect_ratios_weight, s4);
        let t5 = weighted(self.weights.adjacent_close_weight, s5);
        let t6 = weighted(self.weights.reading_order_weight, s6);
        let t7 = weighted(self.weights.center_main_weight, s7);
        let t8 = weighted(self.weights.consistency_weight, s8);
        proof {
            lemma_term_le(self.weights.gaps_weight.num as int, s1.num as int, s1.den as int);
            lemma_term_le(self.weights.overlap_weight.num as int, s2.num as int, s2.den as int);
            lemma_term_nonneg(
                self.weights.area_ratios_weight.num as int,
                s3.num as int,
                s3.den as int,
            );
            if s3.num <= s3.den {
                lemma_term_le(
                    self.weights.area_ratios_weight.num as int,
                    s3.num as int,
                    s3.den as int,
                );
            }
            lemma_term_le(
                self.weights.aspect_ratios_weight.num as int,
                s4.num as int,
                s4.den as int,
            );
            lemma_term_nonneg(
                self.weights.adjacent_close_weight.num as int,
                s5.num as int,
                s5.den as int,
            );
            if self.gaps.container.width >= 3 && self.gaps.container.height >= 3 {
                lemma_term_le(
                    self.weights.adjacent_close_weight.num as int,
                    s5.num as int,
                    s5.den as int,
                );
            }
            lemma_term_le(
                self.weights.reading_order_weight.num as int,
                s6.num as int,
                s6.den as int,
            );
            lemma_term_le(self.weights.center_main_weight.num as int, s7.num as int, s7.den as int);
            lemma_term_le(self.weights.consistency_weight.num as int, s8.num as int, s8.den as int);
        }
        t1 + t2 + t3 + t4 + t5 + t6 + t7 + t8
    }
}

/// One weighted fitness term, in 128-bit arithmetic.
fn weighted(w: Weight, s: Frac) -> (r: u128)
    requires
        s.den >= 1,
        w.num <= 0xFFFF_FFFF,
    ensures
        r == fitness_term(w.num as int, (s.num as int, s.den as int)),
        r <= 0xFFFF_FFFF * 0xFFFF_FFFF_FFFF_FFFFu128,
{
    if w.num == 0 {
        return 0;
    }
    proof {
        assert((w.num as u128) * (s.num as u128) <= 0xFFFF_FFFF * 0xFFFF_FFFF_FFFF_FFFFu128)
            by (nonlinear_arith)
            requires
                0 <= (w.num as u128) <= 0xFFFF_FFFFu128,
                0 <= (s.num as u128) <= 0xFFFF_FFFF_FFFF_FFFFu128,
        ;
    }
    let wide = (w.num as u128) * (s.num as u128);
    let q = wide / (s.den as u128);
    proof {
        let wn = w.num as int;
        let n = s.num as int;
        let d = s.den as int;
        assert(wide == wn * n && wide <= 0xFFFF_FFFF * 0xFFFF_FFFF_FFFF_FFFFu128)
            by (nonlinear_arith)
            requires
                wide == (w.num as u128) * (s.num as u128),
                wn == w.num as u128,
                n == s.num as u128,
                0 <= wn <= 0xFFFF_FFFF,
                0 <= n <= 0xFFFF_FFFF_FFFF_FFFFu128,
        ;
        assert(q == wn * n / d) by (nonlinear_arith)
            requires
                wide == wn * n,
                q == wide / (s.den as u128),
                d == s.den as u128,
                d >= 1,
                wide >= 0,
        ;
        vstd::arithmetic::mul::lemma_mul_nonnegative(wn, n);
        vstd::arithmetic::div_mod::lemma_div_is_ordered(wn * n, wide as int, d);
        vstd::arithmetic::div_mod::lemma_div_is_ordered_by_denominator(wide as int, 1, d);
        vstd::arithmetic::div_mod::lemma_div_basics(wide as int);
    }
    q
}

} // verus!
