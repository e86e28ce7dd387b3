//! The area-ratio objective: maintain target area ratios between
//! successive rectangles.

use crate::frac::{Frac, InvalidScalarError, UNIT};
use crate::rect::{abs_diff, Rect};
use crate::rect::Size;
use vstd::prelude::*;
use vstd::multiset::Multiset;

verus! {

/// A target ratio between one rectangle's area and the next's: the
/// fixed-point value `num / UNIT`, at least one.
#[derive(Clone, Copy, Debug, PartialEq, Eq, Structural)]
pub struct AreaRatio {
    pub num: usize,
}

impl AreaRatio {
    /// The lower bound: an area ratio is at least one.
    pub open spec fn valid(self) -> bool {
        self.num >= UNIT
    }

    /// Validating constructor: rejects fixed-point values below one.
    pub fn new(num: usize) -> (r: Result<AreaRatio, InvalidScalarError>)
        ensures
            num >= UNIT ==> r == Result::<AreaRatio, InvalidScalarError>::Ok(AreaRatio { num }),
            num < UNIT ==> r == Result::<AreaRatio, InvalidScalarError>::Err(
                InvalidScalarError::TooLow { value: num, lower: UNIT },
            ),
    {
        if num >= UNIT {
            Ok(AreaRatio { num })
        } else {
            Err(InvalidScalarError::TooLow { value: num, lower: UNIT })
        }
    }
}

/// The ratio numerator applied to pair `i`, repeating the last ratio for
/// pairs beyond the list.
pub open spec fn ratio_at(ratios: Seq<AreaRatio>, i: int) -> int {
    if i < ratios.len() {
        ratios[i].num as int
    } else {
        ratios[ratios.len() - 1].num as int
    }
}

/// The summed fixed-point penalty `|ratio_i * area_{i+1} - area_i|` over
/// consecutive pairs, each term scaled by `UNIT` through the ratio.
pub open spec fn penalty(ratios: Seq<AreaRatio>, areas: Seq<int>) -> int
    decreases areas.len(),
{
    if areas.len() < 2 {
        0
    } else {
        penalty(ratios, areas.drop_last()) + abs_diff(
            ratio_at(ratios, areas.len() - 2) * areas.last(),
            UNIT * areas[areas.len() - 2],
        )
    }
}

/// The areas of a rectangle sequence.
pub open spec fn areas_of(rects: Seq<Rect>) -> Seq<int> {
    rects.map_values(|r: Rect| r.size.width * r.size.height)
}

/// The worst-case area sequence: a minimal rectangle followed by maximal
/// ones.
pub open spec fn worst_areas(a: int, n: int) -> Seq<int> {
    Seq::new(n as nat, |i: int| if i == 0 {
        1int
    } else {
        a
    })
}

/// Ratios in non-increasing order.
pub open spec fn sorted_desc(s: Seq<AreaRatio>) -> bool {
    forall|k1: int, k2: int|
        0 <= k1 <= k2 < s.len() ==> #[trigger] s[k1].num >= #[trigger] s[k2].num
}

/// The largest ratio numerator (0 when the list is empty).
pub open spec fn max_num(s: Seq<AreaRatio>) -> int
    decreases s.len(),
{
    if s.len() == 0 {
        0
    } else {
        let m = max_num(s.drop_last());
        if s.last().num > m {
            s.last().num as int
        } else {
            m
        }
    }
}

/// Every ratio numerator is bounded by `max_num`.
pub proof fn lemma_max_num(s: Seq<AreaRatio>)
    ensures
        max_num(s) >= 0,
        forall|k: int| 0 <= k < s.len() ==> (#[trigger] s[k]).num <= max_num(s),
    decreases s.len(),
{
    if s.len() > 0 {
        lemma_max_num(s.drop_last());
        assert forall|k: int| 0 <= k < s.len() implies (#[trigger] s[k]).num <= max_num(s) by {
            if k < s.len() - 1 {
                assert(s.drop_last()[k] == s[k]);
            } else {
                assert(s[k] == s.last());
            }
        }
    }
}

/// If every numerator is at most `m >= 0`, so is `max_num`.
pub proof fn lemma_max_num_bounded(s: Seq<AreaRatio>, m: int)
    requires
        m >= 0,
        forall|k: int| 0 <= k < s.len() ==> (#[trigger] s[k]).num <= m,
    ensures
        max_num(s) <= m,
    decreases s.len(),
{
    if s.len() > 0 {
        assert(forall|k: int| 0 <= k < s.len() - 1 ==> s.drop_last()[k] == #[trigger] s[k]);
        lemma_max_num_bounded(s.drop_last(), m);
        assert(s.last() == s[s.len() - 1]);
    }
}

/// Copy `ratios` into non-increasing order by repeatedly extracting the
/// largest remaining ratio.
fn sort_ratios_desc(ratios: &Vec<AreaRatio>) -> (out: Vec<AreaRatio>)
    ensures
        sorted_desc(out@),
        out@.to_multiset() == ratios@.to_multiset(),
        out@.len() == ratios@.len(),
{
    let mut src: Vec<AreaRatio> = Vec::new();
    let mut i: usize = 0;
    while i < ratios.len()
        invariant
            i <= ratios@.len(),
            src@ == ratios@.take(i as int),
        decreases ratios@.len() - i,
    {
        proof {
            assert(ratios@.take(i + 1) =~= ratios@.take(i as int).push(ratios@[i as int]));
        }
        let v = ratios[i];
        src.push(v);
        i += 1;
    }
    proof {
        assert(ratios@.take(ratios@.len() as int) =~= ratios@);
    }
    let mut out: Vec<AreaRatio> = Vec::new();
    proof {
        assert(out@.to_multiset() =~= Multiset::<AreaRatio>::empty()) by {
            out@.to_multiset_ensures();
            assert forall|x: AreaRatio| out@.to_multiset().count(x) == 0 by {
                assert(!out@.contains(x));
            }
        }
        assert(out@.to_multiset().add(src@.to_multiset()) =~= src@.to_multiset());
    }
    while src.len() > 0
        invariant
            sorted_desc(out@),
            forall|a: int, b: int|
                0 <= a < out@.len() && 0 <= b < src@.len() ==> (#[trigger] out@[a]).num >= (
                #[trigger] src@[b]).num,
            out@.to_multiset().add(src@.to_multiset()) =~= ratios@.to_multiset(),
            out@.len() + src@.len() == ratios@.len(),
        decreases src@.len(),
    {
        let mut idx: usize = 0;
        let mut j: usize = 1;
        while j < src.len()
            invariant
                idx < j <= src@.len(),
                src@.len() > 0,
                forall|m: int| 0 <= m < j ==> (#[trigger] src@[m]).num <= src@[idx as int].num,
            decreases src@.len() - j,
        {
            if src[j].num > src[idx].num {
                idx = j;
            }
            j += 1;
        }
        let ghost src_prev = src@;
        let ghost out_prev = out@;
        let v = src.remove(idx);
        out.push(v);
        proof {
            src_prev.to_multiset_ensures();
            out_prev.to_multiset_ensures();
            assert(src@.to_multiset() =~= src_prev.to_multiset().remove(v));
            assert(out@.to_multiset() =~= out_prev.to_multiset().insert(v));
            assert(src_prev.to_multiset().count(v) >= 1) by {
                assert(src_prev.contains(v));
            }
            assert(out@.to_multiset().add(src@.to_multiset()) =~= ratios@.to_multiset());
            assert forall|a: int, b: int|
                0 <= a < out@.len() && 0 <= b < src@.len() implies (#[trigger] out@[a]).num >= (
            #[trigger] src@[b]).num by {
                if b < idx {
                    assert(src@[b] == src_prev[b]);
                } else {
                    assert(src@[b] == src_prev[b + 1]);
                }
                if a < out_prev.len() {
                    assert(out@[a] == out_prev[a]);
                } else {
                    assert(out@[a] == v);
                }
            }
            assert(sorted_desc(out@)) by {
                assert forall|k1: int, k2: int|
                    0 <= k1 <= k2 < out@.len() implies #[trigger] out@[k1].num
                    >= #[trigger] out@[k2].num by {
                    if k2 < out_prev.len() {
                        assert(out@[k1] == out_prev[k1] && out@[k2] == out_prev[k2]);
                    } else if k1 < out_prev.len() {
                        assert(out@[k1] == out_prev[k1] && out@[k2] == v);
                        assert(src_prev[idx as int] == v);
                    }
                }
            }
        }
    }
    proof {
        assert(src@.to_multiset() =~= Multiset::<AreaRatio>::empty()) by {
            src@.to_multiset_ensures();
        }
        assert(out@.to_multiset() =~= ratios@.to_multiset());
        out@.to_multiset_ensures();
        ratios@.to_multiset_ensures();
    }
    out
}

/// The summed penalty of `areas` against cycled `ratios`, computed exactly.
fn penalty_exec(ratios: &Vec<AreaRatio>, areas: &Vec<usize>, bnd: Ghost<(int, int)>) -> (r:
    usize)
    requires
        ratios@.len() >= 1,
        0 <= bnd@.0,
        0 <= bnd@.1,
        forall|k: int| 0 <= k < ratios@.len() ==> (#[trigger] ratios@[k]).num <= bnd@.0,
        forall|k: int| 0 <= k < areas@.len() ==> (#[trigger] areas@[k]) <= bnd@.1,
        areas@.len() * ((bnd@.0 + UNIT) * bnd@.1) <= usize::MAX,
    ensures
        r == penalty(ratios@, areas@.map_values(|x: usize| x as int)),
{
    let ghost rmax = bnd@.0;
    let ghost amax = bnd@.1;
    let n = areas.len();
    let ghost aseq = areas@.map_values(|x: usize| x as int);
    let ghost cap = (rmax + UNIT) * amax;
    proof {
        vstd::arithmetic::mul::lemma_mul_nonnegative(rmax + UNIT, amax);
    }
    if n < 2 {
        return 0;
    }
    let mut acc: usize = 0;
    let mut k: usize = 0;
    while k < n - 1
        invariant
            ratios@.len() >= 1,
            forall|m: int| 0 <= m < ratios@.len() ==> (#[trigger] ratios@[m]).num <= rmax,
            forall|m: int| 0 <= m < areas@.len() ==> (#[trigger] areas@[m]) <= amax,
            n == areas@.len(),
            aseq == areas@.map_values(|x: usize| x as int),
            cap == (rmax + UNIT) * amax,
            cap >= 0,
            n * cap <= usize::MAX,
            n >= 2,
            k <= n - 1,
            acc == penalty(ratios@, aseq.take(k + 1)),
            acc <= k * cap,
        decreases n - k,
    {
        let rnum = if k < ratios.len() {
            ratios[k].num
        } else {
            ratios[ratios.len() - 1].num
        };
        let a_next = areas[k + 1];
        let a_cur = areas[k];
        proof {
            assert(rnum <= rmax) by {
                if k < ratios@.len() {
                    assert(ratios@[k as int].num <= rmax);
                } else {
                    assert(ratios@[ratios@.len() - 1].num <= rmax);
                }
            }
            assert(rnum * a_next <= rmax * amax) by (nonlinear_arith)
                requires
                    0 <= rnum <= rmax,
                    0 <= a_next <= amax,
            ;
            assert(UNIT * a_cur <= UNIT * amax) by (nonlinear_arith)
                requires
                    0 <= a_cur <= amax,
            ;
            assert(rmax * amax + UNIT * amax == cap) by (nonlinear_arith)
                requires
                    cap == (rmax + UNIT) * amax,
            ;
            assert((k + 1) * cap == k * cap + cap) by (nonlinear_arith);
            assert((k + 1) * cap <= n * cap) by (nonlinear_arith)
                requires
                    k + 1 <= n,
                    cap >= 0,
            ;
            // Relate the take-prefix recursion step.
            let pre2 = aseq.take(k + 2);
            assert(pre2.drop_last() =~= aseq.take(k + 1));
            assert(pre2.last() == aseq[k + 1]);
            assert(pre2[pre2.len() - 2] == aseq[k as int]);
            assert(ratio_at(ratios@, k as int) == rnum);
        }
        let prod1 = rnum * a_next;
        let prod2 = UNIT * a_cur;
        let term = if prod1 >= prod2 {
            prod1 - prod2
        } else {
            prod2 - prod1
        };
        acc = acc + term;
        k += 1;
    }
    proof {
        assert(aseq.take(n as int) =~= aseq);
    }
    acc
}

/// The summed fixed-point excesses of the first `m` cycled ratios over one.
pub open spec fn ratio_sum(ratios: Seq<AreaRatio>, m: int) -> int
    decreases m,
{
    if m <= 0 {
        0
    } else {
        ratio_sum(ratios, m - 1) + (ratio_at(ratios, m - 1) - UNIT)
    }
}

/// For non-increasing areas between one and `amax`, the penalty telescopes:
/// each pair costs at most the ratio's excess at the largest area plus the
/// drop between the two areas.
proof fn lemma_penalty_linear_bound(ratios: Seq<AreaRatio>, areas: Seq<int>, amax: int)
    requires
        ratios.len() >= 1,
        forall|k: int| 0 <= k < ratios.len() ==> (#[trigger] ratios[k]).valid(),
        areas.len() >= 1,
        amax >= 1,
        forall|k: int| 0 <= k < areas.len() ==> 1 <= #[trigger] areas[k] <= amax,
        forall|k: int| 0 <= k < areas.len() - 1 ==> #[trigger] areas[k] >= areas[k + 1],
    ensures
        penalty(ratios, areas) <= ratio_sum(ratios, areas.len() - 1) * amax + UNIT * (areas[0]
            - areas[areas.len() - 1]),
    decreases areas.len(),
{
    let n = areas.len() as int;
    if n == 1 {
        assert(ratio_sum(ratios, 0) * amax == 0) by (nonlinear_arith);
    } else {
        let pre = areas.drop_last();
        assert(forall|k: int| 0 <= k < n - 1 ==> pre[k] == #[trigger] areas[k]);
        lemma_penalty_linear_bound(ratios, pre, amax);
        let r = ratio_at(ratios, n - 2);
        let ap = areas[n - 2];
        let al = areas[n - 1];
        assert(r >= UNIT) by {
            if n - 2 < ratios.len() {
                assert(ratios[n - 2].valid());
            } else {
                assert(ratios[ratios.len() - 1].valid());
            }
        }
        assert(abs_diff(r * al, UNIT * ap) <= (r - UNIT) * amax + UNIT * (ap - al))
            by (nonlinear_arith)
            requires
                r >= UNIT,
                UNIT >= 1,
                1 <= al <= amax,
                1 <= ap <= amax,
                ap >= al,
                abs_diff(r * al, UNIT * ap) == if r * al >= UNIT * ap {
                    r * al - UNIT * ap
                } else {
                    UNIT * ap - r * al
                },
        ;
        assert((ratio_sum(ratios, n - 2) + (r - UNIT)) * amax == ratio_sum(ratios, n - 2) * amax
            + (r - UNIT) * amax) by (nonlinear_arith);
        assert(ratio_sum(ratios, n - 1) == ratio_sum(ratios, n - 2) + (r - UNIT));
    }
}

/// The worst case in closed form: the summed ratio excesses at the maximal
/// area, plus one full drop from the maximal to the minimal area.
proof fn lemma_worst_closed_form(ratios: Seq<AreaRatio>, a: int, n: int)
    requires
        ratios.len() >= 1,
        forall|k: int| 0 <= k < ratios.len() ==> (#[trigger] ratios[k]).valid(),
        a >= 1,
        n >= 2,
    ensures
        penalty(ratios, worst_areas(a, n)) == ratio_sum(ratios, n - 1) * a + UNIT * (a - 1),
    decreases n,
{
    let w = worst_areas(a, n);
    let r = ratio_at(ratios, n - 2);
    assert(r >= UNIT) by {
        if n - 2 < ratios.len() {
            assert(ratios[n - 2].valid());
        } else {
            assert(ratios[ratios.len() - 1].valid());
        }
    }
    if n == 2 {
        assert(w.drop_last() =~= worst_areas(a, 1));
        assert(penalty(ratios, w.drop_last()) == 0);
        assert(abs_diff(r * a, UNIT * 1) == r * a - UNIT) by (nonlinear_arith)
            requires
                r >= UNIT,
                a >= 1,
                UNIT >= 1,
        ;
        assert((ratio_sum(ratios, 0) + (r - UNIT)) * a + UNIT * (a - 1) == r * a - UNIT)
            by (nonlinear_arith)
            requires
                ratio_sum(ratios, 0) == 0,
        ;
    } else {
        assert(w.drop_last() =~= worst_areas(a, n - 1));
        lemma_worst_closed_form(ratios, a, n - 1);
        assert(abs_diff(r * a, UNIT * a) == (r - UNIT) * a) by (nonlinear_arith)
            requires
                r >= UNIT,
                a >= 1,
        ;
        assert((ratio_sum(ratios, n - 2) + (r - UNIT)) * a == ratio_sum(ratios, n - 2) * a + (r
            - UNIT) * a) by (nonlinear_arith);
    }
}

/// For target ratios already in non-increasing order and a candidate whose
/// areas shrink monotonically within the maximal area, the area-ratio score
/// stays within its worst case, so the objective's value is in `[0, 1]`.
/// (For other inputs the heuristic worst case can be exceeded.)
pub proof fn lemma_area_ratios_within_worst(o: MaintainAreaRatios, rects: Seq<Rect>)
    requires
        o.wf(),
        sorted_desc(o.ratios@),
        forall|k: int|
            0 <= k < rects.len() ==> 1 <= (#[trigger] rects[k]).size.width * rects[k].size.height
                <= o.max_area,
        forall|k: int|
            0 <= k < rects.len() - 1 ==> (#[trigger] rects[k]).size.width * rects[k].size.height
                >= rects[k + 1].size.width * rects[k + 1].size.height,
        rects.len() == o.count,
    ensures
        o.score(rects).0 <= o.score(rects).1,
{
    if o.worst_case != 0 {
        let n = rects.len() as int;
        assert(o.ratios@.len() > 0 && o.count > 1);
        let sorted = choose|sorted: Seq<AreaRatio>|
            {
                &&& sorted_desc(sorted)
                &&& sorted.to_multiset() == o.ratios@.to_multiset()
                &&& sorted.len() == o.ratios@.len()
                &&& o.worst_case == penalty(sorted, worst_areas(o.max_area as int, o.count as int))
            };
        let leq = |x: AreaRatio, y: AreaRatio| x.num >= y.num;
        assert(vstd::relations::total_ordering(leq)) by {
            assert forall|x: AreaRatio, y: AreaRatio| #[trigger] leq(x, y) && leq(y, x) implies x
                == y by {
                assert(x.num == y.num);
            }
        }
        assert(vstd::relations::sorted_by(sorted, leq));
        assert(vstd::relations::sorted_by(o.ratios@, leq));
        vstd::seq_lib::lemma_sorted_unique(sorted, o.ratios@, leq);
        assert(sorted == o.ratios@);
        let areas = areas_of(rects);
        assert(areas.len() == rects.len());
        assert(forall|k: int| 0 <= k < areas.len() ==> #[trigger] areas[k] == rects[k].size.width
            * rects[k].size.height);
        lemma_penalty_linear_bound(o.ratios@, areas, o.max_area as int);
        lemma_worst_closed_form(o.ratios@, o.max_area as int, n);
        assert(UNIT * (areas[0] - areas[n - 1]) <= UNIT * (o.max_area - 1)) by (nonlinear_arith)
            requires
                1 <= areas[n - 1],
                areas[0] <= o.max_area,
        ;
    }
}

/// Scores deviation from the target area ratios, normalized against an
/// alternating minimal/maximal worst case built from the ratios in
/// non-increasing order.
#[derive(Clone, Debug)]
pub struct MaintainAreaRatios {
    pub ratios: Vec<AreaRatio>,
    pub max_area: usize,
    pub count: usize,
    pub worst_case: usize,
}

impl MaintainAreaRatios {
    pub open spec fn wf(self) -> bool {
        &&& forall|k: int| 0 <= k < self.ratios@.len() ==> (#[trigger] self.ratios@[k]).valid()
        &&& self.max_area >= 1
        &&& self.count * ((max_num(self.ratios@) + UNIT) * self.max_area) <= usize::MAX
        &&& (self.ratios@.len() == 0 || self.count <= 1) ==> self.worst_case == 0
        &&& (self.ratios@.len() > 0 && self.count > 1) ==> exists|sorted: Seq<AreaRatio>|
            {
                &&& sorted_desc(sorted)
                &&& sorted.to_multiset() == self.ratios@.to_multiset()
                &&& sorted.len() == self.ratios@.len()
                &&& self.worst_case == penalty(
                    sorted,
                    worst_areas(self.max_area as int, self.count as int),
                )
            }
    }

    /// The score: the penalty of the actual areas against the cycled
    /// ratios, over the worst case; 0 when the worst case is 0.
    pub open spec fn score(self, rects: Seq<Rect>) -> (int, int) {
        if self.worst_case == 0 {
            (0int, 1int)
        } else {
            (penalty(self.ratios@, areas_of(rects)), self.worst_case as int)
        }
    }

    pub fn new(ratios: Vec<AreaRatio>, max_size: Size, count: usize) -> (r: Self)
        requires
            forall|k: int| 0 <= k < ratios@.len() ==> (#[trigger] ratios@[k]).valid(),
            1 <= max_size.width * max_size.height <= usize::MAX,
            count * ((max_num(ratios@) + UNIT) * (max_size.width * max_size.height))
                <= usize::MAX,
        ensures
            r.wf(),
            r.ratios == ratios,
            r.count == count,
            r.max_area == max_size.width * max_size.height,
    {
        let max_area = max_size.area();
        let worst: usize;
        if ratios.len() == 0 || count <= 1 {
            worst = 0;
        } else {
            let sorted = sort_ratios_desc(&ratios);
            let mut areas: Vec<usize> = Vec::new();
            let mut i: usize = 0;
            while i < count
                invariant
                    i <= count,
                    areas@.len() == i,
                    max_area >= 1,
                    forall|k: int|
                        0 <= k < i ==> #[trigger] areas@[k] == (if k == 0 {
                            1int
                        } else {
                            max_area as int
                        }),
                decreases count - i,
            {
                if i == 0 {
                    areas.push(1);
                } else {
                    areas.push(max_area);
                }
                i += 1;
            }
            proof {
                lemma_max_num(ratios@);
                lemma_max_num(sorted@);
                assert forall|k: int| 0 <= k < sorted@.len() implies (
                #[trigger] sorted@[k]).num <= max_num(ratios@) by {
                    sorted@.to_multiset_ensures();
                    ratios@.to_multiset_ensures();
                    assert(sorted@.contains(sorted@[k]));
                    assert(sorted@.to_multiset().count(sorted@[k]) > 0);
                    assert(ratios@.contains(sorted@[k]));
                    let m = choose|m: int| 0 <= m < ratios@.len() && ratios@[m] == sorted@[k];
                    assert(ratios@[m].num <= max_num(ratios@));
                }
                assert(areas@.map_values(|x: usize| x as int) =~= worst_areas(
                    max_area as int,
                    count as int,
                ));
                lemma_max_num_bounded(sorted@, max_num(ratios@));
                vstd::arithmetic::mul::lemma_mul_inequality(
                    max_num(sorted@) + UNIT,
                    max_num(ratios@) + UNIT,
                    max_area as int,
                );
                vstd::arithmetic::mul::lemma_mul_left_inequality(
                    count as int,
                    (max_num(sorted@) + UNIT) * max_area,
                    (max_num(ratios@) + UNIT) * max_area,
                );
            }
            worst = penalty_exec(&sorted, &areas, Ghost((max_num(ratios@), max_area as int)));
        }
        MaintainAreaRatios { ratios, max_area, count, worst_case: worst }
    }

    /// Evaluate deviation from the target ratios, as an exact fraction of
    /// the constructed worst case.
    pub fn evaluate(&self, rects: &Vec<Rect>) -> (r: Frac)
        requires
            self.wf(),
            rects@.len() <= self.count,
            forall|i: int|
                0 <= i < rects@.len() ==> (#[trigger] rects@[i]).size.width * rects@[i].size.height
                    <= self.max_area,
        ensures
            (r.num as int, r.den as int) == self.score(rects@),
            r.den >= 1,
    {
        if self.worst_case == 0 {
            return Frac::zero();
        }
        let mut areas: Vec<usize> = Vec::new();
        let mut i: usize = 0;
        while i < rects.len()
            invariant
                i <= rects@.len(),
                areas@.len() == i,
                forall|k: int|
                    0 <= k < rects@.len() ==> (#[trigger] rects@[k]).size.width
                        * rects@[k].size.height <= self.max_area,
                self.max_area <= usize::MAX,
                forall|k: int|
                    0 <= k < i ==> #[trigger] areas@[k] == rects@[k].size.width
                        * rects@[k].size.height,
            decreases rects@.len() - i,
        {
            let rc = rects[i];
            proof {
                assert(rects@[i as int].size.width * rects@[i as int].size.height
                    <= self.max_area);
            }
            areas.push(rc.area());
            i += 1;
        }
        proof {
            lemma_max_num(self.ratios@);
            assert(areas@.map_values(|x: usize| x as int) =~= areas_of(rects@));
            vstd::arithmetic::mul::lemma_mul_inequality(
                rects@.len() as int,
                self.count as int,
                (max_num(self.ratios@) + UNIT) * self.max_area,
            );
            vstd::arithmetic::mul::lemma_mul_nonnegative(
                max_num(self.ratios@) + UNIT,
                self.max_area as int,
            );
        }
        let num = penalty_exec(
            &self.ratios,
            &areas,
            Ghost((max_num(self.ratios@), self.max_area as int)),
        );
        Frac::new(num, self.worst_case)
    }
}

} // verus!
