//! The aspect-ratio objective: maintain target width/height ratios.

use crate::frac::{Frac, InvalidScalarError, UNIT};
use crate::rect::{abs_diff, Rect, Size};
use vstd::prelude::*;

verus! {

/// A target width/height ratio: the fixed-point value `num / UNIT`,
/// positive.
#[derive(Clone, Copy, Debug, PartialEq, Eq, Structural)]
pub struct AspectRatio {
    pub num: usize,
}

impl AspectRatio {
    /// The lower bound: an aspect ratio is positive.
    pub open spec fn valid(self) -> bool {
        self.num >= 1
    }

    /// Validating constructor: rejects the fixed-point value zero.
    pub fn new(num: usize) -> (r: Result<AspectRatio, InvalidScalarError>)
        ensures
            num >= 1 ==> r == Result::<AspectRatio, InvalidScalarError>::Ok(AspectRatio { num }),
            num < 1 ==> r == Result::<AspectRatio, InvalidScalarError>::Err(
                InvalidScalarError::TooLow { value: num, lower: 1 },
            ),
    {
        if num >= 1 {
            Ok(AspectRatio { num })
        } else {
            Err(InvalidScalarError::TooLow { value: num, lower: 1 })
        }
    }
}

/// The smaller of two integers.
pub open spec fn amin(a: int, b: int) -> int {
    if a <= b {
        a
    } else {
        b
    }
}

/// The larger of two integers.
pub open spec fn amax2(a: int, b: int) -> int {
    if a >= b {
        a
    } else {
        b
    }
}

/// The ratio numerator applied to rectangle `i`, repeating the last ratio.
pub open spec fn aspect_at(ratios: Seq<AspectRatio>, i: int) -> int {
    if i < ratios.len() {
        ratios[i].num as int
    } else {
        ratios[ratios.len() - 1].num as int
    }
}

/// The symmetric fixed-point penalty of the proportion `p : q`:
/// `(abs_ratio(p / q) - 1) * UNIT`, rounded down, where
/// `abs_ratio(v) = v` if `v >= 1` else `1 / v`.
pub open spec fn aterm(p: int, q: int) -> int {
    abs_diff(p, q) * UNIT / amin(p, q)
}

/// The penalty of rectangle `r` against ratio numerator `rnum`: its
/// proportion is `width * UNIT : height * rnum`.
pub open spec fn rect_term(r: Rect, rnum: int) -> int {
    aterm(r.size.width * UNIT, r.size.height * rnum)
}

/// The worst penalty a rectangle within `max_size` can score against
/// `rnum`: reached at one of the extreme proportions `max_width : 1` and
/// `1 : max_height`.
pub open spec fn worst_term(rnum: int, max_size: Size) -> int {
    amax2(aterm(max_size.width * UNIT, rnum), aterm(UNIT as int, max_size.height * rnum))
}

/// The summed penalties of the first `n` rectangles against the cycled
/// ratios.
pub open spec fn aspect_sum(ratios: Seq<AspectRatio>, rects: Seq<Rect>, n: int) -> int
    decreases n,
{
    if n <= 0 {
        0
    } else {
        aspect_sum(ratios, rects, n - 1) + rect_term(rects[n - 1], aspect_at(ratios, n - 1))
    }
}

/// The summed worst-case penalties of `n` rectangles against the cycled
/// ratios.
pub open spec fn aspect_worst_sum(ratios: Seq<AspectRatio>, max_size: Size, n: int) -> int
    decreases n,
{
    if n <= 0 {
        0
    } else {
        aspect_worst_sum(ratios, max_size, n - 1) + worst_term(aspect_at(ratios, n - 1), max_size)
    }
}

/// Division by a positive divisor is monotone under cross-multiplication.
proof fn lemma_div_le_div(a: int, b: int, c: int, d: int)
    requires
        a >= 0,
        c >= 0,
        b >= 1,
        d >= 1,
        a * d <= c * b,
    ensures
        a / b <= c / d,
{
    vstd::arithmetic::div_mod::lemma_fundamental_div_mod(a, b);
    vstd::arithmetic::div_mod::lemma_fundamental_div_mod(c, d);
    vstd::arithmetic::div_mod::lemma_div_pos_is_pos(a, b);
    vstd::arithmetic::div_mod::lemma_div_pos_is_pos(c, d);
    assert(a / b <= c / d) by (nonlinear_arith)
        requires
            b >= 1,
            d >= 1,
            a == b * (a / b) + a % b,
            c == d * (c / d) + c % d,
            0 <= a % b < b,
            0 <= c % d < d,
            a * d <= c * b,
            a / b >= 0,
            c / d >= 0,
    ;
}

/// A rectangle within the maximum size never scores above the worst case:
/// its proportion lies between the two extreme proportions.
pub proof fn lemma_rect_term_bound(r: Rect, rnum: int, max_size: Size)
    requires
        1 <= r.size.width <= max_size.width,
        1 <= r.size.height <= max_size.height,
        rnum >= 1,
    ensures
        0 <= rect_term(r, rnum) <= worst_term(rnum, max_size),
{
    let w = r.size.width as int;
    let h = r.size.height as int;
    let cw = max_size.width as int;
    let ch = max_size.height as int;
    let p = w * UNIT;
    let q = h * rnum;
    assert(p >= UNIT && q >= rnum) by (nonlinear_arith)
        requires
            w >= 1,
            h >= 1,
            rnum >= 1,
            p == w * UNIT,
            q == h * rnum,
    ;
    vstd::arithmetic::div_mod::lemma_div_pos_is_pos(abs_diff(p, q) * UNIT, amin(p, q));
    vstd::arithmetic::mul::lemma_mul_nonnegative(abs_diff(p, q), UNIT as int);
    if p >= q {
        // Bounded by the wide extreme `cw * UNIT : rnum`.
        assert(p <= cw * UNIT && q >= rnum && cw * UNIT >= rnum) by (nonlinear_arith)
            requires
                1 <= w <= cw,
                1 <= h,
                rnum >= 1,
                p == w * UNIT,
                q == h * rnum,
                p >= q,
        ;
        assert((p - q) * UNIT * rnum <= (cw * UNIT - rnum) * UNIT * q) by (nonlinear_arith)
            requires
                p == w * UNIT,
                q == h * rnum,
                1 <= w <= cw,
                1 <= h <= ch,
                rnum >= 1,
                p >= q,
                q >= rnum,
                p <= cw * UNIT,
        ;
        lemma_div_le_div((p - q) * UNIT, q, (cw * UNIT - rnum) * UNIT, rnum);
        assert(rect_term(r, rnum) == (p - q) * UNIT / q);
        assert(aterm(cw * UNIT, rnum) == (cw * UNIT - rnum) * UNIT / rnum);
    } else {
        // Bounded by the tall extreme `UNIT : ch * rnum`.
        assert(q <= ch * rnum && p >= UNIT && ch * rnum > UNIT) by (nonlinear_arith)
            requires
                1 <= w,
                1 <= h <= ch,
                rnum >= 1,
                p == w * UNIT,
                q == h * rnum,
                p < q,
        ;
        assert((q - p) * UNIT * UNIT <= (ch * rnum - UNIT) * UNIT * p) by (nonlinear_arith)
            requires
                p == w * UNIT,
                q == h * rnum,
                1 <= w <= cw,
                1 <= h <= ch,
                rnum >= 1,
                p < q,
                q <= ch * rnum,
                p >= UNIT,
        ;
        lemma_div_le_div((q - p) * UNIT, p, (ch * rnum - UNIT) * UNIT, UNIT as int);
        assert(rect_term(r, rnum) == (q - p) * UNIT / p);
        assert(aterm(UNIT as int, ch * rnum) == (ch * rnum - UNIT) * UNIT / (UNIT as int));
    }
}

/// Scores deviation from the target aspect ratios, normalized against the
/// extreme proportions the maximum size allows.
#[derive(Clone, Debug)]
pub struct MaintainAspectRatios {
    pub ratios: Vec<AspectRatio>,
    pub max_size: Size,
    pub count: usize,
    pub worst_case: usize,
}

impl MaintainAspectRatios {
    pub open spec fn term_cap(self) -> int {
        (self.max_size.width * UNIT + self.max_size.height * max_aspect_num(self.ratios@)) * UNIT
    }

    pub open spec fn wf(self) -> bool {
        &&& forall|k: int| 0 <= k < self.ratios@.len() ==> (#[trigger] self.ratios@[k]).valid()
        &&& self.max_size.width >= 1
        &&& self.max_size.height >= 1
        &&& self.count * self.term_cap() <= usize::MAX
        &&& (self.ratios@.len() == 0 || self.count == 0) ==> self.worst_case == 0
        &&& (self.ratios@.len() > 0 && self.count > 0) ==> self.worst_case == aspect_worst_sum(
            self.ratios@,
            self.max_size,
            self.count as int,
        )
    }

    /// The score: summed proportion penalties over the worst case; 0 when
    /// the worst case is 0.
    pub open spec fn score(self, rects: Seq<Rect>) -> (int, int) {
        if self.worst_case == 0 {
            (0int, 1int)
        } else {
            (aspect_sum(self.ratios@, rects, rects.len() as int), self.worst_case as int)
        }
    }
}

/// The largest aspect numerator (0 when the list is empty).
pub open spec fn max_aspect_num(s: Seq<AspectRatio>) -> int
    decreases s.len(),
{
    if s.len() == 0 {
        0
    } else {
        let m = max_aspect_num(s.drop_last());
        if s.last().num > m {
            s.last().num as int
        } else {
            m
        }
    }
}

/// Every aspect numerator is bounded by `max_aspect_num`.
pub proof fn lemma_max_aspect_num(s: Seq<AspectRatio>)
    ensures
        max_aspect_num(s) >= 0,
        forall|k: int| 0 <= k < s.len() ==> (#[trigger] s[k]).num <= max_aspect_num(s),
    decreases s.len(),
{
    if s.len() > 0 {
        lemma_max_aspect_num(s.drop_last());
        assert forall|k: int| 0 <= k < s.len() implies (#[trigger] s[k]).num <= max_aspect_num(
            s,
        ) by {
            if k < s.len() - 1 {
                assert(s.drop_last()[k] == s[k]);
            } else {
                assert(s[k] == s.last());
            }
        }
    }
}

/// Each term is non-negative and below the configuration's term cap.
proof fn lemma_term_caps(o: MaintainAspectRatios, i: int)
    requires
        o.wf(),
        o.ratios@.len() > 0,
        i >= 0,
    ensures
        0 <= worst_term(aspect_at(o.ratios@, i), o.max_size) <= o.term_cap(),
        aspect_at(o.ratios@, i) >= 1,
        aspect_at(o.ratios@, i) <= max_aspect_num(o.ratios@),
{
    lemma_max_aspect_num(o.ratios@);
    let rnum = aspect_at(o.ratios@, i);
    let cw = o.max_size.width as int;
    let ch = o.max_size.height as int;
    assert(rnum >= 1 && rnum <= max_aspect_num(o.ratios@)) by {
        if i < o.ratios@.len() {
            assert(o.ratios@[i].valid());
        } else {
            assert(o.ratios@[o.ratios@.len() - 1].valid());
        }
    }
    assert(cw * UNIT >= 1 && rnum >= 1 && ch * rnum >= 1 && UNIT >= 1) by (nonlinear_arith)
        requires
            cw >= 1,
            ch >= 1,
            rnum >= 1,
    ;
    assert(abs_diff(cw * UNIT, rnum) * UNIT <= o.term_cap() && abs_diff(UNIT as int, ch * rnum)
        * UNIT <= o.term_cap()) by (nonlinear_arith)
        requires
            o.term_cap() == (cw * UNIT + ch * max_aspect_num(o.ratios@)) * UNIT,
            cw >= 1,
            ch >= 1,
            1 <= rnum <= max_aspect_num(o.ratios@),
    ;
    lemma_aterm_cap(cw * UNIT, rnum, o.term_cap());
    lemma_aterm_cap(UNIT as int, ch * rnum, o.term_cap());
}

/// `aterm` is bounded by any cap on the scaled difference.
proof fn lemma_aterm_cap(p: int, q: int, cap: int)
    requires
        p >= 1,
        q >= 1,
        abs_diff(p, q) * UNIT <= cap,
    ensures
        0 <= aterm(p, q) <= cap,
{
    vstd::arithmetic::div_mod::lemma_div_pos_is_pos(abs_diff(p, q) * UNIT, amin(p, q));
    vstd::arithmetic::mul::lemma_mul_nonnegative(abs_diff(p, q), UNIT as int);
    vstd::arithmetic::div_mod::lemma_div_is_ordered_by_denominator(
        abs_diff(p, q) * UNIT,
        1,
        amin(p, q),
    );
    vstd::arithmetic::div_mod::lemma_div_basics(abs_diff(p, q) * UNIT);
}

impl MaintainAspectRatios {
    pub fn new(ratios: Vec<AspectRatio>, max_size: Size, count: usize) -> (r: Self)
        requires
            forall|k: int| 0 <= k < ratios@.len() ==> (#[trigger] ratios@[k]).valid(),
            max_size.width >= 1,
            max_size.height >= 1,
            count * ((max_size.width * UNIT + max_size.height * max_aspect_num(ratios@)) * UNIT)
                <= usize::MAX,
            max_size.width * UNIT + max_size.height * max_aspect_num(ratios@) <= usize::MAX
                / UNIT,
        ensures
            r.wf(),
            r.ratios == ratios,
            r.max_size == max_size,
            r.count == count,
    {
        let worst: usize;
        if ratios.len() == 0 || count == 0 {
            worst = 0;
        } else {
            worst = aspect_worst_exec(&ratios, max_size, count);
        }
        let r = MaintainAspectRatios { ratios, max_size, count, worst_case: worst };
        proof {
            lemma_max_aspect_num(r.ratios@);
        }
        r
    }

    /// Evaluate deviation from the target aspect ratios, as an exact
    /// fraction of the worst case. In `[0, 1]` for rectangles within the
    /// maximum size when at least as many are configured as given.
    pub fn evaluate(&self, rects: &Vec<Rect>) -> (r: Frac)
        requires
            self.wf(),
            rects@.len() <= self.count,
            forall|i: int|
                0 <= i < rects@.len() ==> 1 <= (#[trigger] rects@[i]).size.width
                    <= self.max_size.width && 1 <= rects@[i].size.height
                    <= self.max_size.height,
        ensures
            (r.num as int, r.den as int) == self.score(rects@),
            r.num <= r.den,
            r.den >= 1,
    {
        if self.worst_case == 0 {
            return Frac::zero();
        }
        let n = rects.len();
        let mut acc: usize = 0;
        let mut i: usize = 0;
        while i < n
            invariant
                self.wf(),
                self.ratios@.len() > 0,
                self.worst_case != 0,
                n == rects@.len(),
                n <= self.count,
                forall|k: int|
                    0 <= k < rects@.len() ==> 1 <= (#[trigger] rects@[k]).size.width
                        <= self.max_size.width && 1 <= rects@[k].size.height
                        <= self.max_size.height,
                i <= n,
                acc == aspect_sum(self.ratios@, rects@, i as int),
                acc <= aspect_worst_sum(self.ratios@, self.max_size, i as int),
                aspect_worst_sum(self.ratios@, self.max_size, i as int) <= i * self.term_cap(),
            decreases n - i,
        {
            let rc = rects[i];
            let rnum = if i < self.ratios.len() {
                self.ratios[i].num
            } else {
                self.ratios[self.ratios.len() - 1].num
            };
            proof {
                lemma_term_caps(*self, i as int);
                assert(rnum == aspect_at(self.ratios@, i as int));
                lemma_rect_term_bound(rects@[i as int], rnum as int, self.max_size);
                assert((i + 1) * self.term_cap() == i * self.term_cap() + self.term_cap())
                    by (nonlinear_arith);
                assert((i + 1) * self.term_cap() <= self.count * self.term_cap())
                    by (nonlinear_arith)
                    requires
                        i + 1 <= self.count,
                        self.term_cap() >= 0,
                ;
                assert(rc.size.width * UNIT <= self.max_size.width * UNIT && rc.size.height
                    * rnum <= self.max_size.height * max_aspect_num(self.ratios@))
                    by (nonlinear_arith)
                    requires
                        1 <= rc.size.width <= self.max_size.width,
                        1 <= rc.size.height <= self.max_size.height,
                        1 <= rnum <= max_aspect_num(self.ratios@),
                ;
                assert(rc.size.width * UNIT >= 1 && rc.size.height * rnum >= 1)
                    by (nonlinear_arith)
                    requires
                        rc.size.width >= 1,
                        rc.size.height >= 1,
                        rnum >= 1,
                ;
                assert(abs_diff(
                    rc.size.width * UNIT,
                    rc.size.height * rnum,
                ) * UNIT <= self.term_cap()) by (nonlinear_arith)
                    requires
                        self.term_cap() == (self.max_size.width * UNIT + self.max_size.height
                            * max_aspect_num(self.ratios@)) * UNIT,
                        rc.size.width * UNIT <= self.max_size.width * UNIT,
                        rc.size.height * rnum <= self.max_size.height * max_aspect_num(
                            self.ratios@,
                        ),
                        rc.size.width * UNIT >= 1,
                        rc.size.height * rnum >= 1,
                ;
                lemma_aterm_cap(
                    (rc.size.width * UNIT) as int,
                    (rc.size.height * rnum) as int,
                    self.term_cap(),
                );
            }
            let p = rc.size.width * UNIT;
            let q = rc.size.height * rnum;
            let d = if p >= q {
                p - q
            } else {
                q - p
            };
            let m = if p <= q {
                p
            } else {
                q
            };
            let term = (d * UNIT) / m;
            acc = acc + term;
            i += 1;
        }
        proof {
            lemma_aspect_worst_prefix(self.ratios@, self.max_size, n as int, self.count as int);
        }
        Frac::new(acc, self.worst_case)
    }
}

/// Worst-case sums only grow with more rectangles.
proof fn lemma_aspect_worst_prefix(ratios: Seq<AspectRatio>, max_size: Size, m: int, n: int)
    requires
        0 <= m <= n,
        ratios.len() > 0,
        forall|k: int| 0 <= k < ratios.len() ==> (#[trigger] ratios[k]).valid(),
        max_size.width >= 1,
        max_size.height >= 1,
    ensures
        aspect_worst_sum(ratios, max_size, m) <= aspect_worst_sum(ratios, max_size, n),
    decreases n,
{
    if n > m {
        lemma_aspect_worst_prefix(ratios, max_size, m, n - 1);
        let rnum = aspect_at(ratios, n - 1);
        assert(rnum >= 1) by {
            if n - 1 < ratios.len() {
                assert(ratios[n - 1].valid());
            } else {
                assert(ratios[ratios.len() - 1].valid());
            }
        }
        let cw = max_size.width as int;
        let ch = max_size.height as int;
        assert(cw * UNIT >= 1 && ch * rnum >= 1) by (nonlinear_arith)
            requires
                cw >= 1,
                ch >= 1,
                rnum >= 1,
        ;
        vstd::arithmetic::div_mod::lemma_div_pos_is_pos(
            abs_diff(cw * UNIT, rnum) * UNIT,
            amin(cw * UNIT, rnum),
        );
        vstd::arithmetic::mul::lemma_mul_nonnegative(abs_diff(cw * UNIT, rnum), UNIT as int);
    }
}

/// The worst-case sum, computed exactly.
fn aspect_worst_exec(ratios: &Vec<AspectRatio>, max_size: Size, count: usize) -> (r: usize)
    requires
        ratios@.len() > 0,
        forall|k: int| 0 <= k < ratios@.len() ==> (#[trigger] ratios@[k]).valid(),
        max_size.width >= 1,
        max_size.height >= 1,
        count * ((max_size.width * UNIT + max_size.height * max_aspect_num(ratios@)) * UNIT)
            <= usize::MAX,
        max_size.width * UNIT + max_size.height * max_aspect_num(ratios@) <= usize::MAX / UNIT,
    ensures
        r == aspect_worst_sum(ratios@, max_size, count as int),
{
    let ghost o = MaintainAspectRatios {
        ratios: *ratios,
        max_size,
        count,
        worst_case: 0,
    };
    let ghost cap = o.term_cap();
    proof {
        lemma_max_aspect_num(ratios@);
        vstd::arithmetic::div_mod::lemma_fundamental_div_mod(usize::MAX as int, UNIT as int);
        assert(cap <= usize::MAX) by (nonlinear_arith)
            requires
                cap == (max_size.width * UNIT + max_size.height * max_aspect_num(ratios@))
                    * UNIT,
                max_size.width * UNIT + max_size.height * max_aspect_num(ratios@) <= usize::MAX
                    / UNIT,
                usize::MAX == UNIT * (usize::MAX / UNIT) + usize::MAX % UNIT,
                0 <= usize::MAX % UNIT,
                0 <= max_size.width * UNIT + max_size.height * max_aspect_num(ratios@),
        ;
    }
    let mut acc: usize = 0;
    let mut i: usize = 0;
    while i < count
        invariant
            o.ratios == *ratios,
            o.max_size == max_size,
            o.count == count,
            ratios@.len() > 0,
            forall|k: int| 0 <= k < ratios@.len() ==> (#[trigger] ratios@[k]).valid(),
            max_size.width >= 1,
            max_size.height >= 1,
            cap == o.term_cap(),
            cap <= usize::MAX,
            count * cap <= usize::MAX,
            i <= count,
            acc == aspect_worst_sum(ratios@, max_size, i as int),
            acc <= i * cap,
        decreases count - i,
    {
        let rnum = if i < ratios.len() {
            ratios[i].num
        } else {
            ratios[ratios.len() - 1].num
        };
        proof {
            lemma_max_aspect_num(ratios@);
            assert(rnum == aspect_at(ratios@, i as int));
            assert(rnum >= 1 && rnum <= max_aspect_num(ratios@)) by {
                if i < ratios@.len() {
                    assert(ratios@[i as int].valid());
                    assert(ratios@[i as int].num <= max_aspect_num(ratios@));
                } else {
                    assert(ratios@[ratios@.len() - 1].valid());
                    assert(ratios@[ratios@.len() - 1].num <= max_aspect_num(ratios@));
                }
            }
            assert(max_size.width * UNIT >= 1 && max_size.height * rnum >= 1 && max_size.height
                * rnum <= max_size.height * max_aspect_num(ratios@)) by (nonlinear_arith)
                requires
                    max_size.width >= 1,
                    max_size.height >= 1,
                    1 <= rnum <= max_aspect_num(ratios@),
            ;
            assert(abs_diff(max_size.width * UNIT, rnum as int) * UNIT <= cap && abs_diff(
                UNIT as int,
                max_size.height * rnum,
            ) * UNIT <= cap) by (nonlinear_arith)
                requires
                    cap == (max_size.width * UNIT + max_size.height * max_aspect_num(ratios@))
                        * UNIT,
                    max_size.width * UNIT >= 1,
                    1 <= rnum,
                    1 <= max_size.height * rnum <= max_size.height * max_aspect_num(ratios@),
            ;
            lemma_aterm_cap(max_size.width * UNIT, rnum as int, cap);
            lemma_aterm_cap(UNIT as int, (max_size.height * rnum) as int, cap);
            assert((i + 1) * cap == i * cap + cap) by (nonlinear_arith);
            assert((i + 1) * cap <= count * cap) by (nonlinear_arith)
                requires
                    i + 1 <= count,
                    cap >= 0,
            ;
        }
        let pw = max_size.width * UNIT;
        let dw = if pw >= rnum {
            pw - rnum
        } else {
            rnum - pw
        };
        let mw = if pw <= rnum {
            pw
        } else {
            rnum
        };
        let tw = (dw * UNIT) / mw;
        let qh = max_size.height * rnum;
        let dh = if UNIT >= qh {
            UNIT - qh
        } else {
            qh - UNIT
        };
        let mh = if UNIT <= qh {
            UNIT
        } else {
            qh
        };
        let th = (dh * UNIT) / mh;
        let t = if tw >= th {
            tw
        } else {
            th
        };
        acc = acc + t;
        i += 1;
    }
    acc
}

} // verus!
