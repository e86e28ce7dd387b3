//! Deterministic geometric post-processing of a decoded rectangle sequence.
//!
//! Three passes, applied in this order by [`post_process`]: clamp every
//! rectangle to the container ([`trim_outside`]), grow rectangles until no
//! gap can be filled safely ([`remove_gaps`]), and overlap shared borders
//! ([`overlap_borders`]).

use crate::rect::{
    contained_in, ranges_intersect, rect_wf, right_of, bottom_of, range_contains, Pos, Rect,
    RangeExclusive, Size,
};
use vstd::prelude::*;

verus! {

/// The smaller of two integers.
pub open spec fn min_spec(a: int, b: int) -> int {
    if a <= b {
        a
    } else {
        b
    }
}

/// `x / y` rounded upward.
pub open spec fn div_ceil_spec(x: int, y: int) -> int {
    x / y + if x % y > 0 {
        1int
    } else {
        0int
    }
}

/// Integer division rounding up.
pub fn div_ceil(x: usize, y: usize) -> (r: usize)
    requires
        y > 0,
    ensures
        r == div_ceil_spec(x as int, y as int),
        x > 0 ==> r >= 1,
        r <= x,
{
    proof {
        vstd::arithmetic::div_mod::lemma_div_pos_is_pos(x as int, y as int);
        if x > 0 && (x as int) / (y as int) == 0 {
            vstd::arithmetic::div_mod::lemma_fundamental_div_mod(x as int, y as int);
        }
        if (x as int) % (y as int) > 0 {
            vstd::arithmetic::div_mod::lemma_fundamental_div_mod(x as int, y as int);
            assert((x as int) / (y as int) < x) by (nonlinear_arith)
                requires
                    (y as int) >= 1,
                    (x as int) >= 1,
                    (x as int) == (y as int) * ((x as int) / (y as int)) + (x as int) % (y as int),
                    (x as int) % (y as int) >= 1,
                    ((x as int) / (y as int)) >= 0,
            ;
        } else {
            vstd::arithmetic::div_mod::lemma_div_is_ordered_by_denominator(x as int, 1, y as int);
            vstd::arithmetic::div_mod::lemma_div_by_self(1);
            assert((x as int) / 1 == x) by {
                vstd::arithmetic::div_mod::lemma_div_basics(x as int);
            }
        }
    }
    if x % y > 0 {
        x / y + 1
    } else {
        x / y
    }
}

/// Split a shared budget `dist` between two opposing amounts `x` and `y`:
/// cap `x` at half the budget (rounded up), give `y` what remains, then let
/// `x` take anything `y` left unused.
pub open spec fn flip_flop_spec(dist: int, x: int, y: int) -> (int, int) {
    let xc = min_spec(x, div_ceil_spec(dist, 2));
    let y2 = min_spec(y, dist - xc);
    let x2 = min_spec(x, dist - y2);
    (x2, y2)
}

/// The split never exceeds the inputs and together never exceeds the budget.
pub proof fn lemma_flip_flop_bounds(dist: int, x: int, y: int)
    requires
        dist >= 0,
        x >= 0,
        y >= 0,
    ensures
        0 <= flip_flop_spec(dist, x, y).0 <= x,
        0 <= flip_flop_spec(dist, x, y).1 <= y,
        flip_flop_spec(dist, x, y).0 + flip_flop_spec(dist, x, y).1 <= dist,
{
    vstd::arithmetic::div_mod::lemma_div_pos_is_pos(dist, 2);
}

/// The tie-splitting rule of gap removal and border overlap.
pub fn flip_flop(dist: usize, x: usize, y: usize) -> (r: (usize, usize))
    ensures
        (r.0 as int, r.1 as int) == flip_flop_spec(dist as int, x as int, y as int),
        r.0 <= x,
        r.1 <= y,
        r.0 + r.1 <= dist,
{
    proof {
        lemma_flip_flop_bounds(dist as int, x as int, y as int);
        vstd::arithmetic::div_mod::lemma_div_pos_is_pos(dist as int, 2);
    }
    let half = div_ceil(dist, 2);
    let xc = if x <= half {
        x
    } else {
        half
    };
    let y2 = if y <= dist - xc {
        y
    } else {
        dist - xc
    };
    let x2 = if x <= dist - y2 {
        x
    } else {
        dist - y2
    };
    (x2, y2)
}

/// A rectangle clamped to the container, holding its top-left corner fixed;
/// a side that cannot fit at all is left one unit long.
pub open spec fn trimmed(r: Rect, c: Size) -> Rect {
    let w0 = min_spec(r.size.width as int, c.width - r.pos.x);
    let h0 = min_spec(r.size.height as int, c.height - r.pos.y);
    let w = if w0 >= 1 {
        w0
    } else {
        1
    };
    let h = if h0 >= 1 {
        h0
    } else {
        1
    };
    Rect { pos: r.pos, size: Size { width: w as usize, height: h as usize } }
}

/// Shrink every rectangle's width and height so it does not extend past the
/// container, keeping positions fixed. A rectangle positioned at or past the
/// container edge keeps a width or height of one.
pub fn trim_outside(container: Size, rects: &mut Vec<Rect>)
    requires
        forall|i: int|
            0 <= i < old(rects)@.len() ==> (#[trigger] old(rects)@[i]).pos.x <= container.width
                && old(rects)@[i].pos.y <= container.height,
    ensures
        final(rects)@.len() == old(rects)@.len(),
        forall|i: int|
            0 <= i < final(rects)@.len() ==> final(rects)@[i] == trimmed(
                #[trigger] old(rects)@[i],
                container,
            ),
{
    let n = rects.len();
    let mut i: usize = 0;
    while i < n
        invariant
            n == rects@.len() == old(rects)@.len(),
            i <= n,
            forall|k: int|
                0 <= k < old(rects)@.len() ==> (#[trigger] old(rects)@[k]).pos.x
                    <= container.width && old(rects)@[k].pos.y <= container.height,
            forall|k: int|
                i <= k < n ==> rects@[k] == #[trigger] old(rects)@[k],
            forall|k: int|
                0 <= k < i ==> rects@[k] == trimmed(#[trigger] old(rects)@[k], container),
        decreases n - i,
    {
        let r = rects[i];
        proof {
            assert(rects@[i as int] == old(rects)@[i as int]);
        }
        let w0 = if r.size.width <= container.width - r.pos.x {
            r.size.width
        } else {
            container.width - r.pos.x
        };
        let h0 = if r.size.height <= container.height - r.pos.y {
            r.size.height
        } else {
            container.height - r.pos.y
        };
        let w = if w0 >= 1 {
            w0
        } else {
            1
        };
        let h = if h0 >= 1 {
            h0
        } else {
            1
        };
        let t = Rect { pos: r.pos, size: Size { width: w, height: h } };
        rects.set(i, t);
        i += 1;
    }
}

// ---------------------------------------------------------------------------
// Gap removal.
//
// Each iteration computes, from the rectangles alone, a per-rectangle,
// per-edge freedom: how far that edge may still move without crossing
// another rectangle, leaving the container, or exceeding the maximum size.
// If any freedom is positive, every rectangle grows by the smallest positive
// freedom (the largest safe step) and the iteration repeats; otherwise the
// arrangement is a fixed point and the pass stops.
// ---------------------------------------------------------------------------

/// Per-edge freedom of one rectangle, in executable form.
#[derive(Clone, Copy, Debug, PartialEq, Eq, Structural)]
pub struct Sides {
    pub left: usize,
    pub right: usize,
    pub top: usize,
    pub bottom: usize,
}

/// Per-edge freedom of one rectangle, in specification form.
pub ghost struct Freedoms {
    pub left: int,
    pub right: int,
    pub top: int,
    pub bottom: int,
}

/// The horizontal open span of `r`.
pub open spec fn x_span(r: Rect) -> RangeExclusive {
    RangeExclusive(r.pos.x, (r.pos.x + r.size.width) as usize)
}

/// The vertical open span of `r`.
pub open spec fn y_span(r: Rect) -> RangeExclusive {
    RangeExclusive(r.pos.y, (r.pos.y + r.size.height) as usize)
}

/// The freedoms a rectangle gets from the container and the maximum size
/// alone: the budget `max - size` split between the two opposing edges by
/// the tie-splitting rule.
pub open spec fn base_freedoms(max_size: Size, c: Size, r: Rect) -> Freedoms {
    let h = flip_flop_spec(max_size.width - r.size.width, r.pos.x as int, c.width - right_of(r));
    let v = flip_flop_spec(
        max_size.height - r.size.height,
        r.pos.y as int,
        c.height - bottom_of(r),
    );
    Freedoms { left: h.0, right: h.1, top: v.0, bottom: v.1 }
}

/// The nearest obstruction to the left of `rects[i]` among `rects[..j]`: the
/// largest right edge strictly left of `rects[i]` whose vertical span
/// intersects it (0 when there is none).
pub open spec fn left_blocker(rects: Seq<Rect>, i: int, j: int) -> int
    decreases j,
{
    if j <= 0 {
        0
    } else {
        let m = left_blocker(rects, i, j - 1);
        let o = rects[j - 1];
        if right_of(o) < rects[i].pos.x && ranges_intersect(y_span(rects[i]), y_span(o))
            && right_of(o) > m {
            right_of(o)
        } else {
            m
        }
    }
}

/// The nearest obstruction to the right of `rects[i]` among `rects[..j]`
/// (`c.width` when there is none).
pub open spec fn right_blocker(rects: Seq<Rect>, c: Size, i: int, j: int) -> int
    decreases j,
{
    if j <= 0 {
        c.width as int
    } else {
        let m = right_blocker(rects, c, i, j - 1);
        let o = rects[j - 1];
        if right_of(rects[i]) < o.pos.x && ranges_intersect(y_span(rects[i]), y_span(o))
            && o.pos.x < m {
            o.pos.x as int
        } else {
            m
        }
    }
}

/// The nearest obstruction above `rects[i]` among `rects[..j]` (0 when there
/// is none).
pub open spec fn top_blocker(rects: Seq<Rect>, i: int, j: int) -> int
    decreases j,
{
    if j <= 0 {
        0
    } else {
        let m = top_blocker(rects, i, j - 1);
        let o = rects[j - 1];
        if bottom_of(o) < rects[i].pos.y && ranges_intersect(x_span(rects[i]), x_span(o))
            && bottom_of(o) > m {
            bottom_of(o)
        } else {
            m
        }
    }
}

/// The nearest obstruction below `rects[i]` among `rects[..j]` (`c.height`
/// when there is none).
pub open spec fn bottom_blocker(rects: Seq<Rect>, c: Size, i: int, j: int) -> int
    decreases j,
{
    if j <= 0 {
        c.height as int
    } else {
        let m = bottom_blocker(rects, c, i, j - 1);
        let o = rects[j - 1];
        if bottom_of(rects[i]) < o.pos.y && ranges_intersect(x_span(rects[i]), x_span(o))
            && o.pos.y < m {
            o.pos.y as int
        } else {
            m
        }
    }
}

/// The exploratory horizontal ray of `rects[i]`: the candidate interval its
/// left and right edges might reach, bounded by the nearest blocker that
/// overlaps its vertical span, and by the maximum size; pinned to the edge
/// itself where the base freedom is already zero.
pub open spec fn x_ray(max_size: Size, c: Size, rects: Seq<Rect>, i: int) -> RangeExclusive {
    let r = rects[i];
    let base = base_freedoms(max_size, c, r);
    let max_free = max_size.width - r.size.width;
    let lo = if base.left == 0 {
        r.pos.x as int
    } else {
        let b = left_blocker(rects, i, rects.len() as int);
        let m = if r.pos.x - max_free >= 0 {
            r.pos.x - max_free
        } else {
            0int
        };
        if b > m {
            b
        } else {
            m
        }
    };
    let hi = if base.right == 0 {
        right_of(r)
    } else {
        let b = right_blocker(rects, c, i, rects.len() as int);
        let m = right_of(r) + max_free;
        if b < m {
            b
        } else {
            m
        }
    };
    RangeExclusive(lo as usize, hi as usize)
}

/// The exploratory vertical ray of `rects[i]`.
pub open spec fn y_ray(max_size: Size, c: Size, rects: Seq<Rect>, i: int) -> RangeExclusive {
    let r = rects[i];
    let base = base_freedoms(max_size, c, r);
    let max_free = max_size.height - r.size.height;
    let lo = if base.top == 0 {
        r.pos.y as int
    } else {
        let b = top_blocker(rects, i, rects.len() as int);
        let m = if r.pos.y - max_free >= 0 {
            r.pos.y - max_free
        } else {
            0int
        };
        if b > m {
            b
        } else {
            m
        }
    };
    let hi = if base.bottom == 0 {
        bottom_of(r)
    } else {
        let b = bottom_blocker(rects, c, i, rects.len() as int);
        let m = bottom_of(r) + max_free;
        if b < m {
            b
        } else {
            m
        }
    };
    RangeExclusive(lo as usize, hi as usize)
}

/// The specification view of an executable freedom record.
pub open spec fn sides_view(s: Sides) -> Freedoms {
    Freedoms { left: s.left as int, right: s.right as int, top: s.top as int, bottom: s.bottom as int }
}

/// The specification view of a vector of freedom records.
pub open spec fn freedoms_view(s: Seq<Sides>) -> Seq<Freedoms> {
    s.map_values(|x: Sides| sides_view(x))
}

/// One pairwise tightening step between rectangles `i < j`: zero any freedom
/// whose edge already touches or overlaps the partner, and split the gap
/// between facing edges, wherever the exploratory rays meet.
pub open spec fn tighten_pair(
    rects: Seq<Rect>,
    xrays: Seq<RangeExclusive>,
    yrays: Seq<RangeExclusive>,
    fr0: Seq<Freedoms>,
    i: int,
    j: int,
) -> Seq<Freedoms> {
    let r = rects[i];
    let o = rects[j];
    let a0 = fr0[i];
    let b0 = fr0[j];
    // Horizontal tightening, guarded by the vertical rays meeting.
    let (a2, b2) = if ranges_intersect(yrays[i], yrays[j]) {
        let y_int = ranges_intersect(y_span(r), y_span(o));
        let a1 = Freedoms {
            left: if y_int && range_contains(x_span(o), r.pos.x as int) {
                0int
            } else {
                a0.left
            },
            right: if y_int && range_contains(x_span(o), right_of(r)) {
                0int
            } else {
                a0.right
            },
            top: a0.top,
            bottom: a0.bottom,
        };
        let b1 = Freedoms {
            left: if y_int && range_contains(x_span(r), o.pos.x as int) {
                0int
            } else {
                b0.left
            },
            right: if y_int && range_contains(x_span(r), right_of(o)) {
                0int
            } else {
                b0.right
            },
            top: b0.top,
            bottom: b0.bottom,
        };
        if right_of(o) <= r.pos.x && (r.pos.x - right_of(o) > 0 || y_int) {
            let s = flip_flop_spec(r.pos.x - right_of(o), a1.left, b1.right);
            (
                Freedoms { left: s.0, right: a1.right, top: a1.top, bottom: a1.bottom },
                Freedoms { left: b1.left, right: s.1, top: b1.top, bottom: b1.bottom },
            )
        } else if right_of(r) <= o.pos.x && (o.pos.x - right_of(r) > 0 || y_int) {
            let s = flip_flop_spec(o.pos.x - right_of(r), a1.right, b1.left);
            (
                Freedoms { left: a1.left, right: s.0, top: a1.top, bottom: a1.bottom },
                Freedoms { left: s.1, right: b1.right, top: b1.top, bottom: b1.bottom },
            )
        } else {
            (a1, b1)
        }
    } else {
        (a0, b0)
    };
    // Vertical tightening, guarded by the horizontal rays meeting.
    let (a5, b5) = if ranges_intersect(xrays[i], xrays[j]) {
        let x_int = ranges_intersect(x_span(r), x_span(o));
        let a3 = Freedoms {
            left: a2.left,
            right: a2.right,
            top: if x_int && range_contains(y_span(o), r.pos.y as int) {
                0int
            } else {
                a2.top
            },
            bottom: if x_int && range_contains(y_span(o), bottom_of(r)) {
                0int
            } else {
                a2.bottom
            },
        };
        let b3 = Freedoms {
            left: b2.left,
            right: b2.right,
            top: if x_int && range_contains(y_span(r), o.pos.y as int) {
                0int
            } else {
                b2.top
            },
            bottom: if x_int && range_contains(y_span(r), bottom_of(o)) {
                0int
            } else {
                b2.bottom
            },
        };
        if bottom_of(o) <= r.pos.y && (r.pos.y - bottom_of(o) > 0 || x_int) {
            let s = flip_flop_spec(r.pos.y - bottom_of(o), a3.top, b3.bottom);
            (
                Freedoms { left: a3.left, right: a3.right, top: s.0, bottom: a3.bottom },
                Freedoms { left: b3.left, right: b3.right, top: b3.top, bottom: s.1 },
            )
        } else if bottom_of(r) <= o.pos.y && (o.pos.y - bottom_of(r) > 0 || x_int) {
            let s = flip_flop_spec(o.pos.y - bottom_of(r), a3.bottom, b3.top);
            (
                Freedoms { left: a3.left, right: a3.right, top: a3.top, bottom: s.0 },
                Freedoms { left: b3.left, right: b3.right, top: s.1, bottom: b3.bottom },
            )
        } else {
            (a3, b3)
        }
    } else {
        (a2, b2)
    };
    fr0.update(i, a5).update(j, b5)
}

/// Tightening folded over the pairs `(i, i + 1) .. (i, j - 1)`.
pub open spec fn tighten_row(
    rects: Seq<Rect>,
    xrays: Seq<RangeExclusive>,
    yrays: Seq<RangeExclusive>,
    fr: Seq<Freedoms>,
    i: int,
    j: int,
) -> Seq<Freedoms>
    decreases j,
{
    if i < 0 || j <= i + 1 {
        fr
    } else {
        tighten_pair(rects, xrays, yrays, tighten_row(rects, xrays, yrays, fr, i, j - 1), i, j - 1)
    }
}

/// Tightening folded over all pairs of the first `i` rectangles with their
/// successors, in lexicographic pair order.
pub open spec fn tighten_upto(
    rects: Seq<Rect>,
    xrays: Seq<RangeExclusive>,
    yrays: Seq<RangeExclusive>,
    fr: Seq<Freedoms>,
    i: int,
) -> Seq<Freedoms>
    decreases i,
{
    if i <= 0 {
        fr
    } else {
        tighten_row(
            rects,
            xrays,
            yrays,
            tighten_upto(rects, xrays, yrays, fr, i - 1),
            i - 1,
            rects.len() as int,
        )
    }
}

/// The horizontal rays of all rectangles.
pub open spec fn xrays_seq(max_size: Size, c: Size, rects: Seq<Rect>) -> Seq<RangeExclusive> {
    Seq::new(rects.len(), |i: int| x_ray(max_size, c, rects, i))
}

/// The vertical rays of all rectangles.
pub open spec fn yrays_seq(max_size: Size, c: Size, rects: Seq<Rect>) -> Seq<RangeExclusive> {
    Seq::new(rects.len(), |i: int| y_ray(max_size, c, rects, i))
}

/// The base freedoms of all rectangles.
pub open spec fn base_freedoms_seq(max_size: Size, c: Size, rects: Seq<Rect>) -> Seq<Freedoms> {
    Seq::new(rects.len(), |i: int| base_freedoms(max_size, c, rects[i]))
}

/// One gap-removal iteration's freedoms: base freedoms tightened over every
/// rectangle pair. A pure function of the rectangles alone.
pub open spec fn step_freedoms(max_size: Size, c: Size, rects: Seq<Rect>) -> Seq<Freedoms> {
    tighten_upto(
        rects,
        xrays_seq(max_size, c, rects),
        yrays_seq(max_size, c, rects),
        base_freedoms_seq(max_size, c, rects),
        rects.len() as int,
    )
}

/// No rectangle can move any edge: the arrangement is a fixed point of gap
/// removal.
pub open spec fn all_zero(fr: Seq<Freedoms>) -> bool {
    forall|k: int|
        0 <= k < fr.len() ==> (#[trigger] fr[k]).left == 0 && fr[k].right == 0 && fr[k].top == 0
            && fr[k].bottom == 0
}

/// The input discipline of gap removal: positive sizes within the maximum
/// size, rectangles contained in the container, and the maximum size within
/// the container, with room to do ray arithmetic.
pub open spec fn gaps_input_ok(max_size: Size, c: Size, rects: Seq<Rect>) -> bool {
    &&& max_size.width <= c.width
    &&& max_size.height <= c.height
    &&& c.width <= usize::MAX / 2
    &&& c.height <= usize::MAX / 2
    &&& forall|k: int|
        0 <= k < rects.len() ==> 1 <= (#[trigger] rects[k]).size.width <= max_size.width && 1
            <= rects[k].size.height <= max_size.height && contained_in(rects[k], c)
}

/// Freedoms that are safe to expand by: within the container's remaining
/// room on each side and within the maximum size's remaining budget on each
/// axis.
pub open spec fn freedoms_ok(max_size: Size, c: Size, rects: Seq<Rect>, fr: Seq<Freedoms>) -> bool {
    &&& fr.len() == rects.len()
    &&& forall|k: int|
        0 <= k < fr.len() ==> {
            let f = #[trigger] fr[k];
            let r = rects[k];
            &&& 0 <= f.left
            &&& 0 <= f.right
            &&& 0 <= f.top
            &&& 0 <= f.bottom
            &&& f.left + f.right <= max_size.width - r.size.width
            &&& f.top + f.bottom <= max_size.height - r.size.height
            &&& f.left <= r.pos.x
            &&& f.right <= c.width - right_of(r)
            &&& f.top <= r.pos.y
            &&& f.bottom <= c.height - bottom_of(r)
        }
}

/// Base freedoms are safe.
pub proof fn lemma_base_freedoms_ok(max_size: Size, c: Size, rects: Seq<Rect>)
    requires
        gaps_input_ok(max_size, c, rects),
    ensures
        freedoms_ok(max_size, c, rects, base_freedoms_seq(max_size, c, rects)),
{
    assert forall|k: int| 0 <= k < rects.len() implies {
        let f = #[trigger] base_freedoms_seq(max_size, c, rects)[k];
        let r = rects[k];
        &&& 0 <= f.left
        &&& 0 <= f.right
        &&& 0 <= f.top
        &&& 0 <= f.bottom
        &&& f.left + f.right <= max_size.width - r.size.width
        &&& f.top + f.bottom <= max_size.height - r.size.height
        &&& f.left <= r.pos.x
        &&& f.right <= c.width - right_of(r)
        &&& f.top <= r.pos.y
        &&& f.bottom <= c.height - bottom_of(r)
    } by {
        let r = rects[k];
        lemma_flip_flop_bounds(max_size.width - r.size.width, r.pos.x as int, c.width - right_of(r));
        lemma_flip_flop_bounds(
            max_size.height - r.size.height,
            r.pos.y as int,
            c.height - bottom_of(r),
        );
    }
}

/// Tightening a pair keeps freedoms safe: every change either zeroes a
/// freedom or splits a non-negative gap into parts no larger than before.
#[verifier::rlimit(60)]
pub proof fn lemma_tighten_pair_ok(
    max_size: Size,
    c: Size,
    rects: Seq<Rect>,
    xrays: Seq<RangeExclusive>,
    yrays: Seq<RangeExclusive>,
    fr: Seq<Freedoms>,
    i: int,
    j: int,
)
    requires
        gaps_input_ok(max_size, c, rects),
        freedoms_ok(max_size, c, rects, fr),
        0 <= i < rects.len(),
        0 <= j < rects.len(),
        i != j,
    ensures
        freedoms_ok(max_size, c, rects, tighten_pair(rects, xrays, yrays, fr, i, j)),
        forall|k: int|
            0 <= k < fr.len() ==> {
                let f0 = #[trigger] fr[k];
                let f1 = tighten_pair(rects, xrays, yrays, fr, i, j)[k];
                f1.left <= f0.left && f1.right <= f0.right && f1.top <= f0.top && f1.bottom
                    <= f0.bottom
            },
{
    let out = tighten_pair(rects, xrays, yrays, fr, i, j);
    let r = rects[i];
    let o = rects[j];
    if ranges_intersect(yrays[i], yrays[j]) {
        if right_of(o) <= r.pos.x {
            lemma_flip_flop_bounds_any(r.pos.x - right_of(o));
        }
        if right_of(r) <= o.pos.x {
            lemma_flip_flop_bounds_any(o.pos.x - right_of(r));
        }
    }
    if ranges_intersect(xrays[i], xrays[j]) {
        if bottom_of(o) <= r.pos.y {
            lemma_flip_flop_bounds_any(r.pos.y - bottom_of(o));
        }
        if bottom_of(r) <= o.pos.y {
            lemma_flip_flop_bounds_any(o.pos.y - bottom_of(r));
        }
    }
    assert(out[i].left <= fr[i].left && out[i].right <= fr[i].right && out[i].top <= fr[i].top
        && out[i].bottom <= fr[i].bottom);
    assert(out[j].left <= fr[j].left && out[j].right <= fr[j].right && out[j].top <= fr[j].top
        && out[j].bottom <= fr[j].bottom);
    assert(out[i].left >= 0 && out[i].right >= 0 && out[i].top >= 0 && out[i].bottom >= 0);
    assert(out[j].left >= 0 && out[j].right >= 0 && out[j].top >= 0 && out[j].bottom >= 0);
    assert(forall|k: int| 0 <= k < fr.len() && k != i && k != j ==> out[k] == #[trigger] fr[k]);
}

/// `flip_flop_spec` with any non-negative inputs stays within them; helper
/// quantified over the inputs for reuse inside larger proofs.
pub proof fn lemma_flip_flop_bounds_any(dist: int)
    requires
        dist >= 0,
    ensures
        forall|x: int, y: int|
            x >= 0 && y >= 0 ==> {
                let s = #[trigger] flip_flop_spec(dist, x, y);
                0 <= s.0 <= x && 0 <= s.1 <= y && s.0 + s.1 <= dist
            },
{
    assert forall|x: int, y: int| x >= 0 && y >= 0 implies {
        let s = #[trigger] flip_flop_spec(dist, x, y);
        0 <= s.0 <= x && 0 <= s.1 <= y && s.0 + s.1 <= dist
    } by {
        lemma_flip_flop_bounds(dist, x, y);
    }
}

/// Compute the base freedoms of every rectangle.
fn compute_base(max_size: Size, container: Size, rects: &Vec<Rect>) -> (fr: Vec<Sides>)
    requires
        gaps_input_ok(max_size, container, rects@),
    ensures
        fr@.len() == rects@.len(),
        freedoms_view(fr@) =~= base_freedoms_seq(max_size, container, rects@),
{
    let n = rects.len();
    let mut fr: Vec<Sides> = Vec::new();
    let mut i: usize = 0;
    while i < n
        invariant
            gaps_input_ok(max_size, container, rects@),
            n == rects@.len(),
            i <= n,
            fr@.len() == i,
            forall|k: int|
                0 <= k < i ==> sides_view(#[trigger] fr@[k]) == base_freedoms(
                    max_size,
                    container,
                    rects@[k],
                ),
        decreases n - i,
    {
        let r = rects[i];
        let h = flip_flop(max_size.width - r.size.width, r.pos.x, container.width - r.right());
        let v = flip_flop(
            max_size.height - r.size.height,
            r.pos.y,
            container.height - r.bottom(),
        );
        fr.push(Sides { left: h.0, right: h.1, top: v.0, bottom: v.1 });
        i += 1;
    }
    proof {
        assert forall|k: int| 0 <= k < rects@.len() implies freedoms_view(fr@)[k]
            == base_freedoms_seq(max_size, container, rects@)[k] by {
            assert(sides_view(fr@[k]) == base_freedoms(max_size, container, rects@[k]));
        }
    }
    fr
}

/// Compute the horizontal and vertical exploratory rays of every rectangle.
fn compute_rays(max_size: Size, container: Size, rects: &Vec<Rect>) -> (rays: (
    Vec<RangeExclusive>,
    Vec<RangeExclusive>,
))
    requires
        gaps_input_ok(max_size, container, rects@),
    ensures
        rays.0@.len() == rects@.len(),
        rays.1@.len() == rects@.len(),
        forall|i: int|
            0 <= i < rects@.len() ==> rays.0@[i] == x_ray(max_size, container, rects@, i),
        forall|i: int|
            0 <= i < rects@.len() ==> rays.1@[i] == y_ray(max_size, container, rects@, i),
{
    let n = rects.len();
    let mut xr: Vec<RangeExclusive> = Vec::new();
    let mut yr: Vec<RangeExclusive> = Vec::new();
    let mut i: usize = 0;
    while i < n
        invariant
            gaps_input_ok(max_size, container, rects@),
            n == rects@.len(),
            i <= n,
            xr@.len() == i,
            yr@.len() == i,
            forall|k: int| 0 <= k < i ==> xr@[k] == x_ray(max_size, container, rects@, k),
            forall|k: int| 0 <= k < i ==> yr@[k] == y_ray(max_size, container, rects@, k),
        decreases n - i,
    {
        let r = rects[i];
        let h = flip_flop(max_size.width - r.size.width, r.pos.x, container.width - r.right());
        let v = flip_flop(
            max_size.height - r.size.height,
            r.pos.y,
            container.height - r.bottom(),
        );
        // Scan all rectangles for the nearest blockers on each side.
        let mut lb: usize = 0;
        let mut rb: usize = container.width;
        let mut tb: usize = 0;
        let mut bb: usize = container.height;
        let mut j: usize = 0;
        while j < n
            invariant
                gaps_input_ok(max_size, container, rects@),
                n == rects@.len(),
                i < n,
                j <= n,
                r == rects@[i as int],
                lb == left_blocker(rects@, i as int, j as int),
                rb == right_blocker(rects@, container, i as int, j as int),
                tb == top_blocker(rects@, i as int, j as int),
                bb == bottom_blocker(rects@, container, i as int, j as int),
            decreases n - j,
        {
            let o = rects[j];
            let y_meet = r.y_range_exclusive().intersects(o.y_range_exclusive());
            let x_meet = r.x_range_exclusive().intersects(o.x_range_exclusive());
            if o.right() < r.left() && y_meet && o.right() > lb {
                lb = o.right();
            }
            if r.right() < o.left() && y_meet && o.left() < rb {
                rb = o.left();
            }
            if o.bottom() < r.top() && x_meet && o.bottom() > tb {
                tb = o.bottom();
            }
            if r.bottom() < o.top() && x_meet && o.top() < bb {
                bb = o.top();
            }
            j += 1;
        }
        let max_free_x = max_size.width - r.size.width;
        let max_free_y = max_size.height - r.size.height;
        let xlo = if h.0 == 0 {
            r.left()
        } else {
            let m = if r.left() >= max_free_x {
                r.left() - max_free_x
            } else {
                0
            };
            if lb > m {
                lb
            } else {
                m
            }
        };
        let xhi = if h.1 == 0 {
            r.right()
        } else {
            let m = r.right() + max_free_x;
            if rb < m {
                rb
            } else {
                m
            }
        };
        let ylo = if v.0 == 0 {
            r.top()
        } else {
            let m = if r.top() >= max_free_y {
                r.top() - max_free_y
            } else {
                0
            };
            if tb > m {
                tb
            } else {
                m
            }
        };
        let yhi = if v.1 == 0 {
            r.bottom()
        } else {
            let m = r.bottom() + max_free_y;
            if bb < m {
                bb
            } else {
                m
            }
        };
        xr.push(RangeExclusive(xlo, xhi));
        yr.push(RangeExclusive(ylo, yhi));
        proof {
            assert(xr@[i as int] == x_ray(max_size, container, rects@, i as int));
            assert(yr@[i as int] == y_ray(max_size, container, rects@, i as int));
        }
        i += 1;
    }
    (xr, yr)
}

/// Apply one pairwise tightening step in place.
#[verifier::rlimit(100)]
fn tighten_pair_exec(
    rects: &Vec<Rect>,
    xrays: &Vec<RangeExclusive>,
    yrays: &Vec<RangeExclusive>,
    fr: &mut Vec<Sides>,
    i: usize,
    j: usize,
)
    requires
        gaps_input_ok_any(rects@),
        i < j < rects@.len(),
        xrays@.len() == rects@.len(),
        yrays@.len() == rects@.len(),
        old(fr)@.len() == rects@.len(),
    ensures
        final(fr)@.len() == old(fr)@.len(),
        freedoms_view(final(fr)@) =~= tighten_pair(
            rects@,
            xrays@,
            yrays@,
            freedoms_view(old(fr)@),
            i as int,
            j as int,
        ),
{
    let r = rects[i];
    let o = rects[j];
    let mut a = fr[i];
    let mut b = fr[j];
    if yrays[i].intersects(yrays[j]) {
        let y_int = r.y_range_exclusive().intersects(o.y_range_exclusive());
        if y_int {
            if o.x_range_exclusive().contains(r.left()) {
                a.left = 0;
            }
            if r.x_range_exclusive().contains(o.right()) {
                b.right = 0;
            }
            if o.x_range_exclusive().contains(r.right()) {
                a.right = 0;
            }
            if r.x_range_exclusive().contains(o.left()) {
                b.left = 0;
            }
        }
        if o.right() <= r.left() {
            let dist = r.left() - o.right();
            if dist > 0 || y_int {
                let s = flip_flop(dist, a.left, b.right);
                a.left = s.0;
                b.right = s.1;
            }
        } else if r.right() <= o.left() {
            let dist = o.left() - r.right();
            if dist > 0 || y_int {
                let s = flip_flop(dist, a.right, b.left);
                a.right = s.0;
                b.left = s.1;
            }
        }
    }
    if xrays[i].intersects(xrays[j]) {
        let x_int = r.x_range_exclusive().intersects(o.x_range_exclusive());
        if x_int {
            if o.y_range_exclusive().contains(r.top()) {
                a.top = 0;
            }
            if r.y_range_exclusive().contains(o.bottom()) {
                b.bottom = 0;
            }
            if o.y_range_exclusive().contains(r.bottom()) {
                a.bottom = 0;
            }
            if r.y_range_exclusive().contains(o.top()) {
                b.top = 0;
            }
        }
        if o.bottom() <= r.top() {
            let dist = r.top() - o.bottom();
            if dist > 0 || x_int {
                let s = flip_flop(dist, a.top, b.bottom);
                a.top = s.0;
                b.bottom = s.1;
            }
        } else if r.bottom() <= o.top() {
            let dist = o.top() - r.bottom();
            if dist > 0 || x_int {
                let s = flip_flop(dist, a.bottom, b.top);
                a.bottom = s.0;
                b.top = s.1;
            }
        }
    }
    fr.set(i, a);
    fr.set(j, b);
    proof {
        let spec = tighten_pair(
            rects@,
            xrays@,
            yrays@,
            freedoms_view(old(fr)@),
            i as int,
            j as int,
        );
        assert forall|k: int| 0 <= k < fr@.len() implies freedoms_view(fr@)[k] == spec[k] by {
            if k != i && k != j {
                assert(fr@[k] == old(fr)@[k]);
            }
        }
    }
}

/// A weaker input discipline that tightening itself needs: rectangles with
/// edges that fit in the machine word.
pub open spec fn gaps_input_ok_any(rects: Seq<Rect>) -> bool {
    forall|k: int| 0 <= k < rects.len() ==> rect_wf(#[trigger] rects[k])
}

/// Tightening a row of pairs keeps freedoms safe and never raises them.
pub proof fn lemma_tighten_row_ok(
    max_size: Size,
    c: Size,
    rects: Seq<Rect>,
    xrays: Seq<RangeExclusive>,
    yrays: Seq<RangeExclusive>,
    fr: Seq<Freedoms>,
    i: int,
    j: int,
)
    requires
        gaps_input_ok(max_size, c, rects),
        freedoms_ok(max_size, c, rects, fr),
        0 <= i < rects.len(),
        j <= rects.len(),
    ensures
        freedoms_ok(max_size, c, rects, tighten_row(rects, xrays, yrays, fr, i, j)),
    decreases j,
{
    if j > i + 1 {
        lemma_tighten_row_ok(max_size, c, rects, xrays, yrays, fr, i, j - 1);
        lemma_tighten_pair_ok(
            max_size,
            c,
            rects,
            xrays,
            yrays,
            tighten_row(rects, xrays, yrays, fr, i, j - 1),
            i,
            j - 1,
        );
    }
}

/// Tightening all pair rows keeps freedoms safe.
pub proof fn lemma_tighten_upto_ok(
    max_size: Size,
    c: Size,
    rects: Seq<Rect>,
    xrays: Seq<RangeExclusive>,
    yrays: Seq<RangeExclusive>,
    fr: Seq<Freedoms>,
    i: int,
)
    requires
        gaps_input_ok(max_size, c, rects),
        freedoms_ok(max_size, c, rects, fr),
        i <= rects.len(),
    ensures
        freedoms_ok(max_size, c, rects, tighten_upto(rects, xrays, yrays, fr, i)),
    decreases i,
{
    if i > 0 {
        lemma_tighten_upto_ok(max_size, c, rects, xrays, yrays, fr, i - 1);
        lemma_tighten_row_ok(
            max_size,
            c,
            rects,
            xrays,
            yrays,
            tighten_upto(rects, xrays, yrays, fr, i - 1),
            i - 1,
            rects.len() as int,
        );
    }
}

/// One iteration's freedoms are safe to expand by.
pub proof fn lemma_step_freedoms_ok(max_size: Size, c: Size, rects: Seq<Rect>)
    requires
        gaps_input_ok(max_size, c, rects),
    ensures
        freedoms_ok(max_size, c, rects, step_freedoms(max_size, c, rects)),
{
    lemma_base_freedoms_ok(max_size, c, rects);
    lemma_tighten_upto_ok(
        max_size,
        c,
        rects,
        xrays_seq(max_size, c, rects),
        yrays_seq(max_size, c, rects),
        base_freedoms_seq(max_size, c, rects),
        rects.len() as int,
    );
}

/// Compute one iteration's freedoms for every rectangle.
fn step_freedoms_exec(max_size: Size, container: Size, rects: &Vec<Rect>) -> (fr: Vec<Sides>)
    requires
        gaps_input_ok(max_size, container, rects@),
    ensures
        fr@.len() == rects@.len(),
        freedoms_view(fr@) =~= step_freedoms(max_size, container, rects@),
{
    let n = rects.len();
    let rays = compute_rays(max_size, container, rects);
    let xr = rays.0;
    let yr = rays.1;
    proof {
        assert(xr@ =~= xrays_seq(max_size, container, rects@));
        assert(yr@ =~= yrays_seq(max_size, container, rects@));
    }
    let mut fr = compute_base(max_size, container, rects);
    let ghost base = freedoms_view(fr@);
    proof {
        assert(base =~= base_freedoms_seq(max_size, container, rects@));
    }
    let mut i: usize = 0;
    while i < n
        invariant
            gaps_input_ok(max_size, container, rects@),
            n == rects@.len(),
            i <= n,
            xr@ == xrays_seq(max_size, container, rects@),
            yr@ == yrays_seq(max_size, container, rects@),
            base == base_freedoms_seq(max_size, container, rects@),
            fr@.len() == n,
            freedoms_view(fr@) =~= tighten_upto(rects@, xr@, yr@, base, i as int),
        decreases n - i,
    {
        let mut j: usize = i + 1;
        while j < n
            invariant
                gaps_input_ok(max_size, container, rects@),
                n == rects@.len(),
                i < n,
                i + 1 <= j <= n,
                xr@ == xrays_seq(max_size, container, rects@),
                yr@ == yrays_seq(max_size, container, rects@),
                base == base_freedoms_seq(max_size, container, rects@),
                fr@.len() == n,
                freedoms_view(fr@) =~= tighten_row(
                    rects@,
                    xr@,
                    yr@,
                    tighten_upto(rects@, xr@, yr@, base, i as int),
                    i as int,
                    j as int,
                ),
            decreases n - j,
        {
            tighten_pair_exec(rects, &xr, &yr, &mut fr, i, j);
            j += 1;
        }
        i += 1;
    }
    fr
}

/// The total area of a rectangle sequence, overlaps counted repeatedly.
pub open spec fn sum_areas(rects: Seq<Rect>) -> int
    decreases rects.len(),
{
    if rects.len() == 0 {
        0
    } else {
        sum_areas(rects.drop_last()) + rects.last().size.width * rects.last().size.height
    }
}

/// Rectangles no larger than the maximum size sum to at most `count` times
/// the maximum area.
pub proof fn lemma_sum_areas_bound(rects: Seq<Rect>, max_size: Size)
    requires
        forall|k: int|
            0 <= k < rects.len() ==> (#[trigger] rects[k]).size.width <= max_size.width
                && rects[k].size.height <= max_size.height,
    ensures
        0 <= sum_areas(rects) <= rects.len() * (max_size.width * max_size.height),
    decreases rects.len(),
{
    if rects.len() == 0 {
    } else {
        assert(forall|k: int|
            0 <= k < rects.len() - 1 ==> rects.drop_last()[k] == #[trigger] rects[k]);
        lemma_sum_areas_bound(rects.drop_last(), max_size);
        assert(rects.last() == rects[rects.len() - 1]);
        assert(rects.last().size.width * rects.last().size.height <= max_size.width
            * max_size.height) by (nonlinear_arith)
            requires
                0 <= rects.last().size.width <= max_size.width,
                0 <= rects.last().size.height <= max_size.height,
        ;
        vstd::arithmetic::mul::lemma_mul_nonnegative(
            rects.last().size.width as int,
            rects.last().size.height as int,
        );
        assert((rects.len() - 1) * (max_size.width * max_size.height) + (max_size.width
            * max_size.height) == rects.len() * (max_size.width * max_size.height))
            by (nonlinear_arith);
    }
}

/// If every rectangle of `b` has at least the area of its counterpart in
/// `a`, and one has strictly more, the total area grows.
pub proof fn lemma_sum_areas_grows(a: Seq<Rect>, b: Seq<Rect>, k0: int)
    requires
        a.len() == b.len(),
        0 <= k0 < a.len(),
        forall|k: int|
            0 <= k < a.len() ==> (#[trigger] b[k]).size.width * b[k].size.height >= (
            #[trigger] a[k]).size.width * a[k].size.height,
        b[k0].size.width * b[k0].size.height >= a[k0].size.width * a[k0].size.height + 1,
    ensures
        sum_areas(b) >= sum_areas(a) + 1,
    decreases a.len(),
{
    assert(forall|k: int| 0 <= k < a.len() - 1 ==> a.drop_last()[k] == #[trigger] a[k]);
    assert(forall|k: int| 0 <= k < b.len() - 1 ==> b.drop_last()[k] == #[trigger] b[k]);
    assert(a.last() == a[a.len() - 1] && b.last() == b[b.len() - 1]);
    if k0 == a.len() - 1 {
        lemma_sum_areas_ge(a.drop_last(), b.drop_last());
    } else {
        lemma_sum_areas_grows(a.drop_last(), b.drop_last(), k0);
    }
}

/// Pointwise no-smaller areas sum to a no-smaller total.
pub proof fn lemma_sum_areas_ge(a: Seq<Rect>, b: Seq<Rect>)
    requires
        a.len() == b.len(),
        forall|k: int|
            0 <= k < a.len() ==> (#[trigger] b[k]).size.width * b[k].size.height >= (
            #[trigger] a[k]).size.width * a[k].size.height,
    ensures
        sum_areas(b) >= sum_areas(a),
    decreases a.len(),
{
    if a.len() > 0 {
        assert(forall|k: int| 0 <= k < a.len() - 1 ==> a.drop_last()[k] == #[trigger] a[k]);
        assert(forall|k: int| 0 <= k < b.len() - 1 ==> b.drop_last()[k] == #[trigger] b[k]);
        assert(a.last() == a[a.len() - 1] && b.last() == b[b.len() - 1]);
        lemma_sum_areas_ge(a.drop_last(), b.drop_last());
    }
}

/// The largest safe step: the smallest positive freedom, or zero when no
/// edge can move at all.
fn min_positive_step(fr: &Vec<Sides>) -> (s: usize)
    ensures
        s == 0 ==> all_zero(freedoms_view(fr@)),
        s > 0 ==> exists|k: int|
            0 <= k < fr@.len() && {
                let f = #[trigger] fr@[k];
                f.left == s || f.right == s || f.top == s || f.bottom == s
            },
        forall|k: int|
            0 <= k < fr@.len() ==> {
                let f = #[trigger] fr@[k];
                &&& (f.left == 0 || f.left >= s)
                &&& (f.right == 0 || f.right >= s)
                &&& (f.top == 0 || f.top >= s)
                &&& (f.bottom == 0 || f.bottom >= s)
            },
{
    let n = fr.len();
    let mut s: usize = 0;
    let mut k: usize = 0;
    while k < n
        invariant
            n == fr@.len(),
            k <= n,
            s > 0 ==> exists|m: int|
                0 <= m < k && {
                    let f = #[trigger] fr@[m];
                    f.left == s || f.right == s || f.top == s || f.bottom == s
                },
            forall|m: int|
                0 <= m < k ==> {
                    let f = #[trigger] fr@[m];
                    &&& (f.left == 0 || (s > 0 && f.left >= s))
                    &&& (f.right == 0 || (s > 0 && f.right >= s))
                    &&& (f.top == 0 || (s > 0 && f.top >= s))
                    &&& (f.bottom == 0 || (s > 0 && f.bottom >= s))
                },
        decreases n - k,
    {
        let f = fr[k];
        if f.left > 0 && (s == 0 || f.left < s) {
            s = f.left;
        }
        if f.right > 0 && (s == 0 || f.right < s) {
            s = f.right;
        }
        if f.top > 0 && (s == 0 || f.top < s) {
            s = f.top;
        }
        if f.bottom > 0 && (s == 0 || f.bottom < s) {
            s = f.bottom;
        }
        k += 1;
    }
    s
}

/// Grow rectangles until no rectangle can safely grow: each iteration
/// computes per-edge freedoms against the container, the maximum size and
/// every other rectangle, and expands every rectangle on every edge by the
/// smallest positive freedom found anywhere. The pass stops at a fixed
/// point: an arrangement whose freedoms are all zero. Since each iteration
/// depends on the rectangles alone, the pass is idempotent: the two final
/// clauses below say that a result is a fixed point and that a fixed point
/// is returned unchanged, so applying the pass twice equals applying it
/// once.
pub fn remove_gaps(max_size: Size, container: Size, rects: &mut Vec<Rect>)
    requires
        gaps_input_ok(max_size, container, old(rects)@),
    ensures
        final(rects)@.len() == old(rects)@.len(),
        gaps_input_ok(max_size, container, final(rects)@),
        forall|i: int|
            0 <= i < final(rects)@.len() ==> {
                let r0 = #[trigger] old(rects)@[i];
                let r1 = final(rects)@[i];
                r1.pos.x <= r0.pos.x && r1.pos.y <= r0.pos.y && right_of(r1) >= right_of(r0)
                    && bottom_of(r1) >= bottom_of(r0)
            },
        all_zero(step_freedoms(max_size, container, final(rects)@)),
        all_zero(step_freedoms(max_size, container, old(rects)@)) ==> final(rects)@ == old(
            rects,
        )@,
{
    let n = rects.len();
    let ghost orig = rects@;
    let ghost max_area = (max_size.width * max_size.height) as int;
    let mut go = true;
    while go
        invariant
            gaps_input_ok(max_size, container, rects@),
            rects@.len() == n == orig.len(),
            forall|i: int|
                0 <= i < n ==> {
                    let r0 = #[trigger] orig[i];
                    let r1 = rects@[i];
                    r1.pos.x <= r0.pos.x && r1.pos.y <= r0.pos.y && right_of(r1) >= right_of(r0)
                        && bottom_of(r1) >= bottom_of(r0)
                },
            all_zero(step_freedoms(max_size, container, orig)) ==> rects@ == orig,
            !go ==> all_zero(step_freedoms(max_size, container, rects@)),
            max_area == max_size.width * max_size.height,
        decreases n * max_area - sum_areas(rects@), (if go {
            1int
        } else {
            0int
        }),
    {
        proof {
            lemma_sum_areas_bound(rects@, max_size);
            vstd::arithmetic::mul::lemma_mul_inequality(
                rects@.len() as int,
                n as int,
                max_area,
            );
        }
        let fr = step_freedoms_exec(max_size, container, rects);
        let step = min_positive_step(&fr);
        proof {
            lemma_step_freedoms_ok(max_size, container, rects@);
        }
        if step == 0 {
            go = false;
        } else {
            let ghost before = rects@;
            let ghost kw = choose|k: int|
                0 <= k < fr@.len() && {
                    let f = #[trigger] fr@[k];
                    f.left == step || f.right == step || f.top == step || f.bottom == step
                };
            proof {
                assert(sides_view(fr@[kw]) == freedoms_view(fr@)[kw]);
                if all_zero(step_freedoms(max_size, container, orig)) {
                    assert(rects@ == orig);
                    assert(freedoms_view(fr@) == step_freedoms(max_size, container, orig));
                    assert(freedoms_view(fr@)[kw].left == 0 && freedoms_view(fr@)[kw].right == 0
                        && freedoms_view(fr@)[kw].top == 0 && freedoms_view(fr@)[kw].bottom == 0);
                    assert(false);
                }
            }
            let mut i: usize = 0;
            while i < n
                invariant
                    gaps_input_ok(max_size, container, before),
                    rects@.len() == n == before.len() == fr@.len(),
                    freedoms_view(fr@) == step_freedoms(max_size, container, before),
                    freedoms_ok(max_size, container, before, freedoms_view(fr@)),
                    step >= 1,
                    i <= n,
                    forall|k: int| i <= k < n ==> rects@[k] == #[trigger] before[k],
                    forall|k: int|
                        0 <= k < i ==> rects@[k] == expanded(
                            #[trigger] before[k],
                            fr@[k],
                            step as int,
                        ),
                decreases n - i,
            {
                let f = fr[i];
                let mut r = rects[i];
                proof {
                    assert(rects@[i as int] == before[i as int]);
                    assert(sides_view(fr@[i as int]) == freedoms_view(fr@)[i as int]);
                }
                let dl = if f.left <= step {
                    f.left
                } else {
                    step
                };
                let dr = if f.right <= step {
                    f.right
                } else {
                    step
                };
                let dt = if f.top <= step {
                    f.top
                } else {
                    step
                };
                let db = if f.bottom <= step {
                    f.bottom
                } else {
                    step
                };
                r.expand_left(dl);
                r.expand_right(dr);
                r.expand_top(dt);
                r.expand_bottom(db);
                rects.set(i, r);
                i += 1;
            }
            proof {
                lemma_expansion_grows(max_size, container, before, rects@, fr@, step as int, kw);
                lemma_sum_areas_bound(rects@, max_size);
                vstd::arithmetic::mul::lemma_mul_inequality(
                    rects@.len() as int,
                    n as int,
                    max_area,
                );
            }
        }
    }
}

/// A rectangle expanded on each edge by its freedom, capped by the step.
pub open spec fn expanded(r: Rect, f: Sides, step: int) -> Rect {
    let dl = min_spec(f.left as int, step);
    let dr = min_spec(f.right as int, step);
    let dt = min_spec(f.top as int, step);
    let db = min_spec(f.bottom as int, step);
    Rect {
        pos: Pos { x: (r.pos.x - dl) as usize, y: (r.pos.y - dt) as usize },
        size: Size {
            width: (r.size.width + dl + dr) as usize,
            height: (r.size.height + dt + db) as usize,
        },
    }
}

/// Expanding one rectangle by safe freedoms keeps it within bounds and
/// never shrinks it.
pub proof fn lemma_expanded_one(max_size: Size, c: Size, r0: Rect, f: Sides, step: int)
    requires
        1 <= r0.size.width <= max_size.width,
        1 <= r0.size.height <= max_size.height,
        contained_in(r0, c),
        f.left + f.right <= max_size.width - r0.size.width,
        f.top + f.bottom <= max_size.height - r0.size.height,
        f.left <= r0.pos.x,
        f.right <= c.width - right_of(r0),
        f.top <= r0.pos.y,
        f.bottom <= c.height - bottom_of(r0),
        step >= 1,
    ensures
        1 <= expanded(r0, f, step).size.width <= max_size.width,
        1 <= expanded(r0, f, step).size.height <= max_size.height,
        contained_in(expanded(r0, f, step), c),
        expanded(r0, f, step).pos.x <= r0.pos.x,
        expanded(r0, f, step).pos.y <= r0.pos.y,
        right_of(expanded(r0, f, step)) >= right_of(r0),
        bottom_of(expanded(r0, f, step)) >= bottom_of(r0),
        expanded(r0, f, step).size.width * expanded(r0, f, step).size.height >= r0.size.width
            * r0.size.height,
        (f.left == step || f.right == step || f.top == step || f.bottom == step) ==> expanded(
            r0,
            f,
            step,
        ).size.width * expanded(r0, f, step).size.height >= r0.size.width * r0.size.height + 1,
{
    let r1 = expanded(r0, f, step);
    assert(r1.size.width >= r0.size.width && r1.size.height >= r0.size.height);
    assert(r1.size.width * r1.size.height >= r0.size.width * r0.size.height) by (nonlinear_arith)
        requires
            r1.size.width >= r0.size.width >= 0,
            r1.size.height >= r0.size.height >= 0,
    ;
    if f.left == step || f.right == step || f.top == step || f.bottom == step {
        assert(r1.size.width >= r0.size.width + 1 || r1.size.height >= r0.size.height + 1);
        assert(r1.size.width * r1.size.height >= r0.size.width * r0.size.height + 1)
            by (nonlinear_arith)
            requires
                r1.size.width >= r0.size.width >= 1,
                r1.size.height >= r0.size.height >= 1,
                r1.size.width >= r0.size.width + 1 || r1.size.height >= r0.size.height + 1,
        ;
    }
}

/// Expanding every rectangle by safe freedoms, one of which equals the
/// positive step, keeps the input discipline and strictly grows the total
/// area.
pub proof fn lemma_expansion_grows(
    max_size: Size,
    c: Size,
    before: Seq<Rect>,
    after: Seq<Rect>,
    fr: Seq<Sides>,
    step: int,
    kw: int,
)
    requires
        gaps_input_ok(max_size, c, before),
        freedoms_ok(max_size, c, before, freedoms_view(fr)),
        before.len() == after.len() == fr.len(),
        step >= 1,
        forall|k: int|
            0 <= k < after.len() ==> after[k] == expanded(#[trigger] before[k], fr[k], step),
        0 <= kw < fr.len(),
        (fr[kw].left == step || fr[kw].right == step || fr[kw].top == step || fr[kw].bottom
            == step),
    ensures
        gaps_input_ok(max_size, c, after),
        sum_areas(after) >= sum_areas(before) + 1,
        forall|i: int|
            0 <= i < after.len() ==> {
                let r0 = #[trigger] before[i];
                let r1 = after[i];
                r1.pos.x <= r0.pos.x && r1.pos.y <= r0.pos.y && right_of(r1) >= right_of(r0)
                    && bottom_of(r1) >= bottom_of(r0)
            },
{
    assert forall|k: int| 0 <= k < after.len() implies 1 <= (#[trigger] after[k]).size.width
        <= max_size.width && 1 <= after[k].size.height <= max_size.height && contained_in(
        after[k],
        c,
    ) by {
        assert(sides_view(fr[k]) == freedoms_view(fr)[k]);
        lemma_expanded_one(max_size, c, before[k], fr[k], step);
    }
    assert forall|i: int| 0 <= i < after.len() implies {
        let r0 = #[trigger] before[i];
        let r1 = after[i];
        r1.pos.x <= r0.pos.x && r1.pos.y <= r0.pos.y && right_of(r1) >= right_of(r0)
            && bottom_of(r1) >= bottom_of(r0)
    } by {
        assert(sides_view(fr[i]) == freedoms_view(fr)[i]);
        lemma_expanded_one(max_size, c, before[i], fr[i], step);
    }
    assert forall|k: int|
        0 <= k < after.len() implies (#[trigger] after[k]).size.width * after[k].size.height >= (
    #[trigger] before[k]).size.width * before[k].size.height by {
        assert(sides_view(fr[k]) == freedoms_view(fr)[k]);
        lemma_expanded_one(max_size, c, before[k], fr[k], step);
    }
    assert(sides_view(fr[kw]) == freedoms_view(fr)[kw]);
    lemma_expanded_one(max_size, c, before[kw], fr[kw], step);
    lemma_sum_areas_grows(before, after, kw);
}

// ---------------------------------------------------------------------------
// Border overlap.
//
// For a configured border thickness, each rectangle expands into any
// immediately adjacent rectangle (one whose facing edge lies within the
// thickness across a shared span) by half the thickness — the lower index
// taking the larger half — and into the container edge by the full
// thickness where it has no neighbour on that side.
// ---------------------------------------------------------------------------

/// Strict lexicographic order on (distance, index) candidates.
pub open spec fn lex_lt(a: (int, int), b: (int, int)) -> bool {
    a.0 < b.0 || (a.0 == b.0 && a.1 < b.1)
}

/// An executable neighbour candidate agrees with its specification value.
pub open spec fn nb_matches(e: Option<(usize, usize)>, s: Option<(int, int)>) -> bool {
    match (e, s) {
        (Option::None, Option::None) => true,
        (Option::Some(a), Option::Some(b)) => a.0 == b.0 && a.1 == b.1,
        _ => false,
    }
}

/// An executable neighbour index agrees with its specification value.
pub open spec fn idx_matches(e: Option<usize>, s: Option<int>) -> bool {
    match (e, s) {
        (Option::None, Option::None) => true,
        (Option::Some(a), Option::Some(b)) => a == b,
        _ => false,
    }
}

/// The best (nearest, then lowest-indexed) neighbour beyond the left edge of
/// `rects[i]` among `rects[..j]`, with its distance.
pub open spec fn left_nb(rects: Seq<Rect>, i: int, j: int) -> Option<(int, int)>
    decreases j,
{
    if j <= 0 {
        None
    } else {
        let prev = left_nb(rects, i, j - 1);
        let o = rects[j - 1];
        if j - 1 != i && ranges_intersect(y_span(rects[i]), y_span(o)) && rects[i].pos.x
            >= right_of(o) {
            let cand = (rects[i].pos.x - right_of(o), j - 1);
            match prev {
                Option::None => Option::Some(cand),
                Option::Some(p) => if lex_lt(cand, p) {
                    Option::Some(cand)
                } else {
                    Option::Some(p)
                },
            }
        } else {
            prev
        }
    }
}

/// The best neighbour beyond the right edge of `rects[i]`.
pub open spec fn right_nb(rects: Seq<Rect>, i: int, j: int) -> Option<(int, int)>
    decreases j,
{
    if j <= 0 {
        None
    } else {
        let prev = right_nb(rects, i, j - 1);
        let o = rects[j - 1];
        if j - 1 != i && ranges_intersect(y_span(rects[i]), y_span(o)) && o.pos.x >= right_of(
            rects[i],
        ) {
            let cand = (o.pos.x - right_of(rects[i]), j - 1);
            match prev {
                Option::None => Option::Some(cand),
                Option::Some(p) => if lex_lt(cand, p) {
                    Option::Some(cand)
                } else {
                    Option::Some(p)
                },
            }
        } else {
            prev
        }
    }
}

/// The best neighbour beyond the top edge of `rects[i]`.
pub open spec fn top_nb(rects: Seq<Rect>, i: int, j: int) -> Option<(int, int)>
    decreases j,
{
    if j <= 0 {
        None
    } else {
        let prev = top_nb(rects, i, j - 1);
        let o = rects[j - 1];
        if j - 1 != i && ranges_intersect(x_span(rects[i]), x_span(o)) && rects[i].pos.y
            >= bottom_of(o) {
            let cand = (rects[i].pos.y - bottom_of(o), j - 1);
            match prev {
                Option::None => Option::Some(cand),
                Option::Some(p) => if lex_lt(cand, p) {
                    Option::Some(cand)
                } else {
                    Option::Some(p)
                },
            }
        } else {
            prev
        }
    }
}

/// The best neighbour beyond the bottom edge of `rects[i]`.
pub open spec fn bottom_nb(rects: Seq<Rect>, i: int, j: int) -> Option<(int, int)>
    decreases j,
{
    if j <= 0 {
        None
    } else {
        let prev = bottom_nb(rects, i, j - 1);
        let o = rects[j - 1];
        if j - 1 != i && ranges_intersect(x_span(rects[i]), x_span(o)) && o.pos.y >= bottom_of(
            rects[i],
        ) {
            let cand = (o.pos.y - bottom_of(rects[i]), j - 1);
            match prev {
                Option::None => Option::Some(cand),
                Option::Some(p) => if lex_lt(cand, p) {
                    Option::Some(cand)
                } else {
                    Option::Some(p)
                },
            }
        } else {
            prev
        }
    }
}

/// The neighbour index `rects[i]` shares a border with on a side, if its
/// distance is within the border thickness.
pub open spec fn within(nb: Option<(int, int)>, t: int) -> Option<int> {
    match nb {
        Option::None => Option::None,
        Option::Some(p) => if p.0 <= t {
            Option::Some(p.1)
        } else {
            Option::None
        },
    }
}

/// How far one side of `rects[i]` expands: by the larger half of the border
/// thickness toward a neighbour of higher index, the smaller half toward a
/// lower index, and by the whole thickness toward the container edge,
/// capped at the edge itself.
pub open spec fn side_expansion(nb: Option<int>, i: int, t: int, room: int) -> int {
    match nb {
        Option::Some(j) => if i < j {
            div_ceil_spec(t, 2)
        } else {
            t / 2
        },
        Option::None => min_spec(t, room),
    }
}

/// `rects[i]` after border overlap.
pub open spec fn bordered(rects: Seq<Rect>, i: int, t: int, c: Size) -> Rect {
    let r = rects[i];
    let n = rects.len() as int;
    let le = side_expansion(within(left_nb(rects, i, n), t), i, t, r.pos.x as int);
    let re = side_expansion(within(right_nb(rects, i, n), t), i, t, c.width - right_of(r));
    let te = side_expansion(within(top_nb(rects, i, n), t), i, t, r.pos.y as int);
    let be = side_expansion(within(bottom_nb(rects, i, n), t), i, t, c.height - bottom_of(r));
    Rect {
        pos: Pos { x: (r.pos.x - le) as usize, y: (r.pos.y - te) as usize },
        size: Size {
            width: (r.size.width + le + re) as usize,
            height: (r.size.height + te + be) as usize,
        },
    }
}

/// The expansions of border overlap stay within the machine's range: toward
/// a neighbour there must be room for half the thickness, and the container
/// leaves room for the full thickness.
pub open spec fn borders_input_ok(rects: Seq<Rect>, t: int, c: Size) -> bool {
    &&& c.width + t <= usize::MAX
    &&& c.height + t <= usize::MAX
    &&& forall|i: int|
        0 <= i < rects.len() ==> contained_in(#[trigger] rects[i], c)
    &&& forall|i: int|
        0 <= i < rects.len() ==> (within(left_nb(rects, i, rects.len() as int), t) is Some
            ==> div_ceil_spec(t, 2) <= (#[trigger] rects[i]).pos.x)
    &&& forall|i: int|
        0 <= i < rects.len() ==> (within(top_nb(rects, i, rects.len() as int), t) is Some
            ==> div_ceil_spec(t, 2) <= (#[trigger] rects[i]).pos.y)
}

/// Expand each rectangle into immediately adjacent rectangles by half the
/// border thickness (the lower index taking the larger half) and into the
/// container edge by the whole thickness where it has no neighbour.
#[verifier::rlimit(100)]
pub fn overlap_borders(border_thickness: usize, container: Size, rects: &mut Vec<Rect>)
    requires
        borders_input_ok(old(rects)@, border_thickness as int, container),
    ensures
        final(rects)@.len() == old(rects)@.len(),
        forall|i: int|
            0 <= i < final(rects)@.len() ==> final(rects)@[i] == bordered(
                old(rects)@,
                i,
                border_thickness as int,
                container,
            ),
{
    let t = border_thickness;
    let half_ceil = div_ceil(t, 2);
    let half = t / 2;
    let n = rects.len();
    let ghost orig = rects@;
    // First compute every border, from the unmodified rectangles.
    let mut borders: Vec<(Option<usize>, Option<usize>, Option<usize>, Option<usize>)> =
        Vec::new();
    let mut i: usize = 0;
    while i < n
        invariant
            borders_input_ok(orig, t as int, container),
            rects@ == orig,
            n == rects@.len(),
            i <= n,
            borders@.len() == i,
            forall|k: int|
                0 <= k < i ==> {
                    let b = #[trigger] borders@[k];
                    &&& idx_matches(b.0, within(left_nb(orig, k, n as int), t as int))
                    &&& idx_matches(b.1, within(right_nb(orig, k, n as int), t as int))
                    &&& idx_matches(b.2, within(top_nb(orig, k, n as int), t as int))
                    &&& idx_matches(b.3, within(bottom_nb(orig, k, n as int), t as int))
                },
        decreases n - i,
    {
        let r = rects[i];
        let mut lb: Option<(usize, usize)> = None;
        let mut rb: Option<(usize, usize)> = None;
        let mut tb: Option<(usize, usize)> = None;
        let mut bb: Option<(usize, usize)> = None;
        let mut j: usize = 0;
        while j < n
            invariant
                borders_input_ok(orig, t as int, container),
                rects@ == orig,
                n == rects@.len(),
                i < n,
                j <= n,
                r == rects@[i as int],
                nb_matches(lb, left_nb(orig, i as int, j as int)),
                nb_matches(rb, right_nb(orig, i as int, j as int)),
                nb_matches(tb, top_nb(orig, i as int, j as int)),
                nb_matches(bb, bottom_nb(orig, i as int, j as int)),
            decreases n - j,
        {
            let o = rects[j];
            proof {
                assert(rects@[j as int] == orig[j as int]);
                assert(contained_in(orig[i as int], container));
                assert(contained_in(orig[j as int], container));
            }
            let y_meet = r.y_range_exclusive().intersects(o.y_range_exclusive());
            let x_meet = r.x_range_exclusive().intersects(o.x_range_exclusive());
            proof {
                assert(y_meet == ranges_intersect(y_span(orig[i as int]), y_span(orig[j as int])));
                assert(x_meet == ranges_intersect(x_span(orig[i as int]), x_span(orig[j as int])));
            }
            if j != i && y_meet && r.left() >= o.right() {
                let cand = (r.left() - o.right(), j);
                lb = match lb {
                    None => Some(cand),
                    Some(p) => if cand.0 < p.0 || (cand.0 == p.0 && cand.1 < p.1) {
                        Some(cand)
                    } else {
                        Some(p)
                    },
                };
            }
            if j != i && y_meet && o.left() >= r.right() {
                let cand = (o.left() - r.right(), j);
                rb = match rb {
                    None => Some(cand),
                    Some(p) => if cand.0 < p.0 || (cand.0 == p.0 && cand.1 < p.1) {
                        Some(cand)
                    } else {
                        Some(p)
                    },
                };
            }
            if j != i && x_meet && r.top() >= o.bottom() {
                let cand = (r.top() - o.bottom(), j);
                tb = match tb {
                    None => Some(cand),
                    Some(p) => if cand.0 < p.0 || (cand.0 == p.0 && cand.1 < p.1) {
                        Some(cand)
                    } else {
                        Some(p)
                    },
                };
            }
            if j != i && x_meet && o.top() >= r.bottom() {
                let cand = (o.top() - r.bottom(), j);
                bb = match bb {
                    None => Some(cand),
                    Some(p) => if cand.0 < p.0 || (cand.0 == p.0 && cand.1 < p.1) {
                        Some(cand)
                    } else {
                        Some(p)
                    },
                };
            }
            j += 1;
        }
        let lf = match lb {
            Some(p) => if p.0 <= t {
                Some(p.1)
            } else {
                None
            },
            None => None,
        };
        let rf = match rb {
            Some(p) => if p.0 <= t {
                Some(p.1)
            } else {
                None
            },
            None => None,
        };
        let tf = match tb {
            Some(p) => if p.0 <= t {
                Some(p.1)
            } else {
                None
            },
            None => None,
        };
        let bf = match bb {
            Some(p) => if p.0 <= t {
                Some(p.1)
            } else {
                None
            },
            None => None,
        };
        borders.push((lf, rf, tf, bf));
        i += 1;
    }
    // Then expand every rectangle according to its borders.
    let mut i: usize = 0;
    while i < n
        invariant
            borders_input_ok(orig, t as int, container),
            half_ceil == div_ceil_spec(t as int, 2),
            half == t as int / 2,
            n == rects@.len() == orig.len(),
            i <= n,
            borders@.len() == n,
            forall|k: int|
                0 <= k < n ==> {
                    let b = #[trigger] borders@[k];
                    &&& idx_matches(b.0, within(left_nb(orig, k, n as int), t as int))
                    &&& idx_matches(b.1, within(right_nb(orig, k, n as int), t as int))
                    &&& idx_matches(b.2, within(top_nb(orig, k, n as int), t as int))
                    &&& idx_matches(b.3, within(bottom_nb(orig, k, n as int), t as int))
                },
            forall|k: int| i <= k < n ==> rects@[k] == #[trigger] orig[k],
            forall|k: int|
                0 <= k < i ==> rects@[k] == bordered(orig, k, t as int, container),
        decreases n - i,
    {
        proof {
            assert(rects@[i as int] == orig[i as int]);
        }
        let mut r = rects[i];
        let b = borders[i];
        match b.0 {
            Some(other_i) => {
                if i < other_i {
                    r.expand_left(half_ceil);
                } else {
                    r.expand_left(half);
                }
            },
            None => {
                let e = if t <= r.left() {
                    t
                } else {
                    r.left()
                };
                r.expand_left(e);
            },
        }
        match b.1 {
            Some(other_i) => {
                if i < other_i {
                    r.expand_right(half_ceil);
                } else {
                    r.expand_right(half);
                }
            },
            None => {
                let room = container.width - r.right();
                let e = if t <= room {
                    t
                } else {
                    room
                };
                r.expand_right(e);
            },
        }
        match b.2 {
            Some(other_i) => {
                if i < other_i {
                    r.expand_top(half_ceil);
                } else {
                    r.expand_top(half);
                }
            },
            None => {
                let e = if t <= r.top() {
                    t
                } else {
                    r.top()
                };
                r.expand_top(e);
            },
        }
        match b.3 {
            Some(other_i) => {
                if i < other_i {
                    r.expand_bottom(half_ceil);
                } else {
                    r.expand_bottom(half);
                }
            },
            None => {
                let room = container.height - r.bottom();
                let e = if t <= room {
                    t
                } else {
                    room
                };
                r.expand_bottom(e);
            },
        }
        proof {
            assert(r == bordered(orig, i as int, t as int, container));
        }
        rects.set(i, r);
        i += 1;
    }
}

/// A single rectangle that already covers the whole container is unchanged
/// by border overlap, whatever the thickness: it has no neighbours and no
/// room toward any container edge.
pub proof fn lemma_overlap_borders_full_container(c: Size, t: int)
    requires
        c.width >= 1,
        c.height >= 1,
        t >= 0,
    ensures
        ({
            let full = Rect { pos: Pos { x: 0, y: 0 }, size: c };
            bordered(seq![full], 0, t, c) == full
        }),
{
    let full = Rect { pos: Pos { x: 0, y: 0 }, size: c };
    let rects = seq![full];
    assert(rects[0] == full);
    assert(left_nb(rects, 0, 0) is None && right_nb(rects, 0, 0) is None && top_nb(rects, 0, 0)
        is None && bottom_nb(rects, 0, 0) is None);
    assert(left_nb(rects, 0, 1) is None);
    assert(right_nb(rects, 0, 1) is None);
    assert(top_nb(rects, 0, 1) is None);
    assert(bottom_nb(rects, 0, 1) is None);
    assert(bordered(rects, 0, t, c) == full);
}

/// A left neighbour implies the left edge is at least one unit from the
/// container edge (the neighbour needs room), and likewise for the other
/// sides.
proof fn lemma_nb_room(rects: Seq<Rect>, c: Size, i: int, j: int)
    requires
        forall|k: int|
            0 <= k < rects.len() ==> contained_in(#[trigger] rects[k], c) && (#[trigger] rects[k]).size.width
                >= 1 && rects[k].size.height >= 1,
        0 <= i < rects.len(),
        j <= rects.len(),
    ensures
        left_nb(rects, i, j) is Some ==> rects[i].pos.x >= 1,
        top_nb(rects, i, j) is Some ==> rects[i].pos.y >= 1,
        right_nb(rects, i, j) is Some ==> right_of(rects[i]) + 1 <= c.width,
        bottom_nb(rects, i, j) is Some ==> bottom_of(rects[i]) + 1 <= c.height,
    decreases j,
{
    if j > 0 {
        lemma_nb_room(rects, c, i, j - 1);
    }
}

/// The full post-processing pipeline, in order: clamp to the container,
/// remove gaps, and overlap borders. Restricted to border thicknesses of at
/// most two, which adjacent rectangles always have room for.
pub fn post_process(
    max_size: Size,
    container: Size,
    border_thickness: usize,
    rects: &mut Vec<Rect>,
)
    requires
        max_size.width <= container.width,
        max_size.height <= container.height,
        container.width <= usize::MAX / 2,
        container.height <= usize::MAX / 2,
        border_thickness <= 2,
        forall|i: int|
            0 <= i < old(rects)@.len() ==> (#[trigger] old(rects)@[i]).pos.x < container.width
                && old(rects)@[i].pos.y < container.height && 1 <= old(rects)@[i].size.width
                <= max_size.width && 1 <= old(rects)@[i].size.height <= max_size.height,
    ensures
        final(rects)@.len() == old(rects)@.len(),
        forall|i: int|
            0 <= i < final(rects)@.len() ==> contained_in(#[trigger] final(rects)@[i], container)
                && final(rects)@[i].size.width >= 1 && final(rects)@[i].size.height >= 1,
        exists|mid: Seq<Rect>|
            {
                &&& mid.len() == old(rects)@.len()
                &&& all_zero(step_freedoms(max_size, container, mid))
                &&& (forall|i: int|
                    0 <= i < mid.len() ==> {
                        let r0 = trimmed(#[trigger] old(rects)@[i], container);
                        let r1 = mid[i];
                        r1.pos.x <= r0.pos.x && r1.pos.y <= r0.pos.y && right_of(r1) >= right_of(
                            r0,
                        ) && bottom_of(r1) >= bottom_of(r0)
                    })
                &&& (forall|i: int|
                    0 <= i < mid.len() ==> #[trigger] final(rects)@[i] == bordered(
                        mid,
                        i,
                        border_thickness as int,
                        container,
                    ))
            },
{
    trim_outside(container, rects);
    proof {
        assert forall|i: int| 0 <= i < rects@.len() implies 1 <= (
        #[trigger] rects@[i]).size.width <= max_size.width && 1 <= rects@[i].size.height
            <= max_size.height && contained_in(rects@[i], container) by {
            assert(rects@[i] == trimmed(old(rects)@[i], container));
        }
    }
    remove_gaps(max_size, container, rects);
    let ghost mid = rects@;
    proof {
        assert forall|i: int| 0 <= i < rects@.len() implies (
        within(left_nb(mid, i, mid.len() as int), border_thickness as int) is Some
            ==> div_ceil_spec(border_thickness as int, 2) <= (#[trigger] rects@[i]).pos.x) && (
        within(top_nb(mid, i, mid.len() as int), border_thickness as int) is Some
            ==> div_ceil_spec(border_thickness as int, 2) <= rects@[i].pos.y) by {
            lemma_nb_room(mid, container, i, mid.len() as int);
            vstd::arithmetic::div_mod::lemma_div_pos_is_pos(border_thickness as int, 2);
        }
        assert(borders_input_ok(mid, border_thickness as int, container));
    }
    overlap_borders(border_thickness, container, rects);
    proof {
        assert forall|i: int| 0 <= i < rects@.len() implies contained_in(
            #[trigger] rects@[i],
            container,
        ) && rects@[i].size.width >= 1 && rects@[i].size.height >= 1 by {
            assert(rects@[i] == bordered(mid, i, border_thickness as int, container));
            lemma_nb_room(mid, container, i, mid.len() as int);
            vstd::arithmetic::div_mod::lemma_div_pos_is_pos(border_thickness as int, 2);
            assert(div_ceil_spec(border_thickness as int, 2) <= 1);
            assert(border_thickness as int / 2 <= 1);
        }
    }
}

} // verus!
