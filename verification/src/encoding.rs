//! The genotype/phenotype codec: fixed-length bit vectors to rectangles.
//!
//! Each rectangle is encoded as four contiguous little-endian bit fields in
//! the order x, y, width, height. Field values are affine-mapped into their
//! configured ranges, so every bit pattern decodes to an in-range rectangle;
//! decoding is total. Bit widths are chosen by a reduced-precision rule that
//! deliberately coarsens the search space in steps of 128 units.

use crate::binary::{affine_decode, le_int, ToFracLE};
use crate::post_processing::{div_ceil, div_ceil_spec, trim_outside, trimmed};
use crate::rect::{Pos, Rect, Size};
use vstd::arithmetic::power2::pow2;
use vstd::prelude::*;

verus! {

/// The number of halvings needed to bring `n` to zero; for `n >= 1` this is
/// `floor(log2(n)) + 1`, the bit count of `n`.
pub open spec fn count_halvings(n: nat) -> nat
    decreases n,
{
    if n == 0 {
        0
    } else {
        1 + count_halvings(n / 2)
    }
}

/// A number below `2^k` has at most `k` bits.
pub proof fn lemma_count_halvings_bound(n: nat, k: nat)
    requires
        n < pow2(k),
    ensures
        count_halvings(n) <= k,
    decreases n,
{
    if n > 0 {
        if k == 0 {
            vstd::arithmetic::power2::lemma2_to64();
        } else {
            vstd::arithmetic::power2::lemma_pow2_unfold(k);
            lemma_count_halvings_bound(n / 2, (k - 1) as nat);
        }
    }
}

/// The number of bits needed to distinguish the values `0 ..= x - 1`, with
/// zero-bit and one-bit fields pinned: `bits_for(0) == 0`,
/// `bits_for(1) == 1`, and otherwise `floor(log2(x - 1)) + 1`.
pub open spec fn bits_for_spec(x: nat) -> nat {
    if x == 0 {
        0
    } else if x == 1 {
        1
    } else {
        count_halvings((x - 1) as nat)
    }
}

/// The reduced bit width for a field spanning `x` values:
/// `bits_for(ceil(x / 128))`. The constant 128 deliberately coarsens the
/// encoding; it has no meaning beyond being a power of two.
pub open spec fn reduced_bits_for_spec(x: nat) -> nat {
    bits_for_spec(div_ceil_spec(x as int, 128) as nat)
}

pub fn bits_for(x: usize) -> (r: usize)
    ensures
        r == bits_for_spec(x as nat),
        r <= 64,
{
    proof {
        vstd::arithmetic::power2::lemma2_to64();
        if x >= 2 {
            lemma_count_halvings_bound((x - 1) as nat, 64);
        }
    }
    if x == 0 {
        0
    } else if x == 1 {
        1
    } else {
        let mut m: usize = x - 1;
        let mut b: usize = 0;
        while m > 0
            invariant
                b + count_halvings(m as nat) == count_halvings((x - 1) as nat),
                count_halvings((x - 1) as nat) <= 64,
            decreases m,
        {
            m = m / 2;
            b = b + 1;
        }
        b
    }
}

pub fn reduced_bits_for(x: usize) -> (r: usize)
    ensures
        r == reduced_bits_for_spec(x as nat),
        r <= 57,
{
    let c = div_ceil(x, 128);
    proof {
        vstd::arithmetic::power2::lemma2_to64();
        vstd::arithmetic::power2::lemma2_to64_rest();
        vstd::arithmetic::div_mod::lemma_div_is_ordered(
            x as int,
            0xFFFF_FFFF_FFFF_FFFF,
            128,
        );
        if c >= 2 {
            assert(((c - 1) as nat) < pow2(57)) by {
                assert(0xFFFF_FFFF_FFFF_FFFFint / 128 < 0x200_0000_0000_0000int);
            }
            lemma_count_halvings_bound((c - 1) as nat, 57);
        }
    }
    bits_for(c)
}

/// Decodes fixed-length bit vectors into rectangles for a given
/// configuration of minimum size, maximum size, container and rectangle
/// count.
#[derive(Clone, Copy, Debug, PartialEq, Eq, Structural)]
pub struct Decoder {
    pub max_size: Size,
    pub container: Size,
    pub count: usize,
    pub x_decoder: ToFracLE,
    pub y_decoder: ToFracLE,
    pub width_decoder: ToFracLE,
    pub height_decoder: ToFracLE,
}

impl Decoder {
    /// The configured minimum rectangle width.
    pub open spec fn min_width(self) -> int {
        self.width_decoder.start as int
    }

    /// The configured minimum rectangle height.
    pub open spec fn min_height(self) -> int {
        self.height_decoder.start as int
    }

    /// The decoder's internal consistency: field ranges derived from one
    /// `min <= max <= container` configuration, with positive minimum sizes.
    pub open spec fn wf(self) -> bool {
        &&& 1 <= self.min_width() <= self.max_size.width <= self.container.width
        &&& 1 <= self.min_height() <= self.max_size.height <= self.container.height
        &&& self.x_decoder.start == 0
        &&& self.x_decoder.end == self.container.width - self.min_width()
        &&& self.y_decoder.start == 0
        &&& self.y_decoder.end == self.container.height - self.min_height()
        &&& self.width_decoder.end == self.max_size.width
        &&& self.height_decoder.end == self.max_size.height
        &&& self.x_decoder.bits_len <= 63
        &&& self.y_decoder.bits_len <= 63
        &&& self.width_decoder.bits_len <= 63
        &&& self.height_decoder.bits_len <= 63
        &&& self.count <= usize::MAX / 256
    }

    /// Bits per encoded rectangle: the four field widths, in field order
    /// x, y, width, height.
    pub open spec fn bits_per_rect_spec(self) -> int {
        self.x_decoder.bits_len + self.y_decoder.bits_len + self.width_decoder.bits_len
            + self.height_decoder.bits_len
    }

    /// Total bits for a layout: bits per rectangle times the count.
    pub open spec fn bits_spec(self) -> int {
        self.bits_per_rect_spec() * self.count
    }

    pub fn new(min_size: Size, max_size: Size, container: Size, count: usize) -> (r: Self)
        requires
            1 <= min_size.width <= max_size.width <= container.width,
            1 <= min_size.height <= max_size.height <= container.height,
            count <= usize::MAX / 256,
        ensures
            r.wf(),
            r.max_size == max_size,
            r.container == container,
            r.count == count,
            r.min_width() == min_size.width,
            r.min_height() == min_size.height,
            r.x_decoder.bits_len == reduced_bits_for_spec((container.width - min_size.width) as nat),
            r.y_decoder.bits_len == reduced_bits_for_spec(
                (container.height - min_size.height) as nat,
            ),
            r.width_decoder.bits_len == reduced_bits_for_spec(
                (max_size.width - min_size.width) as nat,
            ),
            r.height_decoder.bits_len == reduced_bits_for_spec(
                (max_size.height - min_size.height) as nat,
            ),
    {
        let x_max = container.width - min_size.width;
        let y_max = container.height - min_size.height;
        let bits_per_x = reduced_bits_for(x_max);
        let bits_per_y = reduced_bits_for(y_max);
        let bits_per_width = reduced_bits_for(max_size.width - min_size.width);
        let bits_per_height = reduced_bits_for(max_size.height - min_size.height);
        Decoder {
            max_size,
            container,
            count,
            x_decoder: ToFracLE::new(0, x_max, bits_per_x),
            y_decoder: ToFracLE::new(0, y_max, bits_per_y),
            width_decoder: ToFracLE::new(min_size.width, max_size.width, bits_per_width),
            height_decoder: ToFracLE::new(min_size.height, max_size.height, bits_per_height),
        }
    }

    /// The total number of bits a bit vector for this configuration holds.
    pub fn bits(&self) -> (r: usize)
        requires
            self.wf(),
        ensures
            r == self.bits_spec(),
    {
        let bpr = self.bits_per_rect();
        proof {
            vstd::arithmetic::div_mod::lemma_fundamental_div_mod(usize::MAX as int, 256);
            assert(self.bits_per_rect_spec() * self.count <= usize::MAX) by (nonlinear_arith)
                requires
                    0 <= self.bits_per_rect_spec() <= 252,
                    0 <= self.count,
                    self.count <= usize::MAX / 256,
                    usize::MAX == 256 * (usize::MAX / 256) + usize::MAX % 256,
                    0 <= usize::MAX % 256,
            ;
        }
        bpr * self.count
    }

    fn bits_per_rect(&self) -> (r: usize)
        requires
            self.wf(),
        ensures
            r == self.bits_per_rect_spec(),
            r <= 252,
    {
        self.x_decoder.bits_len + self.y_decoder.bits_len + self.width_decoder.bits_len
            + self.height_decoder.bits_len
    }

    pub fn container(&self) -> (r: Size)
        ensures
            r == self.container,
    {
        self.container
    }

    /// The rectangle encoded at bit offset `off`, before clamping.
    pub open spec fn rect_at(self, bits: Seq<bool>, off: int) -> Rect {
        let xb = self.x_decoder.bits_len as int;
        let yb = self.y_decoder.bits_len as int;
        let wb = self.width_decoder.bits_len as int;
        let hb = self.height_decoder.bits_len as int;
        let x = affine_decode(
            0,
            self.x_decoder.end as int,
            self.x_decoder.bits_len as nat,
            le_int(bits.subrange(off, off + xb)),
        );
        let y = affine_decode(
            0,
            self.y_decoder.end as int,
            self.y_decoder.bits_len as nat,
            le_int(bits.subrange(off + xb, off + xb + yb)),
        );
        let w = affine_decode(
            self.min_width(),
            self.max_size.width as int,
            self.width_decoder.bits_len as nat,
            le_int(bits.subrange(off + xb + yb, off + xb + yb + wb)),
        );
        let h = affine_decode(
            self.min_height(),
            self.max_size.height as int,
            self.height_decoder.bits_len as nat,
            le_int(bits.subrange(off + xb + yb + wb, off + xb + yb + wb + hb)),
        );
        Rect {
            pos: Pos { x: x as usize, y: y as usize },
            size: Size { width: w as usize, height: h as usize },
        }
    }

    /// The rectangle at slot `k` of the row starting at bit `base`, after
    /// clamping to the container.
    pub open spec fn decoded_rect(self, bits: Seq<bool>, base: int, k: int) -> Rect {
        trimmed(self.rect_at(bits, base + k * self.bits_per_rect_spec()), self.container)
    }

    /// Every decoded rectangle is in range: position within the container's
    /// usable area, sizes between the configured minimum and maximum, and
    /// (after clamping) contained in the container.
    pub open spec fn in_range(self, r: Rect) -> bool {
        &&& r.pos.x <= self.container.width - self.min_width()
        &&& r.pos.y <= self.container.height - self.min_height()
        &&& self.min_width() <= r.size.width <= self.max_size.width
        &&& self.min_height() <= r.size.height <= self.max_size.height
        &&& r.pos.x + r.size.width <= self.container.width
        &&& r.pos.y + r.size.height <= self.container.height
    }

    fn decode_rect(&self, bits: &Vec<bool>, off: usize) -> (r: Rect)
        requires
            self.wf(),
            off + self.bits_per_rect_spec() <= bits@.len(),
        ensures
            r == self.rect_at(bits@, off as int),
            r.pos.x <= self.container.width - self.min_width(),
            r.pos.y <= self.container.height - self.min_height(),
            self.min_width() <= r.size.width <= self.max_size.width,
            self.min_height() <= r.size.height <= self.max_size.height,
    {
        let total = bits.len();
        let xb = self.x_decoder.bits_len;
        let yb = self.y_decoder.bits_len;
        let wb = self.width_decoder.bits_len;
        let hb = self.height_decoder.bits_len;
        proof {
            assert(off + xb + yb + wb + hb <= total);
        }
        let x = self.x_decoder.decode(bits, off, off + xb);
        let y = self.y_decoder.decode(bits, off + xb, off + xb + yb);
        let w = self.width_decoder.decode(bits, off + xb + yb, off + xb + yb + wb);
        let h = self.height_decoder.decode(
            bits,
            off + xb + yb + wb,
            off + xb + yb + wb + hb,
        );
        Rect { pos: Pos { x, y }, size: Size { width: w, height: h } }
    }

    /// Decode one row of `self.bits()` bits starting at `base` into `count`
    /// rectangles, clamped to the container.
    fn decode_row(&self, bits: &Vec<bool>, base: usize) -> (r: Vec<Rect>)
        requires
            self.wf(),
            base + self.bits_spec() <= bits@.len(),
        ensures
            r@.len() == self.count,
            forall|k: int|
                0 <= k < self.count ==> r@[k] == self.decoded_rect(
                    bits@,
                    base as int,
                    k,
                ),
            forall|k: int| 0 <= k < self.count ==> self.in_range(#[trigger] r@[k]),
    {
        let bpr = self.bits_per_rect();
        let total = bits.len();
        let mut out: Vec<Rect> = Vec::new();
        let mut k: usize = 0;
        while k < self.count
            invariant
                self.wf(),
                k <= self.count,
                bpr == self.bits_per_rect_spec(),
                total == bits@.len(),
                base + self.bits_spec() <= total,
                self.bits_spec() == self.bits_per_rect_spec() * self.count,
                out@.len() == k,
                forall|m: int|
                    0 <= m < k ==> out@[m] == self.rect_at(
                        bits@,
                        base + m * self.bits_per_rect_spec(),
                    ),
                forall|m: int|
                    0 <= m < k ==> (#[trigger] out@[m]).pos.x <= self.container.width
                        - self.min_width() && out@[m].pos.y <= self.container.height
                        - self.min_height() && self.min_width() <= out@[m].size.width
                        <= self.max_size.width && self.min_height() <= out@[m].size.height
                        <= self.max_size.height,
            decreases self.count - k,
        {
            proof {
                assert(k * self.bits_per_rect_spec() + self.bits_per_rect_spec()
                    <= self.bits_spec() && 0 <= k * self.bits_per_rect_spec())
                    by (nonlinear_arith)
                    requires
                        0 <= k,
                        k + 1 <= self.count,
                        0 <= self.bits_per_rect_spec(),
                        self.bits_spec() == self.bits_per_rect_spec() * self.count,
                ;
            }
            let off = base + k * bpr;
            let r = self.decode_rect(bits, off);
            out.push(r);
            k += 1;
        }
        let mut out = out;
        proof {
            assert(forall|m: int|
                0 <= m < out@.len() ==> (#[trigger] out@[m]).pos.x <= self.container.width
                    && out@[m].pos.y <= self.container.height);
        }
        let ghost untrimmed = out@;
        trim_outside(self.container, &mut out);
        proof {
            assert forall|m: int| 0 <= m < out@.len() implies self.in_range(#[trigger] out@[m])
                && out@[m] == self.decoded_rect(bits@, base as int, m) by {
                assert(out@[m] == trimmed(untrimmed[m], self.container));
                assert(untrimmed[m] == self.rect_at(bits@, base + m * self.bits_per_rect_spec()));
            }
        }
        out
    }

    /// Decode a single bit vector into `count` rectangles. Pure and total:
    /// any bit pattern of the right length decodes to in-range rectangles.
    pub fn decode1(&self, bits: &Vec<bool>) -> (r: Vec<Rect>)
        requires
            self.wf(),
            bits@.len() == self.bits_spec(),
        ensures
            r@.len() == self.count,
            forall|k: int|
                0 <= k < self.count ==> r@[k] == self.decoded_rect(bits@, 0, k),
            forall|k: int| 0 <= k < self.count ==> self.in_range(#[trigger] r@[k]),
    {
        self.decode_row(bits, 0)
    }

    /// Decode `rows` concatenated bit vectors into one rectangle row each.
    pub fn decode2(&self, bits: &Vec<bool>, rows: usize) -> (r: Vec<Vec<Rect>>)
        requires
            self.wf(),
            bits@.len() == rows * self.bits_spec(),
        ensures
            r@.len() == rows,
            forall|row: int|
                0 <= row < rows ==> (#[trigger] r@[row])@.len() == self.count,
            forall|row: int, k: int|
                0 <= row < rows && 0 <= k < self.count ==> #[trigger] (r@[row])@[k]
                    == self.decoded_rect(bits@, row * self.bits_spec(), k),
            forall|row: int, k: int|
                0 <= row < rows && 0 <= k < self.count ==> self.in_range(
                    #[trigger] (r@[row])@[k],
                ),
    {
        let b = self.bits();
        let total = bits.len();
        let mut out: Vec<Vec<Rect>> = Vec::new();
        let mut row: usize = 0;
        while row < rows
            invariant
                self.wf(),
                row <= rows,
                b == self.bits_spec(),
                total == bits@.len(),
                bits@.len() == rows * self.bits_spec(),
                out@.len() == row,
                forall|m: int|
                    0 <= m < row ==> (#[trigger] out@[m])@.len() == self.count,
                forall|m: int, k: int|
                    0 <= m < row && 0 <= k < self.count ==> #[trigger] (out@[m])@[k]
                        == self.decoded_rect(bits@, m * self.bits_spec(), k),
                forall|m: int, k: int|
                    0 <= m < row && 0 <= k < self.count ==> self.in_range(
                        #[trigger] (out@[m])@[k],
                    ),
            decreases rows - row,
        {
            proof {
                assert(row * self.bits_spec() + self.bits_spec() <= rows * self.bits_spec()
                    && 0 <= row * self.bits_spec()) by (nonlinear_arith)
                    requires
                        0 <= row,
                        row + 1 <= rows,
                        0 <= self.bits_spec(),
                ;
            }
            let base = row * b;
            let v = self.decode_row(bits, base);
            out.push(v);
            row += 1;
        }
        out
    }
}

} // verus!
