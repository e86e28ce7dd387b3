//! Tests for the geometry helpers and the bit-vector codec.

use owm::binary::{ToFracLE, ToIntLE};
use owm::encoding::{bits_for, reduced_bits_for, Decoder};
use owm::rect::{covered_area, obscured_area, RangeExclusive};
use owm::{Pos, Rect, Size};

fn rect(x: usize, y: usize, w: usize, h: usize) -> Rect {
    Rect::new(x, y, w, h)
}

#[test]
fn range_exclusive_intersects_works_for_simple_cases() {
    assert!(RangeExclusive(0, 2).intersects(RangeExclusive(1, 2)));
    assert!(RangeExclusive(0, 3).intersects(RangeExclusive(1, 2)));
    assert!(!RangeExclusive(0, 1).intersects(RangeExclusive(1, 2)));
}

#[test]
fn covered_area_counts_union_area_once() {
    let rects = vec![rect(0, 0, 10, 5), rect(0, 5, 5, 5), rect(5, 5, 5, 5)];
    assert_eq!(covered_area(&rects), 100);
    let overlapping = vec![rect(0, 0, 4, 4), rect(2, 2, 4, 4)];
    assert_eq!(covered_area(&overlapping), 28);
    assert_eq!(covered_area(&Vec::new()), 0);
}

#[test]
fn obscured_area_counts_overlap_once_per_extra_cover() {
    let rects = vec![rect(0, 0, 4, 4), rect(2, 2, 4, 4)];
    assert_eq!(obscured_area(&rects), 4);
    let tiling = vec![rect(0, 0, 10, 5), rect(0, 5, 5, 5), rect(5, 5, 5, 5)];
    assert_eq!(obscured_area(&tiling), 0);
    let triple = vec![rect(0, 0, 2, 2), rect(0, 0, 2, 2), rect(0, 0, 2, 2)];
    assert_eq!(obscured_area(&triple), 8);
}

#[test]
fn manhattan_distance_sums_axis_distances() {
    assert_eq!(Pos::new(1, 1).dist(Pos::new(10, 8)), 16);
    assert_eq!(Pos::new(5, 5).dist(Pos::new(5, 5)), 0);
    assert_eq!(Pos::new(3, 0).dist(Pos::new(0, 4)), 7);
}

#[test]
fn bits_for_matches_the_documented_sequence() {
    assert_eq!(bits_for(0), 0);
    assert_eq!(bits_for(1), 1);
    assert_eq!(bits_for(2), 1);
    assert_eq!(bits_for(3), 2);
    assert_eq!(bits_for(5), 3);
}

#[test]
fn reduced_bits_for_coarsens_in_steps_of_128() {
    assert_eq!(reduced_bits_for(0), 0);
    assert_eq!(reduced_bits_for(1), 1);
    assert_eq!(reduced_bits_for(128), 1);
    assert_eq!(reduced_bits_for(129), 1);
    assert_eq!(reduced_bits_for(257), 2);
    assert_eq!(reduced_bits_for(1920), 4);
}

#[test]
fn to_int_le_reads_leftmost_as_least_significant() {
    let to_int = ToIntLE::new();
    let bits = vec![true, false, true, true];
    assert_eq!(to_int.decode(&bits, 0, 0), 0);
    assert_eq!(to_int.decode(&bits, 0, 1), 1);
    assert_eq!(to_int.decode(&bits, 0, 4), 13);
    assert_eq!(to_int.decode(&bits, 1, 3), 2);
}

#[test]
fn to_frac_le_pins_bounds_and_steps_between_them() {
    let d = ToFracLE::new(1, 4, 2);
    assert_eq!(d.decode(&vec![false, false], 0, 2), 1);
    assert_eq!(d.decode(&vec![true, false], 0, 2), 2);
    assert_eq!(d.decode(&vec![false, true], 0, 2), 3);
    assert_eq!(d.decode(&vec![true, true], 0, 2), 4);
    let empty = ToFracLE::new(7, 9, 0);
    assert_eq!(empty.decode(&Vec::new(), 0, 0), 7);
}

#[test]
fn decoder_decodes_extreme_bit_patterns_to_extreme_rectangles() {
    let decoder = Decoder::new(Size::new(1, 1), Size::new(10, 10), Size::new(10, 10), 2);
    let n = decoder.bits();
    assert_eq!(n, 8);
    let zeros = vec![false; n];
    let low = decoder.decode1(&zeros);
    assert_eq!(low, vec![rect(0, 0, 1, 1), rect(0, 0, 1, 1)]);
    let ones = vec![true; n];
    let high = decoder.decode1(&ones);
    // Maximal fields decode to the far corner with full size, then clamp
    // to the container.
    assert_eq!(high, vec![rect(9, 9, 1, 1), rect(9, 9, 1, 1)]);
}

#[test]
fn decoder_decodes_batches_row_by_row() {
    let decoder = Decoder::new(Size::new(1, 1), Size::new(10, 10), Size::new(10, 10), 1);
    let n = decoder.bits();
    assert_eq!(n, 4);
    let mut bits = vec![false; n];
    bits.extend(vec![true; n]);
    let rows = decoder.decode2(&bits, 2);
    assert_eq!(rows.len(), 2);
    assert_eq!(rows[0], vec![rect(0, 0, 1, 1)]);
    assert_eq!(rows[1], vec![rect(9, 9, 1, 1)]);
}

#[test]
fn decoded_rectangles_stay_in_range_for_arbitrary_bits() {
    let decoder = Decoder::new(Size::new(2, 3), Size::new(7, 8), Size::new(9, 11), 3);
    let n = decoder.bits();
    let mut pattern = 0usize;
    while pattern < 64 {
        let bits: Vec<bool> = (0..n).map(|i| (pattern >> (i % 7)) & 1 == 1).collect();
        for r in decoder.decode1(&bits) {
            assert!(r.size.width >= 2 && r.size.width <= 7);
            assert!(r.size.height >= 3 && r.size.height <= 8);
            assert!(r.pos.x + r.size.width <= 9);
            assert!(r.pos.y + r.size.height <= 11);
        }
        pattern += 1;
    }
}
