//! Scenario tests for the objective suite.

use owm::objective::adjacent_close::PlaceAdjacentClose;
use owm::objective::area_ratios::{AreaRatio, MaintainAreaRatios};
use owm::objective::aspect_ratios::{AspectRatio, MaintainAspectRatios};
use owm::objective::center_main::CenterMain;
use owm::objective::consistency::MaximizeConsistency;
use owm::objective::gaps::MinimizeGaps;
use owm::objective::overlap::MinimizeOverlap;
use owm::objective::reading_order::PlaceInReadingOrder;
use owm::{InvalidScalarError, Problem, Rect, Size, Weight, Weights, UNIT};

fn rect(x: usize, y: usize, w: usize, h: usize) -> Rect {
    Rect::new(x, y, w, h)
}

#[test]
fn gaps_minimize_gaps_returns_0_for_best_case_without_overlap() {
    let container = Size::new(10, 10);
    let rects = vec![rect(0, 0, 10, 5), rect(0, 5, 5, 5), rect(5, 5, 5, 5)];
    assert!(MinimizeGaps::new(container).evaluate(&rects).is_zero());
}

#[test]
fn objective_minimize_gaps_returns_0_for_best_case_without_overlap() {
    let container = Size::new(10, 10);
    let rects = vec![rect(0, 0, 10, 5), rect(0, 5, 5, 5), rect(5, 5, 5, 5)];
    assert!(MinimizeGaps::new(container).evaluate(&rects).is_zero());
}

#[test]
fn overlap_minimize_overlap_returns_0_for_best_case() {
    let container = Size::new(10, 10);
    let rects = vec![rect(0, 0, 10, 5), rect(0, 5, 5, 5), rect(5, 5, 5, 5)];
    assert!(MinimizeOverlap::new(container, rects.len())
        .evaluate(&rects)
        .is_zero());
}

#[test]
fn objective_minimize_overlap_returns_0_for_best_case() {
    let container = Size::new(10, 10);
    let rects = vec![rect(0, 0, 10, 5), rect(0, 5, 5, 5), rect(5, 5, 5, 5)];
    assert!(MinimizeOverlap::new(container, rects.len())
        .evaluate(&rects)
        .is_zero());
}

fn area_ratio(v: usize) -> AreaRatio {
    AreaRatio::new(v).unwrap()
}

fn aspect_ratio(v: usize) -> AspectRatio {
    AspectRatio::new(v).unwrap()
}

#[test]
fn objective_maintain_area_ratios_returns_1_for_worst_case() {
    // Note, what exactly counts as the worst case is uncertain. We could
    // define the worst case as the reverse of the best case. However, then
    // the middle rectangle has a good area for its position.
    let max_size = Size::new(10, 10);
    let rects = vec![rect(0, 0, 1, 1), rect(0, 0, 10, 10), rect(0, 0, 10, 10)];
    let o = MaintainAreaRatios::new(vec![area_ratio(2 * UNIT)], max_size, rects.len());
    assert!(o.evaluate(&rects).is_one());
}

#[test]
fn objective_maintain_area_ratios_returns_0_for_best_case() {
    let max_size = Size::new(10, 10);
    let rects = vec![rect(0, 0, 10, 10), rect(0, 0, 10, 5), rect(0, 0, 5, 5)];
    let o = MaintainAreaRatios::new(vec![area_ratio(2 * UNIT)], max_size, rects.len());
    assert!(o.evaluate(&rects).is_zero());
}

#[test]
fn area_ratios_maintain_area_ratios_returns_1_for_worst_case() {
    let max_size = Size::new(10, 10);
    let rects = vec![rect(0, 0, 1, 1), rect(0, 0, 10, 10), rect(0, 0, 10, 10)];
    let o = MaintainAreaRatios::new(vec![area_ratio(2 * UNIT)], max_size, rects.len());
    assert!(o.evaluate(&rects).is_one());
}

#[test]
fn area_ratios_maintain_area_ratios_returns_0_for_best_case() {
    let max_size = Size::new(10, 10);
    let rects = vec![rect(0, 0, 10, 10), rect(0, 0, 10, 5), rect(0, 0, 5, 5)];
    let o = MaintainAreaRatios::new(vec![area_ratio(2 * UNIT)], max_size, rects.len());
    assert!(o.evaluate(&rects).is_zero());
}

#[test]
fn objective_maintain_aspect_ratios_returns_1_for_worst_case() {
    let max_size = Size::new(10, 10);
    let rects = vec![rect(0, 0, 1, 10), rect(0, 0, 10, 1)];
    let o = MaintainAspectRatios::new(
        vec![aspect_ratio(2 * UNIT), aspect_ratio(UNIT / 2)],
        max_size,
        rects.len(),
    );
    assert!(o.evaluate(&rects).is_one());
}

#[test]
fn objective_maintain_aspect_ratios_returns_0_for_best_case() {
    let max_size = Size::new(10, 10);
    let rects = vec![rect(0, 0, 10, 5), rect(0, 0, 5, 10)];
    let o = MaintainAspectRatios::new(
        vec![aspect_ratio(2 * UNIT), aspect_ratio(UNIT / 2)],
        max_size,
        rects.len(),
    );
    assert!(o.evaluate(&rects).is_zero());
}

#[test]
fn aspect_ratios_maintain_aspect_ratios_returns_1_for_worst_case() {
    let max_size = Size::new(10, 10);
    let rects = vec![rect(0, 0, 1, 10), rect(0, 0, 10, 1)];
    let o = MaintainAspectRatios::new(
        vec![aspect_ratio(2 * UNIT), aspect_ratio(UNIT / 2)],
        max_size,
        rects.len(),
    );
    assert!(o.evaluate(&rects).is_one());
}

#[test]
fn aspect_ratios_maintain_aspect_ratios_returns_0_for_best_case() {
    let max_size = Size::new(10, 10);
    let rects = vec![rect(0, 0, 10, 5), rect(0, 0, 5, 10)];
    let o = MaintainAspectRatios::new(
        vec![aspect_ratio(2 * UNIT), aspect_ratio(UNIT / 2)],
        max_size,
        rects.len(),
    );
    assert!(o.evaluate(&rects).is_zero());
}

#[test]
fn adjacent_close_place_adjacent_close_returns_1_for_worst_case() {
    // Worst case is rectangles with min size alternating opposite corners.
    let container = Size::new(10, 10);
    let rects = vec![rect(0, 0, 1, 1), rect(9, 9, 1, 1), rect(0, 0, 1, 1)];
    assert!(PlaceAdjacentClose::new(container, rects.len())
        .evaluate(&rects)
        .is_one());
}

#[test]
fn adjacent_close_place_adjacent_close_returns_0_for_best_case() {
    let container = Size::new(10, 10);
    let rects = vec![rect(0, 0, 5, 5), rect(0, 5, 5, 5), rect(5, 5, 5, 5)];
    assert!(PlaceAdjacentClose::new(container, rects.len())
        .evaluate(&rects)
        .is_zero());
}

#[test]
fn objective_place_adjacent_close_returns_1_for_worst_case() {
    let container = Size::new(10, 10);
    let rects = vec![rect(0, 0, 1, 1), rect(9, 9, 1, 1), rect(0, 0, 1, 1)];
    assert!(PlaceAdjacentClose::new(container, rects.len())
        .evaluate(&rects)
        .is_one());
}

#[test]
fn objective_place_adjacent_close_returns_0_for_best_case() {
    let container = Size::new(10, 10);
    let rects = vec![rect(0, 0, 5, 5), rect(0, 5, 5, 5), rect(5, 5, 5, 5)];
    assert!(PlaceAdjacentClose::new(container, rects.len())
        .evaluate(&rects)
        .is_zero());
}

#[test]
fn reading_order_place_in_reading_order_returns_1_for_worst_case() {
    let rects = vec![rect(2, 0, 1, 1), rect(1, 0, 1, 1), rect(0, 0, 1, 1)];
    assert!(PlaceInReadingOrder::new(rects.len()).evaluate(&rects).is_one());
    let rects = vec![rect(0, 2, 1, 1), rect(0, 1, 1, 1), rect(0, 0, 1, 1)];
    assert!(PlaceInReadingOrder::new(rects.len()).evaluate(&rects).is_one());
}

#[test]
fn reading_order_place_in_reading_order_returns_0_for_best_case() {
    let rects = vec![rect(0, 0, 1, 1), rect(1, 0, 1, 1), rect(2, 0, 1, 1)];
    assert!(PlaceInReadingOrder::new(rects.len()).evaluate(&rects).is_zero());
    let rects = vec![rect(0, 0, 1, 1), rect(0, 1, 1, 1), rect(0, 2, 1, 1)];
    assert!(PlaceInReadingOrder::new(rects.len()).evaluate(&rects).is_zero());
}

#[test]
fn objective_place_in_reading_order_returns_1_for_worst_case() {
    let rects = vec![rect(2, 0, 1, 1), rect(1, 0, 1, 1), rect(0, 0, 1, 1)];
    assert!(PlaceInReadingOrder::new(rects.len()).evaluate(&rects).is_one());
    let rects = vec![rect(0, 2, 1, 1), rect(0, 1, 1, 1), rect(0, 0, 1, 1)];
    assert!(PlaceInReadingOrder::new(rects.len()).evaluate(&rects).is_one());
}

#[test]
fn objective_place_in_reading_order_returns_0_for_best_case() {
    let rects = vec![rect(0, 0, 1, 1), rect(1, 0, 1, 1), rect(2, 0, 1, 1)];
    assert!(PlaceInReadingOrder::new(rects.len()).evaluate(&rects).is_zero());
    let rects = vec![rect(0, 0, 1, 1), rect(0, 1, 1, 1), rect(0, 2, 1, 1)];
    assert!(PlaceInReadingOrder::new(rects.len()).evaluate(&rects).is_zero());
}

#[test]
fn center_main_center_main_returns_1_for_worst_case() {
    let container = Size::new(10, 10);
    let rects = vec![rect(0, 0, 1, 1), rect(0, 5, 5, 5), rect(0, 0, 10, 10)];
    assert!(CenterMain::new(container).evaluate(&rects).is_one());
}

#[test]
fn center_main_center_main_returns_0_for_centered_main() {
    let container = Size::new(12, 12);
    let rects = vec![rect(3, 3, 6, 6), rect(0, 0, 12, 12), rect(0, 5, 5, 5)];
    assert!(CenterMain::new(container).evaluate(&rects).is_zero());
}

#[test]
fn objective_center_main_returns_1_for_worst_case() {
    let container = Size::new(10, 10);
    let rects = vec![rect(0, 0, 1, 1), rect(0, 5, 5, 5), rect(0, 0, 10, 10)];
    assert!(CenterMain::new(container).evaluate(&rects).is_one());
}

#[test]
fn objective_center_main_returns_0_for_centered_main() {
    let container = Size::new(12, 12);
    let rects = vec![rect(3, 3, 6, 6), rect(0, 0, 12, 12), rect(0, 5, 5, 5)];
    assert!(CenterMain::new(container).evaluate(&rects).is_zero());
}

#[test]
fn maximize_consistency_returns_1_for_worst_case() {
    let container = Size::new(10, 10);
    let prev = vec![rect(0, 0, 10, 10), rect(9, 9, 1, 1), rect(4, 4, 1, 1)];
    let rects = vec![
        rect(9, 9, 1, 1),
        rect(0, 0, 10, 10),
        rect(0, 0, 10, 10),
        rect(0, 0, 1, 1),
    ];
    assert!(MaximizeConsistency::new(container, prev).evaluate(&rects).is_one());
}

#[test]
fn gaps_returns_1_for_no_rectangles() {
    let container = Size::new(10, 10);
    assert!(MinimizeGaps::new(container).evaluate(&Vec::new()).is_one());
}

#[test]
fn overlap_returns_1_when_all_cover_the_container() {
    let container = Size::new(10, 10);
    let rects = vec![rect(0, 0, 10, 10), rect(0, 0, 10, 10)];
    assert!(MinimizeOverlap::new(container, 2).evaluate(&rects).is_one());
}

#[test]
fn overlap_returns_0_for_fewer_than_two_rectangles() {
    let container = Size::new(10, 10);
    let rects = vec![rect(0, 0, 10, 10)];
    assert!(MinimizeOverlap::new(container, 1).evaluate(&rects).is_zero());
}

#[test]
fn area_ratio_rejects_values_below_one() {
    assert_eq!(
        AreaRatio::new(UNIT - 1),
        Err(InvalidScalarError::TooLow {
            value: UNIT - 1,
            lower: UNIT
        })
    );
    assert!(AreaRatio::new(UNIT).is_ok());
}

#[test]
fn aspect_ratio_rejects_zero() {
    assert_eq!(
        AspectRatio::new(0),
        Err(InvalidScalarError::TooLow { value: 0, lower: 1 })
    );
    assert!(AspectRatio::new(1).is_ok());
}

#[test]
fn objective_values_stay_normalized_on_random_contained_layouts() {
    // A deterministic linear congruential generator is enough to exercise
    // the normalization across many contained arrangements.
    let mut state: u64 = 1;
    let mut next = move |n: usize| {
        state = state.wrapping_mul(6364136223846793005).wrapping_add(1442695040888963407);
        ((state >> 33) as usize) % n
    };
    for _ in 0..200 {
        let cw = 3 + next(30);
        let ch = 3 + next(30);
        let container = Size::new(cw, ch);
        let count = 1 + next(6);
        let mut rects = Vec::new();
        let mut areas_sorted = Vec::new();
        for _ in 0..count {
            let x = next(cw);
            let y = next(ch);
            let w = 1 + next(cw - x);
            let h = 1 + next(ch - y);
            rects.push(rect(x, y, w, h));
            areas_sorted.push(w * h);
        }
        let gaps = MinimizeGaps::new(container).evaluate(&rects);
        assert!(gaps.num <= gaps.den && gaps.den >= 1);
        let overlap = MinimizeOverlap::new(container, count).evaluate(&rects);
        assert!(overlap.num <= overlap.den && overlap.den >= 1);
        let adjacent = PlaceAdjacentClose::new(container, count).evaluate(&rects);
        assert!(adjacent.num <= adjacent.den && adjacent.den >= 1);
        let reading = PlaceInReadingOrder::new(count).evaluate(&rects);
        assert!(reading.num <= reading.den && reading.den >= 1);
        let center = CenterMain::new(container).evaluate(&rects);
        assert!(center.num <= center.den && center.den >= 1);
        let aspect = MaintainAspectRatios::new(
            vec![aspect_ratio(UNIT + next(3 * UNIT))],
            container,
            count,
        )
        .evaluate(&rects);
        assert!(aspect.num <= aspect.den && aspect.den >= 1);
        let consistency = MaximizeConsistency::new(container, rects.clone()).evaluate(&rects);
        assert!(consistency.num <= consistency.den && consistency.den >= 1);
        assert!(consistency.is_zero());
        // The area-ratio score stays within its worst case for ratios in
        // non-increasing order and monotonically shrinking areas.
        areas_sorted.sort_unstable_by(|a, b| b.cmp(a));
        let shrinking: Vec<Rect> = areas_sorted.iter().map(|&a| rect(0, 0, a, 1)).collect();
        let wide = Size::new(cw * ch, 1);
        let ar = MaintainAreaRatios::new(
            vec![area_ratio(2 * UNIT), area_ratio(UNIT)],
            wide,
            count,
        )
        .evaluate(&shrinking);
        assert!(ar.num <= ar.den && ar.den >= 1);
    }
}

#[test]
fn objective_fractions_match_their_formulas_on_partial_layouts() {
    let container = Size::new(10, 10);
    // One 5x5 rectangle leaves 75 of 100 cells uncovered, out of a worst
    // case of 99.
    let gaps = MinimizeGaps::new(container).evaluate(&vec![rect(0, 0, 5, 5)]);
    assert_eq!((gaps.num, gaps.den), (75, 99));
    // Two 4x4 rectangles sharing a 2x2 corner obscure 4 cells, out of a
    // worst case of one full extra cover.
    let rects = vec![rect(0, 0, 4, 4), rect(2, 2, 4, 4)];
    let overlap = MinimizeOverlap::new(container, 2).evaluate(&rects);
    assert_eq!((overlap.num, overlap.den), (4, 100));
    // A main rectangle centered at (2, 2) sits 6 away from the center
    // (5, 5), out of a worst case of 10.
    let center = CenterMain::new(container).evaluate(&vec![rect(0, 0, 4, 4)]);
    assert_eq!((center.num, center.den), (6, 10));
    // One of two pairs out of order.
    let rects = vec![rect(0, 0, 1, 1), rect(5, 5, 1, 1), rect(2, 2, 1, 1)];
    let reading = PlaceInReadingOrder::new(3).evaluate(&rects);
    assert_eq!((reading.num, reading.den), (1, 2));
}

#[test]
fn fitness_is_zero_for_a_perfectly_centered_full_layout() {
    let container = Size::new(10, 10);
    let weights = Weights {
        gaps_weight: Weight::new(5 * UNIT),
        overlap_weight: Weight::new(6 * UNIT),
        area_ratios_weight: Weight::new(UNIT),
        aspect_ratios_weight: Weight::new(3 * UNIT),
        adjacent_close_weight: Weight::new(UNIT / 2),
        reading_order_weight: Weight::new(UNIT / 2),
        center_main_weight: Weight::new(UNIT),
        consistency_weight: Weight::new(UNIT),
    };
    let problem = Problem::new(
        weights,
        vec![area_ratio(3 * UNIT), area_ratio(2 * UNIT), area_ratio(UNIT)],
        vec![aspect_ratio(UNIT)],
        Size::new(10, 10),
        container,
        Vec::new(),
    );
    let rects = vec![rect(0, 0, 10, 10)];
    assert_eq!(problem.evaluate(&rects), 0);
}
