//! Scenario tests for the geometric post-processor.

use owm::post_processing::{div_ceil, overlap_borders, post_process, remove_gaps, trim_outside};
use owm::{Rect, Size};

fn rect(x: usize, y: usize, w: usize, h: usize) -> Rect {
    Rect::new(x, y, w, h)
}

#[test]
fn remove_gaps_expands_at_same_rate() {
    let container = Size::new(10, 10);
    let mut rects = vec![rect(2, 2, 6, 1), rect(2, 7, 1, 1), rect(7, 7, 1, 1)];
    remove_gaps(container, container, &mut rects);
    assert_eq!(
        rects,
        vec![rect(0, 0, 10, 5), rect(0, 5, 5, 5), rect(5, 5, 5, 5)]
    );
}

#[test]
fn remove_gaps_applied_twice_changes_nothing() {
    let container = Size::new(10, 10);
    let mut rects = vec![rect(2, 2, 6, 1), rect(2, 7, 1, 1), rect(7, 7, 1, 1)];
    remove_gaps(container, container, &mut rects);
    let once = rects.clone();
    remove_gaps(container, container, &mut rects);
    assert_eq!(rects, once);
}

#[test]
fn overlap_borders_expands_evenly() {
    let container = Size::new(10, 10);
    let mut rects = vec![rect(0, 0, 10, 5), rect(0, 5, 5, 5), rect(5, 5, 5, 5)];
    overlap_borders(2, container, &mut rects);
    assert_eq!(
        rects,
        vec![rect(0, 0, 10, 6), rect(0, 4, 6, 6), rect(4, 4, 6, 6)]
    );
}

#[test]
fn overlap_borders_breaks_ties_in_favor_of_first() {
    let container = Size::new(10, 10);
    let mut rects = vec![rect(0, 0, 10, 5), rect(0, 5, 5, 5), rect(5, 5, 5, 5)];
    overlap_borders(1, container, &mut rects);
    assert_eq!(
        rects,
        vec![rect(0, 0, 10, 6), rect(0, 5, 6, 5), rect(5, 5, 5, 5)]
    );
}

#[test]
fn overlap_borders_leaves_a_full_container_rectangle_alone() {
    // A single rectangle already covering the container touches every
    // container edge, so any thickness changes nothing.
    for t in [0usize, 1, 2, 7, 32] {
        let container = Size::new(10, 10);
        let mut rects = vec![rect(0, 0, 10, 10)];
        overlap_borders(t, container, &mut rects);
        assert_eq!(rects, vec![rect(0, 0, 10, 10)]);
    }
}

#[test]
fn div_ceil_works_for_simple_cases() {
    assert_eq!(div_ceil(11, 2), 6);
    assert_eq!(div_ceil(3, 2), 2);
    assert_eq!(div_ceil(1, 2), 1);
    assert_eq!(div_ceil(0, 2), 0);
    assert_eq!(div_ceil(2, 2), 1);
    assert_eq!(div_ceil(4, 2), 2);
    assert_eq!(div_ceil(4, 3), 2);
    assert_eq!(div_ceil(5, 3), 2);
    assert_eq!(div_ceil(6, 3), 2);
}

#[test]
fn trim_outside_clamps_to_the_container() {
    let container = Size::new(10, 10);
    let mut rects = vec![rect(8, 8, 5, 5), rect(0, 0, 10, 10), rect(10, 10, 3, 3)];
    trim_outside(container, &mut rects);
    assert_eq!(
        rects,
        vec![rect(8, 8, 2, 2), rect(0, 0, 10, 10), rect(10, 10, 1, 1)]
    );
}

#[test]
fn post_process_tiles_and_overlaps_borders() {
    let container = Size::new(10, 10);
    let mut rects = vec![rect(2, 2, 6, 1), rect(2, 7, 1, 1), rect(7, 7, 1, 1)];
    post_process(container, container, 1, &mut rects);
    assert_eq!(
        rects,
        vec![rect(0, 0, 10, 6), rect(0, 5, 6, 5), rect(5, 5, 5, 5)]
    );
}

#[test]
fn post_process_without_border_keeps_the_tiling() {
    let container = Size::new(10, 10);
    let mut rects = vec![rect(2, 2, 6, 1), rect(2, 7, 1, 1), rect(7, 7, 1, 1)];
    post_process(container, container, 0, &mut rects);
    assert_eq!(
        rects,
        vec![rect(0, 0, 10, 5), rect(0, 5, 5, 5), rect(5, 5, 5, 5)]
    );
}
