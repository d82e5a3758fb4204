use metaballz::{
    classify, evaluate, extract_contours, interpolate, marching_squares, CellCase, Edge, Metaball,
    Model, Point, Segment, THRESHOLD,
};

#[test]
fn interpolate_returns_first_end_at_threshold() {
    assert_eq!(interpolate(3, 17, THRESHOLD, THRESHOLD + 5), 3);
    assert_eq!(interpolate(17, 3, THRESHOLD, 9 * THRESHOLD), 17);
    assert_eq!(interpolate(-8, 40, THRESHOLD, u64::MAX), -8);
}

#[test]
fn interpolate_returns_second_end_at_threshold() {
    assert_eq!(interpolate(3, 17, 2 * THRESHOLD, THRESHOLD), 17);
    assert_eq!(interpolate(17, 3, u64::MAX, THRESHOLD), 3);
    assert_eq!(interpolate(-8, 40, THRESHOLD + 1, THRESHOLD), 40);
}

#[test]
fn interpolate_exact_values() {
    // halfway: (1 - 0) / (2 - 0)
    assert_eq!(interpolate(0, 10, 0, 2 * THRESHOLD), 5);
    // a quarter of the way: (1 - 0.5) / (2.5 - 0.5)
    assert_eq!(interpolate(100, 140, THRESHOLD / 2, 5 * THRESHOLD / 2), 110);
    // rounded towards the first end
    assert_eq!(interpolate(10, 0, 0, 2 * THRESHOLD), 5);
    assert_eq!(interpolate(0, 7, 0, 2 * THRESHOLD), 3);
    assert_eq!(interpolate(7, 0, 0, 2 * THRESHOLD), 3);
}

#[test]
fn interpolate_does_not_depend_on_direction() {
    assert_eq!(interpolate(0, 3, 2 * THRESHOLD, 0), 1);
    assert_eq!(interpolate(3, 0, 0, 2 * THRESHOLD), 1);
    assert_eq!(interpolate(-5, 12, 100, 3 * THRESHOLD), interpolate(12, -5, 3 * THRESHOLD, 100));
    assert_eq!(interpolate(12, -5, 100, 3 * THRESHOLD), interpolate(-5, 12, 3 * THRESHOLD, 100));
}

#[test]
fn interpolate_with_threshold_and_lower_value() {
    assert_eq!(interpolate(0, 10, THRESHOLD, 3 * THRESHOLD), 0);
    assert_eq!(interpolate(140, 150, THRESHOLD, THRESHOLD / 2), 140);
    assert_eq!(interpolate(0, 10, THRESHOLD / 2, THRESHOLD), 10);
    assert_eq!(interpolate(150, 140, 0, THRESHOLD), 140);
}

#[test]
fn interpolate_is_monotonic() {
    let mut last = 1000;
    for k in 1..50u64 {
        let r = interpolate(0, 1000, THRESHOLD / 2, THRESHOLD + k * 1000);
        assert!(0 <= r && r <= 1000);
        assert!(r <= last);
        last = r;
    }
    let mut last = 0;
    for k in 0..50u64 {
        let r = interpolate(0, 1000, k * 1000, 3 * THRESHOLD);
        assert!(0 <= r && r <= 1000);
        assert!(k == 0 || r <= last);
        last = r;
    }
}

#[test]
fn case_table_homogeneous() {
    assert_eq!(classify(false, false, false, false), CellCase::Empty);
    assert_eq!(classify(true, true, true, true), CellCase::Full);
}

#[test]
fn case_table_single_corners() {
    assert_eq!(classify(true, false, false, false), CellCase::Single(Edge::Left, Edge::Top));
    assert_eq!(classify(false, true, false, false), CellCase::Single(Edge::Right, Edge::Top));
    assert_eq!(classify(false, false, true, false), CellCase::Single(Edge::Bottom, Edge::Left));
    assert_eq!(classify(false, false, false, true), CellCase::Single(Edge::Bottom, Edge::Right));
    assert_eq!(classify(false, true, true, true), CellCase::Single(Edge::Left, Edge::Top));
    assert_eq!(classify(true, false, true, true), CellCase::Single(Edge::Right, Edge::Top));
    assert_eq!(classify(true, true, false, true), CellCase::Single(Edge::Left, Edge::Bottom));
    assert_eq!(classify(true, true, true, false), CellCase::Single(Edge::Right, Edge::Bottom));
}

#[test]
fn case_table_halves_and_diagonals() {
    assert_eq!(classify(true, true, false, false), CellCase::Single(Edge::Left, Edge::Right));
    assert_eq!(classify(false, false, true, true), CellCase::Single(Edge::Left, Edge::Right));
    assert_eq!(classify(true, false, true, false), CellCase::Single(Edge::Top, Edge::Bottom));
    assert_eq!(classify(false, true, false, true), CellCase::Single(Edge::Top, Edge::Bottom));
    assert_eq!(
        classify(true, false, false, true),
        CellCase::Double(Edge::Left, Edge::Top, Edge::Bottom, Edge::Right)
    );
    assert_eq!(
        classify(false, true, true, false),
        CellCase::Double(Edge::Right, Edge::Top, Edge::Bottom, Edge::Left)
    );
}

#[test]
fn no_sources_no_contour() {
    let none: Vec<Metaball> = vec![];
    for (s, w, h) in [(1u32, 0u32, 0u32), (1, 30, 20), (10, 200, 200), (7, 1000, 3)] {
        let c = extract_contours(&none, s, w, h);
        assert!(c.segments.is_empty());
        assert!(c.full_cells.is_empty());
    }
}

#[test]
fn repeated_pass_is_identical() {
    let balls = vec![Metaball::new(60, 80, 35, 2, 1), Metaball::new(120, 90, 25, -1, 0)];
    let first = extract_contours(&balls, 10, 200, 150);
    let second = extract_contours(&balls, 10, 200, 150);
    assert!(!first.segments.is_empty());
    assert_eq!(first, second);
}

#[test]
fn single_cell_one_corner_inside() {
    // a source of radius 10 at distance 5 from A: only A is inside
    let balls = vec![Metaball::new(-3, -4, 10, 0, 0)];
    assert_eq!(evaluate(0, 0, &balls), 2 * THRESHOLD);
    assert_eq!(evaluate(10, 0, &balls), 48184);
    assert_eq!(evaluate(0, 10, &balls), 45773);
    let c = extract_contours(&balls, 10, 10, 10);
    // 10 * (2 - 1) / (2 - 0.735) and 10 * (2 - 1) / (2 - 0.698), rounded down
    assert_eq!(
        c.segments,
        vec![Segment { start: Point { x: 0, y: 7 }, end: Point { x: 7, y: 0 } }]
    );
    assert!(c.full_cells.is_empty());
}

#[test]
fn source_on_vertex_counts_as_inside() {
    let balls = vec![Metaball::new(0, 0, 5, 0, 0)];
    let c = extract_contours(&balls, 10, 10, 10);
    assert_eq!(
        c.segments,
        vec![Segment { start: Point { x: 0, y: 9 }, end: Point { x: 9, y: 0 } }]
    );
}

#[test]
fn diagonal_cell_gives_two_segments() {
    let balls = vec![Metaball::new(0, 0, 5, 0, 0), Metaball::new(10, 10, 5, 0, 0)];
    let c = extract_contours(&balls, 10, 10, 10);
    assert_eq!(c.segments.len(), 2);
    assert_eq!(c.segments[0].start.x, 0);
    assert_eq!(c.segments[0].end.y, 0);
    assert_eq!(c.segments[1].start.y, 10);
    assert_eq!(c.segments[1].end.x, 10);
}

#[test]
fn covered_grid_is_all_full_cells() {
    let balls = vec![Metaball::new(25, 25, 1000, 0, 0)];
    let c = extract_contours(&balls, 10, 55, 50);
    assert!(c.segments.is_empty());
    assert_eq!(c.full_cells.len(), 25);
    assert_eq!(c.full_cells[0], (0, 0));
    assert_eq!(c.full_cells[1], (1, 0));
    assert_eq!(c.full_cells[5], (0, 1));
    assert_eq!(c.full_cells[24], (4, 4));
}

#[test]
fn circle_scenario() {
    let mut model = Model::new(200, 200);
    model.set_grid_size(10);
    model.add_metaball(Metaball::new(100, 100, 50, 0, 0));
    for x in (0..=200i64).step_by(10) {
        for y in (0..=200i64).step_by(10) {
            let d2 = (x - 100) * (x - 100) + (y - 100) * (y - 100);
            let inside = evaluate(x, y, &model.metaballz) > THRESHOLD;
            assert_eq!(inside, d2 < 2500, "corner ({}, {})", x, y);
        }
    }
    let c = marching_squares(&model);
    assert!(c.segments.len() >= 20);
    for seg in &c.segments {
        for p in [seg.start, seg.end] {
            let dx = (p.x - 100) as f64;
            let dy = (p.y - 100) as f64;
            let dist = (dx * dx + dy * dy).sqrt();
            assert!((dist - 50.0).abs() <= 10.0, "point ({}, {})", p.x, p.y);
        }
    }
    assert_eq!(c, extract_contours(&model.metaballz, 10, 200, 200));
}

#[test]
fn partial_trailing_cells_are_dropped() {
    let balls = vec![Metaball::new(0, 0, 1000, 0, 0)];
    let c = extract_contours(&balls, 10, 29, 19);
    assert_eq!(c.full_cells, vec![(0, 0), (1, 0)]);
}
