use cipollino::fill::trace_fill_boundary;
use cipollino::flood::{FloodFill, ProbeOutcome};

/// Runs the flood from `start`, treating every step into a cell outside the
/// square of half-width `half` as blocked. Returns the reached cells, in
/// order, and the boundary.
fn flood_square(start: (i32, i32), half: i32) -> (Vec<(i32, i32)>, Vec<(i32, i32)>) {
    let mut fill = FloodFill::new(start);
    let mut reached = vec![start];
    let mut probes = 0;
    while let Some((from, to)) = fill.next_probe() {
        probes += 1;
        assert!(probes < 10_000);
        assert!((from.0 - to.0).abs() + (from.1 - to.1).abs() == 1);
        assert!(reached.contains(&from));
        assert!(!reached.contains(&to));
        if to.0.abs() <= half && to.1.abs() <= half {
            fill.report(ProbeOutcome::Open);
            reached.push(to);
        } else {
            fill.report(ProbeOutcome::Blocked);
        }
    }
    (reached, fill.boundary().clone())
}

#[test]
fn flood_fills_a_square() {
    let (reached, boundary) = flood_square((0, 0), 2);
    assert_eq!(reached.len(), 25);
    for x in -2..=2 {
        for y in -2..=2 {
            assert!(reached.contains(&(x, y)));
        }
    }
    // The ring just outside the square, without its four corners.
    assert_eq!(boundary.len(), 20);
    for p in &boundary {
        let on_side = (p.0.abs() == 3 && p.1.abs() <= 2) || (p.1.abs() == 3 && p.0.abs() <= 2);
        assert!(on_side);
    }
}

#[test]
fn flood_visits_breadth_first_east_north_west_south() {
    let (reached, _) = flood_square((0, 0), 1);
    assert_eq!(
        reached[..5].to_vec(),
        vec![(0, 0), (1, 0), (0, 1), (-1, 0), (0, -1)]
    );
    assert_eq!(reached.len(), 9);
}

#[test]
fn flood_ends_closed() {
    let (reached, boundary) = flood_square((1, -1), 3);
    for p in &reached {
        for n in [(p.0 + 1, p.1), (p.0, p.1 + 1), (p.0 - 1, p.1), (p.0, p.1 - 1)] {
            assert!(reached.contains(&n) || boundary.contains(&n));
        }
    }
}

#[test]
fn blocked_cell_recorded_once() {
    // A single cell with every step blocked: each of the four neighbours is
    // met once.
    let mut fill = FloodFill::new((5, 5));
    let mut seen = 0;
    while let Some(_) = fill.next_probe() {
        seen += 1;
        fill.report(ProbeOutcome::Blocked);
    }
    assert_eq!(seen, 4);
    assert_eq!(fill.boundary().clone(), vec![(6, 5), (5, 6), (4, 5), (5, 4)]);
}

#[test]
fn flood_boundary_traces_one_loop() {
    let (_, boundary) = flood_square((0, 0), 2);
    let chains = trace_fill_boundary(&boundary);
    assert_eq!(chains.len(), 1);
    assert_eq!(
        chains[0],
        vec![
            (-3, -2), (-2, -3), (-1, -3), (0, -3), (1, -3), (2, -3), (3, -2), (3, -1), (3, 0), (3, 1),
            (3, 2), (2, 3), (1, 3), (0, 3), (-1, 3), (-2, 3), (-3, 2), (-3, 1), (-3, 0), (-3, -1),
        ]
    );
}
