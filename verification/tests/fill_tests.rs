use cipollino::fill::trace_fill_boundary;

fn adjacent(a: (i32, i32), b: (i32, i32)) -> bool {
    a != b && (a.0 - b.0).abs() <= 1 && (a.1 - b.1).abs() <= 1
}

fn check_chains(points: &Vec<(i32, i32)>, chains: &Vec<Vec<(i32, i32)>>) {
    let mut seen = Vec::new();
    for (ci, chain) in chains.iter().enumerate() {
        assert!(chain.len() >= 2);
        for k in 0..chain.len() {
            assert!(points.contains(&chain[k]));
            assert!(!seen.contains(&chain[k]));
            seen.push(chain[k]);
            let next = chain[(k + 1) % chain.len()];
            assert!(adjacent(chain[k], next));
            if k > 0 {
                assert!(chain[0] < chain[k]);
            }
        }
        for later in &chains[ci + 1..] {
            for p in later {
                assert!(chain[0] < *p);
            }
        }
    }
}

fn ring(cx: i32, cy: i32) -> Vec<(i32, i32)> {
    let mut pts = Vec::new();
    for dx in -1..=1 {
        for dy in -1..=1 {
            if dx != 0 || dy != 0 {
                pts.push((cx + dx, cy + dy));
            }
        }
    }
    pts
}

#[test]
fn empty_boundary_has_no_chains() {
    assert!(trace_fill_boundary(&Vec::new()).is_empty());
}

#[test]
fn straight_line_is_all_tail() {
    let pts = vec![(0, 0), (1, 0), (2, 0), (3, 0)];
    assert!(trace_fill_boundary(&pts).is_empty());
}

#[test]
fn ring_traces_one_loop_without_corners() {
    let pts = ring(0, 0);
    let chains = trace_fill_boundary(&pts);
    check_chains(&pts, &chains);
    assert_eq!(chains, vec![vec![(-1, 0), (0, -1), (1, 0), (0, 1)]]);
}

#[test]
fn two_rings_trace_two_loops() {
    let mut pts = ring(0, 0);
    pts.extend(ring(10, 0));
    let chains = trace_fill_boundary(&pts);
    check_chains(&pts, &chains);
    assert_eq!(chains.len(), 2);
    assert_eq!(chains[0][0], (-1, 0));
    assert_eq!(chains[1][0], (9, 0));
}

#[test]
fn square_outline_traces_closed_loop() {
    let mut pts = Vec::new();
    for x in 0..5 {
        pts.push((x, 0));
        pts.push((x, 4));
    }
    for y in 1..4 {
        pts.push((0, y));
        pts.push((4, y));
    }
    let chains = trace_fill_boundary(&pts);
    check_chains(&pts, &chains);
    assert_eq!(chains.len(), 1);
    assert_eq!(chains[0][0], (0, 1));
}

#[test]
fn ring_with_tail_drops_the_tail() {
    let mut pts = ring(0, 0);
    pts.push((2, 0));
    pts.push((3, 0));
    let chains = trace_fill_boundary(&pts);
    check_chains(&pts, &chains);
    assert_eq!(chains.len(), 1);
    assert!(!chains[0].contains(&(3, 0)));
}

#[test]
fn tracing_twice_gives_the_same_chains() {
    let mut pts = ring(0, 0);
    pts.extend(ring(4, 1));
    pts.push((2, 5));
    assert_eq!(trace_fill_boundary(&pts), trace_fill_boundary(&pts));
}

#[test]
fn inner_corner_is_taken_away_before_tracing() {
    // An L-shaped outline: the cell at the bend has a neighbour above and
    // one to the right, and two neighbours in all, so it is an inner corner.
    let mut pts = Vec::new();
    for x in 0..4 {
        pts.push((x, 0));
        pts.push((x, 3));
    }
    for y in 1..3 {
        pts.push((0, y));
        pts.push((3, y));
    }
    let chains = trace_fill_boundary(&pts);
    check_chains(&pts, &chains);
    for chain in &chains {
        assert!(!chain.contains(&(0, 0)));
        assert!(!chain.contains(&(3, 3)));
    }
}
