use grid_router::cost::PathCost;
use grid_router::dijkstra::DijkstraModel;
use grid_router::grid::Point;
use grid_router::proba_grid::Direction;

fn model(width: usize, height: usize, start: (usize, usize), end: (usize, usize)) -> DijkstraModel {
    DijkstraModel {
        width,
        height,
        obstacles: Vec::new(),
        diagonal_obstacles: Vec::new(),
        start: Point { x: start.0, y: start.1 },
        end: Point { x: end.0, y: end.1 },
    }
}

#[test]
fn straight_corridor_costs_its_length() {
    // A corridor one cell high: the only way is straight on.
    let m = model(8, 1, (0, 0), (7, 0));
    let r = m.run().unwrap();
    assert_eq!(r.distance, PathCost { straight: 7, diagonal: 0 });
    assert_eq!(r.trace_directions.len(), 7);
    assert!(r.trace_directions.iter().all(|d| *d == Direction { x: 1, y: 0 }));
    assert!(r.trace_path.diagonal_covered.is_empty());
    assert_eq!(r.trace_path.covered.len(), 8);
    assert_eq!(r.start, Point { x: 0, y: 0 });
    assert_eq!(r.end, Point { x: 7, y: 0 });
}

#[test]
fn diagonal_is_shorter_than_two_sides() {
    let m = model(3, 3, (0, 0), (2, 2));
    let r = m.run().unwrap();
    assert_eq!(r.distance, PathCost { straight: 0, diagonal: 2 });
    assert_eq!(r.trace_directions, vec![Direction { x: 1, y: 1 }, Direction { x: 1, y: 1 }]);
    assert_eq!(r.trace_path.diagonal_covered, vec![Point { x: 0, y: 0 }, Point { x: 1, y: 1 }]);
}

#[test]
fn blocked_diagonal_is_never_crossed() {
    // Both ends of the diagonal are free, the block between them is closed.
    let mut m = model(2, 2, (0, 0), (1, 1));
    m.diagonal_obstacles.push(Point { x: 0, y: 0 });
    let r = m.run().unwrap();
    assert_eq!(r.distance, PathCost { straight: 2, diagonal: 0 });
    assert!(r.trace_path.diagonal_covered.is_empty());
    assert!(r.trace_directions.iter().all(|d| d.x == 0 || d.y == 0));
}

#[test]
fn walled_in_end_is_reported() {
    let mut m = model(3, 3, (0, 0), (2, 2));
    m.obstacles.push(Point { x: 1, y: 1 });
    m.obstacles.push(Point { x: 2, y: 1 });
    m.obstacles.push(Point { x: 1, y: 2 });
    let e = m.run().unwrap_err();
    assert_eq!(e, "Dijkstra Algorithm Failed: No Path Found");
}

#[test]
fn start_equal_to_end_needs_no_step() {
    let m = model(4, 4, (2, 1), (2, 1));
    let r = m.run().unwrap();
    assert_eq!(r.distance, PathCost { straight: 0, diagonal: 0 });
    assert!(r.trace_directions.is_empty());
    assert_eq!(r.trace_path.covered, vec![Point { x: 2, y: 1 }]);
}

#[test]
fn repeated_runs_agree() {
    let mut m = model(6, 5, (0, 2), (5, 2));
    m.obstacles.push(Point { x: 2, y: 1 });
    m.obstacles.push(Point { x: 2, y: 2 });
    m.obstacles.push(Point { x: 2, y: 3 });
    let a = m.run().unwrap();
    let b = m.run().unwrap();
    assert_eq!(a.distance, b.distance);
    assert_eq!(a.trace_directions, b.trace_directions);
    assert_eq!(a.trace_path.covered, b.trace_path.covered);
}

#[test]
fn seven_diagonals_beat_ten_straights() {
    // 7·√2 < 10 although 7 + 7 > 10: lengths are compared exactly.
    assert!(PathCost { straight: 0, diagonal: 7 }.lt(PathCost { straight: 10, diagonal: 0 }));
    assert!(!PathCost { straight: 10, diagonal: 0 }.le(PathCost { straight: 0, diagonal: 7 }));
    assert!(PathCost { straight: 0, diagonal: 5 }.lt(PathCost { straight: 8, diagonal: 0 }));
    assert!(PathCost { straight: 7, diagonal: 0 }.lt(PathCost { straight: 0, diagonal: 5 }));
    assert!(PathCost { straight: 3, diagonal: 2 }.le(PathCost { straight: 3, diagonal: 2 }));
    assert!(!PathCost { straight: 3, diagonal: 2 }.lt(PathCost { straight: 3, diagonal: 2 }));
}
