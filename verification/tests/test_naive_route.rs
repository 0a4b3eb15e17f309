use grid_router::grid::{Grid, Net, Point};
use grid_router::naive_route::naive_route;

fn net(c: char) -> Net {
    Net::Character { pad_c: c, route_c: c.to_ascii_lowercase() }
}

fn three_nets() -> Grid {
    let mut grid = Grid::new(12, 8);
    grid.insert_pad(net('A'), Point { x: 3, y: 3 });
    grid.insert_pad(net('A'), Point { x: 9, y: 3 });
    grid.insert_pad(net('B'), Point { x: 5, y: 1 });
    grid.insert_pad(net('B'), Point { x: 5, y: 5 });
    grid.insert_pad(net('C'), Point { x: 7, y: 1 });
    grid.insert_pad(net('C'), Point { x: 7, y: 5 });
    grid
}

/// Whether the trace of `net` joins `from` and `to` through cells that touch.
fn trace_joins(grid: &Grid, net: Net, from: Point, to: Point) -> bool {
    let mut seen = vec![vec![false; grid.width]; grid.height];
    let mut stack = vec![from];
    if grid.traces[from.y][from.x] != Some(net) {
        return false;
    }
    seen[from.y][from.x] = true;
    while let Some(p) = stack.pop() {
        if p == to {
            return true;
        }
        for dy in [-1i64, 0, 1] {
            for dx in [-1i64, 0, 1] {
                let x = p.x as i64 + dx;
                let y = p.y as i64 + dy;
                if x < 0 || y < 0 || x >= grid.width as i64 || y >= grid.height as i64 {
                    continue;
                }
                let (x, y) = (x as usize, y as usize);
                if !seen[y][x] && grid.traces[y][x] == Some(net) {
                    seen[y][x] = true;
                    stack.push(Point { x, y });
                }
            }
        }
    }
    false
}

#[test]
fn three_nets_are_joined_without_touching() {
    let routed = naive_route(three_nets()).unwrap();
    assert!(trace_joins(&routed, net('A'), Point { x: 3, y: 3 }, Point { x: 9, y: 3 }));
    assert!(trace_joins(&routed, net('B'), Point { x: 5, y: 1 }, Point { x: 5, y: 5 }));
    assert!(trace_joins(&routed, net('C'), Point { x: 7, y: 1 }, Point { x: 7, y: 5 }));
    // No trace runs over the pad of another net.
    for y in 0..routed.height {
        for x in 0..routed.width {
            if let (Some(pad), Some(trace)) = (routed.pads[y][x], routed.traces[y][x]) {
                assert_eq!(pad, trace);
            }
        }
    }
    // The pads are where they were.
    let before = three_nets();
    assert_eq!(routed.pads, before.pads);
}

#[test]
fn shorter_connections_are_traced_first() {
    // B and C are shorter than A and go straight; A has to go round them.
    let routed = naive_route(three_nets()).unwrap();
    for y in 1..=5 {
        assert_eq!(routed.traces[y][5], Some(net('B')));
        assert_eq!(routed.traces[y][7], Some(net('C')));
    }
    assert_ne!(routed.traces[3][6], Some(net('A')));
}

#[test]
fn routing_twice_gives_the_same_traces() {
    let a = naive_route(three_nets()).unwrap();
    let b = naive_route(three_nets()).unwrap();
    assert_eq!(a.traces, b.traces);
    assert_eq!(a.diagonal_traces, b.diagonal_traces);
    // Routing a routed board starts from its pads again.
    let c = naive_route(a.clone()).unwrap();
    assert_eq!(a.traces, c.traces);
}

#[test]
fn a_net_that_is_walled_in_fails_the_whole_routing() {
    let mut grid = Grid::new(5, 5);
    grid.insert_pad(net('A'), Point { x: 0, y: 0 });
    grid.insert_pad(net('A'), Point { x: 4, y: 4 });
    // B surrounds the corner pad of A.
    grid.insert_pad(net('B'), Point { x: 1, y: 0 });
    grid.insert_pad(net('B'), Point { x: 1, y: 1 });
    grid.insert_pad(net('B'), Point { x: 0, y: 1 });
    let e = naive_route(grid).unwrap_err();
    assert_eq!(e, "Dijkstra Algorithm Failed: No Path Found");
}

#[test]
fn a_single_pad_is_not_routed() {
    let mut grid = Grid::new(4, 4);
    grid.insert_pad(net('A'), Point { x: 1, y: 1 });
    let routed = naive_route(grid).unwrap();
    assert!(routed.traces.iter().all(|row| row.iter().all(|c| c.is_none())));
}

#[test]
fn routed_board_as_text() {
    let text = "######\n#A  A#\n#    #\n######\n";
    let grid = Grid::from_string(text);
    assert_eq!(grid.width, 4);
    assert_eq!(grid.height, 2);
    let routed = naive_route(grid).unwrap();
    assert_eq!(routed.to_string(), "######\n#aaaa#\n#    #\n######\n");
}

#[test]
fn text_round_trip_keeps_the_pads() {
    let mut grid = Grid::new(6, 3);
    grid.insert_pad(net('A'), Point { x: 0, y: 0 });
    grid.insert_pad(net('A'), Point { x: 5, y: 2 });
    grid.insert_pad(net('B'), Point { x: 3, y: 1 });
    let text = grid.to_string();
    assert_eq!(text, "########\n#A     #\n#   B  #\n#     A#\n########\n");
    let back = Grid::from_string(&text);
    assert_eq!(back.width, 6);
    assert_eq!(back.height, 3);
    assert_eq!(back.pads, grid.pads);
}

#[test]
fn text_without_a_row_is_no_board() {
    assert!(Grid::parse("####\n####\n").is_none());
    assert!(Grid::parse("").is_none());
    assert!(Grid::parse("#\n# #\n#\n").is_none());
    // A pad in the column of the wall.
    assert!(Grid::parse("###\nA #\n###\n").is_none());
    assert!(Grid::parse("###\n# A\n###\n").is_none());
    assert!(Grid::parse("###\r\n#A#\r\n###\r\n").is_some());
}
