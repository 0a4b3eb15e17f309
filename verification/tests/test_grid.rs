use grid_router::cost::PathCost;
use grid_router::dijkstra::{offset, DijkstraModel};
use grid_router::grid::{
    contains_point, grid_to_string, layer_nets, points_within, share_point, to_ascii_lower, Grid, Net, Point,
    PointPair,
};
use grid_router::interface_types::Color;
use grid_router::naive_route::{candidates, plan_before, plan_routes, sort_plan};
use grid_router::prim_mst::{prim_mst, weight_less, weight_same, WeightedPair};
use grid_router::proba_grid::Direction;
use grid_router::table::{copy_table, new_table, table_fits};
use grid_router::text::{chars_of, split_lines};

fn net(c: char) -> Net {
    Net::Character { pad_c: c, route_c: c.to_ascii_lowercase() }
}

fn paint(r: u8, g: u8, b: u8) -> Net {
    Net::Color { pad_color: Color { r, g, b }, route_color: Color { r: 1, g: 2, b: 3 } }
}

fn p(x: usize, y: usize) -> Point {
    Point { x, y }
}

#[test]
fn a_pair_keeps_the_smaller_point_first() {
    let a = PointPair::new(p(3, 1), p(1, 5));
    assert_eq!(a.start(), p(1, 5));
    assert_eq!(a.end(), p(3, 1));
    assert_eq!(a, PointPair::new(p(1, 5), p(3, 1)));
    let b = PointPair::new(p(2, 7), p(2, 4));
    assert_eq!(b.start(), p(2, 4));
    assert_eq!(b.end(), p(2, 7));
    assert!(p(1, 9).precedes(p(2, 0)));
    assert!(!p(2, 0).precedes(p(2, 0)));
    assert!(a.precedes(b));
    assert!(!b.precedes(a));
}

#[test]
fn nets_are_ordered_like_their_fields() {
    assert!(net('A').precedes(net('B')));
    assert!(!net('B').precedes(net('A')));
    assert!(net('Z').precedes(paint(0, 0, 0)));
    assert!(!paint(0, 0, 0).precedes(net('Z')));
    assert!(paint(0, 9, 9).precedes(paint(1, 0, 0)));
    assert!(paint(1, 0, 9).precedes(paint(1, 1, 0)));
    assert!(!paint(1, 1, 0).precedes(paint(1, 1, 0)));
    // The order is that of the derived comparison.
    assert_eq!(net('A').precedes(net('a')), net('A') < net('a'));
    assert_eq!(paint(3, 2, 1).precedes(paint(3, 2, 2)), paint(3, 2, 1) < paint(3, 2, 2));
}

#[test]
fn a_new_board_is_empty() {
    let grid = Grid::new(4, 3);
    assert_eq!(grid.width, 4);
    assert_eq!(grid.height, 3);
    assert!(grid.is_wf());
    assert!(grid.is_textual());
    assert!(grid.is_colored());
    assert_eq!(grid.pads.len(), 3);
    assert!(grid.pads.iter().all(|row| row.len() == 4 && row.iter().all(|c| c.is_none())));
    assert!(grid.pads_except(&net('A')).is_empty());
    assert!(grid.routes_except(&net('A')).is_empty());
    assert!(grid.diagonal_routes_except(&net('A')).is_empty());
}

#[test]
fn cells_of_other_nets() {
    let mut grid = Grid::new(4, 3);
    grid.insert_pad(net('A'), p(0, 0));
    grid.insert_pad(net('B'), p(1, 2));
    grid.insert_pad(net('C'), p(3, 1));
    grid.traces[1][1] = Some(net('B'));
    grid.diagonal_traces[0][2] = Some(net('C'));
    assert_eq!(grid.pads_except(&net('A')), vec![p(3, 1), p(1, 2)]);
    assert_eq!(grid.pads_except(&net('B')), vec![p(0, 0), p(3, 1)]);
    assert_eq!(grid.routes_except(&net('A')), vec![p(1, 1)]);
    assert!(grid.routes_except(&net('B')).is_empty());
    assert_eq!(grid.diagonal_routes_except(&net('A')), vec![p(2, 0)]);
    assert_eq!(layer_nets(&grid.pads), vec![net('A'), net('C'), net('B')]);
    // Removing the only pad of a net takes the net off the board.
    grid.remove_pad(p(3, 1));
    assert_eq!(layer_nets(&grid.pads), vec![net('A'), net('B')]);
    assert_eq!(grid.pads_except(&net('A')), vec![p(1, 2)]);
    // A cell holds the pad of one net.
    grid.insert_pad(net('A'), p(1, 2));
    assert!(grid.pads_except(&net('A')).is_empty());
    let copy = grid.duplicate();
    assert_eq!(copy.pads, grid.pads);
    assert_eq!(copy.traces, grid.traces);
    assert_eq!(copy.diagonal_traces, grid.diagonal_traces);
}

#[test]
fn the_picture_of_a_board() {
    let mut grid = Grid::new(3, 2);
    let a = paint(10, 20, 30);
    grid.insert_pad(a, p(0, 0));
    grid.insert_pad(a, p(2, 1));
    grid.traces[0][1] = Some(a);
    grid.traces[1][2] = Some(a);
    assert!(grid.is_colored());
    assert!(!grid.is_textual());
    let picture = grid.to_color_grid();
    let white = Color { r: 255, g: 255, b: 255 };
    assert_eq!(picture.grid[0], vec![Color { r: 10, g: 20, b: 30 }, Color { r: 1, g: 2, b: 3 }, white]);
    // A trace over a pad shows the trace.
    assert_eq!(picture.grid[1], vec![white, white, Color { r: 1, g: 2, b: 3 }]);
}

#[test]
fn the_text_of_a_board() {
    let mut grid = Grid::new(3, 2);
    grid.insert_pad(net('A'), p(0, 0));
    grid.insert_pad(net('B'), p(2, 1));
    grid.traces[0][1] = Some(net('A'));
    assert_eq!(grid_to_string(&grid), vec![vec!['A', 'a', ' '], vec![' ', ' ', 'B']]);
    assert_eq!(grid.to_char_matrix(), grid_to_string(&grid));
    assert_eq!(grid.to_string(), "#####\n#Aa #\n#  B#\n#####\n");
    assert_eq!(Grid::build_grid_string(&vec![vec!['x']]), "###\n#x#\n###\n");
    assert_eq!(Grid::build_grid_string(&vec![vec![]]), "##\n##\n##\n");
    // A trace is read back as a pad of the net of its character.
    let back = Grid::from_string(&grid.to_string());
    assert_eq!(back.pads[0][1], Some(net('a')));
    assert!(back.traces.iter().all(|row| row.iter().all(|c| c.is_none())));
}

#[test]
fn reading_lines_and_characters() {
    assert_eq!(chars_of("aé#"), vec!['a', 'é', '#']);
    assert!(chars_of("").is_empty());
    let lines = |s: &str| -> Vec<String> {
        split_lines(&chars_of(s)).into_iter().map(|l| l.into_iter().collect()).collect()
    };
    for text in ["", "a", "a\n", "a\n\nb", "a\r\nb\r", "\n", "\r\n\r\n", "x\ry\n", "###\n# #\n###"] {
        let expected: Vec<String> = text.lines().map(|l| l.to_string()).collect();
        assert_eq!(lines(text), expected);
    }
    assert_eq!(to_ascii_lower('A'), 'a');
    assert_eq!(to_ascii_lower('Z'), 'z');
    assert_eq!(to_ascii_lower('a'), 'a');
    assert_eq!(to_ascii_lower('#'), '#');
    assert_eq!(to_ascii_lower('É'), 'É');
    for c in ['A', 'M', 'Z', '@', '[', 'ß', '1'] {
        assert_eq!(to_ascii_lower(c), c.to_ascii_lowercase());
    }
}

#[test]
fn the_width_of_a_text_counts_bytes() {
    // The first line is four bytes long, so the board is two cells wide.
    let grid = Grid::parse("éé\n#AB#\n####\n").unwrap();
    assert_eq!(grid.width, 2);
    assert_eq!(grid.height, 1);
    assert_eq!(grid.pads[0], vec![Some(net('A')), Some(net('B'))]);
    // The walls are not read.
    let grid = Grid::parse("xyz!\n# A\n????\n").unwrap();
    assert_eq!(grid.pads[0], vec![None, Some(net('A'))]);
}

#[test]
fn lists_of_points() {
    let a = vec![p(0, 0), p(1, 1)];
    let b = vec![p(1, 1), p(2, 2), p(0, 0)];
    assert!(contains_point(&a, p(1, 1)));
    assert!(!contains_point(&a, p(2, 2)));
    assert!(share_point(&a, &b));
    assert!(!share_point(&a, &vec![p(5, 5)]));
    assert!(points_within(&a, &b));
    assert!(!points_within(&b, &a));
    assert!(points_within(&vec![], &a));
}

#[test]
fn tables() {
    let t = new_table(3, 2, 7u8);
    assert_eq!(t, vec![vec![7, 7, 7], vec![7, 7, 7]]);
    assert!(table_fits(&t, 3, 2));
    assert!(!table_fits(&t, 2, 3));
    assert!(!table_fits(&vec![vec![1u8], vec![]], 1, 2));
    assert_eq!(copy_table(&vec![vec![1u8, 2], vec![3]]), vec![vec![1, 2], vec![3]]);
    assert!(new_table(0, 0, 0u8).is_empty());
}

#[test]
fn the_eight_steps() {
    let steps: Vec<Direction> = (0..8).map(offset).collect();
    assert_eq!(steps[0], Direction { x: 0, y: -1 });
    assert_eq!(steps[3], Direction { x: 1, y: 0 });
    assert_eq!(steps[7], Direction { x: -1, y: -1 });
    for (i, a) in steps.iter().enumerate() {
        assert!(a.x.abs() <= 1 && a.y.abs() <= 1 && (a.x != 0 || a.y != 0));
        assert_eq!(a.x != 0 && a.y != 0, i >= 4);
        for b in steps.iter().skip(i + 1) {
            assert_ne!(a, b);
        }
    }
    let m = DijkstraModel {
        width: 3,
        height: 2,
        obstacles: vec![],
        diagonal_obstacles: vec![],
        start: p(0, 0),
        end: p(0, 0),
    };
    assert_eq!(m.offset_point(p(1, 1), -1, -1), Some(p(0, 0)));
    assert_eq!(m.offset_point(p(1, 1), 1, 0), Some(p(2, 1)));
    assert_eq!(m.offset_point(p(1, 1), 0, 1), None);
    assert_eq!(m.offset_point(p(0, 0), -1, 0), None);
    assert_eq!(m.offset_point(p(2, 0), 1, 0), None);
    assert_eq!(m.offset_point(p(usize::MAX, 0), 1, 0), None);
    assert_eq!(m.offset_point(p(5, 0), -3, 1), Some(p(2, 1)));
}

#[test]
fn a_path_goes_round_a_wall() {
    // A wall with a gap at the bottom.
    let m = DijkstraModel {
        width: 5,
        height: 4,
        obstacles: vec![p(2, 0), p(2, 1), p(2, 2)],
        diagonal_obstacles: vec![],
        start: p(0, 0),
        end: p(4, 0),
    };
    let r = m.run().unwrap();
    // Down three diagonals to the gap is not possible from (0,0): the way
    // is two diagonals and a step down, through the gap, and back up.
    assert_eq!(r.trace_path.covered.first(), Some(&p(0, 0)));
    assert_eq!(r.trace_path.covered.last(), Some(&p(4, 0)));
    assert!(r.trace_path.covered.contains(&p(2, 3)));
    assert_eq!(r.trace_directions.len() + 1, r.trace_path.covered.len());
    let straight = r.trace_directions.iter().filter(|d| d.x == 0 || d.y == 0).count();
    let diagonal = r.trace_directions.len() - straight;
    assert_eq!(r.distance, PathCost { straight, diagonal });
    assert_eq!(r.trace_path.diagonal_covered.len(), diagonal);
    assert_eq!(r.distance, PathCost { straight: 2, diagonal: 4 });
    let mut at = p(0, 0);
    for d in &r.trace_directions {
        at = p((at.x as i32 + d.x) as usize, (at.y as i32 + d.y) as usize);
        assert!(!m.obstacles.contains(&at));
    }
    assert_eq!(at, p(4, 0));
}

fn edge(w: Option<(usize, usize)>, n: char, a: Point, b: Point) -> WeightedPair {
    (w.map(|(s, d)| PathCost { straight: s, diagonal: d }), net(n), PointPair::new(a, b))
}

#[test]
fn weights_are_lengths_or_none() {
    let short = Some(PathCost { straight: 1, diagonal: 0 });
    let long = Some(PathCost { straight: 0, diagonal: 1 });
    assert!(weight_less(short, long));
    assert!(!weight_less(long, short));
    assert!(weight_less(long, None));
    assert!(!weight_less(None, long));
    assert!(!weight_less(None, None));
    assert!(weight_same(None, None));
    assert!(weight_same(short, short));
    assert!(!weight_same(short, long));
    assert!(!weight_same(short, None));
}

/// Whether the connections join `from` and `to`.
fn connected(tree: &[WeightedPair], from: Point, to: Point) -> bool {
    let mut seen = vec![from];
    let mut grown = true;
    while grown {
        grown = false;
        for e in tree {
            let (a, b) = (e.2.start(), e.2.end());
            if seen.contains(&a) && !seen.contains(&b) {
                seen.push(b);
                grown = true;
            }
            if seen.contains(&b) && !seen.contains(&a) {
                seen.push(a);
                grown = true;
            }
        }
    }
    seen.contains(&to)
}

#[test]
fn the_tree_of_four_pads() {
    let pads = [p(0, 0), p(3, 0), p(3, 4), p(9, 9)];
    let mut edges = Vec::new();
    for i in 0..4 {
        for j in (i + 1)..4 {
            let dx = pads[i].x.abs_diff(pads[j].x);
            let dy = pads[i].y.abs_diff(pads[j].y);
            let diagonal = dx.min(dy);
            edges.push(edge(Some((dx.max(dy) - diagonal, diagonal)), 'A', pads[i], pads[j]));
        }
    }
    let tree = prim_mst(edges.clone());
    // Three connections for four pads, grown from the least pad.
    assert_eq!(tree.len(), 3);
    assert_eq!(tree[0], edge(Some((3, 0)), 'A', p(0, 0), p(3, 0)));
    assert_eq!(tree[1], edge(Some((4, 0)), 'A', p(3, 0), p(3, 4)));
    assert_eq!(tree[2].2, PointPair::new(p(3, 4), p(9, 9)));
    assert!(tree.iter().all(|e| edges.contains(e)));
    // All pads are joined, and without any one connection they are not.
    for a in pads {
        for b in pads {
            assert!(connected(&tree, a, b));
        }
    }
    for k in 0..tree.len() {
        let mut rest = tree.clone();
        let cut = rest.remove(k);
        assert!(!connected(&rest, cut.2.start(), cut.2.end()));
    }
}

#[test]
fn equal_weights_go_by_the_pads() {
    // A square: all sides weigh the same, the diagonals more.
    let (a, b, c, d) = (p(0, 0), p(0, 1), p(1, 0), p(1, 1));
    let side = Some((1, 0));
    let across = Some((0, 1));
    let edges = vec![
        edge(across, 'A', b, c),
        edge(side, 'A', c, d),
        edge(side, 'A', b, d),
        edge(across, 'A', a, d),
        edge(side, 'A', a, c),
        edge(side, 'A', a, b),
    ];
    let tree = prim_mst(edges);
    assert_eq!(
        tree,
        vec![edge(side, 'A', a, b), edge(side, 'A', a, c), edge(side, 'A', b, d)]
    );
}

#[test]
fn pads_that_cannot_be_joined_come_last() {
    let (a, b, c) = (p(0, 0), p(5, 0), p(9, 0));
    let edges = vec![
        edge(None, 'B', a, b),
        edge(None, 'A', a, c),
        edge(Some((4, 0)), 'A', b, c),
    ];
    let tree = prim_mst(edges);
    // The tree takes the net of the first connection offered.
    assert_eq!(tree, vec![edge(None, 'B', a, b), edge(Some((4, 0)), 'B', b, c)]);
    // Connections that are not joined to the least pad stay out.
    let tree = prim_mst(vec![edge(Some((1, 0)), 'A', p(0, 0), p(1, 0)), edge(Some((1, 0)), 'A', p(5, 5), p(6, 5))]);
    assert_eq!(tree.len(), 1);
}

#[test]
fn the_plan_of_a_board() {
    let mut grid = Grid::new(12, 8);
    grid.insert_pad(net('A'), p(3, 3));
    grid.insert_pad(net('A'), p(9, 3));
    grid.insert_pad(net('B'), p(5, 1));
    grid.insert_pad(net('B'), p(5, 5));
    grid.insert_pad(net('C'), p(7, 1));
    grid.insert_pad(net('C'), p(7, 5));
    grid.insert_pad(net('D'), p(0, 7));
    // The pads of other nets are in the way of A, so A is longer than six.
    let offered = candidates(&grid, &net('A'));
    assert_eq!(offered, vec![edge(Some((6, 0)), 'A', p(3, 3), p(9, 3))]);
    assert!(candidates(&grid, &net('D')).is_empty());
    let plan = plan_routes(&grid);
    assert_eq!(
        plan,
        vec![
            edge(Some((4, 0)), 'B', p(5, 1), p(5, 5)),
            edge(Some((4, 0)), 'C', p(7, 1), p(7, 5)),
            edge(Some((6, 0)), 'A', p(3, 3), p(9, 3)),
        ]
    );
    let sorted = sort_plan(vec![plan[2], plan[1], plan[0], edge(None, 'A', p(0, 0), p(1, 1))]);
    assert_eq!(sorted[..3], plan[..]);
    assert_eq!(sorted[3].0, None);
    assert!(plan_before(&plan[0], &plan[1]));
    assert!(!plan_before(&plan[1], &plan[0]));
    assert!(plan_before(&plan[1], &plan[1]));
}
