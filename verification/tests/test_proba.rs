use grid_router::commands::{
    naive_click_cell_local, naive_do_route_local, naive_new_grid_local, net_of_color, proba_clear_local,
    proba_click_cell_local, proba_init_local, proba_sample_local, route_shade, CommandError,
};
use grid_router::cost::PathCost;
use grid_router::grid::{Grid, Net, Point};
use grid_router::hyperparameters::{MAX_GENERATION_ATTEMPTS, MAX_TRACES_PER_ITERATION};
use grid_router::interface_types::Color;
use grid_router::proba_grid::{
    count_turns, Direction, NetID, PadPairID, ProbaGrid, ProbaGridProblem, ProbaGridState, TraceID, TracePath,
};
use grid_router::solve_proba_grid::{initialize_proba_grid, sample_new_traces, sampling_nets};

const RED: Color = Color { r: 255, g: 0, b: 0 };
const GREEN: Color = Color { r: 0, g: 255, b: 0 };
const WHITE: Color = Color { r: 255, g: 255, b: 255 };

/// Red joins (0,2) and (4,2); green joins (2,0) and (2,4): the two cross.
fn crossing_problem() -> ProbaGridProblem {
    let mut problem = ProbaGridProblem::new(5, 5);
    problem.insert_pad(NetID(0), Point { x: 0, y: 2 }, RED, RED);
    problem.insert_pad(NetID(0), Point { x: 4, y: 2 }, RED, RED);
    problem.insert_pad(NetID(1), Point { x: 2, y: 0 }, GREEN, GREEN);
    problem.insert_pad(NetID(1), Point { x: 2, y: 4 }, GREEN, GREEN);
    problem
}

fn no_obstacles(grid: &ProbaGrid) -> Vec<Vec<Vec<TraceID>>> {
    let nets = sampling_nets(&grid.pad_pairs);
    vec![vec![Vec::new(); MAX_GENERATION_ATTEMPTS]; nets.len()]
}

#[test]
fn problem_picture_shows_the_pads() {
    let problem = crossing_problem();
    let picture = problem.to_color_grid();
    assert_eq!(picture.grid.len(), 5);
    assert_eq!(picture.grid[0].len(), 5);
    assert_eq!(picture.grid[2][0], RED);
    assert_eq!(picture.grid[2][4], RED);
    assert_eq!(picture.grid[0][2], GREEN);
    assert_eq!(picture.grid[1][1], WHITE);
}

#[test]
fn removing_a_pad_keeps_the_net_known() {
    let mut problem = crossing_problem();
    problem.remove_pad(Point { x: 0, y: 2 });
    problem.remove_pad(Point { x: 4, y: 2 });
    assert_eq!(problem.nets.len(), 2);
    assert!(problem.net_to_pads.iter().all(|row| row.iter().all(|c| *c != Some(NetID(0)))));
    // A point outside the board is no pad of any net.
    problem.remove_pad(Point { x: 9, y: 9 });
    assert_eq!(problem.net_to_pads[0][2], Some(NetID(1)));
}

#[test]
fn a_known_net_keeps_its_colours() {
    let mut problem = crossing_problem();
    problem.insert_pad(NetID(0), Point { x: 1, y: 1 }, GREEN, GREEN);
    assert_eq!(problem.nets.len(), 2);
    assert_eq!(problem.nets[0].pad_color, Some(RED));
    assert_eq!(problem.to_color_grid().grid[1][1], RED);
}

#[test]
fn fixing_the_pads_pairs_them() {
    let mut problem = crossing_problem();
    problem.insert_pad(NetID(0), Point { x: 0, y: 0 }, RED, RED);
    let grid = initialize_proba_grid(problem).unwrap();
    // Three pads of red give three pairs, two pads of green give one.
    assert_eq!(grid.pad_pairs.len(), 4);
    for (k, pair) in grid.pad_pairs.iter().enumerate() {
        assert_eq!(pair.pad_pair_id, PadPairID(k));
        assert!(pair.start < pair.end);
    }
    assert_eq!(grid.pad_pairs.iter().filter(|p| p.net_id == NetID(0)).count(), 3);
    assert_eq!(grid.pad_pairs[3].net_id, NetID(1));
    assert_eq!(grid.pad_pairs[3].start, Point { x: 2, y: 0 });
    assert_eq!(grid.pad_pairs[3].end, Point { x: 2, y: 4 });
    assert!(grid.traces.is_empty());
    assert_eq!(grid.next_iteration, 1);
    assert!(grid.is_wf());
}

#[test]
fn first_round_finds_the_straight_traces() {
    let mut grid = initialize_proba_grid(crossing_problem()).unwrap();
    let draws = no_obstacles(&grid);
    sample_new_traces(&mut grid, &draws).unwrap();
    // Every attempt finds the same path, so each pair keeps one trace.
    assert_eq!(grid.traces.len(), 2);
    assert_eq!(grid.next_iteration, 2);
    for (k, t) in grid.traces.iter().enumerate() {
        assert_eq!(t.trace_id, TraceID(k));
        assert_eq!(t.iteration, 1);
        assert_eq!(t.trace_length, PathCost { straight: 4, diagonal: 0 });
        assert_eq!(t.trace_path.covered.len(), 5);
        assert_eq!(count_turns(&t.trace_directions), 0);
        assert_eq!(grid.get_num_traces_in_the_same_iteration(TraceID(k)), 1);
    }
    // The two cross at (2, 2): each is on the list of the other.
    assert_eq!(grid.trace_collision_adjacency, vec![vec![TraceID(1)], vec![TraceID(0)]]);
    assert!(grid.is_wf());
}

#[test]
fn second_round_goes_round_a_drawn_trace() {
    let mut grid = initialize_proba_grid(crossing_problem()).unwrap();
    let draws = no_obstacles(&grid);
    sample_new_traces(&mut grid, &draws).unwrap();
    // Red has the green trace in its way, green the red one.
    let nets = sampling_nets(&grid.pad_pairs);
    assert_eq!(nets, vec![NetID(0), NetID(1)]);
    let draws = vec![vec![vec![TraceID(1)]], vec![vec![TraceID(0)]]];
    sample_new_traces(&mut grid, &draws).unwrap();
    assert_eq!(grid.traces.len(), 2);
    // Both ends of the other trace are walled by it: a straight trace of
    // five cells across the board cannot be passed on a board five wide.
    assert_eq!(grid.next_iteration, 3);

    let mut wide = ProbaGridProblem::new(7, 5);
    wide.insert_pad(NetID(0), Point { x: 0, y: 2 }, RED, RED);
    wide.insert_pad(NetID(0), Point { x: 6, y: 2 }, RED, RED);
    wide.insert_pad(NetID(1), Point { x: 3, y: 1 }, GREEN, GREEN);
    wide.insert_pad(NetID(1), Point { x: 3, y: 3 }, GREEN, GREEN);
    let mut grid = initialize_proba_grid(wide).unwrap();
    let draws = no_obstacles(&grid);
    sample_new_traces(&mut grid, &draws).unwrap();
    assert_eq!(grid.traces.len(), 2);
    let draws = vec![vec![vec![TraceID(1)]], vec![vec![]]];
    sample_new_traces(&mut grid, &draws).unwrap();
    assert_eq!(grid.traces.len(), 3);
    let detour = &grid.traces[2];
    assert_eq!(detour.net_id, NetID(0));
    assert_eq!(detour.iteration, 2);
    assert!(!detour.trace_path.collides_with(&grid.traces[1].trace_path));
    assert!(PathCost { straight: 6, diagonal: 0 }.lt(detour.trace_length));
    assert!(count_turns(&detour.trace_directions) >= 2);
    assert!(grid.trace_collision_adjacency[2].is_empty());
    assert!(grid.is_wf());
}

#[test]
fn no_pair_gets_more_than_its_share() {
    // One net on an open board, and a second net whose traces are drawn as
    // obstacles, a different one in each attempt.
    let mut problem = ProbaGridProblem::new(9, 9);
    problem.insert_pad(NetID(0), Point { x: 0, y: 4 }, RED, RED);
    problem.insert_pad(NetID(0), Point { x: 8, y: 4 }, RED, RED);
    for y in [0usize, 2, 4, 6, 8] {
        problem.insert_pad(NetID(1), Point { x: 4, y }, GREEN, GREEN);
    }
    let mut grid = initialize_proba_grid(problem).unwrap();
    let draws = no_obstacles(&grid);
    sample_new_traces(&mut grid, &draws).unwrap();
    let green: Vec<TraceID> =
        grid.traces.iter().filter(|t| t.net_id == NetID(1)).map(|t| t.trace_id).collect();
    assert!(green.len() >= 6);
    let attempts: Vec<Vec<TraceID>> = green.iter().take(10).map(|id| vec![*id]).collect();
    let draws = vec![attempts, Vec::new()];
    sample_new_traces(&mut grid, &draws).unwrap();
    let red_new = grid.traces.iter().filter(|t| t.net_id == NetID(0) && t.iteration == 2).count();
    assert!(red_new >= 1);
    assert!(red_new <= MAX_TRACES_PER_ITERATION);
    assert!(grid.is_wf());
}

#[test]
fn draws_that_do_not_fit_are_reported() {
    let mut grid = initialize_proba_grid(crossing_problem()).unwrap();
    let draws = no_obstacles(&grid);
    sample_new_traces(&mut grid, &draws).unwrap();
    let before = grid.clone();
    // Too few nets.
    let e = sample_new_traces(&mut grid, &vec![vec![]]).unwrap_err();
    assert_eq!(e, "The draws do not fit the nets and traces of the board");
    // A trace of the net itself.
    assert!(sample_new_traces(&mut grid, &vec![vec![vec![TraceID(0)]], vec![]]).is_err());
    // A trace that is not there.
    assert!(sample_new_traces(&mut grid, &vec![vec![vec![TraceID(7)]], vec![]]).is_err());
    // Two traces of one pair of pads.
    assert!(sample_new_traces(&mut grid, &vec![vec![vec![TraceID(1), TraceID(1)]], vec![]]).is_err());
    assert_eq!(grid.traces.len(), before.traces.len());
    assert_eq!(grid.next_iteration, before.next_iteration);
}

#[test]
fn turns_are_changes_of_direction() {
    let right = Direction { x: 1, y: 0 };
    let down = Direction { x: 0, y: 1 };
    assert_eq!(count_turns(&vec![]), 0);
    assert_eq!(count_turns(&vec![right]), 0);
    assert_eq!(count_turns(&vec![right, right, right]), 0);
    assert_eq!(count_turns(&vec![right, down, right]), 2);
    assert_eq!(count_turns(&vec![right, right, down, down]), 1);
}

#[test]
fn traces_collide_on_a_cell_or_on_a_block() {
    let a = TracePath {
        covered: vec![Point { x: 0, y: 0 }, Point { x: 1, y: 1 }],
        diagonal_covered: vec![Point { x: 0, y: 0 }],
    };
    let b = TracePath {
        covered: vec![Point { x: 1, y: 0 }, Point { x: 0, y: 1 }],
        diagonal_covered: vec![Point { x: 0, y: 0 }],
    };
    let c = TracePath { covered: vec![Point { x: 1, y: 1 }, Point { x: 2, y: 1 }], diagonal_covered: vec![] };
    let d = TracePath { covered: vec![Point { x: 3, y: 3 }], diagonal_covered: vec![] };
    assert!(a.collides_with(&b));
    assert!(a.collides_with(&c));
    assert!(!b.collides_with(&c));
    assert!(!a.collides_with(&d));
    let a2 = TracePath {
        covered: vec![Point { x: 1, y: 1 }, Point { x: 0, y: 0 }],
        diagonal_covered: vec![Point { x: 0, y: 0 }, Point { x: 0, y: 0 }],
    };
    assert!(a.same_as(&a2));
    assert!(!a.same_as(&b));
}

#[test]
fn white_click_on_the_only_pad_removes_the_net() {
    let mut grid = Grid::new(1, 1);
    naive_new_grid_local(&mut grid, 10, 10).unwrap();
    let picture = naive_click_cell_local(&mut grid, 3, 4, 200, 0, 0).unwrap();
    assert_eq!(picture.grid[4][3], Color { r: 200, g: 0, b: 0 });
    let net = Net::Color {
        pad_color: Color { r: 200, g: 0, b: 0 },
        route_color: Color { r: 227, g: 127, b: 127 },
    };
    assert_eq!(grid.pads[4][3], Some(net));
    let picture = naive_click_cell_local(&mut grid, 3, 4, 255, 255, 255).unwrap();
    assert_eq!(picture.grid[4][3], WHITE);
    assert!(grid.pads.iter().all(|row| row.iter().all(|c| c.is_none())));
    assert!(grid.pads_except(&Net::Color { pad_color: WHITE, route_color: WHITE }).is_empty());
}

#[test]
fn click_outside_the_board_is_reported() {
    let mut grid = Grid::new(4, 3);
    let e = naive_click_cell_local(&mut grid, 4, 0, 1, 2, 3).unwrap_err();
    assert_eq!(e, CommandError::OutOfBounds { x: 4, y: 0, width: 4, height: 3 });
    let e = naive_click_cell_local(&mut grid, 0, 3, 255, 255, 255).unwrap_err();
    assert_eq!(e, CommandError::OutOfBounds { x: 0, y: 3, width: 4, height: 3 });
    assert!(grid.pads.iter().all(|row| row.iter().all(|c| c.is_none())));
}

#[test]
fn a_click_overwrites_the_pad_of_another_net() {
    let mut grid = Grid::new(4, 3);
    naive_click_cell_local(&mut grid, 1, 1, 10, 20, 30).unwrap();
    naive_click_cell_local(&mut grid, 1, 1, 30, 20, 10).unwrap();
    let first = Net::Color {
        pad_color: Color { r: 10, g: 20, b: 30 },
        route_color: Color { r: route_shade(10), g: route_shade(20), b: route_shade(30) },
    };
    assert!(grid.pads.iter().all(|row| row.iter().all(|c| *c != Some(first))));
    assert_eq!(route_shade(0), 127);
    assert_eq!(route_shade(255), 255);
    assert_eq!(route_shade(100), 177);
}

#[test]
fn routing_by_command() {
    let mut grid = Grid::new(6, 1);
    naive_click_cell_local(&mut grid, 0, 0, 0, 0, 200).unwrap();
    naive_click_cell_local(&mut grid, 5, 0, 0, 0, 200).unwrap();
    let picture = naive_do_route_local(&mut grid).unwrap();
    let shade = Color { r: 127, g: 127, b: 227 };
    assert!(picture.grid[0].iter().all(|c| *c == shade));
    // A pad of another net in the only way: no path, and the board stays.
    naive_click_cell_local(&mut grid, 2, 0, 9, 9, 9).unwrap();
    let before = grid.clone();
    let e = naive_do_route_local(&mut grid).unwrap_err();
    assert_eq!(e, CommandError::NoPathFound);
    assert_eq!(grid.pads, before.pads);
    assert_eq!(grid.traces, before.traces);
}

#[test]
fn the_six_colours_of_the_probabilistic_router() {
    assert_eq!(net_of_color(255, 0, 0), Some(NetID(0)));
    assert_eq!(net_of_color(0, 255, 0), Some(NetID(1)));
    assert_eq!(net_of_color(0, 0, 255), Some(NetID(2)));
    assert_eq!(net_of_color(255, 255, 0), Some(NetID(3)));
    assert_eq!(net_of_color(255, 0, 255), Some(NetID(4)));
    assert_eq!(net_of_color(0, 255, 255), Some(NetID(5)));
    assert_eq!(net_of_color(1, 2, 3), None);
    assert_eq!(net_of_color(255, 255, 255), None);
}

#[test]
fn the_probabilistic_router_goes_one_way() {
    let mut state = ProbaGridState::Uninitialized { input: ProbaGridProblem::new(1, 1) };
    proba_clear_local(&mut state, 5, 5).unwrap();
    // Sampling needs the pads fixed.
    assert_eq!(proba_sample_local(&mut state, &vec![]).unwrap_err(), CommandError::NotInitialized);
    assert_eq!(
        proba_click_cell_local(&mut state, 0, 2, 1, 2, 3).unwrap_err(),
        CommandError::UnrecognizedColor { r: 1, g: 2, b: 3 }
    );
    assert_eq!(
        proba_click_cell_local(&mut state, 5, 2, 255, 0, 0).unwrap_err(),
        CommandError::OutOfBounds { x: 5, y: 2, width: 5, height: 5 }
    );
    proba_click_cell_local(&mut state, 0, 2, 255, 0, 0).unwrap();
    proba_click_cell_local(&mut state, 4, 2, 255, 0, 0).unwrap();
    proba_click_cell_local(&mut state, 1, 1, 0, 255, 0).unwrap();
    let picture = proba_click_cell_local(&mut state, 1, 1, 255, 255, 255).unwrap();
    assert_eq!(picture.grid[1][1], WHITE);
    assert_eq!(picture.grid[2][0], RED);
    let picture = proba_init_local(&mut state).unwrap();
    assert_eq!(picture.grid[2][4], RED);
    assert!(state.is_wf());
    // Fixed pads are fixed.
    assert_eq!(proba_init_local(&mut state).unwrap_err(), CommandError::AlreadyInitialized);
    assert_eq!(
        proba_click_cell_local(&mut state, 0, 0, 255, 0, 0).unwrap_err(),
        CommandError::AlreadyInitialized
    );
    assert_eq!(proba_sample_local(&mut state, &vec![]).unwrap_err(), CommandError::InvalidDraws);
    proba_sample_local(&mut state, &vec![vec![vec![]]]).unwrap();
    match &state {
        ProbaGridState::Initialized { output } => {
            assert_eq!(output.traces.len(), 1);
            assert_eq!(output.next_iteration, 2);
        },
        ProbaGridState::Uninitialized { .. } => panic!("the pads are fixed"),
    }
}
