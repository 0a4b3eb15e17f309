//! The commands of a session: each takes the state it works on, changes it,
//! and gives back the picture to show, or says why it could not.

use vstd::prelude::*;
use crate::grid::{owner_at, Grid, Net, Point};
use crate::interface_types::{Color, ColorGrid};
use crate::naive_route::{is_plan, lemma_plan_net_has_pad, lemma_route_owners, naive_route};
use crate::prim_mst::WeightedPair;
use crate::proba_grid::{pad_color_at, NetID, ProbaGridProblem, ProbaGridState, TraceID};
use crate::solve_proba_grid::{initialize_proba_grid, initialized, sample_new_traces, sampled, valid_draws};
use crate::table::is_table;

verus! {

/// Why a command could not be carried out.
#[derive(Debug, Clone, Copy, PartialEq, Eq, Structural)]
pub enum CommandError {
    /// The cell `(x, y)` is no cell of a board of the given size.
    OutOfBounds { x: usize, y: usize, width: usize, height: usize },
    /// The pads of the probabilistic router are fixed already.
    AlreadyInitialized,
    /// The pads of the probabilistic router are not fixed yet.
    NotInitialized,
    /// The colour stands for no net.
    UnrecognizedColor { r: u8, g: u8, b: u8 },
    /// A connection has no path.
    NoPathFound,
    /// The draws do not fit the nets and traces of the board.
    InvalidDraws,
    /// The board has more cells, or the router more rounds, than can be counted.
    LimitReached,
}

/// The colour of the traces of a net whose pads have the colour `c`: half
/// way to white.
pub open spec fn spec_route_shade(c: u8) -> u8 {
    ((c + 255) / 2) as u8
}

/// The colour of the traces of a net whose pads have the colour `c`: half
/// way to white.
#[verifier::when_used_as_spec(spec_route_shade)]
pub fn route_shade(c: u8) -> (shade: u8)
    ensures
        shade == spec_route_shade(c),
{
    ((c as u32 + 255) / 2) as u8
}

/// The net that a click with the colour `(r, g, b)` stands for on the
/// deterministic router.
pub open spec fn click_net(r: u8, g: u8, b: u8) -> Net {
    Net::Color {
        pad_color: Color { r, g, b },
        route_color: Color { r: spec_route_shade(r), g: spec_route_shade(g), b: spec_route_shade(b) },
    }
}

/// `picture` shows the board.
pub open spec fn shows(picture: ColorGrid, grid: &Grid) -> bool {
    &&& is_table(picture.grid@, grid.width as nat, grid.height as nat)
    &&& forall|p: Point|
        grid.inside(p) ==> picture.grid@[p.y as int]@[p.x as int] == #[trigger] grid.cell_color(p)
}

/// Starts the deterministic router on an empty board of the given size.
pub fn naive_new_grid_local(grid: &mut Grid, rows: usize, cols: usize) -> (res: Result<ColorGrid, CommandError>)
    ensures
        res is Ok,
        final(grid).wf(),
        final(grid).colored(),
        final(grid).width == rows,
        final(grid).height == cols,
        final(grid).unrouted(),
        forall|p: Point| final(grid).pad_at(p) is None,
        shows(res.unwrap(), final(grid)),
{
    *grid = Grid::new(rows, cols);
    Ok(grid.to_color_grid())
}

/// A click on cell `(x, y)` of the deterministic router: white takes the
/// pad off the cell, any other colour makes the cell a pad of the net of
/// that colour.
pub fn naive_click_cell_local(grid: &mut Grid, x: usize, y: usize, r: u8, g: u8, b: u8) -> (res: Result<
    ColorGrid,
    CommandError,
>)
    requires
        old(grid).wf(),
        old(grid).colored(),
    ensures
        final(grid).wf(),
        final(grid).colored(),
        final(grid).width == old(grid).width,
        final(grid).height == old(grid).height,
        final(grid).traces == old(grid).traces,
        final(grid).diagonal_traces == old(grid).diagonal_traces,
        res is Ok <==> old(grid).inside(Point { x, y }),
        res is Err ==> final(grid).pads == old(grid).pads && res.unwrap_err() == (CommandError::OutOfBounds {
            x,
            y,
            width: old(grid).width,
            height: old(grid).height,
        }),
        res is Ok ==> shows(res.unwrap(), final(grid)) && forall|p: Point|
            final(grid).pad_at(p) == if p == (Point { x, y }) {
                if r == 255 && g == 255 && b == 255 {
                    None
                } else {
                    Some(click_net(r, g, b))
                }
            } else {
                old(grid).pad_at(p)
            },
{
    if x >= grid.width || y >= grid.height {
        return Err(CommandError::OutOfBounds { x, y, width: grid.width, height: grid.height });
    }
    let ghost before = *grid;
    if r == 255 && g == 255 && b == 255 {
        grid.remove_pad(Point { x, y });
    } else {
        grid.insert_pad(
            Net::Color {
                pad_color: Color { r, g, b },
                route_color: Color { r: route_shade(r), g: route_shade(g), b: route_shade(b) },
            },
            Point { x, y },
        );
    }
    proof {
        assert forall|p: Point| grid.pad_at(p) is Some implies grid.pad_at(p).unwrap() is Color by {
            if p != (Point { x, y }) {
                assert(before.pad_at(p) is Some);
            }
        }
        assert forall|p: Point| grid.trace_at(p) is Some implies grid.trace_at(p).unwrap() is Color by {
            assert(before.trace_at(p) is Some);
        }
    }
    Ok(grid.to_color_grid())
}

/// The net that a click with the colour `(r, g, b)` stands for on the
/// probabilistic router: one of six colours, each with its number.
pub open spec fn palette_net(r: u8, g: u8, b: u8) -> Option<NetID> {
    if r == 255 && g == 0 && b == 0 {
        Some(NetID(0))
    } else if r == 0 && g == 255 && b == 0 {
        Some(NetID(1))
    } else if r == 0 && g == 0 && b == 255 {
        Some(NetID(2))
    } else if r == 255 && g == 255 && b == 0 {
        Some(NetID(3))
    } else if r == 255 && g == 0 && b == 255 {
        Some(NetID(4))
    } else if r == 0 && g == 255 && b == 255 {
        Some(NetID(5))
    } else {
        None
    }
}

/// The net that a click with the colour `(r, g, b)` stands for on the
/// probabilistic router.
pub fn net_of_color(r: u8, g: u8, b: u8) -> (net: Option<NetID>)
    ensures
        net == palette_net(r, g, b),
{
    if r == 255 && g == 0 && b == 0 {
        Some(NetID(0))
    } else if r == 0 && g == 255 && b == 0 {
        Some(NetID(1))
    } else if r == 0 && g == 0 && b == 255 {
        Some(NetID(2))
    } else if r == 255 && g == 255 && b == 0 {
        Some(NetID(3))
    } else if r == 255 && g == 0 && b == 255 {
        Some(NetID(4))
    } else if r == 0 && g == 255 && b == 255 {
        Some(NetID(5))
    } else {
        None
    }
}

/// `picture` shows the pads of the problem.
pub open spec fn shows_pads(picture: ColorGrid, problem: &ProbaGridProblem) -> bool {
    &&& is_table(picture.grid@, problem.width as nat, problem.height as nat)
    &&& forall|p: Point|
        problem.inside(p) ==> picture.grid@[p.y as int]@[p.x as int] == #[trigger] pad_color_at(
            problem.nets@,
            problem.net_to_pads@,
            p,
        )
}

/// What a click on cell `(x, y)` with the colour `(r, g, b)` answers on the
/// problem `before`: it cannot be carried out where the cell is no cell of
/// the board, or the colour is neither white nor the colour of a net.
pub open spec fn click_error(before: &ProbaGridProblem, x: usize, y: usize, r: u8, g: u8, b: u8) -> Option<
    CommandError,
> {
    if !before.inside(Point { x, y }) {
        Some(CommandError::OutOfBounds { x, y, width: before.width, height: before.height })
    } else if !(r == 255 && g == 255 && b == 255) && palette_net(r, g, b) is None {
        Some(CommandError::UnrecognizedColor { r, g, b })
    } else {
        None
    }
}

/// A click on cell `(x, y)` of a problem that can still be edited: white
/// takes the pad off the cell, the colour of a net makes the cell a pad of
/// that net.
pub fn click_problem(problem: &mut ProbaGridProblem, x: usize, y: usize, r: u8, g: u8, b: u8) -> (res: Result<
    ColorGrid,
    CommandError,
>)
    requires
        old(problem).wf(),
    ensures
        final(problem).wf(),
        final(problem).width == old(problem).width,
        final(problem).height == old(problem).height,
        match res {
            Ok(picture) => {
                &&& click_error(old(problem), x, y, r, g, b) is None
                &&& shows_pads(picture, final(problem))
                &&& forall|p: Point|
                    final(problem).pad_at(p) == if p == (Point { x, y }) {
                        palette_net(r, g, b)
                    } else {
                        old(problem).pad_at(p)
                    }
            },
            Err(e) => click_error(old(problem), x, y, r, g, b) == Some(e) && *final(problem) == *old(
                problem,
            ),
        },
{
    if x >= problem.width || y >= problem.height {
        return Err(CommandError::OutOfBounds { x, y, width: problem.width, height: problem.height });
    }
    if r == 255 && g == 255 && b == 255 {
        problem.remove_pad(Point { x, y });
    } else {
        match net_of_color(r, g, b) {
            Some(net_id) => {
                let pad_color = Color { r, g, b };
                problem.insert_pad(net_id, Point { x, y }, pad_color, pad_color);
            },
            None => {
                return Err(CommandError::UnrecognizedColor { r, g, b });
            },
        }
    }
    Ok(problem.to_color_grid())
}

/// A click on cell `(x, y)` of the probabilistic router. Once the pads are
/// fixed, no click is taken.
pub fn proba_click_cell_local(state: &mut ProbaGridState, x: usize, y: usize, r: u8, g: u8, b: u8) -> (res:
    Result<ColorGrid, CommandError>)
    requires
        old(state).wf(),
    ensures
        final(state).wf(),
        match *old(state) {
            ProbaGridState::Initialized { output } => res == Err::<ColorGrid, CommandError>(
                CommandError::AlreadyInitialized,
            ) && *final(state) == *old(state),
            ProbaGridState::Uninitialized { input: before } => {
                &&& !final(state).is_initialized()
                &&& final(state).problem().width == before.width
                &&& final(state).problem().height == before.height
                &&& match res {
                    Ok(picture) => {
                        &&& click_error(&before, x, y, r, g, b) is None
                        &&& shows_pads(picture, &final(state).problem())
                        &&& forall|p: Point|
                            final(state).problem().pad_at(p) == if p == (Point { x, y }) {
                                palette_net(r, g, b)
                            } else {
                                before.pad_at(p)
                            }
                    },
                    Err(e) => click_error(&before, x, y, r, g, b) == Some(e) && *final(state) == *old(
                        state,
                    ),
                }
            },
        },
{
    match state {
        ProbaGridState::Uninitialized { input } => click_problem(input, x, y, r, g, b),
        ProbaGridState::Initialized { .. } => Err(CommandError::AlreadyInitialized),
    }
}

/// Starts the probabilistic router on an empty problem of the given size.
pub fn proba_clear_local(state: &mut ProbaGridState, rows: usize, cols: usize) -> (res: Result<
    ColorGrid,
    CommandError,
>)
    ensures
        res is Ok,
        final(state).wf(),
        !final(state).is_initialized(),
        final(state).problem().width == rows,
        final(state).problem().height == cols,
        final(state).problem().nets@.len() == 0,
        forall|p: Point| final(state).problem().pad_at(p) is None,
        shows_pads(res.unwrap(), &final(state).problem()),
{
    let problem = ProbaGridProblem::new(rows, cols);
    let picture = problem.to_color_grid();
    *state = ProbaGridState::Uninitialized { input: problem };
    Ok(picture)
}

/// Fixes the pads of the probabilistic router.
pub fn proba_init_local(state: &mut ProbaGridState) -> (res: Result<ColorGrid, CommandError>)
    requires
        old(state).wf(),
    ensures
        final(state).wf(),
        match *old(state) {
            ProbaGridState::Initialized { output } => res == Err::<ColorGrid, CommandError>(
                CommandError::AlreadyInitialized,
            ) && *final(state) == *old(state),
            ProbaGridState::Uninitialized { input } => {
                &&& res is Ok
                &&& final(state).is_initialized()
                &&& initialized(input, final(state).board())
                &&& shows_pads(res.unwrap(), &input)
            },
        },
{
    let mut taken = ProbaGridState::Uninitialized { input: ProbaGridProblem::new(0, 0) };
    core::mem::swap(state, &mut taken);
    match taken {
        ProbaGridState::Uninitialized { input } => {
            let ghost problem = input;
            match initialize_proba_grid(input) {
                Ok(grid) => {
                    let picture = grid.pads_color_grid();
                    *state = ProbaGridState::Initialized { output: grid };
                    Ok(picture)
                },
                Err(_) => Err(CommandError::AlreadyInitialized),
            }
        },
        ProbaGridState::Initialized { output } => {
            *state = ProbaGridState::Initialized { output };
            Err(CommandError::AlreadyInitialized)
        },
    }
}

/// What stands in the way of a round of sampling on the state `before`
/// with the draws `draws`.
pub open spec fn sample_error(before: &ProbaGridState, draws: Seq<Vec<Vec<TraceID>>>) -> Option<CommandError> {
    match *before {
        ProbaGridState::Uninitialized { input } => Some(CommandError::NotInitialized),
        ProbaGridState::Initialized { output } => {
            if output.width * output.height > usize::MAX || output.next_iteration == usize::MAX {
                Some(CommandError::LimitReached)
            } else if !valid_draws(&output, draws) {
                Some(CommandError::InvalidDraws)
            } else {
                None
            }
        },
    }
}

/// A round of sampling of the probabilistic router, with the traces drawn
/// for each attempt of each net.
pub fn proba_sample_local(state: &mut ProbaGridState, draws: &Vec<Vec<Vec<TraceID>>>) -> (res: Result<
    (),
    CommandError,
>)
    requires
        old(state).wf(),
    ensures
        final(state).wf(),
        match res {
            Ok(_) => {
                &&& sample_error(old(state), draws@) is None
                &&& final(state).is_initialized()
                &&& sampled(&old(state).board(), draws@, &final(state).board())
            },
            Err(e) => sample_error(old(state), draws@) == Some(e) && *final(state) == *old(state),
        },
{
    match state {
        ProbaGridState::Uninitialized { .. } => Err(CommandError::NotInitialized),
        ProbaGridState::Initialized { output } => {
            if output.width.checked_mul(output.height).is_none() || output.next_iteration == usize::MAX {
                return Err(CommandError::LimitReached);
            }
            match sample_new_traces(output, draws) {
                Ok(_) => Ok(()),
                Err(_) => Err(CommandError::InvalidDraws),
            }
        },
    }
}

/// Routes the board of the deterministic router. Where a connection has
/// no path, the board stays as it is.
pub fn naive_do_route_local(grid: &mut Grid) -> (res: Result<ColorGrid, CommandError>)
    requires
        old(grid).wf(),
        old(grid).colored(),
    ensures
        final(grid).wf(),
        final(grid).colored(),
        match res {
            Ok(picture) => {
                &&& old(grid).width * old(grid).height <= usize::MAX
                &&& exists|plan: Seq<WeightedPair>| #[trigger]
                    is_plan(old(grid)@.cleared(), plan) && old(grid)@.cleared().route(plan) == Some(
                        final(grid)@,
                    ) && final(grid)@.apart() && final(grid)@.joins_all(plan, plan.len() as int)
                &&& shows(picture, final(grid))
            },
            Err(e) => {
                &&& *final(grid) == *old(grid)
                &&& if old(grid).width * old(grid).height > usize::MAX {
                    e == CommandError::LimitReached
                } else {
                    e == CommandError::NoPathFound && exists|plan: Seq<WeightedPair>| #[trigger]
                        is_plan(old(grid)@.cleared(), plan) && old(grid)@.cleared().route(plan) is None
                }
            },
        },
{
    if grid.width.checked_mul(grid.height).is_none() {
        return Err(CommandError::LimitReached);
    }
    let copy = grid.duplicate();
    proof {
        assert forall|p: Point| owner_at(copy.pads@, p) == owner_at(grid.pads@, p) by {
            assert(copy.pad_at(p) == grid.pad_at(p));
        }
        assert forall|p: Point| owner_at(copy.traces@, p) == owner_at(grid.traces@, p) by {
            assert(copy.trace_at(p) == grid.trace_at(p));
        }
        assert forall|p: Point| owner_at(copy.diagonal_traces@, p) == owner_at(grid.diagonal_traces@, p) by {
            assert(copy.diagonal_trace_at(p) == grid.diagonal_trace_at(p));
        }
        assert(copy@.pads =~= grid@.pads);
        assert(copy@.traces =~= grid@.traces);
        assert(copy@.diagonal_traces =~= grid@.diagonal_traces);
        assert(copy@ == grid@);
    }
    match naive_route(copy) {
        Ok(after) => {
            proof {
                let board = grid@.cleared();
                let plan = choose|plan: Seq<WeightedPair>| #[trigger]
                    is_plan(board, plan) && board.route(plan) == Some(after@) && after@.apart()
                        && after@.joins_all(plan, plan.len() as int);
                lemma_route_owners(board, plan, after@);
                assert forall|p: Point| after.pad_at(p) is Some implies after.pad_at(p).unwrap() is Color by {
                    assert(after@.pads.contains_key(p));
                    assert(after@.pads == grid@.pads);
                    assert(grid@.pads.contains_key(p));
                    assert(after@.pads[p] == owner_at(after.pads@, p).unwrap());
                    assert(grid@.pads[p] == owner_at(grid.pads@, p).unwrap());
                    assert(grid.pad_at(p) == after.pad_at(p));
                }
                assert forall|p: Point| after.trace_at(p) is Some implies after.trace_at(
                    p,
                ).unwrap() is Color by {
                    assert(after@.traces.contains_key(p));
                    let i = choose|i: int| 0 <= i < plan.len() && (#[trigger] plan[i]).1 == after@.traces[p];
                    let q = lemma_plan_net_has_pad(board, plan, i);
                    assert(grid@.pads.contains_key(q));
                    assert(grid@.pads[q] == owner_at(grid.pads@, q).unwrap());
                    assert(after@.traces[p] == owner_at(after.traces@, p).unwrap());
                    assert(grid.pad_at(q) == Some(plan[i].1));
                }
            }
            *grid = after;
            Ok(grid.to_color_grid())
        },
        Err(_) => Err(CommandError::NoPathFound),
    }
}

} // verus!
