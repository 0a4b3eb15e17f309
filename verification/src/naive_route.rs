//! The deterministic router: the connections of every net, shortest first,
//! each traced around what was traced before it.

use vstd::prelude::*;
use crate::cost::PathCost;
use crate::dijkstra::{adjacent, corners_of, no_path_message, DijkstraModel, Maze};
use crate::grid::{cells_except, cells_of, layer_nets, layer_of, owner_at, Grid, Net, Point, PointPair};
use crate::cost::Length;
use crate::prim_mst::{
    crosses, endpoints, lemma_root_has_crossing, grown_from, grows, grows_at, is_least, is_prim_tree, joins, key_le, prim_mst,
    tree_points, weight_less, weight_lt, weight_same, WeightedPair,
};
use crate::table::{is_table, new_table};

verus! {

/// The board as contracts speak of it: which net owns the pad, the trace and
/// the diagonal crossing of each cell.
pub struct Board {
    pub width: int,
    pub height: int,
    pub pads: Map<Point, Net>,
    pub traces: Map<Point, Net>,
    pub diagonal_traces: Map<Point, Net>,
}

/// A table of owners as a map from the cells that have an owner.
pub open spec fn layer_map(layer: Seq<Vec<Option<Net>>>) -> Map<Point, Net> {
    Map::new(|p: Point| owner_at(layer, p) is Some, |p: Point| owner_at(layer, p).unwrap())
}

impl View for Grid {
    type V = Board;

    open spec fn view(&self) -> Board {
        Board {
            width: self.width as int,
            height: self.height as int,
            pads: layer_map(self.pads@),
            traces: layer_map(self.traces@),
            diagonal_traces: layer_map(self.diagonal_traces@),
        }
    }
}

/// The cells of `layer` that nets other than `net` own.
pub open spec fn others(layer: Map<Point, Net>, net: Net) -> Set<Point> {
    Set::new(|p: Point| layer.contains_key(p) && layer[p] != net)
}

/// `layer` with the cells of `cells` given to `net`.
pub open spec fn claimed(layer: Map<Point, Net>, net: Net, cells: Seq<Point>) -> Map<Point, Net> {
    Map::new(
        |p: Point| layer.contains_key(p) || cells.contains(p),
        |p: Point|
            if cells.contains(p) {
                net
            } else {
                layer[p]
            },
    )
}

impl Board {
    /// The search for the connection `pair` of `net`: the pads and traces of
    /// the other nets are blocked, and so are the diagonals that their
    /// traces cross.
    pub open spec fn maze(self, net: Net, pair: PointPair) -> Maze {
        Maze {
            width: self.width,
            height: self.height,
            obstacles: others(self.pads, net) + others(self.traces, net),
            diagonal_obstacles: others(self.diagonal_traces, net),
            start: pair.spec_start(),
            end: pair.spec_end(),
        }
    }

    /// The board with a trace of `net` through `cells`.
    pub open spec fn with_trace(self, net: Net, cells: Seq<Point>) -> Board {
        Board {
            traces: claimed(self.traces, net, cells),
            diagonal_traces: claimed(self.diagonal_traces, net, corners_of(cells)),
            ..self
        }
    }

    /// The board with the connection `pair` of `net` traced along the chosen
    /// shortest path; `None` if there is no path.
    pub open spec fn connect(self, net: Net, pair: PointPair) -> Option<Board> {
        let maze = self.maze(net, pair);
        if maze.reachable(maze.end) {
            Some(self.with_trace(net, maze.shortest_route()))
        } else {
            None
        }
    }

    /// The board with the connections of `plan` traced one after the other,
    /// each around the traces of those before it; `None` if one of them
    /// cannot be traced.
    pub open spec fn route(self, plan: Seq<WeightedPair>) -> Option<Board>
        decreases plan.len(),
    {
        if plan.len() == 0 {
            Some(self)
        } else {
            match self.route(plan.drop_last()) {
                Some(board) => board.connect(plan.last().1, plan.last().2),
                None => None,
            }
        }
    }

    /// `cells` is a run of cells from `p` to `q`, each touching the next,
    /// all of them traced by `net`.
    pub open spec fn is_run(self, net: Net, cells: Seq<Point>, p: Point, q: Point) -> bool {
        &&& cells.len() >= 1
        &&& cells[0] == p
        &&& cells.last() == q
        &&& forall|i: int| 0 < i < cells.len() ==> adjacent(cells[i - 1], #[trigger] cells[i])
        &&& forall|i: int|
            0 <= i < cells.len() ==> self.traces.contains_key(#[trigger] cells[i]) && self.traces[cells[i]]
                == net
    }

    /// The trace of `net` leads from `p` to `q`.
    pub open spec fn linked(self, net: Net, p: Point, q: Point) -> bool {
        exists|cells: Seq<Point>| #[trigger] self.is_run(net, cells, p, q)
    }

    /// The trace of `net` joins the two pads of `pair`.
    pub open spec fn joined(self, net: Net, pair: PointPair) -> bool {
        self.linked(net, pair.spec_start(), pair.spec_end())
    }

    /// No trace runs over the pad of another net.
    pub open spec fn apart(self) -> bool {
        forall|p: Point| #[trigger]
            self.traces.contains_key(p) && self.pads.contains_key(p) ==> self.traces[p] == self.pads[p]
    }

    /// The traces join the two pads of each of the first `k` connections.
    pub open spec fn joins_all(self, plan: Seq<WeightedPair>, k: int) -> bool {
        forall|i: int| 0 <= i < k && i < plan.len() ==> self.joined((#[trigger] plan[i]).1, plan[i].2)
    }

    /// The board without its traces.
    pub open spec fn cleared(self) -> Board {
        Board { traces: Map::empty(), diagonal_traces: Map::empty(), ..self }
    }
}

/// Gives the cells of `cells` to `net`.
fn claim(layer: &mut Vec<Vec<Option<Net>>>, width: usize, height: usize, net: Net, cells: &Vec<Point>)
    requires
        is_table(old(layer)@, width as nat, height as nat),
        forall|i: int| 0 <= i < cells@.len() ==> (#[trigger] cells@[i]).x < width && cells@[i].y < height,
    ensures
        is_table(final(layer)@, width as nat, height as nat),
        layer_map(final(layer)@) == claimed(layer_map(old(layer)@), net, cells@),
{
    let mut i: usize = 0;
    proof {
        assert(cells@.take(0) =~= Seq::<Point>::empty());
        assert(layer_map(layer@) =~= claimed(layer_map(old(layer)@), net, cells@.take(0)));
    }
    while i < cells.len()
        invariant
            i <= cells@.len(),
            is_table(layer@, width as nat, height as nat),
            is_table(old(layer)@, width as nat, height as nat),
            forall|i: int|
                0 <= i < cells@.len() ==> (#[trigger] cells@[i]).x < width && cells@[i].y < height,
            layer_map(layer@) == claimed(layer_map(old(layer)@), net, cells@.take(i as int)),
        decreases cells@.len() - i,
    {
        let p = cells[i];
        let ghost before = layer@;
        layer[p.y][p.x] = Some(net);
        proof {
            let part = cells@.take(i as int);
            let more = cells@.take(i + 1);
            assert(more =~= part.push(p));
            assert forall|q: Point| more.contains(q) <==> (part.contains(q) || q == p) by {
                if part.contains(q) {
                    let j = choose|j: int| 0 <= j < part.len() && part[j] == q;
                    assert(more[j] == q);
                }
                if q == p {
                    assert(more[i as int] == p);
                }
            }
            assert forall|q: Point| owner_at(layer@, q) == if q == p {
                Some(net)
            } else {
                owner_at(before, q)
            } by {
                if q.y < height && q.x < width && q.y != p.y {
                    assert(layer@[q.y as int]@ == before[q.y as int]@);
                }
            }
            let start = layer_map(old(layer)@);
            let wanted = claimed(start, net, more);
            assert(layer_map(before) == claimed(start, net, part));
            assert forall|q: Point| layer_map(layer@).contains_key(q) <==> wanted.contains_key(q) by {
                assert(layer_map(before).contains_key(q) <==> (start.contains_key(q) || part.contains(q)));
                assert(layer_map(before).contains_key(q) <==> owner_at(before, q) is Some);
            }
            assert forall|q: Point| layer_map(layer@).contains_key(q) implies layer_map(layer@)[q]
                == wanted[q] by {
                if q != p {
                    assert(layer_map(before).contains_key(q));
                    assert(layer_map(before)[q] == claimed(start, net, part)[q]);
                }
            }
            assert(layer_map(layer@) =~= wanted);
        }
        i += 1;
    }
    proof {
        assert(cells@.take(cells@.len() as int) =~= cells@);
    }
}

/// The pads of a connection are cells of the board.
pub open spec fn pair_inside(grid: &Grid, pair: PointPair) -> bool {
    grid.inside(pair.spec_start()) && grid.inside(pair.spec_end())
}

/// The search for the connection `pair` of `net` on the board as it is.
pub fn model_for(grid: &Grid, net: &Net, pair: PointPair) -> (model: DijkstraModel)
    requires
        grid.wf(),
    ensures
        model@ == grid@.maze(*net, pair),
        model.width == grid.width,
        model.height == grid.height,
{
    let mut obstacles = grid.pads_except(net);
    let mut routes = grid.routes_except(net);
    let ghost pads_part = obstacles@;
    let ghost routes_part = routes@;
    obstacles.append(&mut routes);
    let diagonal_obstacles = grid.diagonal_routes_except(net);
    let model = DijkstraModel {
        width: grid.width,
        height: grid.height,
        obstacles,
        diagonal_obstacles,
        start: pair.start(),
        end: pair.end(),
    };
    proof {
        let wanted = grid@.maze(*net, pair);
        assert(model.obstacles@ == pads_part + routes_part);
        assert forall|p: Point| model@.obstacles.contains(p) <==> wanted.obstacles.contains(p) by {
            assert(pads_part.to_set().contains(p) <==> cells_except(grid.pads@, *net).contains(p));
            assert(routes_part.to_set().contains(p) <==> cells_except(grid.traces@, *net).contains(p));
            if pads_part.contains(p) {
                let j = choose|j: int| 0 <= j < pads_part.len() && pads_part[j] == p;
                assert(model.obstacles@[j] == p);
            }
            if routes_part.contains(p) {
                let j = choose|j: int| 0 <= j < routes_part.len() && routes_part[j] == p;
                assert(model.obstacles@[pads_part.len() + j] == p);
            }
            if model.obstacles@.contains(p) {
                let j = choose|j: int| 0 <= j < model.obstacles@.len() && model.obstacles@[j] == p;
                if j < pads_part.len() {
                    assert(pads_part[j] == p);
                } else {
                    assert(routes_part[j - pads_part.len()] == p);
                }
            }
        }
        assert(model@.obstacles =~= wanted.obstacles);
        assert(model@.diagonal_obstacles =~= wanted.diagonal_obstacles);
    }
    model
}

/// Traces the connection `pair` of `net` along the chosen shortest path
/// around the pads and traces of the other nets.
pub fn connect(grid: Grid, net: Net, pair: PointPair) -> (res: Result<Grid, String>)
    requires
        grid.wf(),
        pair_inside(&grid, pair),
        grid.width * grid.height <= usize::MAX,
    ensures
        match res {
            Ok(after) => {
                &&& after.wf()
                &&& after.width == grid.width
                &&& after.height == grid.height
                &&& grid@.connect(net, pair) == Some(after@)
                &&& grid@.maze(net, pair).is_route(grid@.maze(net, pair).shortest_route(), pair.spec_end())
            },
            Err(e) => grid@.connect(net, pair) is None && e@ == no_path_message(),
        },
{
    let model = model_for(&grid, &net, pair);
    match model.run() {
        Err(e) => Err(e),
        Ok(found) => {
            let ghost maze = model@;
            let ghost cells = maze.shortest_route();
            let ghost before = grid;
            let width = grid.width;
            let height = grid.height;
            let mut after = grid;
            proof {
                assert forall|i: int| 0 <= i < cells.len() implies maze.inside(#[trigger] cells[i]) by {
                    if i > 0 {
                        assert(maze.legal_step(cells[i - 1], cells[i]));
                    }
                }
                lemma_corners_inside(maze, cells);
            }
            claim(&mut after.traces, width, height, net, &found.trace_path.covered);
            claim(&mut after.diagonal_traces, width, height, net, &found.trace_path.diagonal_covered);
            proof {
                assert(after@ == before@.with_trace(net, cells));
            }
            Ok(after)
        },
    }
}

/// The blocks that a path on the board crosses diagonally are at cells of
/// the board.
pub proof fn lemma_corners_inside(maze: Maze, cells: Seq<Point>)
    requires
        forall|i: int| 0 <= i < cells.len() ==> maze.inside(#[trigger] cells[i]),
    ensures
        forall|i: int| 0 <= i < corners_of(cells).len() ==> maze.inside(#[trigger] corners_of(cells)[i]),
    decreases cells.len(),
{
    if cells.len() > 1 {
        let shorter = cells.drop_last();
        assert forall|i: int| 0 <= i < shorter.len() implies maze.inside(#[trigger] shorter[i]) by {
            assert(shorter[i] == cells[i]);
        }
        lemma_corners_inside(maze, shorter);
        assert(maze.inside(cells[cells.len() - 2]));
        assert(maze.inside(cells[cells.len() - 1]));
        let before = corners_of(shorter);
        assert forall|i: int| 0 <= i < corners_of(cells).len() implies maze.inside(
            #[trigger] corners_of(cells)[i],
        ) by {
            if i < before.len() {
                assert(corners_of(cells)[i] == before[i]);
            }
        }
    }
}

/// The pads of every connection of the plan are cells of the board.
pub open spec fn plan_inside(grid: &Grid, plan: Seq<WeightedPair>) -> bool {
    forall|i: int| 0 <= i < plan.len() ==> pair_inside(grid, (#[trigger] plan[i]).2)
}

/// Every connection of the plan joins two pads of its net.
pub open spec fn plan_on_pads(board: Board, plan: Seq<WeightedPair>) -> bool {
    forall|i: int|
        0 <= i < plan.len() ==> board.pads.contains_key((#[trigger] plan[i]).2.spec_start())
            && board.pads[plan[i].2.spec_start()] == plan[i].1
}

/// Tracing a connection of a net from one of its pads keeps the traces off
/// the pads of other nets, keeps joined what was joined, and joins the two
/// pads of the connection.
pub proof fn lemma_connect_joins(board: Board, net: Net, pair: PointPair, plan: Seq<WeightedPair>, k: int)
    requires
        board.apart(),
        board.joins_all(plan, k),
        board.pads.contains_key(pair.spec_start()),
        board.pads[pair.spec_start()] == net,
        board.maze(net, pair).is_route(board.maze(net, pair).shortest_route(), pair.spec_end()),
    ensures
        board.with_trace(net, board.maze(net, pair).shortest_route()).apart(),
        board.with_trace(net, board.maze(net, pair).shortest_route()).joins_all(plan, k),
        board.with_trace(net, board.maze(net, pair).shortest_route()).joined(net, pair),
{
    let maze = board.maze(net, pair);
    let route = maze.shortest_route();
    let after = board.with_trace(net, route);
    assert forall|i: int| 0 <= i < route.len() implies (board.traces.contains_key(#[trigger] route[i])
        ==> board.traces[route[i]] == net) && (board.pads.contains_key(route[i]) ==> board.pads[route[i]]
        == net) by {
        if i > 0 {
            assert(maze.legal_step(route[i - 1], route[i]));
            assert(!maze.obstacles.contains(route[i]));
        }
    }
    assert forall|p: Point| #[trigger] after.traces.contains_key(p) && after.pads.contains_key(
        p,
    ) implies after.traces[p] == after.pads[p] by {
        if route.contains(p) {
            let i = choose|i: int| 0 <= i < route.len() && route[i] == p;
            assert(board.pads.contains_key(route[i]) ==> board.pads[route[i]] == net);
        } else {
            assert(board.traces.contains_key(p));
        }
    }
    assert forall|i: int| 0 <= i < k && i < plan.len() implies after.joined(
        (#[trigger] plan[i]).1,
        plan[i].2,
    ) by {
        assert(board.joined(plan[i].1, plan[i].2));
        let cells = choose|cells: Seq<Point>| #[trigger]
            board.is_run(plan[i].1, cells, plan[i].2.spec_start(), plan[i].2.spec_end());
        assert forall|j: int| 0 <= j < cells.len() implies after.traces.contains_key(#[trigger] cells[j])
            && after.traces[cells[j]] == plan[i].1 by {
            if route.contains(cells[j]) {
                let m = choose|m: int| 0 <= m < route.len() && route[m] == cells[j];
                assert(board.traces.contains_key(route[m]) ==> board.traces[route[m]] == net);
            }
        }
        assert(after.is_run(plan[i].1, cells, plan[i].2.spec_start(), plan[i].2.spec_end()));
    }
    assert forall|i: int| 0 < i < route.len() implies adjacent(route[i - 1], #[trigger] route[i]) by {
        assert(maze.legal_step(route[i - 1], route[i]));
    }
    assert forall|i: int| 0 <= i < route.len() implies after.traces.contains_key(#[trigger] route[i])
        && after.traces[route[i]] == net by {
        assert(route.contains(route[i]));
    }
    assert(after.is_run(net, route, pair.spec_start(), pair.spec_end()));
}

/// Traces the connections of `plan` one after the other, each around the
/// traces of those before it.
pub fn route_planned(grid: Grid, plan: &Vec<WeightedPair>) -> (res: Result<Grid, String>)
    requires
        grid.wf(),
        plan_inside(&grid, plan@),
        grid.width * grid.height <= usize::MAX,
    ensures
        match res {
            Ok(after) => {
                &&& after.wf()
                &&& grid@.route(plan@) == Some(after@)
                &&& grid@.apart() && plan_on_pads(grid@, plan@) ==> after@.apart() && after@.joins_all(
                    plan@,
                    plan@.len() as int,
                )
            },
            Err(e) => grid@.route(plan@) is None && e@ == no_path_message(),
        },
{
    let ghost start = grid@;
    let ghost first = grid;
    let mut board = grid;
    let mut i: usize = 0;
    proof {
        assert(plan@.take(0) =~= Seq::<WeightedPair>::empty());
    }
    while i < plan.len()
        invariant
            i <= plan@.len(),
            board.wf(),
            board.width == first.width,
            board.height == first.height,
            first == grid,
            start == grid@,
            plan_inside(&first, plan@),
            board.width * board.height <= usize::MAX,
            start.route(plan@.take(i as int)) == Some(board@),
            board@.pads == start.pads,
            start.apart() && plan_on_pads(start, plan@) ==> board@.apart() && board@.joins_all(
                plan@,
                i as int,
            ),
        decreases plan@.len() - i,
    {
        let (_, net, pair) = plan[i];
        let ghost before = board@;
        proof {
            let part = plan@.take(i + 1);
            assert(part.drop_last() =~= plan@.take(i as int));
            assert(part.last() == plan@[i as int]);
            assert(pair_inside(&first, plan@[i as int].2));
        }
        match connect(board, net, pair) {
            Ok(after) => {
                proof {
                    if start.apart() && plan_on_pads(start, plan@) {
                        lemma_connect_joins(before, net, pair, plan@, i as int);
                        assert(after@.joined(plan@[i as int].1, plan@[i as int].2));
                    }
                }
                board = after;
            },
            Err(e) => {
                proof {
                    lemma_route_fails_on(start, plan@, i + 1);
                }
                return Err(e);
            },
        }
        i += 1;
    }
    proof {
        assert(plan@.take(plan@.len() as int) =~= plan@);
    }
    Ok(board)
}

/// Where the first `k` connections of a plan cannot all be traced, the
/// plan cannot.
pub proof fn lemma_route_fails_on(board: Board, plan: Seq<WeightedPair>, k: int)
    requires
        0 <= k <= plan.len(),
        board.route(plan.take(k)) is None,
    ensures
        board.route(plan) is None,
    decreases plan.len() - k,
{
    if k < plan.len() {
        assert(plan.take(k + 1).drop_last() =~= plan.take(k));
        lemma_route_fails_on(board, plan, k + 1);
    } else {
        assert(plan.take(k) =~= plan);
    }
}

impl Board {
    /// The search for the connection `pair` of `net` on the board without
    /// its traces: the pads of the other nets are blocked, and nothing else.
    pub open spec fn bare_maze(self, net: Net, pair: PointPair) -> Maze {
        Maze {
            width: self.width,
            height: self.height,
            obstacles: others(self.pads, net),
            diagonal_obstacles: Set::empty(),
            start: pair.spec_start(),
            end: pair.spec_end(),
        }
    }

    /// `p` is a pad of `net`.
    pub open spec fn is_pad(self, net: Net, p: Point) -> bool {
        self.pads.contains_key(p) && self.pads[p] == net
    }
}

/// `w` is the distance between the two cells of the search: a length, or
/// none where there is no path.
pub open spec fn weighs(maze: Maze, w: Option<PathCost>) -> bool {
    match w {
        Some(k) => maze.reachable(maze.end) && k@ == maze.distance(maze.end),
        None => !maze.reachable(maze.end),
    }
}

/// `e` is a connection that `net` may use: it joins two pads of the net, the
/// smaller one first, and weighs their distance on the board without traces.
pub open spec fn is_candidate(board: Board, net: Net, e: WeightedPair) -> bool {
    &&& e.1 == net
    &&& board.is_pad(net, e.2.spec_start())
    &&& board.is_pad(net, e.2.spec_end())
    &&& e.2.spec_start().spec_precedes(e.2.spec_end())
    &&& weighs(board.bare_maze(net, e.2), e.0)
}

/// `edges` holds the connections that `net` may use, one at least for any
/// two of its pads.
pub open spec fn are_candidates(board: Board, net: Net, edges: Seq<WeightedPair>) -> bool {
    &&& forall|i: int| 0 <= i < edges.len() ==> is_candidate(board, net, #[trigger] edges[i])
    &&& forall|p: Point, q: Point|
        board.is_pad(net, p) && board.is_pad(net, q) && p.spec_precedes(q) ==> #[trigger] joined_in_order(
            edges,
            p,
            q,
        )
}

/// One of the connections joins `p` and `q`, `p` first.
pub open spec fn joined_in_order(edges: Seq<WeightedPair>, p: Point, q: Point) -> bool {
    exists|i: int|
        0 <= i < edges.len() && (#[trigger] edges[i]).2.spec_start() == p && edges[i].2.spec_end() == q
}

/// One of the connections joins `p` and `q`.
pub open spec fn joined(edges: Seq<WeightedPair>, p: Point, q: Point) -> bool {
    exists|k: int| 0 <= k < edges.len() && joins((#[trigger] edges[k]).2, p, q)
}

/// The distance between the two pads of `pair` on the board without its
/// traces, around the pads of the other nets.
pub fn pad_distance(grid: &Grid, net: &Net, pair: PointPair) -> (w: Option<PathCost>)
    requires
        grid.wf(),
        pair_inside(grid, pair),
        grid.width * grid.height <= usize::MAX,
    ensures
        weighs(grid@.bare_maze(*net, pair), w),
{
    let model = DijkstraModel {
        width: grid.width,
        height: grid.height,
        obstacles: grid.pads_except(net),
        diagonal_obstacles: Vec::new(),
        start: pair.start(),
        end: pair.end(),
    };
    proof {
        let wanted = grid@.bare_maze(*net, pair);
        assert(model@.obstacles =~= wanted.obstacles);
        assert(model@.diagonal_obstacles =~= wanted.diagonal_obstacles);
        assert(model@ == wanted);
    }
    match model.run() {
        Ok(found) => Some(found.distance),
        Err(_) => None,
    }
}

/// The connections that `net` may use: one for any two of its pads.
pub fn candidates(grid: &Grid, net: &Net) -> (edges: Vec<WeightedPair>)
    requires
        grid.wf(),
        grid.width * grid.height <= usize::MAX,
    ensures
        are_candidates(grid@, *net, edges@),
{
    let pads = layer_of(&grid.pads, net);
    let ghost board = grid@;
    proof {
        assert forall|p: Point| pads@.contains(p) <==> board.is_pad(*net, p) by {
            assert(pads@.to_set().contains(p) <==> cells_of(grid.pads@, *net).contains(p));
        }
    }
    let mut edges: Vec<WeightedPair> = Vec::new();
    let mut i: usize = 0;
    while i < pads.len()
        invariant
            i <= pads@.len(),
            grid.wf(),
            grid.width * grid.height <= usize::MAX,
            board == grid@,
            pads@.no_duplicates(),
            forall|p: Point| pads@.contains(p) <==> board.is_pad(*net, p),
            forall|k: int| 0 <= k < edges@.len() ==> is_candidate(board, *net, #[trigger] edges@[k]),
            forall|a: int, b: int|
                0 <= a < i && a < b < pads@.len() ==> #[trigger] joined(edges@, pads@[a], pads@[b]),
        decreases pads@.len() - i,
    {
        let mut j: usize = i + 1;
        while j < pads.len()
            invariant
                i < pads@.len(),
                i < j <= pads@.len(),
                grid.wf(),
                grid.width * grid.height <= usize::MAX,
                board == grid@,
                pads@.no_duplicates(),
                forall|p: Point| pads@.contains(p) <==> board.is_pad(*net, p),
                forall|k: int| 0 <= k < edges@.len() ==> is_candidate(board, *net, #[trigger] edges@[k]),
                forall|a: int, b: int|
                    0 <= a < pads@.len() && a < b < pads@.len() && (a < i || (a == i && b < j))
                        ==> #[trigger] joined(edges@, pads@[a], pads@[b]),
            decreases pads@.len() - j,
        {
            let pair = PointPair::new(pads[i], pads[j]);
            proof {
                assert(pads@.contains(pads@[i as int]));
                assert(pads@.contains(pads@[j as int]));
                assert(pads@[i as int] != pads@[j as int]);
                assert(owner_at(grid.pads@, pads@[i as int]) is Some);
                assert(owner_at(grid.pads@, pads@[j as int]) is Some);
            }
            let w = pad_distance(grid, net, pair);
            let ghost before = edges@;
            edges.push((w, *net, pair));
            proof {
                assert(joins(pair, pads@[i as int], pads@[j as int]));
                assert forall|a: int, b: int|
                    0 <= a < pads@.len() && a < b < pads@.len() && (a < i || (a == i && b < j + 1))
                    implies #[trigger] joined(edges@, pads@[a], pads@[b]) by {
                    if a == i && b == j {
                        assert(joins(edges@[before.len() as int].2, pads@[a], pads@[b]));
                    } else {
                        assert(joined(before, pads@[a], pads@[b]));
                        let k = choose|k: int|
                            0 <= k < before.len() && joins((#[trigger] before[k]).2, pads@[a], pads@[b]);
                        assert(edges@[k] == before[k]);
                    }
                }
                assert forall|k: int| 0 <= k < edges@.len() implies is_candidate(
                    board,
                    *net,
                    #[trigger] edges@[k],
                ) by {
                    if k < before.len() {
                        assert(edges@[k] == before[k]);
                    }
                }
            }
            j += 1;
        }
        i += 1;
    }
    proof {
        assert forall|p: Point, q: Point|
            board.is_pad(*net, p) && board.is_pad(*net, q) && p.spec_precedes(
                q,
            ) implies #[trigger] joined_in_order(edges@, p, q) by {
            let a = choose|a: int| 0 <= a < pads@.len() && pads@[a] == p;
            let b = choose|b: int| 0 <= b < pads@.len() && pads@[b] == q;
            let (lo, hi) = if a < b { (a, b) } else { (b, a) };
            assert(joined(edges@, pads@[lo], pads@[hi]));
            let k = choose|k: int|
                0 <= k < edges@.len() && joins((#[trigger] edges@[k]).2, pads@[lo], pads@[hi]);
            assert(is_candidate(board, *net, edges@[k]));
        }
    }
    edges
}

/// The order in which connections are traced: by weight, then by net, then
/// by the two pads.
pub open spec fn plan_le(a: WeightedPair, b: WeightedPair) -> bool {
    ||| weight_lt(a.0, b.0)
    ||| (a.0 == b.0 && a.1.spec_precedes(b.1))
    ||| (a.0 == b.0 && a.1 == b.1 && (a.2.spec_precedes(b.2) || a.2 == b.2))
}

/// Whether `a` is traced before `b`, or is `b`.
pub fn plan_before(a: &WeightedPair, b: &WeightedPair) -> (before: bool)
    ensures
        before == plan_le(*a, *b),
{
    proof {
        a.2.lemma_ends_determine(b.2);
    }
    weight_less(a.0, b.0) || (weight_same(a.0, b.0) && (a.1.precedes(b.1) || (a.1 == b.1 && (
    a.2.precedes(b.2) || (a.2.start() == b.2.start() && a.2.end() == b.2.end())))))
}

pub proof fn lemma_plan_le_transitive(a: WeightedPair, b: WeightedPair, c: WeightedPair)
    requires
        plan_le(a, b),
        plan_le(b, c),
    ensures
        plan_le(a, c),
{
    if a.0 is Some && b.0 is Some && c.0 is Some {
        if weight_lt(a.0, b.0) && weight_lt(b.0, c.0) {
            Length::lemma_le_transitive(a.0.unwrap()@, b.0.unwrap()@, c.0.unwrap()@);
            if a.0 == c.0 {
                Length::lemma_le_antisymmetric(a.0.unwrap()@, b.0.unwrap()@);
            }
        }
    }
    a.2.lemma_ends_determine(c.2);
}

pub proof fn lemma_plan_le_total(a: WeightedPair, b: WeightedPair)
    ensures
        plan_le(a, b) || plan_le(b, a),
{
    if a.0 is Some && b.0 is Some {
        Length::lemma_le_total(a.0.unwrap()@, b.0.unwrap()@);
    }
    a.2.lemma_ends_determine(b.2);
}

/// The connections are in the order in which they are traced.
pub open spec fn in_order(plan: Seq<WeightedPair>) -> bool {
    forall|i: int, j: int| 0 <= i < j < plan.len() ==> plan_le(plan[i], plan[j])
}

/// The same connections in the order in which they are traced.
pub fn sort_plan(all: Vec<WeightedPair>) -> (plan: Vec<WeightedPair>)
    ensures
        in_order(plan@),
        plan@.len() == all@.len(),
        forall|e: WeightedPair| plan@.contains(e) <==> all@.contains(e),
        all@.no_duplicates() ==> plan@.no_duplicates(),
{
    let mut rest = all;
    let mut plan: Vec<WeightedPair> = Vec::new();
    while rest.len() > 0
        invariant
            in_order(plan@),
            plan@.len() + rest@.len() == all@.len(),
            forall|e: WeightedPair| (plan@.contains(e) || rest@.contains(e)) <==> all@.contains(e),
            forall|i: int, j: int|
                0 <= i < plan@.len() && 0 <= j < rest@.len() ==> plan_le(
                    #[trigger] plan@[i],
                    #[trigger] rest@[j],
                ),
            all@.no_duplicates() ==> (plan@ + rest@).no_duplicates(),
        decreases rest@.len(),
    {
        let mut best: usize = 0;
        let mut k: usize = 1;
        while k < rest.len()
            invariant
                1 <= k <= rest@.len(),
                best < rest@.len(),
                forall|j: int| 0 <= j < k ==> plan_le(rest@[best as int], #[trigger] rest@[j]),
            decreases rest@.len() - k,
        {
            if !plan_before(&rest[best], &rest[k]) {
                proof {
                    lemma_plan_le_total(rest@[best as int], rest@[k as int]);
                    assert forall|j: int| 0 <= j < k + 1 implies plan_le(
                        rest@[k as int],
                        #[trigger] rest@[j],
                    ) by {
                        if j < k {
                            lemma_plan_le_transitive(rest@[k as int], rest@[best as int], rest@[j]);
                        }
                    }
                }
                best = k;
            }
            k += 1;
        }
        let ghost old_rest = rest@;
        let ghost old_plan = plan@;
        let e = rest.remove(best);
        plan.push(e);
        proof {
            assert(rest@ == old_rest.remove(best as int));
            assert forall|j: int| 0 <= j < rest@.len() implies #[trigger] rest@[j] == old_rest[if j
                < best {
                j
            } else {
                j + 1
            }] by {}
            assert forall|x: WeightedPair|
                (plan@.contains(x) || rest@.contains(x)) <==> (old_plan.contains(x) || old_rest.contains(
                    x,
                )) by {
                if old_plan.contains(x) {
                    let j = choose|j: int| 0 <= j < old_plan.len() && old_plan[j] == x;
                    assert(plan@[j] == x);
                }
                if old_rest.contains(x) {
                    let j = choose|j: int| 0 <= j < old_rest.len() && old_rest[j] == x;
                    if j == best {
                        assert(plan@[old_plan.len() as int] == x);
                    } else {
                        let j2 = if j < best { j } else { j - 1 };
                        assert(rest@[j2] == x);
                    }
                }
                if plan@.contains(x) {
                    let j = choose|j: int| 0 <= j < plan@.len() && plan@[j] == x;
                    if j < old_plan.len() {
                        assert(old_plan[j] == x);
                    } else {
                        assert(old_rest[best as int] == x);
                    }
                }
                if rest@.contains(x) {
                    let j = choose|j: int| 0 <= j < rest@.len() && rest@[j] == x;
                    let j2 = if j < best { j } else { j + 1 };
                    assert(old_rest[j2] == x);
                }
            }
            assert forall|i: int, j: int| 0 <= i < j < plan@.len() implies plan_le(plan@[i], plan@[j]) by {
                if j == old_plan.len() {
                    assert(plan@[i] == old_plan[i]);
                    assert(plan_le(old_plan[i], old_rest[best as int]));
                } else {
                    assert(plan@[i] == old_plan[i]);
                    assert(plan@[j] == old_plan[j]);
                }
            }
            assert forall|i: int, j: int| 0 <= i < plan@.len() && 0 <= j < rest@.len() implies plan_le(
                #[trigger] plan@[i],
                #[trigger] rest@[j],
            ) by {
                let j2 = if j < best { j } else { j + 1 };
                assert(rest@[j] == old_rest[j2]);
                if i < old_plan.len() {
                    assert(plan@[i] == old_plan[i]);
                    assert(plan_le(old_plan[i], old_rest[j2]));
                } else {
                    assert(plan_le(old_rest[best as int], old_rest[j2]));
                }
            }
            if all@.no_duplicates() {
                let before = old_plan + old_rest;
                let after = plan@ + rest@;
                assert forall|i: int, j: int|
                    0 <= i < after.len() && 0 <= j < after.len() && i != j implies after[i] != after[j] by {
                    let n = old_plan.len() as int;
                    let map = |t: int|
                        if t < n {
                            t
                        } else if t == n {
                            n + best
                        } else if t - n - 1 < best {
                            t - 1
                        } else {
                            t
                        };
                    assert(after[i] == before[map(i)]);
                    assert(after[j] == before[map(j)]);
                    assert(map(i) != map(j));
                }
            }
        }
    }
    proof {
        assert(plan@ + rest@ =~= plan@);
    }
    plan
}

/// The net has two pads at least.
pub open spec fn has_two_pads(board: Board, net: Net) -> bool {
    exists|p: Point, q: Point| #[trigger] board.is_pad(net, p) && #[trigger] board.is_pad(net, q) && p != q
}

/// `tree` holds the connections that join the pads of `net`: the spanning
/// tree of the connections that the net may use, and nothing for a net with
/// fewer than two pads.
pub open spec fn is_net_tree(board: Board, net: Net, tree: Seq<WeightedPair>) -> bool {
    if has_two_pads(board, net) {
        exists|edges: Seq<WeightedPair>| #[trigger]
            are_candidates(board, net, edges) && edges.len() >= 1 && is_prim_tree(edges, tree)
    } else {
        tree.len() == 0
    }
}

/// The connections of `net` in the plan are those that join its pads.
pub open spec fn planned_for(board: Board, plan: Seq<WeightedPair>, net: Net) -> bool {
    exists|tree: Seq<WeightedPair>| #[trigger]
        is_net_tree(board, net, tree) && forall|e: WeightedPair|
            (plan.contains(e) && e.1 == net) <==> tree.contains(e)
}

/// `plan` holds the connections that join the pads of every net, each once,
/// in the order in which they are traced.
pub open spec fn is_plan(board: Board, plan: Seq<WeightedPair>) -> bool {
    &&& in_order(plan)
    &&& plan.no_duplicates()
    &&& forall|net: Net| #[trigger] planned_for(board, plan, net)
}

/// The connections of a tree are connections offered, with the net of the
/// first of them.
pub proof fn lemma_tree_of_edges(edges: Seq<WeightedPair>, tree: Seq<WeightedPair>, k: int)
    requires
        is_prim_tree(edges, tree),
        0 <= k < tree.len(),
        forall|i: int| 0 <= i < edges.len() ==> (#[trigger] edges[i]).1 == edges[0].1,
    ensures
        edges.contains(tree[k]),
{
    let root = choose|root: Point|
        crate::prim_mst::is_least(endpoints(edges), root) && #[trigger] crate::prim_mst::grown_from(
            edges,
            root,
            tree,
        );
    assert(grows(edges, root, tree, k));
    let (new, old) = choose|new: Point, old: Point| #[trigger]
        grows_at(edges, root, tree, k, new, old);
    let i = choose|i: int|
        0 <= i < edges.len() && (#[trigger] edges[i]).0 == tree[k].0 && edges[i].2 == tree[k].2;
    assert(edges[i] == tree[k]);
}

/// No connection occurs twice in a tree.
pub proof fn lemma_tree_distinct(edges: Seq<WeightedPair>, tree: Seq<WeightedPair>)
    requires
        is_prim_tree(edges, tree),
    ensures
        tree.no_duplicates(),
{
    let root = choose|root: Point|
        crate::prim_mst::is_least(endpoints(edges), root) && #[trigger] crate::prim_mst::grown_from(
            edges,
            root,
            tree,
        );
    assert forall|j: int, k: int| 0 <= j < tree.len() && 0 <= k < tree.len() && j != k implies tree[j]
        != tree[k] by {
        let (lo, hi) = if j < k { (j, k) } else { (k, j) };
        assert(grows(edges, root, tree, hi));
        let (new, old) = choose|new: Point, old: Point| #[trigger]
            grows_at(edges, root, tree, hi, new, old);
        if tree[lo] == tree[hi] {
            assert(tree[lo].2.spec_start() == new || tree[lo].2.spec_end() == new);
            assert(tree_points(root, tree, hi).contains(new));
        }
    }
}

/// The connections that join the pads of every net, in the order in which
/// they are traced.
pub fn plan_routes(grid: &Grid) -> (plan: Vec<WeightedPair>)
    requires
        grid.wf(),
        grid.width * grid.height <= usize::MAX,
    ensures
        is_plan(grid@, plan@),
        plan_inside(grid, plan@),
{
    let ghost board = grid@;
    let nets = layer_nets(&grid.pads);
    let mut all: Vec<WeightedPair> = Vec::new();
    let ghost mut trees: Seq<Seq<WeightedPair>> = Seq::empty();
    let mut i: usize = 0;
    while i < nets.len()
        invariant
            i <= nets@.len(),
            grid.wf(),
            grid.width * grid.height <= usize::MAX,
            board == grid@,
            nets@.no_duplicates(),
            trees.len() == i,
            forall|k: int| 0 <= k < i ==> is_net_tree(board, nets@[k], #[trigger] trees[k]),
            forall|k: int, j: int|
                0 <= k < i && 0 <= j < trees[k].len() ==> (#[trigger] trees[k][j]).1 == nets@[k],
            forall|e: WeightedPair|
                all@.contains(e) <==> exists|k: int| 0 <= k < i && (#[trigger] trees[k]).contains(e),
            all@.no_duplicates(),
            plan_inside(grid, all@),
        decreases nets@.len() - i,
    {
        let net = nets[i];
        let edges = candidates(grid, &net);
        let ghost offered = edges@;
        let ghost old_trees = trees;
        let ghost old_all = all@;
        if edges.len() >= 1 {
            proof {
                assert(is_candidate(board, net, offered[0]));
                assert(board.is_pad(net, offered[0].2.spec_start()));
                assert(board.is_pad(net, offered[0].2.spec_end()));
                assert(has_two_pads(board, net));
                assert forall|k: int| 0 <= k < offered.len() implies (#[trigger] offered[k]).2.spec_start()
                    != offered[k].2.spec_end() by {
                    assert(is_candidate(board, net, offered[k]));
                }
                assert forall|k: int| 0 <= k < offered.len() implies (#[trigger] offered[k]).1
                    == offered[0].1 by {
                    assert(is_candidate(board, net, offered[k]));
                }
            }
            let tree = prim_mst(edges);
            proof {
                lemma_tree_distinct(offered, tree@);
                assert forall|j: int| 0 <= j < tree@.len() implies is_candidate(
                    board,
                    net,
                    #[trigger] tree@[j],
                ) by {
                    lemma_tree_of_edges(offered, tree@, j);
                    let k = choose|k: int| 0 <= k < offered.len() && offered[k] == tree@[j];
                    assert(is_candidate(board, net, offered[k]));
                }
                trees = trees.push(tree@);
            }
            let mut j: usize = 0;
            while j < tree.len()
                invariant
                    j <= tree@.len(),
                    grid.wf(),
                    board == grid@,
                    tree@.no_duplicates(),
                    old_all.no_duplicates(),
                    forall|e: WeightedPair| old_all.contains(e) ==> e.1 != net,
                    forall|k: int| 0 <= k < tree@.len() ==> is_candidate(board, net, #[trigger] tree@[k]),
                    all@ == old_all + tree@.take(j as int),
                    plan_inside(grid, all@),
                    all@.no_duplicates(),
                decreases tree@.len() - j,
            {
                let e = tree[j];
                let ghost before = all@;
                all.push(e);
                proof {
                    assert(is_candidate(board, net, tree@[j as int]));
                    assert(owner_at(grid.pads@, e.2.spec_start()) is Some);
                    assert(owner_at(grid.pads@, e.2.spec_end()) is Some);
                    assert(tree@.take(j + 1) =~= tree@.take(j as int).push(e));
                    assert(all@ =~= old_all + tree@.take(j + 1));
                    assert forall|a: int| 0 <= a < before.len() implies before[a] != e by {
                        if a < old_all.len() {
                            assert(old_all.contains(before[a]));
                        } else {
                            assert(before[a] == tree@[a - old_all.len()]);
                        }
                    }
                    assert forall|k: int| 0 <= k < all@.len() implies pair_inside(
                        grid,
                        (#[trigger] all@[k]).2,
                    ) by {
                        if k < before.len() {
                            assert(all@[k] == before[k]);
                        }
                    }
                }
                j += 1;
            }
            proof {
                assert(tree@.take(tree@.len() as int) =~= tree@);
            }
        } else {
            proof {
                if has_two_pads(board, net) {
                    let (p, q) = choose|p: Point, q: Point| #[trigger]
                        board.is_pad(net, p) && #[trigger] board.is_pad(net, q) && p != q;
                    assert(p.spec_precedes(q) || q.spec_precedes(p));
                    assert(joined_in_order(offered, p, q) || joined_in_order(offered, q, p));
                }
                trees = trees.push(Seq::empty());
            }
        }
        proof {
            let added = trees[i as int];
            assert(all@ =~= old_all + added);
            assert forall|k: int| 0 <= k < i + 1 implies is_net_tree(
                board,
                nets@[k],
                #[trigger] trees[k],
            ) by {
                if k < i {
                    assert(trees[k] == old_trees[k]);
                }
            }
            assert forall|k: int, j: int| 0 <= k < i + 1 && 0 <= j < trees[k].len() implies (
            #[trigger] trees[k][j]).1 == nets@[k] by {
                if k < i {
                    assert(trees[k] == old_trees[k]);
                } else {
                    assert(is_candidate(board, net, added[j]));
                }
            }
            assert forall|e: WeightedPair|
                all@.contains(e) <==> exists|k: int| 0 <= k < i + 1 && (#[trigger] trees[k]).contains(
                    e,
                ) by {
                if old_all.contains(e) {
                    let a = choose|a: int| 0 <= a < old_all.len() && old_all[a] == e;
                    assert(all@[a] == e);
                    let k = choose|k: int| 0 <= k < i && (#[trigger] old_trees[k]).contains(e);
                    assert(trees[k] == old_trees[k]);
                }
                if added.contains(e) {
                    let a = choose|a: int| 0 <= a < added.len() && added[a] == e;
                    assert(all@[old_all.len() + a] == e);
                    assert(trees[i as int].contains(e));
                }
                if all@.contains(e) {
                    let a = choose|a: int| 0 <= a < all@.len() && all@[a] == e;
                    if a < old_all.len() {
                        assert(old_all[a] == e);
                    } else {
                        assert(added[a - old_all.len()] == e);
                    }
                }
                if exists|k: int| 0 <= k < i + 1 && (#[trigger] trees[k]).contains(e) {
                    let k = choose|k: int| 0 <= k < i + 1 && (#[trigger] trees[k]).contains(e);
                    if k < i {
                        assert(trees[k] == old_trees[k]);
                        assert(old_all.contains(e));
                    }
                }
            }
        }
        i += 1;
    }
    let plan = sort_plan(all);
    proof {
        assert forall|k: int| 0 <= k < plan@.len() implies pair_inside(grid, (#[trigger] plan@[k]).2) by {
            assert(plan@.contains(plan@[k]));
            let a = choose|a: int| 0 <= a < all@.len() && all@[a] == plan@[k];
            assert(pair_inside(grid, all@[a].2));
        }
        assert forall|net: Net| #[trigger] planned_for(board, plan@, net) by {
            if nets@.contains(net) {
                let k = choose|k: int| 0 <= k < nets@.len() && nets@[k] == net;
                let tree = trees[k];
                assert(is_net_tree(board, net, tree));
                assert forall|e: WeightedPair| (plan@.contains(e) && e.1 == net) <==> tree.contains(e) by {
                    if tree.contains(e) {
                        let j = choose|j: int| 0 <= j < tree.len() && tree[j] == e;
                        assert(trees[k][j].1 == nets@[k]);
                        assert(all@.contains(e));
                    }
                    if plan@.contains(e) && e.1 == net {
                        assert(all@.contains(e));
                        let k2 = choose|k2: int| 0 <= k2 < nets@.len() && (#[trigger] trees[k2]).contains(e);
                        let j = choose|j: int| 0 <= j < trees[k2].len() && trees[k2][j] == e;
                        assert(trees[k2][j].1 == nets@[k2]);
                        assert(k2 == k);
                    }
                }
            } else {
                let tree = Seq::<WeightedPair>::empty();
                if has_two_pads(board, net) {
                    let (p, q) = choose|p: Point, q: Point| #[trigger]
                        board.is_pad(net, p) && #[trigger] board.is_pad(net, q) && p != q;
                    assert(owner_at(grid.pads@, p) == Some(net));
                }
                assert(is_net_tree(board, net, tree));
                assert forall|e: WeightedPair| (plan@.contains(e) && e.1 == net) <==> tree.contains(e) by {
                    if plan@.contains(e) && e.1 == net {
                        assert(all@.contains(e));
                        let k2 = choose|k2: int| 0 <= k2 < nets@.len() && (#[trigger] trees[k2]).contains(e);
                        let j = choose|j: int| 0 <= j < trees[k2].len() && trees[k2][j] == e;
                        assert(trees[k2][j].1 == nets@[k2]);
                    }
                }
            }
        }
    }
    plan
}

/// What `naive_route` returns for the board: with the connections of every
/// net planned, the board without its old traces and with each connection of
/// the plan traced; or the report that a connection has no path.
pub open spec fn routed(board: Board, res: Result<Grid, String>) -> bool {
    exists|plan: Seq<WeightedPair>| #[trigger]
        is_plan(board.cleared(), plan) && match res {
            Ok(after) => {
                &&& after.wf()
                &&& board.cleared().route(plan) == Some(after@)
                &&& after@.apart()
                &&& after@.joins_all(plan, plan.len() as int)
            },
            Err(e) => board.cleared().route(plan) is None && e@ == no_path_message(),
        }
}

/// Routes the board: takes its traces off, joins the pads of every net by
/// the connections of a spanning tree, and traces these shortest first, each
/// around the pads of the other nets and the traces before it. Where one of
/// them has no path, no board comes back.
pub fn naive_route(unrouted_grid: Grid) -> (res: Result<Grid, String>)
    requires
        unrouted_grid.wf(),
        unrouted_grid.width * unrouted_grid.height <= usize::MAX,
    ensures
        routed(unrouted_grid@, res),
{
    let ghost board = unrouted_grid@;
    let mut grid = unrouted_grid;
    grid.traces = new_table(grid.width, grid.height, None);
    grid.diagonal_traces = new_table(grid.width, grid.height, None);
    proof {
        assert(grid@.traces =~= Map::<Point, Net>::empty());
        assert(grid@.diagonal_traces =~= Map::<Point, Net>::empty());
        assert(grid@ == board.cleared());
    }
    let plan = plan_routes(&grid);
    proof {
        assert forall|i: int| 0 <= i < plan@.len() implies grid@.pads.contains_key(
            (#[trigger] plan@[i]).2.spec_start(),
        ) && grid@.pads[plan@[i].2.spec_start()] == plan@[i].1 by {
            lemma_plan_entry_candidate(grid@, plan@, i);
        }
    }
    route_planned(grid, &plan)
}

/// Every connection of a plan is a connection that its net may use.
pub proof fn lemma_plan_entry_candidate(board: Board, plan: Seq<WeightedPair>, i: int)
    requires
        is_plan(board, plan),
        0 <= i < plan.len(),
    ensures
        is_candidate(board, plan[i].1, plan[i]),
{
    let net = plan[i].1;
    assert(planned_for(board, plan, net));
    let tree = choose|tree: Seq<WeightedPair>| #[trigger]
        is_net_tree(board, net, tree) && forall|e: WeightedPair|
            (plan.contains(e) && e.1 == net) <==> tree.contains(e);
    assert(plan.contains(plan[i]));
    assert(tree.contains(plan[i]));
    let j = choose|j: int| 0 <= j < tree.len() && tree[j] == plan[i];
    let edges = choose|edges: Seq<WeightedPair>| #[trigger]
        are_candidates(board, net, edges) && edges.len() >= 1 && is_prim_tree(edges, tree);
    assert forall|m: int| 0 <= m < edges.len() implies (#[trigger] edges[m]).1 == edges[0].1 by {
        assert(is_candidate(board, net, edges[m]));
        assert(is_candidate(board, net, edges[0]));
    }
    lemma_tree_of_edges(edges, tree, j);
    let m = choose|m: int| 0 <= m < edges.len() && edges[m] == tree[j];
    assert(is_candidate(board, net, edges[m]));
}

/// Tracing the connections of a plan leaves the board and its pads as they
/// are, and gives every cell that it traces to the net of one of the
/// connections.
pub proof fn lemma_route_owners(board: Board, plan: Seq<WeightedPair>, after: Board)
    requires
        board.route(plan) == Some(after),
    ensures
        after.width == board.width,
        after.height == board.height,
        after.pads == board.pads,
        forall|p: Point| #[trigger]
            after.traces.contains_key(p) ==> (board.traces.contains_key(p) && board.traces[p]
                == after.traces[p]) || exists|i: int|
                0 <= i < plan.len() && (#[trigger] plan[i]).1 == after.traces[p],
    decreases plan.len(),
{
    if plan.len() > 0 {
        let shorter = plan.drop_last();
        let mid = board.route(shorter).unwrap();
        lemma_route_owners(board, shorter, mid);
        assert forall|p: Point| #[trigger] after.traces.contains_key(p) implies (board.traces.contains_key(
            p,
        ) && board.traces[p] == after.traces[p]) || exists|i: int|
            0 <= i < plan.len() && (#[trigger] plan[i]).1 == after.traces[p] by {
            let maze = mid.maze(plan.last().1, plan.last().2);
            if maze.shortest_route().contains(p) {
                assert(plan[plan.len() - 1].1 == after.traces[p]);
            } else {
                assert(mid.traces.contains_key(p));
                if !(board.traces.contains_key(p) && board.traces[p] == mid.traces[p]) {
                    let i = choose|i: int| 0 <= i < shorter.len() && (#[trigger] shorter[i]).1 == mid.traces[p];
                    assert(plan[i] == shorter[i]);
                }
            }
        }
    }
}

/// The net of every connection of a plan has a pad on the board.
pub proof fn lemma_plan_net_has_pad(board: Board, plan: Seq<WeightedPair>, i: int) -> (p: Point)
    requires
        is_plan(board, plan),
        0 <= i < plan.len(),
    ensures
        board.is_pad(plan[i].1, p),
{
    let net = plan[i].1;
    assert(planned_for(board, plan, net));
    let tree = choose|tree: Seq<WeightedPair>| #[trigger]
        is_net_tree(board, net, tree) && forall|e: WeightedPair|
            (plan.contains(e) && e.1 == net) <==> tree.contains(e);
    assert(plan.contains(plan[i]));
    assert(tree.contains(plan[i]));
    assert(has_two_pads(board, net));
    let (p, q) = choose|p: Point, q: Point| #[trigger]
        board.is_pad(net, p) && #[trigger] board.is_pad(net, q) && p != q;
    p
}

/// Two connections that each come before the other are one connection.
pub proof fn lemma_plan_le_antisymmetric(a: WeightedPair, b: WeightedPair)
    requires
        plan_le(a, b),
        plan_le(b, a),
    ensures
        a == b,
{
    if a.0 is Some && b.0 is Some {
        if weight_lt(a.0, b.0) || weight_lt(b.0, a.0) {
            Length::lemma_le_antisymmetric(a.0.unwrap()@, b.0.unwrap()@);
        }
    }
    a.2.lemma_ends_determine(b.2);
}

/// Two lists of the connections that a net may use hold the same connections.
pub proof fn lemma_candidates_same(board: Board, net: Net, a: Seq<WeightedPair>, b: Seq<WeightedPair>)
    requires
        are_candidates(board, net, a),
        are_candidates(board, net, b),
    ensures
        forall|e: WeightedPair| a.contains(e) ==> b.contains(e),
{
    assert forall|e: WeightedPair| a.contains(e) implies b.contains(e) by {
        let i = choose|i: int| 0 <= i < a.len() && a[i] == e;
        assert(is_candidate(board, net, a[i]));
        let p = e.2.spec_start();
        let q = e.2.spec_end();
        assert(joined_in_order(b, p, q));
        let j = choose|j: int| 0 <= j < b.len() && (#[trigger] b[j]).2.spec_start() == p && b[j].2.spec_end() == q;
        assert(is_candidate(board, net, b[j]));
        e.2.lemma_ends_determine(b[j].2);
        let maze = board.bare_maze(net, e.2);
        assert(weighs(maze, e.0));
        assert(weighs(maze, b[j].0));
        if e.0 is Some {
            assert(e.0.unwrap()@ == b[j].0.unwrap()@);
        }
        assert(b[j] == e);
    }
}

/// The tree of a net grows in one way: two trees of the connections that
/// the net may use are equal up to the length of the shorter.
pub proof fn lemma_trees_agree(
    board: Board,
    net: Net,
    a: Seq<WeightedPair>,
    b: Seq<WeightedPair>,
    root: Point,
    ta: Seq<WeightedPair>,
    tb: Seq<WeightedPair>,
    k: int,
)
    requires
        are_candidates(board, net, a),
        are_candidates(board, net, b),
        a.len() >= 1,
        b.len() >= 1,
        grown_from(a, root, ta),
        grown_from(b, root, tb),
        0 <= k <= ta.len(),
        k <= tb.len(),
    ensures
        forall|j: int| 0 <= j < k ==> ta[j] == tb[j],
        tree_points(root, ta, k) == tree_points(root, tb, k),
    decreases k,
{
    if k == 0 {
        assert(tree_points(root, ta, 0) =~= tree_points(root, tb, 0));
    } else {
        lemma_trees_agree(board, net, a, b, root, ta, tb, k - 1);
        let j = k - 1;
        let reached = tree_points(root, ta, j);
        assert(grows(a, root, ta, j));
        assert(grows(b, root, tb, j));
        let (na, oa) = choose|n: Point, o: Point| #[trigger] grows_at(a, root, ta, j, n, o);
        let (nb, ob) = choose|n: Point, o: Point| #[trigger] grows_at(b, root, tb, j, n, o);
        lemma_candidates_same(board, net, a, b);
        lemma_candidates_same(board, net, b, a);
        let ia = choose|i: int| 0 <= i < a.len() && (#[trigger] a[i]).0 == ta[j].0 && a[i].2 == ta[j].2;
        let ib = choose|i: int| 0 <= i < b.len() && (#[trigger] b[i]).0 == tb[j].0 && b[i].2 == tb[j].2;
        assert(is_candidate(board, net, a[ia]));
        assert(is_candidate(board, net, b[ib]));
        assert(is_candidate(board, net, a[0]));
        assert(is_candidate(board, net, b[0]));
        assert(a[ia] == ta[j]);
        assert(b[ib] == tb[j]);
        assert(b.contains(ta[j]));
        assert(a.contains(tb[j]));
        let ja = choose|i: int| 0 <= i < b.len() && b[i] == ta[j];
        let jb = choose|i: int| 0 <= i < a.len() && a[i] == tb[j];
        assert(crosses(reached, b[ja].2, na, oa));
        assert(crosses(reached, a[jb].2, nb, ob));
        assert(key_le(tb[j].0, nb, ob, ta[j].0, na, oa));
        assert(key_le(ta[j].0, na, oa, tb[j].0, nb, ob));
        if ta[j].0 is Some && tb[j].0 is Some {
            if weight_lt(ta[j].0, tb[j].0) || weight_lt(tb[j].0, ta[j].0) {
                Length::lemma_le_antisymmetric(ta[j].0.unwrap()@, tb[j].0.unwrap()@);
            }
        }
        assert(na == nb && oa == ob);
        ta[j].2.lemma_ends_determine(tb[j].2);
        assert(ta[j] == tb[j]);
        assert forall|p: Point| tree_points(root, ta, k).contains(p) <==> tree_points(root, tb, k).contains(
            p,
        ) by {
            if tree_points(root, ta, k).contains(p) && p != root {
                let i = choose|i: int|
                    0 <= i < k && ((#[trigger] ta[i]).2.spec_start() == p || ta[i].2.spec_end() == p);
                assert(ta[i] == tb[i]);
            }
            if tree_points(root, tb, k).contains(p) && p != root {
                let i = choose|i: int|
                    0 <= i < k && ((#[trigger] tb[i]).2.spec_start() == p || tb[i].2.spec_end() == p);
                assert(ta[i] == tb[i]);
            }
        }
        assert(tree_points(root, ta, k) =~= tree_points(root, tb, k));
    }
}

/// The pads of a net are joined by one tree only.
pub proof fn lemma_net_tree_unique(board: Board, net: Net, ta: Seq<WeightedPair>, tb: Seq<WeightedPair>)
    requires
        is_net_tree(board, net, ta),
        is_net_tree(board, net, tb),
    ensures
        ta == tb,
{
    if has_two_pads(board, net) {
        let a = choose|edges: Seq<WeightedPair>| #[trigger]
            are_candidates(board, net, edges) && edges.len() >= 1 && is_prim_tree(edges, ta);
        let b = choose|edges: Seq<WeightedPair>| #[trigger]
            are_candidates(board, net, edges) && edges.len() >= 1 && is_prim_tree(edges, tb);
        let ra = choose|root: Point| is_least(endpoints(a), root) && #[trigger] grown_from(a, root, ta);
        let rb = choose|root: Point| is_least(endpoints(b), root) && #[trigger] grown_from(b, root, tb);
        lemma_candidates_same(board, net, a, b);
        lemma_candidates_same(board, net, b, a);
        assert forall|p: Point| endpoints(a).contains(p) <==> endpoints(b).contains(p) by {
            if endpoints(a).contains(p) {
                let i = choose|i: int|
                    0 <= i < a.len() && ((#[trigger] a[i]).2.spec_start() == p || a[i].2.spec_end() == p);
                assert(b.contains(a[i]));
                let j = choose|j: int| 0 <= j < b.len() && b[j] == a[i];
                assert(b[j].2.spec_start() == p || b[j].2.spec_end() == p);
            }
            if endpoints(b).contains(p) {
                let i = choose|i: int|
                    0 <= i < b.len() && ((#[trigger] b[i]).2.spec_start() == p || b[i].2.spec_end() == p);
                assert(a.contains(b[i]));
                let j = choose|j: int| 0 <= j < a.len() && a[j] == b[i];
                assert(a[j].2.spec_start() == p || a[j].2.spec_end() == p);
            }
        }
        assert(ra == rb);
        let n = if ta.len() < tb.len() { ta.len() as int } else { tb.len() as int };
        lemma_trees_agree(board, net, a, b, ra, ta, tb, n);
        if ta.len() < tb.len() {
            // The next connection of the longer tree leads out of the shorter.
            assert(grows(b, rb, tb, n));
            let (nb, ob) = choose|x: Point, o: Point| #[trigger] grows_at(b, rb, tb, n, x, o);
            let ib = choose|i: int| 0 <= i < b.len() && (#[trigger] b[i]).0 == tb[n].0 && b[i].2 == tb[n].2;
            assert(is_candidate(board, net, b[ib]));
            assert(is_candidate(board, net, b[0]));
            assert(b[ib] == tb[n]);
            assert(a.contains(tb[n]));
            let j = choose|j: int| 0 <= j < a.len() && a[j] == tb[n];
            assert(crosses(tree_points(ra, ta, ta.len() as int), a[j].2, nb, ob));
            assert(false);
        }
        if tb.len() < ta.len() {
            assert(grows(a, ra, ta, n));
            let (na, oa) = choose|x: Point, o: Point| #[trigger] grows_at(a, ra, ta, n, x, o);
            let ia = choose|i: int| 0 <= i < a.len() && (#[trigger] a[i]).0 == ta[n].0 && a[i].2 == ta[n].2;
            assert(is_candidate(board, net, a[ia]));
            assert(is_candidate(board, net, a[0]));
            assert(a[ia] == ta[n]);
            assert(b.contains(ta[n]));
            let j = choose|j: int| 0 <= j < b.len() && b[j] == ta[n];
            assert(crosses(tree_points(rb, tb, tb.len() as int), b[j].2, na, oa));
            assert(false);
        }
        assert(ta =~= tb);
    } else {
        assert(ta =~= tb);
    }
}

/// Two lists in the order of tracing, without a connection twice, that hold
/// the same connections are one list.
pub proof fn lemma_in_order_unique(a: Seq<WeightedPair>, b: Seq<WeightedPair>)
    requires
        in_order(a),
        in_order(b),
        a.no_duplicates(),
        b.no_duplicates(),
        forall|e: WeightedPair| a.contains(e) <==> b.contains(e),
    ensures
        a == b,
    decreases a.len(),
{
    a.unique_seq_to_set();
    b.unique_seq_to_set();
    assert(a.to_set() =~= b.to_set());
    if a.len() > 0 {
        assert(a.contains(a[0]));
        assert(b.contains(b[0]));
        let i = choose|i: int| 0 <= i < b.len() && b[i] == a[0];
        let j = choose|j: int| 0 <= j < a.len() && a[j] == b[0];
        if i > 0 {
            assert(plan_le(b[0], b[i]));
        }
        if j > 0 {
            assert(plan_le(a[0], a[j]));
        }
        if a[0] != b[0] {
            lemma_plan_le_antisymmetric(a[0], b[0]);
        }
        let ra = a.drop_first();
        let rb = b.drop_first();
        assert forall|e: WeightedPair| ra.contains(e) <==> rb.contains(e) by {
            if ra.contains(e) {
                let k = choose|k: int| 0 <= k < ra.len() && ra[k] == e;
                assert(a[k + 1] == e);
                assert(a.contains(e));
                let m = choose|m: int| 0 <= m < b.len() && b[m] == e;
                assert(m != 0);
                assert(rb[m - 1] == e);
            }
            if rb.contains(e) {
                let k = choose|k: int| 0 <= k < rb.len() && rb[k] == e;
                assert(b[k + 1] == e);
                assert(b.contains(e));
                let m = choose|m: int| 0 <= m < a.len() && a[m] == e;
                assert(m != 0);
                assert(ra[m - 1] == e);
            }
        }
        assert forall|x: int, y: int| 0 <= x < y < ra.len() implies plan_le(ra[x], ra[y]) by {
            assert(plan_le(a[x + 1], a[y + 1]));
        }
        assert forall|x: int, y: int| 0 <= x < y < rb.len() implies plan_le(rb[x], rb[y]) by {
            assert(plan_le(b[x + 1], b[y + 1]));
        }
        lemma_in_order_unique(ra, rb);
        assert(a =~= seq![a[0]] + ra);
        assert(b =~= seq![b[0]] + rb);
    } else {
        assert(a =~= b);
    }
}

/// A board has one plan.
pub proof fn lemma_plan_unique(board: Board, a: Seq<WeightedPair>, b: Seq<WeightedPair>)
    requires
        is_plan(board, a),
        is_plan(board, b),
    ensures
        a == b,
{
    assert forall|e: WeightedPair| a.contains(e) <==> b.contains(e) by {
        let net = e.1;
        assert(planned_for(board, a, net));
        assert(planned_for(board, b, net));
        let ta = choose|tree: Seq<WeightedPair>| #[trigger]
            is_net_tree(board, net, tree) && forall|x: WeightedPair|
                (a.contains(x) && x.1 == net) <==> tree.contains(x);
        let tb = choose|tree: Seq<WeightedPair>| #[trigger]
            is_net_tree(board, net, tree) && forall|x: WeightedPair|
                (b.contains(x) && x.1 == net) <==> tree.contains(x);
        lemma_net_tree_unique(board, net, ta, tb);
    }
    lemma_in_order_unique(a, b);
}

/// Routing one board twice ends alike: both times a connection has no
/// path, or both times the same traces are laid.
pub proof fn lemma_route_deterministic(board: Board, first: Result<Grid, String>, second: Result<Grid, String>)
    requires
        routed(board, first),
        routed(board, second),
    ensures
        first is Ok <==> second is Ok,
        first is Ok ==> first.unwrap()@ == second.unwrap()@,
        first is Err ==> first.unwrap_err()@ == second.unwrap_err()@,
{
    let a = choose|plan: Seq<WeightedPair>| #[trigger]
        is_plan(board.cleared(), plan) && match first {
            Ok(after) => {
                &&& after.wf()
                &&& board.cleared().route(plan) == Some(after@)
                &&& after@.apart()
                &&& after@.joins_all(plan, plan.len() as int)
            },
            Err(e) => board.cleared().route(plan) is None && e@ == no_path_message(),
        };
    let b = choose|plan: Seq<WeightedPair>| #[trigger]
        is_plan(board.cleared(), plan) && match second {
            Ok(after) => {
                &&& after.wf()
                &&& board.cleared().route(plan) == Some(after@)
                &&& after@.apart()
                &&& after@.joins_all(plan, plan.len() as int)
            },
            Err(e) => board.cleared().route(plan) is None && e@ == no_path_message(),
        };
    lemma_plan_unique(board.cleared(), a, b);
}

/// A trace that leads from `p` to `q` leads from `q` to `p`.
pub proof fn lemma_linked_back(board: Board, net: Net, p: Point, q: Point)
    requires
        board.linked(net, p, q),
    ensures
        board.linked(net, q, p),
{
    let cells = choose|cells: Seq<Point>| #[trigger] board.is_run(net, cells, p, q);
    let n = cells.len() as int;
    let back = Seq::new(cells.len(), |i: int| cells[n - 1 - i]);
    assert forall|i: int| 0 < i < back.len() implies adjacent(back[i - 1], #[trigger] back[i]) by {
        assert(adjacent(cells[n - 1 - i], cells[n - i]));
    }
    assert forall|i: int| 0 <= i < back.len() implies board.traces.contains_key(#[trigger] back[i])
        && board.traces[back[i]] == net by {
        assert(board.traces.contains_key(cells[n - 1 - i]));
    }
    assert(board.is_run(net, back, q, p));
}

/// A trace that leads from `p` to `q` and from `q` to `r` leads from `p` to `r`.
pub proof fn lemma_linked_on(board: Board, net: Net, p: Point, q: Point, r: Point)
    requires
        board.linked(net, p, q),
        board.linked(net, q, r),
    ensures
        board.linked(net, p, r),
{
    let a = choose|cells: Seq<Point>| #[trigger] board.is_run(net, cells, p, q);
    let b = choose|cells: Seq<Point>| #[trigger] board.is_run(net, cells, q, r);
    let whole = a + b.drop_first();
    assert forall|i: int| 0 < i < whole.len() implies adjacent(whole[i - 1], #[trigger] whole[i]) by {
        if i < a.len() {
            assert(adjacent(a[i - 1], a[i]));
        } else {
            let j = i - a.len() + 1;
            assert(whole[i] == b[j]);
            assert(adjacent(b[j - 1], b[j]));
            if i == a.len() {
                assert(whole[i - 1] == a[a.len() - 1]);
            } else {
                assert(whole[i - 1] == b[j - 1]);
            }
        }
    }
    assert forall|i: int| 0 <= i < whole.len() implies board.traces.contains_key(#[trigger] whole[i])
        && board.traces[whole[i]] == net by {
        if i < a.len() {
            assert(board.traces.contains_key(a[i]));
        } else {
            assert(board.traces.contains_key(b[i - a.len() + 1]));
        }
    }
    if b.len() == 1 {
        assert(whole =~= a);
    }
    assert(whole.last() == r);
    assert(board.is_run(net, whole, p, r));
}

/// Where every connection of a tree is traced, the trace leads from the
/// root of the tree to each of its pads.
pub proof fn lemma_tree_linked(
    board: Board,
    net: Net,
    edges: Seq<WeightedPair>,
    root: Point,
    tree: Seq<WeightedPair>,
    k: int,
    x: Point,
)
    requires
        edges.len() >= 1,
        forall|i: int| 0 <= i < edges.len() ==> (#[trigger] edges[i]).2.spec_start() != edges[i].2.spec_end(),
        is_least(endpoints(edges), root),
        grown_from(edges, root, tree),
        forall|i: int| 0 <= i < tree.len() ==> board.joined(net, (#[trigger] tree[i]).2),
        0 <= k <= tree.len(),
        tree_points(root, tree, k).contains(x),
    ensures
        board.linked(net, root, x),
    decreases k,
{
    if x == root {
        if tree.len() == 0 {
            lemma_root_has_crossing(edges, Seq::empty(), root);
            assert(tree =~= Seq::<WeightedPair>::empty());
            assert(false);
        }
        assert(grows(edges, root, tree, 0));
        let (n, o) = choose|n: Point, o: Point| #[trigger] grows_at(edges, root, tree, 0, n, o);
        assert(o == root);
        assert(board.joined(net, tree[0].2));
        let cells = choose|cells: Seq<Point>| #[trigger]
            board.is_run(net, cells, tree[0].2.spec_start(), tree[0].2.spec_end());
        let at = if tree[0].2.spec_start() == root { 0 } else { cells.len() - 1 };
        assert(cells[at] == root);
        assert(board.traces.contains_key(cells[at]));
        assert(board.is_run(net, seq![root], root, root));
    } else {
        let i = choose|i: int|
            0 <= i < k && ((#[trigger] tree[i]).2.spec_start() == x || tree[i].2.spec_end() == x);
        assert(grows(edges, root, tree, i));
        let (n, o) = choose|n: Point, o: Point| #[trigger] grows_at(edges, root, tree, i, n, o);
        lemma_tree_linked(board, net, edges, root, tree, i, o);
        if x != o {
            assert(x == n);
            assert(board.joined(net, tree[i].2));
            if tree[i].2.spec_start() == o {
                lemma_linked_on(board, net, root, o, x);
            } else {
                lemma_linked_back(board, net, x, o);
                lemma_linked_on(board, net, root, o, x);
            }
        }
    }
}

/// On a routed board, the trace of a net leads from each of its pads to
/// each other.
pub proof fn lemma_pads_linked(board: Board, plan: Seq<WeightedPair>, after: Board, net: Net, p: Point, q: Point)
    requires
        is_plan(board, plan),
        after.joins_all(plan, plan.len() as int),
        board.is_pad(net, p),
        board.is_pad(net, q),
        p != q,
    ensures
        after.linked(net, p, q),
{
    assert(planned_for(board, plan, net));
    let tree = choose|tree: Seq<WeightedPair>| #[trigger]
        is_net_tree(board, net, tree) && forall|e: WeightedPair|
            (plan.contains(e) && e.1 == net) <==> tree.contains(e);
    assert(has_two_pads(board, net));
    let edges = choose|edges: Seq<WeightedPair>| #[trigger]
        are_candidates(board, net, edges) && edges.len() >= 1 && is_prim_tree(edges, tree);
    let root = choose|root: Point| is_least(endpoints(edges), root) && #[trigger] grown_from(edges, root, tree);
    assert forall|i: int| 0 <= i < edges.len() implies (#[trigger] edges[i]).2.spec_start()
        != edges[i].2.spec_end() by {
        assert(is_candidate(board, net, edges[i]));
    }
    assert forall|i: int| 0 <= i < tree.len() implies after.joined(net, (#[trigger] tree[i]).2) by {
        assert(tree.contains(tree[i]));
        assert(plan.contains(tree[i]) && tree[i].1 == net);
        let m = choose|m: int| 0 <= m < plan.len() && plan[m] == tree[i];
        assert(after.joined(plan[m].1, plan[m].2));
    }
    let whole = tree_points(root, tree, tree.len() as int);
    assert forall|x: Point| board.is_pad(net, x) implies whole.contains(x) by {
        if !whole.contains(x) {
            assert(x != root);
            // The root is a pad of the net, and some connection joins it with `x`.
            let r = choose|i: int|
                0 <= i < edges.len() && ((#[trigger] edges[i]).2.spec_start() == root
                    || edges[i].2.spec_end() == root);
            assert(is_candidate(board, net, edges[r]));
            assert(board.is_pad(net, root));
            let (lo, hi) = if root.spec_precedes(x) { (root, x) } else { (x, root) };
            assert(board.is_pad(net, lo) && board.is_pad(net, hi) && lo.spec_precedes(hi));
            assert(joined_in_order(edges, lo, hi));
            let i = choose|i: int|
                0 <= i < edges.len() && (#[trigger] edges[i]).2.spec_start() == lo && edges[i].2.spec_end()
                    == hi;
            assert(crosses(whole, edges[i].2, x, root));
        }
    }
    lemma_tree_linked(after, net, edges, root, tree, tree.len() as int, p);
    lemma_tree_linked(after, net, edges, root, tree, tree.len() as int, q);
    lemma_linked_back(after, net, root, p);
    lemma_linked_on(after, net, p, root, q);
}

} // verus!
