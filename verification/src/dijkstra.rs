//! Shortest paths on the board, by straight steps of length 1 and diagonal
//! steps of length √2, around blocked cells and blocked diagonals.

use vstd::prelude::*;
use crate::cost::{Length, PathCost};
use crate::grid::Point;
use crate::proba_grid::{Direction, TracePath};
use crate::table::{is_table, new_table};

verus! {

/// One search: the board, what is blocked on it, and the two cells to join.
#[derive(Debug, Clone)]
pub struct DijkstraModel {
    pub width: usize,
    pub height: usize,
    /// Cells that no path may enter.
    pub obstacles: Vec<Point>,
    /// Top-left cells of the 2×2 blocks that no path may cross diagonally.
    pub diagonal_obstacles: Vec<Point>,
    pub start: Point,
    pub end: Point,
}

/// A path found by a search.
#[derive(Debug, Clone)]
pub struct DijkstraResult {
    pub start: Point,
    pub end: Point,
    /// The cells of the path, from `start` to `end`, and the blocks that it
    /// crosses diagonally.
    pub trace_path: TracePath,
    /// The steps of the path, from `start` to `end`.
    pub trace_directions: Vec<Direction>,
    /// The length of the path.
    pub distance: PathCost,
}

/// What a search is about, as contracts speak of it.
pub struct Maze {
    pub width: int,
    pub height: int,
    pub obstacles: Set<Point>,
    pub diagonal_obstacles: Set<Point>,
    pub start: Point,
    pub end: Point,
}

impl View for DijkstraModel {
    type V = Maze;

    open spec fn view(&self) -> Maze {
        Maze {
            width: self.width as int,
            height: self.height as int,
            obstacles: self.obstacles@.to_set(),
            diagonal_obstacles: self.diagonal_obstacles@.to_set(),
            start: self.start,
            end: self.end,
        }
    }
}

/// Two different cells that touch by a side or by a corner.
pub open spec fn adjacent(a: Point, b: Point) -> bool {
    &&& a != b
    &&& -1 <= a.x - b.x <= 1
    &&& -1 <= a.y - b.y <= 1
}

/// Two cells that differ in both coordinates.
pub open spec fn across(a: Point, b: Point) -> bool {
    a.x != b.x && a.y != b.y
}

/// The top-left cell of the block that holds both cells.
pub open spec fn corner(a: Point, b: Point) -> Point {
    Point { x: if a.x < b.x { a.x } else { b.x }, y: if a.y < b.y { a.y } else { b.y } }
}

/// The length of the step from `a` to `b`.
pub open spec fn step_length(a: Point, b: Point) -> Length {
    Length::step(across(a, b))
}

/// The length of the path through `cells`.
pub open spec fn route_length(cells: Seq<Point>) -> Length
    decreases cells.len(),
{
    if cells.len() <= 1 {
        Length::zero()
    } else {
        route_length(cells.drop_last()).plus(step_length(cells[cells.len() - 2], cells.last()))
    }
}

/// The eight steps, in the order in which a search tries them.
pub open spec fn spec_offset(i: int) -> Direction {
    if i == 0 {
        Direction { x: 0, y: -1i32 }
    } else if i == 1 {
        Direction { x: 0, y: 1 }
    } else if i == 2 {
        Direction { x: -1i32, y: 0 }
    } else if i == 3 {
        Direction { x: 1, y: 0 }
    } else if i == 4 {
        Direction { x: 1, y: 1 }
    } else if i == 5 {
        Direction { x: 1, y: -1i32 }
    } else if i == 6 {
        Direction { x: -1i32, y: 1 }
    } else {
        Direction { x: -1i32, y: -1i32 }
    }
}

/// The step from each cell to the next.
pub open spec fn directions_of(cells: Seq<Point>) -> Seq<Direction> {
    Seq::new(
        if cells.len() >= 1 { (cells.len() - 1) as nat } else { 0 },
        |i: int| Direction {
            x: (cells[i + 1].x - cells[i].x) as i32,
            y: (cells[i + 1].y - cells[i].y) as i32,
        },
    )
}

/// The blocks that the path through `cells` crosses diagonally, one entry for
/// each diagonal step, in the order of the steps.
pub open spec fn corners_of(cells: Seq<Point>) -> Seq<Point>
    decreases cells.len(),
{
    if cells.len() <= 1 {
        Seq::empty()
    } else if across(cells[cells.len() - 2], cells.last()) {
        corners_of(cells.drop_last()).push(corner(cells[cells.len() - 2], cells.last()))
    } else {
        corners_of(cells.drop_last())
    }
}

impl Maze {
    pub open spec fn inside(self, p: Point) -> bool {
        p.x < self.width && p.y < self.height
    }

    /// The cell `p` moved by `(dx, dy)`, if that is a cell of the board.
    pub open spec fn shifted(self, p: Point, dx: int, dy: int) -> Option<Point> {
        if 0 <= p.x + dx < self.width && 0 <= p.y + dy < self.height && p.x + dx <= usize::MAX
            && p.y + dy <= usize::MAX {
            Some(Point { x: (p.x + dx) as usize, y: (p.y + dy) as usize })
        } else {
            None
        }
    }

    /// Whether a path may step from `a` to `b`: both are cells of the board
    /// and touch, `b` is not blocked, and a step across a corner does not
    /// cross a blocked diagonal.
    pub open spec fn legal_step(self, a: Point, b: Point) -> bool {
        &&& self.inside(a)
        &&& self.inside(b)
        &&& adjacent(a, b)
        &&& !self.obstacles.contains(b)
        &&& across(a, b) ==> !self.diagonal_obstacles.contains(corner(a, b))
    }

    /// `cells` is a path of legal steps from the start to `target`.
    pub open spec fn is_route(self, cells: Seq<Point>, target: Point) -> bool {
        &&& cells.len() >= 1
        &&& cells[0] == self.start
        &&& cells.last() == target
        &&& forall|i: int| 0 < i < cells.len() ==> self.legal_step(cells[i - 1], #[trigger] cells[i])
    }

    pub open spec fn reachable(self, target: Point) -> bool {
        exists|cells: Seq<Point>| self.is_route(cells, target)
    }

    /// `k` is the length of a shortest path from the start to `target`.
    pub open spec fn is_distance(self, target: Point, k: Length) -> bool {
        &&& exists|cells: Seq<Point>| #[trigger] self.is_route(cells, target) && route_length(cells) == k
        &&& forall|cells: Seq<Point>| #[trigger] self.is_route(cells, target) ==> k.le(route_length(cells))
    }

    pub open spec fn has_distance(self, target: Point) -> bool {
        exists|k: Length| self.is_distance(target, k)
    }

    /// The length of a shortest path from the start to `target`, where there is one.
    pub open spec fn distance(self, target: Point) -> Length {
        choose|k: Length| self.is_distance(target, k)
    }

    /// A shortest path to `b` may come through `a`.
    pub open spec fn tight(self, a: Point, b: Point) -> bool {
        &&& self.legal_step(a, b)
        &&& self.has_distance(a)
        &&& self.distance(a).plus(step_length(a, b)) == self.distance(b)
    }

    /// A shortest path to `b` may end with the `i`-th of the eight steps.
    pub open spec fn tight_offset(self, b: Point, i: int) -> bool {
        let d = spec_offset(i);
        match self.shifted(b, -d.x, -d.y) {
            Some(a) => self.tight(a, b),
            None => false,
        }
    }

    /// The first of the eight steps, from the `i`-th on, with which a
    /// shortest path to `b` may end; 8 if there is none.
    pub open spec fn first_tight(self, b: Point, i: int) -> int
        decreases 8 - i,
    {
        if i >= 8 {
            8
        } else if self.tight_offset(b, i) {
            i
        } else {
            self.first_tight(b, i + 1)
        }
    }

    /// The cell before `b` on the chosen shortest path to `b`.
    pub open spec fn predecessor(self, b: Point) -> Point {
        let d = spec_offset(self.first_tight(b, 0));
        Point { x: (b.x - d.x) as usize, y: (b.y - d.y) as usize }
    }

    /// The chosen shortest path to `target`, at most `fuel` steps of it.
    pub open spec fn route_to(self, target: Point, fuel: nat) -> Seq<Point>
        decreases fuel,
    {
        if fuel == 0 || target == self.start {
            seq![target]
        } else {
            self.route_to(self.predecessor(target), (fuel - 1) as nat).push(target)
        }
    }

    /// The chosen shortest path from the start to the end: at each cell, from
    /// the end backwards, it comes by the first of the eight steps with which
    /// a shortest path may arrive.
    pub open spec fn shortest_route(self) -> Seq<Point> {
        self.route_to(self.end, self.distance(self.end).steps() as nat)
    }

    /// A cell has one distance at most.
    pub proof fn lemma_distance_unique(self, target: Point, k: Length)
        requires
            self.is_distance(target, k),
        ensures
            self.distance(target) == k,
            self.has_distance(target),
    {
        let d = self.distance(target);
        assert(self.is_distance(target, d));
        let c1 = choose|cells: Seq<Point>| #[trigger]
            self.is_route(cells, target) && route_length(cells) == k;
        let c2 = choose|cells: Seq<Point>| #[trigger]
            self.is_route(cells, target) && route_length(cells) == d;
        assert(k.le(route_length(c2)));
        assert(d.le(route_length(c1)));
        Length::lemma_le_antisymmetric(k, d);
    }
}

/// The length of a path counts one step for each cell after the first, and
/// no part of it is negative.
pub proof fn lemma_route_length_steps(cells: Seq<Point>)
    requires
        cells.len() >= 1,
    ensures
        route_length(cells).steps() == cells.len() - 1,
        route_length(cells).straight >= 0,
        route_length(cells).diagonal >= 0,
    decreases cells.len(),
{
    if cells.len() > 1 {
        lemma_route_length_steps(cells.drop_last());
    }
}

/// A path that goes on by one legal step is a path to the new cell.
pub proof fn lemma_route_extend(maze: Maze, cells: Seq<Point>, a: Point, b: Point)
    requires
        maze.is_route(cells, a),
        maze.legal_step(a, b),
    ensures
        maze.is_route(cells.push(b), b),
        route_length(cells.push(b)) == route_length(cells).plus(step_length(a, b)),
{
    let longer = cells.push(b);
    assert(longer.drop_last() =~= cells);
    assert forall|i: int| 0 < i < longer.len() implies maze.legal_step(
        longer[i - 1],
        #[trigger] longer[i],
    ) by {
        if i < cells.len() {
            assert(longer[i] == cells[i]);
        }
    }
}

/// A path without its last cell is a path to the cell before.
pub proof fn lemma_route_shorten(maze: Maze, cells: Seq<Point>, b: Point)
    requires
        maze.is_route(cells, b),
        cells.len() >= 2,
    ensures
        maze.is_route(cells.drop_last(), cells[cells.len() - 2]),
        maze.legal_step(cells[cells.len() - 2], b),
        route_length(cells) == route_length(cells.drop_last()).plus(
            step_length(cells[cells.len() - 2], b),
        ),
{
    let shorter = cells.drop_last();
    assert forall|i: int| 0 < i < shorter.len() implies maze.legal_step(
        shorter[i - 1],
        #[trigger] shorter[i],
    ) by {
        assert(shorter[i] == cells[i]);
    }
    assert(cells[cells.len() - 1] == b);
}

/// The `i`-th of the eight steps.
pub fn offset(i: usize) -> (d: Direction)
    requires
        i < 8,
    ensures
        d == spec_offset(i as int),
{
    if i == 0 {
        Direction { x: 0, y: -1 }
    } else if i == 1 {
        Direction { x: 0, y: 1 }
    } else if i == 2 {
        Direction { x: -1, y: 0 }
    } else if i == 3 {
        Direction { x: 1, y: 0 }
    } else if i == 4 {
        Direction { x: 1, y: 1 }
    } else if i == 5 {
        Direction { x: 1, y: -1 }
    } else if i == 6 {
        Direction { x: -1, y: 1 }
    } else {
        Direction { x: -1, y: -1 }
    }
}

/// Every cell that touches `a` lies one of the eight steps away.
pub proof fn lemma_adjacent_offset(a: Point, b: Point) -> (j: int)
    requires
        adjacent(a, b),
    ensures
        0 <= j < 8,
        b.x == a.x + spec_offset(j).x,
        b.y == a.y + spec_offset(j).y,
{
    let dx = b.x - a.x;
    let dy = b.y - a.y;
    if dx == 0 && dy == -1 {
        0
    } else if dx == 0 && dy == 1 {
        1
    } else if dx == -1 && dy == 0 {
        2
    } else if dx == 1 && dy == 0 {
        3
    } else if dx == 1 && dy == 1 {
        4
    } else if dx == 1 && dy == -1 {
        5
    } else if dx == -1 && dy == 1 {
        6
    } else {
        7
    }
}

/// `marks` tells of each cell of the board whether it is in `points`.
pub open spec fn marks_of(marks: Seq<Vec<bool>>, points: Set<Point>, width: int, height: int) -> bool {
    &&& is_table(marks, width as nat, height as nat)
    &&& forall|p: Point|
        p.x < width && p.y < height ==> marks[p.y as int]@[p.x as int] == #[trigger] points.contains(p)
}

/// A table that tells of each cell of the board whether it is in `points`.
pub fn mark_points(width: usize, height: usize, points: &Vec<Point>) -> (marks: Vec<Vec<bool>>)
    ensures
        marks_of(marks@, points@.to_set(), width as int, height as int),
{
    let mut marks = new_table(width, height, false);
    let mut i: usize = 0;
    while i < points.len()
        invariant
            i <= points.len(),
            is_table(marks@, width as nat, height as nat),
            forall|p: Point|
                p.x < width && p.y < height ==> marks@[p.y as int]@[p.x as int]
                    == #[trigger] points@.take(i as int).contains(p),
        decreases points.len() - i,
    {
        let q = points[i];
        let ghost before = points@.take(i as int);
        let ghost after = points@.take(i + 1);
        proof {
            assert(after =~= before.push(q));
            assert forall|p: Point| after.contains(p) <==> (before.contains(p) || p == q) by {
                if before.contains(p) {
                    let j = choose|j: int| 0 <= j < before.len() && before[j] == p;
                    assert(after[j] == p);
                }
                if p == q {
                    assert(after[i as int] == q);
                }
            }
        }
        if q.x < width && q.y < height {
            marks[q.y][q.x] = true;
        }
        i += 1;
    }
    proof {
        assert(points@.take(points.len() as int) =~= points@);
    }
    marks
}

pub open spec fn cost_at(dist: Seq<Vec<Option<PathCost>>>, p: Point) -> Option<PathCost> {
    dist[p.y as int]@[p.x as int]
}

pub open spec fn done_at(done: Seq<Vec<bool>>, p: Point) -> bool {
    done[p.y as int]@[p.x as int]
}

/// A cell that is not settled and has a tentative length.
pub open spec fn candidate(maze: Maze, dist: Seq<Vec<Option<PathCost>>>, done: Seq<Vec<bool>>, p: Point) -> bool {
    maze.inside(p) && !done_at(done, p) && cost_at(dist, p) is Some
}

/// Among the cells that are not settled and have a tentative length, one
/// whose length is least; `None` if there is no such cell.
fn select_min(
    width: usize,
    height: usize,
    dist: &Vec<Vec<Option<PathCost>>>,
    done: &Vec<Vec<bool>>,
    Ghost(maze): Ghost<Maze>,
) -> (best: Option<(Point, PathCost)>)
    requires
        maze.width == width,
        maze.height == height,
        is_table(dist@, width as nat, height as nat),
        is_table(done@, width as nat, height as nat),
    ensures
        match best {
            Some((u, k)) => {
                &&& candidate(maze, dist@, done@, u)
                &&& cost_at(dist@, u) == Some(k)
                &&& forall|p: Point| #[trigger]
                    candidate(maze, dist@, done@, p) ==> k@.le(cost_at(dist@, p).unwrap()@)
            },
            None => forall|p: Point| !#[trigger] candidate(maze, dist@, done@, p),
        },
{
    let mut best: Option<(Point, PathCost)> = None;
    let mut y: usize = 0;
    while y < height
        invariant
            y <= height,
            maze.width == width,
            maze.height == height,
            is_table(dist@, width as nat, height as nat),
            is_table(done@, width as nat, height as nat),
            match best {
                Some((u, k)) => {
                    &&& candidate(maze, dist@, done@, u)
                    &&& cost_at(dist@, u) == Some(k)
                    &&& forall|p: Point| #[trigger]
                        candidate(maze, dist@, done@, p) && p.y < y ==> k@.le(
                            cost_at(dist@, p).unwrap()@,
                        )
                },
                None => forall|p: Point| #[trigger] candidate(maze, dist@, done@, p) ==> p.y >= y,
            },
        decreases height - y,
    {
        let mut x: usize = 0;
        while x < width
            invariant
                x <= width,
                y < height,
                maze.width == width,
                maze.height == height,
                is_table(dist@, width as nat, height as nat),
                is_table(done@, width as nat, height as nat),
                match best {
                    Some((u, k)) => {
                        &&& candidate(maze, dist@, done@, u)
                        &&& cost_at(dist@, u) == Some(k)
                        &&& forall|p: Point| #[trigger]
                            candidate(maze, dist@, done@, p) && (p.y < y || (p.y == y && p.x < x))
                                ==> k@.le(cost_at(dist@, p).unwrap()@)
                    },
                    None => forall|p: Point| #[trigger]
                        candidate(maze, dist@, done@, p) ==> p.y > y || (p.y == y && p.x >= x),
                },
            decreases width - x,
        {
            if !done[y][x] {
                match dist[y][x] {
                    Some(k) => {
                        let here = Point { x, y };
                        match best {
                            Some((_, least)) => {
                                if k.lt(least) {
                                    proof {
                                        assert forall|p: Point| #[trigger]
                                            candidate(maze, dist@, done@, p) && (p.y < y || (p.y
                                                == y && p.x < x + 1)) implies k@.le(
                                            cost_at(dist@, p).unwrap()@,
                                        ) by {
                                            if p != here {
                                                Length::lemma_le_transitive(
                                                    k@,
                                                    least@,
                                                    cost_at(dist@, p).unwrap()@,
                                                );
                                            }
                                        }
                                    }
                                    best = Some((here, k));
                                } else {
                                    proof {
                                        Length::lemma_le_total(k@, least@);
                                    }
                                }
                            },
                            None => {
                                best = Some((here, k));
                            },
                        }
                    },
                    None => {},
                }
            }
            x += 1;
        }
        y += 1;
    }
    best
}

/// The tentative length of every cell is the length of a path to it.
pub open spec fn witnessed(
    maze: Maze,
    dist: Seq<Vec<Option<PathCost>>>,
    paths: Map<Point, Seq<Point>>,
) -> bool {
    forall|p: Point|
        maze.inside(p) && (#[trigger] cost_at(dist, p)) is Some ==> maze.is_route(paths[p], p)
            && route_length(paths[p]) == cost_at(dist, p).unwrap()@
}

/// No path to a settled cell is shorter than its length.
pub open spec fn settled_exact(
    maze: Maze,
    dist: Seq<Vec<Option<PathCost>>>,
    done: Seq<Vec<bool>>,
) -> bool {
    &&& forall|p: Point| maze.inside(p) && #[trigger] done_at(done, p) ==> cost_at(dist, p) is Some
    &&& forall|p: Point, cells: Seq<Point>|
        maze.inside(p) && #[trigger] done_at(done, p) && #[trigger] maze.is_route(cells, p)
            ==> cost_at(dist, p).unwrap()@.le(route_length(cells))
}

/// The tentative length of `v` is at most that of `s` and the step between them.
pub open spec fn edge_relaxed(dist: Seq<Vec<Option<PathCost>>>, s: Point, v: Point) -> bool {
    &&& cost_at(dist, v) is Some
    &&& cost_at(dist, v).unwrap()@.le(cost_at(dist, s).unwrap()@.plus(step_length(s, v)))
}

/// `v` lies one of the first `k` of the eight steps away from `s`.
pub open spec fn reached_by_offset(s: Point, v: Point, k: int) -> bool {
    exists|j: int|
        0 <= j < k && v.x == s.x + (#[trigger] spec_offset(j)).x && v.y == s.y + spec_offset(j).y
}

/// Every legal step out of a settled cell is relaxed; out of the cell `u`
/// that is being settled, the steps among the first `k` of the eight.
pub open spec fn relaxed(
    maze: Maze,
    dist: Seq<Vec<Option<PathCost>>>,
    done: Seq<Vec<bool>>,
    u: Option<Point>,
    k: int,
) -> bool {
    forall|s: Point, v: Point|
        maze.inside(s) && #[trigger] done_at(done, s) && #[trigger] maze.legal_step(s, v) && (u
            == Some(s) ==> reached_by_offset(s, v, k)) ==> edge_relaxed(dist, s, v)
}

/// No settled cell is farther than a cell that is not settled.
pub open spec fn ordered(maze: Maze, dist: Seq<Vec<Option<PathCost>>>, done: Seq<Vec<bool>>) -> bool {
    forall|s: Point, t: Point|
        maze.inside(s) && #[trigger] done_at(done, s) && #[trigger] candidate(maze, dist, done, t)
            ==> cost_at(dist, s).unwrap()@.le(cost_at(dist, t).unwrap()@)
}

/// No tentative length counts more steps than there are settled cells.
pub open spec fn bounded(maze: Maze, dist: Seq<Vec<Option<PathCost>>>, done: Seq<Vec<bool>>) -> bool {
    forall|p: Point|
        maze.inside(p) && (#[trigger] cost_at(dist, p)) is Some ==> cost_at(dist, p).unwrap()@.steps()
            <= crate::table::count_marks(done)
}

/// What holds of a search between two rounds.
#[verifier::opaque]
pub open spec fn search_inv(
    maze: Maze,
    dist: Seq<Vec<Option<PathCost>>>,
    done: Seq<Vec<bool>>,
    paths: Map<Point, Seq<Point>>,
) -> bool {
    &&& maze.inside(maze.start)
    &&& is_table(dist, maze.width as nat, maze.height as nat)
    &&& is_table(done, maze.width as nat, maze.height as nat)
    &&& witnessed(maze, dist, paths)
    &&& settled_exact(maze, dist, done)
    &&& relaxed(maze, dist, done, None, 8)
    &&& ordered(maze, dist, done)
    &&& bounded(maze, dist, done)
    &&& !done_at(done, maze.start) ==> cost_at(dist, maze.start) is Some && cost_at(
        dist,
        maze.start,
    ).unwrap()@ == Length::zero()
}

/// A path to a cell that is not settled is at least as long as the tentative
/// length of some cell that is not settled.
pub proof fn lemma_frontier(
    maze: Maze,
    dist: Seq<Vec<Option<PathCost>>>,
    done: Seq<Vec<bool>>,
    paths: Map<Point, Seq<Point>>,
    cells: Seq<Point>,
    v: Point,
) -> (t: Point)
    requires
        search_inv(maze, dist, done, paths),
        maze.is_route(cells, v),
        !done_at(done, v),
    ensures
        candidate(maze, dist, done, t),
        cost_at(dist, t).unwrap()@.le(route_length(cells)),
    decreases cells.len(),
{
    reveal(search_inv);
    if cells.len() == 1 {
        maze.start
    } else {
        let x = cells[cells.len() - 2];
        let shorter = cells.drop_last();
        lemma_route_shorten(maze, cells, v);
        lemma_route_length_steps(shorter);
        if done_at(done, x) {
            assert(maze.legal_step(x, v));
            assert(edge_relaxed(dist, x, v));
            assert(cost_at(dist, x).unwrap()@.le(route_length(shorter)));
            Length::lemma_le_transitive(
                cost_at(dist, v).unwrap()@,
                cost_at(dist, x).unwrap()@.plus(step_length(x, v)),
                route_length(cells),
            );
            v
        } else {
            let t = lemma_frontier(maze, dist, done, paths, shorter, x);
            Length::lemma_le_transitive(
                cost_at(dist, t).unwrap()@,
                route_length(shorter),
                route_length(cells),
            );
            t
        }
    }
}

/// What holds while the steps out of the cell `u` are relaxed: `u` is settled
/// at the length `cost_u`, and the first `k` of the eight steps are done.
#[verifier::opaque]
pub open spec fn settling_inv(
    maze: Maze,
    dist: Seq<Vec<Option<PathCost>>>,
    done: Seq<Vec<bool>>,
    paths: Map<Point, Seq<Point>>,
    u: Point,
    cost_u: PathCost,
    k: int,
) -> bool {
    &&& maze.inside(maze.start)
    &&& maze.inside(u)
    &&& is_table(dist, maze.width as nat, maze.height as nat)
    &&& is_table(done, maze.width as nat, maze.height as nat)
    &&& done_at(done, u)
    &&& cost_at(dist, u) == Some(cost_u)
    &&& witnessed(maze, dist, paths)
    &&& settled_exact(maze, dist, done)
    &&& relaxed(maze, dist, done, Some(u), k)
    &&& ordered(maze, dist, done)
    &&& bounded(maze, dist, done)
    &&& forall|s: Point|
        maze.inside(s) && #[trigger] done_at(done, s) ==> cost_at(dist, s).unwrap()@.le(cost_u@)
    &&& cost_u@.steps() + 1 <= crate::table::count_marks(done)
    &&& !done_at(done, maze.start) ==> cost_at(dist, maze.start) is Some && cost_at(
        dist,
        maze.start,
    ).unwrap()@ == Length::zero()
}

/// `after` is `before` with the cell `u` settled as well.
pub open spec fn settles(before: Seq<Vec<bool>>, after: Seq<Vec<bool>>, maze: Maze, u: Point) -> bool {
    &&& is_table(after, maze.width as nat, maze.height as nat)
    &&& after[u.y as int]@ == before[u.y as int]@.update(u.x as int, true)
    &&& forall|j: int| 0 <= j < before.len() && j != u.y ==> after[j]@ == before[j]@
}

/// Settling the nearest candidate keeps what holds of the search.
pub proof fn lemma_settle(
    maze: Maze,
    dist: Seq<Vec<Option<PathCost>>>,
    done: Seq<Vec<bool>>,
    after: Seq<Vec<bool>>,
    paths: Map<Point, Seq<Point>>,
    u: Point,
    cost_u: PathCost,
)
    requires
        search_inv(maze, dist, done, paths),
        candidate(maze, dist, done, u),
        cost_at(dist, u) == Some(cost_u),
        forall|p: Point| #[trigger]
            candidate(maze, dist, done, p) ==> cost_u@.le(cost_at(dist, p).unwrap()@),
        settles(done, after, maze, u),
    ensures
        settling_inv(maze, dist, after, paths, u, cost_u, 0),
        crate::table::count_marks(after) == crate::table::count_marks(done) + 1,
        cost_u@.steps() + 1 <= crate::table::count_marks(after),
{
    reveal(search_inv);
    reveal(settling_inv);
    crate::table::lemma_count_marks_set(done, after, u.x as int, u.y as int);
    assert forall|p: Point| maze.inside(p) implies #[trigger] done_at(after, p) == (p == u || done_at(
        done,
        p,
    )) by {
        if p.y != u.y {
            assert(after[p.y as int]@ == done[p.y as int]@);
        }
    }
    assert forall|p: Point, cells: Seq<Point>|
        maze.inside(p) && #[trigger] done_at(after, p) && #[trigger] maze.is_route(
            cells,
            p,
        ) implies cost_at(dist, p).unwrap()@.le(route_length(cells)) by {
        if p == u {
            let t = lemma_frontier(maze, dist, done, paths, cells, u);
            Length::lemma_le_transitive(cost_u@, cost_at(dist, t).unwrap()@, route_length(cells));
        } else {
            assert(done_at(done, p));
        }
    }
    assert forall|s: Point, v: Point|
        maze.inside(s) && #[trigger] done_at(after, s) && #[trigger] maze.legal_step(s, v) && (Some(u)
            == Some(s) ==> reached_by_offset(s, v, 0)) implies edge_relaxed(dist, s, v) by {
        assert(s != u);
        assert(done_at(done, s));
    }
    assert forall|s: Point, t: Point|
        maze.inside(s) && #[trigger] done_at(after, s) && #[trigger] candidate(
            maze,
            dist,
            after,
            t,
        ) implies cost_at(dist, s).unwrap()@.le(cost_at(dist, t).unwrap()@) by {
        assert(candidate(maze, dist, done, t));
        if s != u {
            assert(done_at(done, s));
        }
    }
    assert forall|s: Point| maze.inside(s) && #[trigger] done_at(after, s) implies cost_at(
        dist,
        s,
    ).unwrap()@.le(cost_u@) by {
        if s != u {
            assert(done_at(done, s));
        }
    }
    assert(bounded(maze, dist, after));
    assert(cost_at(dist, u).unwrap()@.steps() <= crate::table::count_marks(done));
}

/// `after` is `before` but for the cell `v`, whose tentative length is now `k`.
pub open spec fn improves(
    before: Seq<Vec<Option<PathCost>>>,
    after: Seq<Vec<Option<PathCost>>>,
    maze: Maze,
    v: Point,
    k: PathCost,
) -> bool {
    &&& is_table(after, maze.width as nat, maze.height as nat)
    &&& forall|p: Point|
        maze.inside(p) ==> #[trigger] cost_at(after, p) == if p == v {
            Some(k)
        } else {
            cost_at(before, p)
        }
}

/// Relaxing a step that shortens the way to `v` keeps what holds of the search.
pub proof fn lemma_relax_improve(
    maze: Maze,
    dist: Seq<Vec<Option<PathCost>>>,
    after: Seq<Vec<Option<PathCost>>>,
    done: Seq<Vec<bool>>,
    paths: Map<Point, Seq<Point>>,
    u: Point,
    cost_u: PathCost,
    i: int,
    v: Point,
    k: PathCost,
)
    requires
        0 <= i < 8,
        settling_inv(maze, dist, done, paths, u, cost_u, i),
        maze.shifted(u, spec_offset(i).x as int, spec_offset(i).y as int) == Some(v),
        maze.legal_step(u, v),
        !done_at(done, v),
        k@ == cost_u@.plus(step_length(u, v)),
        cost_at(dist, v) is Some ==> k@.lt(cost_at(dist, v).unwrap()@),
        improves(dist, after, maze, v, k),
    ensures
        settling_inv(maze, after, done, paths.insert(v, paths[u].push(v)), u, cost_u, i + 1),
{
    reveal(settling_inv);
    let paths2 = paths.insert(v, paths[u].push(v));
    lemma_route_extend(maze, paths[u], u, v);
    assert(cost_at(after, u) == cost_at(dist, u));
    assert forall|p: Point| maze.inside(p) && (#[trigger] cost_at(after, p)) is Some implies maze.is_route(
        paths2[p],
        p,
    ) && route_length(paths2[p]) == cost_at(after, p).unwrap()@ by {
        if p != v {
            assert(cost_at(dist, p) is Some);
        }
    }
    assert forall|p: Point| maze.inside(p) && #[trigger] done_at(done, p) implies cost_at(after, p)
        == cost_at(dist, p) by {}
    assert(settled_exact(maze, after, done)) by {
        assert forall|p: Point, cells: Seq<Point>|
            maze.inside(p) && #[trigger] done_at(done, p) && #[trigger] maze.is_route(
                cells,
                p,
            ) implies cost_at(after, p).unwrap()@.le(route_length(cells)) by {
            assert(cost_at(after, p) == cost_at(dist, p));
        }
    }
    assert forall|s: Point, t: Point|
        maze.inside(s) && #[trigger] done_at(done, s) && #[trigger] maze.legal_step(s, t) && (Some(u)
            == Some(s) ==> reached_by_offset(s, t, i + 1)) implies edge_relaxed(after, s, t) by {
        assert(cost_at(after, s) == cost_at(dist, s));
        if s == u && !reached_by_offset(s, t, i) {
            let j = choose|j: int|
                0 <= j < i + 1 && t.x == s.x + (#[trigger] spec_offset(j)).x && t.y == s.y
                    + spec_offset(j).y;
            if j < i {
                assert(reached_by_offset(s, t, i));
            }
            assert(t == v);
        } else {
            assert(edge_relaxed(dist, s, t));
            if t == v {
                Length::lemma_le_transitive(
                    k@,
                    cost_at(dist, v).unwrap()@,
                    cost_at(dist, s).unwrap()@.plus(step_length(s, t)),
                );
            }
        }
    }
    assert forall|s: Point, t: Point|
        maze.inside(s) && #[trigger] done_at(done, s) && #[trigger] candidate(
            maze,
            after,
            done,
            t,
        ) implies cost_at(after, s).unwrap()@.le(cost_at(after, t).unwrap()@) by {
        assert(cost_at(after, s) == cost_at(dist, s));
        if t == v {
            Length::lemma_le_transitive(cost_at(dist, s).unwrap()@, cost_u@, k@);
        } else {
            assert(candidate(maze, dist, done, t));
        }
    }
    assert forall|p: Point| maze.inside(p) && (#[trigger] cost_at(after, p)) is Some implies cost_at(
        after,
        p,
    ).unwrap()@.steps() <= crate::table::count_marks(done) by {
        if p != v {
            assert(cost_at(dist, p) is Some);
        }
    }
    assert forall|s: Point| maze.inside(s) && #[trigger] done_at(done, s) implies cost_at(
        after,
        s,
    ).unwrap()@.le(cost_u@) by {
        assert(cost_at(after, s) == cost_at(dist, s));
    }
}

/// A step that does not shorten the way to its target is relaxed as it is.
pub proof fn lemma_relax_keep(
    maze: Maze,
    dist: Seq<Vec<Option<PathCost>>>,
    done: Seq<Vec<bool>>,
    paths: Map<Point, Seq<Point>>,
    u: Point,
    cost_u: PathCost,
    i: int,
)
    requires
        0 <= i < 8,
        settling_inv(maze, dist, done, paths, u, cost_u, i),
        match maze.shifted(u, spec_offset(i).x as int, spec_offset(i).y as int) {
            Some(v) => maze.legal_step(u, v) && !done_at(done, v) ==> cost_at(dist, v) is Some
                && !cost_u@.plus(step_length(u, v)).lt(cost_at(dist, v).unwrap()@),
            None => true,
        },
    ensures
        settling_inv(maze, dist, done, paths, u, cost_u, i + 1),
{
    reveal(settling_inv);
    assert forall|s: Point, t: Point|
        maze.inside(s) && #[trigger] done_at(done, s) && #[trigger] maze.legal_step(s, t) && (Some(u)
            == Some(s) ==> reached_by_offset(s, t, i + 1)) implies edge_relaxed(dist, s, t) by {
        if s == u && !reached_by_offset(s, t, i) {
            let j = choose|j: int|
                0 <= j < i + 1 && t.x == s.x + (#[trigger] spec_offset(j)).x && t.y == s.y
                    + spec_offset(j).y;
            if j < i {
                assert(reached_by_offset(s, t, i));
            }
            assert(maze.shifted(u, spec_offset(i).x as int, spec_offset(i).y as int) == Some(t));
            let reach = cost_u@.plus(step_length(u, t));
            if done_at(done, t) {
                lemma_route_extend(maze, paths[u], u, t);
                assert(maze.is_route(paths[u].push(t), t));
            } else {
                Length::lemma_le_total(reach, cost_at(dist, t).unwrap()@);
            }
        }
    }
}

/// With all eight steps out of the settled cell relaxed, the search is
/// between two rounds again.
pub proof fn lemma_settled(
    maze: Maze,
    dist: Seq<Vec<Option<PathCost>>>,
    done: Seq<Vec<bool>>,
    paths: Map<Point, Seq<Point>>,
    u: Point,
    cost_u: PathCost,
)
    requires
        settling_inv(maze, dist, done, paths, u, cost_u, 8),
    ensures
        search_inv(maze, dist, done, paths),
{
    reveal(search_inv);
    reveal(settling_inv);
    assert forall|s: Point, v: Point|
        maze.inside(s) && #[trigger] done_at(done, s) && #[trigger] maze.legal_step(
            s,
            v,
        ) implies edge_relaxed(dist, s, v) by {
        if s == u {
            let j = lemma_adjacent_offset(v, s);
            let j2 = lemma_adjacent_offset(s, v);
            assert(reached_by_offset(s, v, 8));
        }
    }
}

/// What a finished search has found: the settled cells have their distance,
/// no cell that is not settled is nearer than a settled one, and the end is
/// settled if it can be reached at all.
#[verifier::opaque]
pub open spec fn searched(maze: Maze, dist: Seq<Vec<Option<PathCost>>>, done: Seq<Vec<bool>>) -> bool {
    &&& is_table(dist, maze.width as nat, maze.height as nat)
    &&& is_table(done, maze.width as nat, maze.height as nat)
    &&& forall|p: Point|
        maze.inside(p) && #[trigger] done_at(done, p) ==> cost_at(dist, p) is Some && maze.is_distance(
            p,
            cost_at(dist, p).unwrap()@,
        )
    &&& forall|a: Point, cells: Seq<Point>, b: Point|
        maze.inside(a) && !done_at(done, a) && #[trigger] maze.is_route(cells, a) && maze.inside(b)
            && #[trigger] done_at(done, b) ==> cost_at(dist, b).unwrap()@.le(route_length(cells))
    &&& done_at(done, maze.end) <==> maze.reachable(maze.end)
}

/// A search begins with the start at length zero and no cell settled.
pub proof fn lemma_search_start(
    maze: Maze,
    dist: Seq<Vec<Option<PathCost>>>,
    done: Seq<Vec<bool>>,
    zero: PathCost,
)
    requires
        maze.inside(maze.start),
        zero@ == Length::zero(),
        is_table(dist, maze.width as nat, maze.height as nat),
        is_table(done, maze.width as nat, maze.height as nat),
        forall|p: Point|
            maze.inside(p) ==> #[trigger] cost_at(dist, p) == if p == maze.start {
                Some(zero)
            } else {
                None
            },
        forall|p: Point| maze.inside(p) ==> !#[trigger] done_at(done, p),
    ensures
        search_inv(maze, dist, done, Map::total(|p: Point| seq![p])),
{
    reveal(search_inv);
    assert(maze.is_route(seq![maze.start], maze.start));
    assert(route_length(seq![maze.start]) == Length::zero());
}

/// A search at its end tells of each settled cell that it has a length,
/// and the two tables have the size of the board.
pub proof fn lemma_searched_tables(
    maze: Maze,
    dist: Seq<Vec<Option<PathCost>>>,
    done: Seq<Vec<bool>>,
)
    requires
        searched(maze, dist, done),
    ensures
        is_table(dist, maze.width as nat, maze.height as nat),
        is_table(done, maze.width as nat, maze.height as nat),
        done_at(done, maze.end) <==> maze.reachable(maze.end),
        forall|p: Point|
            maze.inside(p) && #[trigger] done_at(done, p) ==> cost_at(dist, p) is Some && maze.is_distance(
                p,
                cost_at(dist, p).unwrap()@,
            ),
{
    reveal(searched);
}

/// A search that has run out of candidates is finished.
pub proof fn lemma_exhausted(
    maze: Maze,
    dist: Seq<Vec<Option<PathCost>>>,
    done: Seq<Vec<bool>>,
    paths: Map<Point, Seq<Point>>,
)
    requires
        search_inv(maze, dist, done, paths),
        maze.inside(maze.end),
        forall|p: Point| !#[trigger] candidate(maze, dist, done, p),
    ensures
        searched(maze, dist, done),
{
    reveal(search_inv);
    reveal(searched);
    assert forall|p: Point| maze.inside(p) && #[trigger] done_at(done, p) implies cost_at(dist, p) is Some
        && maze.is_distance(p, cost_at(dist, p).unwrap()@) by {
        assert(maze.is_route(paths[p], p));
    }
    assert forall|a: Point, cells: Seq<Point>, b: Point|
        maze.inside(a) && !done_at(done, a) && #[trigger] maze.is_route(cells, a) && maze.inside(b)
            && #[trigger] done_at(done, b) implies cost_at(dist, b).unwrap()@.le(
        route_length(cells),
    ) by {
        let t = lemma_frontier(maze, dist, done, paths, cells, a);
    }
    if done_at(done, maze.end) {
        assert(maze.is_route(paths[maze.end], maze.end));
    }
    if maze.reachable(maze.end) && !done_at(done, maze.end) {
        let cells = choose|cells: Seq<Point>| maze.is_route(cells, maze.end);
        let t = lemma_frontier(maze, dist, done, paths, cells, maze.end);
    }
}

/// A search that has settled the end is finished.
pub proof fn lemma_arrived(
    maze: Maze,
    dist: Seq<Vec<Option<PathCost>>>,
    done: Seq<Vec<bool>>,
    after: Seq<Vec<bool>>,
    paths: Map<Point, Seq<Point>>,
    cost_u: PathCost,
)
    requires
        search_inv(maze, dist, done, paths),
        candidate(maze, dist, done, maze.end),
        cost_at(dist, maze.end) == Some(cost_u),
        forall|p: Point| #[trigger]
            candidate(maze, dist, done, p) ==> cost_u@.le(cost_at(dist, p).unwrap()@),
        settles(done, after, maze, maze.end),
    ensures
        searched(maze, dist, after),
{
    reveal(search_inv);
    reveal(searched);
    reveal(settling_inv);
    let u = maze.end;
    lemma_settle(maze, dist, done, after, paths, u, cost_u);
    assert forall|p: Point| maze.inside(p) implies #[trigger] done_at(after, p) == (p == u || done_at(
        done,
        p,
    )) by {
        if p.y != u.y {
            assert(after[p.y as int]@ == done[p.y as int]@);
        }
    }
    assert forall|p: Point| maze.inside(p) && #[trigger] done_at(after, p) implies cost_at(dist, p) is Some
        && maze.is_distance(p, cost_at(dist, p).unwrap()@) by {
        assert(maze.is_route(paths[p], p));
    }
    assert forall|a: Point, cells: Seq<Point>, b: Point|
        maze.inside(a) && !done_at(after, a) && #[trigger] maze.is_route(cells, a) && maze.inside(b)
            && #[trigger] done_at(after, b) implies cost_at(dist, b).unwrap()@.le(
        route_length(cells),
    ) by {
        let t = lemma_frontier(maze, dist, done, paths, cells, a);
        Length::lemma_le_transitive(cost_u@, cost_at(dist, t).unwrap()@, route_length(cells));
        Length::lemma_le_transitive(cost_at(dist, b).unwrap()@, cost_u@, route_length(cells));
    }
    assert(maze.is_route(paths[u], u));
}

impl DijkstraModel {
    /// The two cells to join are cells of the board, and the board has no
    /// more cells than can be counted.
    pub open spec fn wf(&self) -> bool {
        &&& self@.inside(self.start)
        &&& self@.inside(self.end)
        &&& self.width * self.height <= usize::MAX
    }

    /// The cell `point` moved by `(dx, dy)`, if that is a cell of the board.
    pub fn offset_point(&self, point: Point, dx: i32, dy: i32) -> (next: Option<Point>)
        ensures
            next == self@.shifted(point, dx as int, dy as int),
    {
        let nx: i128 = point.x as i128 + dx as i128;
        let ny: i128 = point.y as i128 + dy as i128;
        if nx >= 0 && ny >= 0 && nx < self.width as i128 && ny < self.height as i128 {
            Some(Point { x: nx as usize, y: ny as usize })
        } else {
            None
        }
    }

    /// Whether a path may step from `a` to the cell `b` beside it.
    fn may_step(
        &self,
        blocked: &Vec<Vec<bool>>,
        diagonal_blocked: &Vec<Vec<bool>>,
        a: Point,
        b: Point,
    ) -> (ok: bool)
        requires
            marks_of(blocked@, self@.obstacles, self.width as int, self.height as int),
            marks_of(diagonal_blocked@, self@.diagonal_obstacles, self.width as int, self.height as int),
            self@.inside(a),
            self@.inside(b),
            adjacent(a, b),
        ensures
            ok == self@.legal_step(a, b),
    {
        assert(self@.obstacles.contains(b) == blocked@[b.y as int]@[b.x as int]);
        if blocked[b.y][b.x] {
            false
        } else if a.x != b.x && a.y != b.y {
            let cx = if a.x < b.x { a.x } else { b.x };
            let cy = if a.y < b.y { a.y } else { b.y };
            let c = Point { x: cx, y: cy };
            assert(self@.diagonal_obstacles.contains(c) == diagonal_blocked@[c.y as int]@[c.x as int]);
            !diagonal_blocked[cy][cx]
        } else {
            true
        }
    }

    /// The distances of the cells around the start, as far as the end.
    fn search(&self, blocked: &Vec<Vec<bool>>, diagonal_blocked: &Vec<Vec<bool>>) -> (found: (
        Vec<Vec<Option<PathCost>>>,
        Vec<Vec<bool>>,
    ))
        requires
            self.wf(),
            marks_of(blocked@, self@.obstacles, self.width as int, self.height as int),
            marks_of(diagonal_blocked@, self@.diagonal_obstacles, self.width as int, self.height as int),
        ensures
            searched(self@, found.0@, found.1@),
    {
        let ghost maze = self@;
        let mut dist: Vec<Vec<Option<PathCost>>> = new_table(self.width, self.height, None);
        let mut done: Vec<Vec<bool>> = new_table(self.width, self.height, false);
        dist[self.start.y][self.start.x] = Some(PathCost::zero());
        let ghost mut paths: Map<Point, Seq<Point>> = Map::total(|p: Point| seq![p]);
        let mut finished = false;
        proof {
            crate::table::lemma_count_marks_none(done@);
            assert forall|p: Point| maze.inside(p) implies #[trigger] cost_at(dist@, p) == if p
                == self.start {
                Some(PathCost { straight: 0, diagonal: 0 })
            } else {
                None
            } by {}
            assert forall|p: Point| maze.inside(p) implies !#[trigger] done_at(done@, p) by {}
            lemma_search_start(maze, dist@, done@, PathCost { straight: 0, diagonal: 0 });
        }
        while !finished
            invariant
                maze == self@,
                self.wf(),
                marks_of(blocked@, self@.obstacles, self.width as int, self.height as int),
                marks_of(
                    diagonal_blocked@,
                    self@.diagonal_obstacles,
                    self.width as int,
                    self.height as int,
                ),
                is_table(dist@, self.width as nat, self.height as nat),
                is_table(done@, self.width as nat, self.height as nat),
                !finished ==> search_inv(maze, dist@, done@, paths),
                finished ==> searched(maze, dist@, done@),
            decreases
                    if finished {
                        0
                    } else {
                        self.width * self.height - crate::table::count_marks(done@) + 1
                    },
        {
            proof {
                crate::table::lemma_count_marks_bound(done@, self.width as nat, self.height as nat);
            }
            match select_min(self.width, self.height, &dist, &done, Ghost(maze)) {
                None => {
                    proof {
                        lemma_exhausted(maze, dist@, done@, paths);
                    }
                    finished = true;
                },
                Some((u, cost_u)) => {
                    let ghost before = done@;
                    done[u.y][u.x] = true;
                    proof {
                        crate::table::lemma_count_marks_bound(
                            done@,
                            self.width as nat,
                            self.height as nat,
                        );
                    }
                    if u == self.end {
                        proof {
                            lemma_arrived(maze, dist@, before, done@, paths, cost_u);
                        }
                        finished = true;
                    } else {
                        proof {
                            lemma_settle(maze, dist@, before, done@, paths, u, cost_u);
                        }
                        let mut i: usize = 0;
                        while i < 8
                            invariant
                                i <= 8,
                                maze == self@,
                                self.wf(),
                                marks_of(
                                    blocked@,
                                    self@.obstacles,
                                    self.width as int,
                                    self.height as int,
                                ),
                                marks_of(
                                    diagonal_blocked@,
                                    self@.diagonal_obstacles,
                                    self.width as int,
                                    self.height as int,
                                ),
                                crate::table::count_marks(done@) <= self.width * self.height,
                                is_table(dist@, self.width as nat, self.height as nat),
                                is_table(done@, self.width as nat, self.height as nat),
                                maze.inside(u),
                                cost_u@.steps() + 1 <= crate::table::count_marks(done@),
                                settling_inv(maze, dist@, done@, paths, u, cost_u, i as int),
                            decreases 8 - i,
                        {
                            let d = offset(i);
                            match self.offset_point(u, d.x, d.y) {
                                Some(v) => {
                                    if !done[v.y][v.x] && self.may_step(
                                        blocked,
                                        diagonal_blocked,
                                        u,
                                        v,
                                    ) {
                                        let reach = if i < 4 {
                                            PathCost {
                                                straight: cost_u.straight + 1,
                                                diagonal: cost_u.diagonal,
                                            }
                                        } else {
                                            PathCost {
                                                straight: cost_u.straight,
                                                diagonal: cost_u.diagonal + 1,
                                            }
                                        };
                                        let better = match dist[v.y][v.x] {
                                            Some(old) => reach.lt(old),
                                            None => true,
                                        };
                                        if better {
                                            let ghost old_dist = dist@;
                                            dist[v.y][v.x] = Some(reach);
                                            proof {
                                                assert forall|p: Point|
                                                    maze.inside(p) implies #[trigger] cost_at(
                                                    dist@,
                                                    p,
                                                ) == if p == v {
                                                    Some(reach)
                                                } else {
                                                    cost_at(old_dist, p)
                                                } by {}
                                                lemma_relax_improve(
                                                    maze,
                                                    old_dist,
                                                    dist@,
                                                    done@,
                                                    paths,
                                                    u,
                                                    cost_u,
                                                    i as int,
                                                    v,
                                                    reach,
                                                );
                                                paths = paths.insert(v, paths[u].push(v));
                                            }
                                        } else {
                                            proof {
                                                lemma_relax_keep(
                                                    maze,
                                                    dist@,
                                                    done@,
                                                    paths,
                                                    u,
                                                    cost_u,
                                                    i as int,
                                                );
                                            }
                                        }
                                    } else {
                                        proof {
                                            lemma_relax_keep(
                                                maze,
                                                dist@,
                                                done@,
                                                paths,
                                                u,
                                                cost_u,
                                                i as int,
                                            );
                                        }
                                    }
                                },
                                None => {
                                    proof {
                                        lemma_relax_keep(
                                            maze,
                                            dist@,
                                            done@,
                                            paths,
                                            u,
                                            cost_u,
                                            i as int,
                                        );
                                    }
                                },
                            }
                            i += 1;
                        }
                        proof {
                            lemma_settled(maze, dist@, done@, paths, u, cost_u);
                        }
                    }
                },
            }
        }
        (dist, done)
    }
}

/// The start lies at distance zero.
pub proof fn lemma_start_distance(maze: Maze)
    requires
        maze.inside(maze.start),
    ensures
        maze.is_distance(maze.start, Length::zero()),
        maze.distance(maze.start) == Length::zero(),
{
    assert(maze.is_route(seq![maze.start], maze.start));
    assert(route_length(seq![maze.start]) == Length::zero());
    assert forall|cells: Seq<Point>| #[trigger] maze.is_route(cells, maze.start) implies Length::zero().le(
        route_length(cells),
    ) by {
        lemma_route_length_steps(cells);
    }
    maze.lemma_distance_unique(maze.start, Length::zero());
}

/// After a search, the step from `a` to the settled cell `b` lies on a
/// shortest path exactly if `a` is settled and the two lengths differ by
/// the step.
pub proof fn lemma_tight_check(
    maze: Maze,
    dist: Seq<Vec<Option<PathCost>>>,
    done: Seq<Vec<bool>>,
    a: Point,
    b: Point,
)
    requires
        searched(maze, dist, done),
        maze.inside(a),
        maze.inside(b),
        done_at(done, b),
    ensures
        maze.tight(a, b) <==> (done_at(done, a) && maze.legal_step(a, b) && cost_at(
            dist,
            a,
        ).unwrap()@.plus(step_length(a, b)) == cost_at(dist, b).unwrap()@),
{
    lemma_searched_distance(maze, dist, done, b);
    if done_at(done, a) {
        lemma_searched_distance(maze, dist, done, a);
    } else if maze.tight(a, b) {
        let k = maze.distance(a);
        assert(maze.is_distance(a, k));
        let cells = choose|cells: Seq<Point>| #[trigger]
            maze.is_route(cells, a) && route_length(cells) == k;
        lemma_searched_far(maze, dist, done, a, cells, b);
        assert(false);
    }
}

/// After a search, no path to a cell that is not settled is shorter than
/// the distance of a settled cell.
pub proof fn lemma_searched_far(
    maze: Maze,
    dist: Seq<Vec<Option<PathCost>>>,
    done: Seq<Vec<bool>>,
    a: Point,
    cells: Seq<Point>,
    b: Point,
)
    requires
        searched(maze, dist, done),
        maze.inside(a),
        !done_at(done, a),
        maze.is_route(cells, a),
        maze.inside(b),
        done_at(done, b),
    ensures
        cost_at(dist, b).unwrap()@.le(route_length(cells)),
{
    reveal(searched);
}

/// After a search, each settled cell has its distance.
pub proof fn lemma_searched_distance(
    maze: Maze,
    dist: Seq<Vec<Option<PathCost>>>,
    done: Seq<Vec<bool>>,
    p: Point,
)
    requires
        searched(maze, dist, done),
        maze.inside(p),
        done_at(done, p),
    ensures
        cost_at(dist, p) is Some,
        maze.is_distance(p, cost_at(dist, p).unwrap()@),
        maze.distance(p) == cost_at(dist, p).unwrap()@,
        maze.has_distance(p),
{
    reveal(searched);
    maze.lemma_distance_unique(p, cost_at(dist, p).unwrap()@);
}

/// After a search, a shortest path to a settled cell other than the start
/// ends with one of the eight steps.
pub proof fn lemma_tight_exists(
    maze: Maze,
    dist: Seq<Vec<Option<PathCost>>>,
    done: Seq<Vec<bool>>,
    b: Point,
) -> (j: int)
    requires
        searched(maze, dist, done),
        maze.inside(b),
        done_at(done, b),
        b != maze.start,
    ensures
        0 <= j < 8,
        maze.tight_offset(b, j),
{
    let k = cost_at(dist, b).unwrap()@;
    lemma_searched_distance(maze, dist, done, b);
    let cells = choose|cells: Seq<Point>| #[trigger]
        maze.is_route(cells, b) && route_length(cells) == k;
    let x = cells[cells.len() - 2];
    let shorter = cells.drop_last();
    lemma_route_shorten(maze, cells, b);
    if !done_at(done, x) {
        lemma_searched_far(maze, dist, done, x, shorter, b);
        assert(false);
    }
    let kx = cost_at(dist, x).unwrap()@;
    lemma_searched_distance(maze, dist, done, x);
    let to_x = choose|c: Seq<Point>| #[trigger] maze.is_route(c, x) && route_length(c) == kx;
    lemma_route_extend(maze, to_x, x, b);
    assert(maze.is_route(to_x.push(b), b));
    assert(k.le(route_length(to_x.push(b))));
    assert(maze.is_route(shorter, x));
    assert(kx.le(route_length(shorter)));
    assert(kx.plus(step_length(x, b)).le(k));
    Length::lemma_le_antisymmetric(k, kx.plus(step_length(x, b)));
    assert(maze.tight(x, b));
    let j = lemma_adjacent_offset(x, b);
    let d = spec_offset(j);
    assert(maze.shifted(b, -d.x, -d.y) == Some(x));
    j
}

/// Where the first step with which a shortest path to `b` may end is the
/// `i`-th, the cell before `b` lies that step back.
pub proof fn lemma_predecessor(maze: Maze, b: Point, i: int, a: Point)
    requires
        0 <= i < 8,
        maze.first_tight(b, 0) == maze.first_tight(b, i),
        maze.tight_offset(b, i),
        maze.shifted(b, -spec_offset(i).x, -spec_offset(i).y) == Some(a),
    ensures
        maze.predecessor(b) == a,
{
}

/// Where the search for a step with which a shortest path to `b` may end
/// finds none from the `i`-th on, there is none from the `i`-th on.
pub proof fn lemma_first_tight_none(maze: Maze, b: Point, i: int)
    requires
        0 <= i <= 8,
        maze.first_tight(b, i) == 8,
    ensures
        forall|j: int| i <= j < 8 ==> !maze.tight_offset(b, j),
    decreases 8 - i,
{
    if i < 8 {
        lemma_first_tight_none(maze, b, i + 1);
    }
}

/// One step back along the chosen shortest path: the cell before `cur` is
/// one step nearer to the start, and the chosen path is the chosen path to
/// that cell with what was traced so far behind it.
pub proof fn lemma_trace_step(maze: Maze, cur: Point, prev: Point, tail: Seq<Point>, rev: Seq<Point>)
    requires
        rev.len() == tail.len(),
        forall|j: int| 0 <= j < tail.len() ==> rev[j] == tail[tail.len() - 1 - j],
        cur != maze.start,
        prev == maze.predecessor(cur),
        maze.tight(prev, cur),
        maze.is_distance(cur, maze.distance(cur)),
        maze.is_distance(prev, maze.distance(prev)),
        tail.len() >= 1,
        tail[0] == cur,
        forall|i: int| 0 < i < tail.len() ==> maze.tight(tail[i - 1], #[trigger] tail[i]),
        maze.shortest_route() == maze.route_to(cur, maze.distance(cur).steps() as nat).drop_last() + tail,
    ensures
        maze.distance(prev).steps() >= 0,
        maze.distance(cur).steps() == maze.distance(prev).steps() + 1,
        (seq![prev] + tail).len() == tail.len() + 1,
        (seq![prev] + tail)[0] == prev,
        (seq![prev] + tail).last() == tail.last(),
        forall|j: int|
            0 <= j < tail.len() + 1 ==> rev.push(prev)[j] == (seq![prev] + tail)[tail.len() - j],
        forall|i: int|
            0 < i < (seq![prev] + tail).len() ==> maze.tight(
                (seq![prev] + tail)[i - 1],
                #[trigger] (seq![prev] + tail)[i],
            ),
        maze.shortest_route() == maze.route_to(
            prev,
            maze.distance(prev).steps() as nat,
        ).drop_last() + (seq![prev] + tail),
{
    let fuel = maze.distance(cur).steps() as nat;
    let to_prev = choose|c: Seq<Point>| #[trigger]
        maze.is_route(c, prev) && route_length(c) == maze.distance(prev);
    lemma_route_length_steps(to_prev);
    assert(maze.distance(cur).steps() == maze.distance(prev).steps() + 1);
    lemma_route_to_last(maze, prev, (fuel - 1) as nat);
    let longer = seq![prev] + tail;
    assert(maze.route_to(cur, fuel) == maze.route_to(prev, (fuel - 1) as nat).push(cur));
    assert(maze.route_to(cur, fuel).drop_last() =~= maze.route_to(prev, (fuel - 1) as nat));
    assert(maze.shortest_route() =~= maze.route_to(prev, (fuel - 1) as nat).drop_last() + longer);
    assert forall|i: int| 0 < i < longer.len() implies maze.tight(longer[i - 1], #[trigger] longer[i]) by {
        if i > 1 {
            assert(longer[i] == tail[i - 1]);
            assert(longer[i - 1] == tail[i - 2]);
        }
    }
}

/// The chosen path to a cell ends at that cell.
pub proof fn lemma_route_to_last(maze: Maze, target: Point, fuel: nat)
    ensures
        maze.route_to(target, fuel).len() >= 1,
        maze.route_to(target, fuel).last() == target,
{
}

/// Along a path of steps that each lie on a shortest path, the length of
/// the path up to a cell is the distance of that cell.
pub proof fn lemma_chain_length(maze: Maze, cells: Seq<Point>, n: int)
    requires
        maze.inside(maze.start),
        1 <= n <= cells.len(),
        cells[0] == maze.start,
        forall|i: int| 0 < i < cells.len() ==> maze.tight(cells[i - 1], #[trigger] cells[i]),
    ensures
        route_length(cells.take(n)) == maze.distance(cells[n - 1]),
        maze.is_route(cells.take(n), cells[n - 1]),
    decreases n,
{
    let part = cells.take(n);
    if n == 1 {
        lemma_start_distance(maze);
    } else {
        lemma_chain_length(maze, cells, n - 1);
        assert(part.drop_last() =~= cells.take(n - 1));
        assert(maze.tight(cells[n - 2], cells[n - 1]));
        assert forall|i: int| 0 < i < part.len() implies maze.legal_step(
            part[i - 1],
            #[trigger] part[i],
        ) by {
            assert(maze.tight(cells[i - 1], cells[i]));
        }
    }
}

impl DijkstraModel {
    /// The cell from which the `i`-th of the eight steps leads to `b`, if a
    /// shortest path to `b` may end with that step.
    fn tight_step(
        &self,
        blocked: &Vec<Vec<bool>>,
        diagonal_blocked: &Vec<Vec<bool>>,
        dist: &Vec<Vec<Option<PathCost>>>,
        done: &Vec<Vec<bool>>,
        b: Point,
        i: usize,
    ) -> (from: Option<Point>)
        requires
            i < 8,
            marks_of(blocked@, self@.obstacles, self.width as int, self.height as int),
            marks_of(diagonal_blocked@, self@.diagonal_obstacles, self.width as int, self.height as int),
            searched(self@, dist@, done@),
            self@.inside(b),
            done_at(done@, b),
        ensures
            from is Some <==> self@.tight_offset(b, i as int),
            from is Some ==> {
                &&& self@.shifted(b, -spec_offset(i as int).x, -spec_offset(i as int).y) == from
                &&& self@.tight(from.unwrap(), b)
                &&& self@.inside(from.unwrap())
                &&& done_at(done@, from.unwrap())
            },
    {
        let ghost maze = self@;
        proof {
            lemma_searched_tables(maze, dist@, done@);
            lemma_searched_distance(maze, dist@, done@, b);
        }
        let d = offset(i);
        match self.offset_point(b, -d.x, -d.y) {
            Some(a) => {
                proof {
                    lemma_tight_check(maze, dist@, done@, a, b);
                    assert(across(a, b) == (i >= 4));
                    assert(adjacent(a, b));
                }
                if done[a.y][a.x] && self.may_step(blocked, diagonal_blocked, a, b) {
                    proof {
                        assert(done_at(done@, a));
                        lemma_searched_distance(maze, dist@, done@, a);
                    }
                    match (dist[a.y][a.x], dist[b.y][b.x]) {
                        (Some(ka), Some(kb)) => {
                            let fits = if i < 4 {
                                ka.diagonal == kb.diagonal && kb.straight > 0 && ka.straight
                                    == kb.straight - 1
                            } else {
                                ka.straight == kb.straight && kb.diagonal > 0 && ka.diagonal
                                    == kb.diagonal - 1
                            };
                            proof {
                                assert(cost_at(dist@, a) == Some(ka));
                                assert(cost_at(dist@, b) == Some(kb));
                                assert(fits == (ka@.plus(step_length(a, b)) == kb@));
                            }
                            if fits {
                                Some(a)
                            } else {
                                None
                            }
                        },
                        _ => None,
                    }
                } else {
                    proof {
                        assert(!done_at(done@, a) || !maze.legal_step(a, b));
                    }
                    None
                }
            },
            None => None,
        }
    }

    /// The cell before `b` on the chosen shortest path.
    fn step_back(
        &self,
        blocked: &Vec<Vec<bool>>,
        diagonal_blocked: &Vec<Vec<bool>>,
        dist: &Vec<Vec<Option<PathCost>>>,
        done: &Vec<Vec<bool>>,
        b: Point,
    ) -> (a: Point)
        requires
            marks_of(blocked@, self@.obstacles, self.width as int, self.height as int),
            marks_of(diagonal_blocked@, self@.diagonal_obstacles, self.width as int, self.height as int),
            searched(self@, dist@, done@),
            self@.inside(b),
            done_at(done@, b),
            b != self.start,
        ensures
            a == self@.predecessor(b),
            self@.tight(a, b),
            self@.inside(a),
            done_at(done@, a),
    {
        let mut i: usize = 0;
        while i < 8
            invariant
                i <= 8,
                marks_of(blocked@, self@.obstacles, self.width as int, self.height as int),
                marks_of(
                    diagonal_blocked@,
                    self@.diagonal_obstacles,
                    self.width as int,
                    self.height as int,
                ),
                searched(self@, dist@, done@),
                self@.inside(b),
                done_at(done@, b),
                self@.first_tight(b, 0) == self@.first_tight(b, i as int),
            decreases 8 - i,
        {
            match self.tight_step(blocked, diagonal_blocked, dist, done, b, i) {
                Some(a) => {
                    proof {
                        lemma_predecessor(self@, b, i as int, a);
                    }
                    return a;
                },
                None => {},
            }
            i += 1;
        }
        proof {
            let j = lemma_tight_exists(self@, dist@, done@, b);
            lemma_first_tight_none(self@, b, 0);
        }
        b
    }

    /// The chosen shortest path from the start to the end.
    fn trace_back(
        &self,
        blocked: &Vec<Vec<bool>>,
        diagonal_blocked: &Vec<Vec<bool>>,
        dist: &Vec<Vec<Option<PathCost>>>,
        done: &Vec<Vec<bool>>,
    ) -> (cells: Vec<Point>)
        requires
            self.wf(),
            marks_of(blocked@, self@.obstacles, self.width as int, self.height as int),
            marks_of(diagonal_blocked@, self@.diagonal_obstacles, self.width as int, self.height as int),
            searched(self@, dist@, done@),
            done_at(done@, self.end),
        ensures
            cells@ == self@.shortest_route(),
            self@.is_route(cells@, self.end),
            route_length(cells@) == self@.distance(self.end),
            forall|i: int| 0 < i < cells@.len() ==> self@.tight(cells@[i - 1], #[trigger] cells@[i]),
    {
        let ghost maze = self@;
        proof {
            lemma_searched_tables(maze, dist@, done@);
        }
        let mut rev: Vec<Point> = Vec::new();
        rev.push(self.end);
        let mut cur = self.end;
        let ghost mut tail: Seq<Point> = seq![self.end];
        proof {
            lemma_route_to_last(maze, self.end, maze.distance(self.end).steps() as nat);
            assert(maze.shortest_route() =~= maze.shortest_route().drop_last() + tail);
        }
        while cur != self.start
            invariant
                maze == self@,
                self.wf(),
                marks_of(blocked@, self@.obstacles, self.width as int, self.height as int),
                marks_of(
                    diagonal_blocked@,
                    self@.diagonal_obstacles,
                    self.width as int,
                    self.height as int,
                ),
                searched(maze, dist@, done@),
                maze.inside(cur),
                done_at(done@, cur),
                tail.len() == rev@.len(),
                tail.len() >= 1,
                tail[0] == cur,
                tail.last() == self.end,
                forall|j: int| 0 <= j < tail.len() ==> rev@[j] == tail[tail.len() - 1 - j],
                forall|i: int| 0 < i < tail.len() ==> maze.tight(tail[i - 1], #[trigger] tail[i]),
                maze.shortest_route() == maze.route_to(
                    cur,
                    maze.distance(cur).steps() as nat,
                ).drop_last() + tail,
            decreases maze.distance(cur).steps(),
        {
            let ghost old_rev = rev@;
            let prev = self.step_back(blocked, diagonal_blocked, dist, done, cur);
            proof {
                lemma_searched_distance(maze, dist@, done@, cur);
                lemma_searched_distance(maze, dist@, done@, prev);
                lemma_trace_step(maze, cur, prev, tail, rev@);
                tail = seq![prev] + tail;
            }
            rev.push(prev);
            cur = prev;
        }
        let mut cells: Vec<Point> = Vec::new();
        let mut n: usize = rev.len();
        while n > 0
            invariant
                n <= rev@.len(),
                tail.len() == rev@.len(),
                cells@.len() == rev@.len() - n,
                forall|j: int| 0 <= j < tail.len() ==> rev@[j] == tail[tail.len() - 1 - j],
                forall|j: int| 0 <= j < cells@.len() ==> cells@[j] == tail[j],
            decreases n,
        {
            n -= 1;
            cells.push(rev[n]);
        }
        proof {
            assert(cells@ =~= tail);
            assert(maze.route_to(cur, maze.distance(cur).steps() as nat) =~= seq![cur]);
            assert(maze.shortest_route() =~= tail);
            lemma_chain_length(maze, tail, tail.len() as int);
            assert(tail.take(tail.len() as int) =~= tail);
        }
        cells
    }
}

/// What a search reports when the end cannot be reached.
pub open spec fn no_path_message() -> Seq<char> {
    "Dijkstra Algorithm Failed: No Path Found"@
}

/// The steps between the cells of a path.
fn directions_along(cells: &Vec<Point>) -> (steps: Vec<Direction>)
    requires
        forall|i: int| 0 < i < cells@.len() ==> adjacent(cells@[i - 1], #[trigger] cells@[i]),
    ensures
        steps@ == directions_of(cells@),
{
    let mut steps: Vec<Direction> = Vec::new();
    if cells.len() == 0 {
        assert(steps@ =~= directions_of(cells@));
        return steps;
    }
    let mut i: usize = 1;
    while i < cells.len()
        invariant
            1 <= i <= cells@.len(),
            steps@.len() == i - 1,
            forall|i: int| 0 < i < cells@.len() ==> adjacent(cells@[i - 1], #[trigger] cells@[i]),
            forall|j: int|
                0 <= j < steps@.len() ==> #[trigger] steps@[j] == (Direction {
                    x: (cells@[j + 1].x - cells@[j].x) as i32,
                    y: (cells@[j + 1].y - cells@[j].y) as i32,
                }),
        decreases cells@.len() - i,
    {
        let a = cells[i - 1];
        let b = cells[i];
        assert(adjacent(cells@[i - 1], cells@[i as int]));
        let dx: i32 = if b.x > a.x {
            1
        } else if b.x < a.x {
            -1
        } else {
            0
        };
        let dy: i32 = if b.y > a.y {
            1
        } else if b.y < a.y {
            -1
        } else {
            0
        };
        steps.push(Direction { x: dx, y: dy });
        i += 1;
    }
    proof {
        let wanted = directions_of(cells@);
        assert(steps@.len() == wanted.len());
        assert forall|j: int| 0 <= j < steps@.len() implies steps@[j] == wanted[j] by {
            assert(steps@[j] == (Direction {
                x: (cells@[j + 1].x - cells@[j].x) as i32,
                y: (cells@[j + 1].y - cells@[j].y) as i32,
            }));
        }
        assert(steps@ =~= wanted);
    }
    steps
}

/// The blocks that a path crosses diagonally.
fn corners_along(cells: &Vec<Point>) -> (corners: Vec<Point>)
    ensures
        corners@ == corners_of(cells@),
{
    let mut corners: Vec<Point> = Vec::new();
    if cells.len() == 0 {
        return corners;
    }
    let mut i: usize = 1;
    while i < cells.len()
        invariant
            1 <= i <= cells@.len(),
            corners@ == corners_of(cells@.take(i as int)),
        decreases cells@.len() - i,
    {
        let a = cells[i - 1];
        let b = cells[i];
        proof {
            let part = cells@.take(i + 1);
            assert(part.drop_last() =~= cells@.take(i as int));
            assert(part[part.len() - 2] == a);
            assert(part.last() == b);
        }
        if a.x != b.x && a.y != b.y {
            let cx = if a.x < b.x { a.x } else { b.x };
            let cy = if a.y < b.y { a.y } else { b.y };
            corners.push(Point { x: cx, y: cy });
        }
        i += 1;
    }
    proof {
        assert(cells@.take(cells@.len() as int) =~= cells@);
    }
    corners
}

impl DijkstraModel {
    /// `r` is the chosen shortest path of this search.
    pub open spec fn found(&self, r: DijkstraResult) -> bool {
        &&& r.start == self.start
        &&& r.end == self.end
        &&& r.trace_path.covered@ == self@.shortest_route()
        &&& r.trace_path.diagonal_covered@ == corners_of(self@.shortest_route())
        &&& r.trace_directions@ == directions_of(self@.shortest_route())
        &&& r.distance@ == self@.distance(self.end)
        &&& self@.is_route(self@.shortest_route(), self.end)
        &&& route_length(self@.shortest_route()) == r.distance@
        &&& self@.is_distance(self.end, r.distance@)
    }

    /// What `run` returns: the chosen shortest path if the end can be
    /// reached, and the report that there is no path if it cannot.
    pub open spec fn run_ensures(&self, res: Result<DijkstraResult, String>) -> bool {
        match res {
            Ok(r) => self@.reachable(self.end) && self.found(r),
            Err(e) => !self@.reachable(self.end) && e@ == no_path_message(),
        }
    }

    /// Searches a shortest path from `start` to `end`.
    pub fn run(&self) -> (res: Result<DijkstraResult, String>)
        requires
            self.wf(),
        ensures
            self.run_ensures(res),
    {
        let blocked = mark_points(self.width, self.height, &self.obstacles);
        let diagonal_blocked = mark_points(self.width, self.height, &self.diagonal_obstacles);
        let (dist, done) = self.search(&blocked, &diagonal_blocked);
        proof {
            lemma_searched_tables(self@, dist@, done@);
        }
        if !done[self.end.y][self.end.x] {
            assert(!done_at(done@, self.end));
            return Err(String::from_str("Dijkstra Algorithm Failed: No Path Found"));
        }
        assert(done_at(done@, self.end));
        proof {
            lemma_searched_distance(self@, dist@, done@, self.end);
        }
        let distance = match dist[self.end.y][self.end.x] {
            Some(k) => k,
            None => PathCost::zero(),
        };
        let covered = self.trace_back(&blocked, &diagonal_blocked, &dist, &done);
        let trace_directions = directions_along(&covered);
        let diagonal_covered = corners_along(&covered);
        Ok(
            DijkstraResult {
                start: self.start,
                end: self.end,
                trace_path: TracePath { covered, diagonal_covered },
                trace_directions,
                distance,
            },
        )
    }

    /// A path that `run` returns takes no step across a blocked diagonal and
    /// enters no blocked cell.
    pub proof fn lemma_path_respects_obstacles(&self, r: DijkstraResult, i: int)
        requires
            self.found(r),
            0 < i < r.trace_path.covered@.len(),
        ensures
            !self@.obstacles.contains(r.trace_path.covered@[i]),
            across(r.trace_path.covered@[i - 1], r.trace_path.covered@[i])
                ==> !self@.diagonal_obstacles.contains(
                corner(r.trace_path.covered@[i - 1], r.trace_path.covered@[i]),
            ),
    {
        let cells = self@.shortest_route();
        assert(self@.legal_step(cells[i - 1], cells[i]));
    }

    /// Two searches of one problem end alike: both find no path, or both
    /// find the same path of the same length.
    pub proof fn lemma_run_deterministic(
        &self,
        other: &DijkstraModel,
        res1: Result<DijkstraResult, String>,
        res2: Result<DijkstraResult, String>,
    )
        requires
            self@ == other@,
            self.run_ensures(res1),
            other.run_ensures(res2),
        ensures
            res1 is Ok <==> res2 is Ok,
            res1 is Ok ==> {
                &&& res1.unwrap().distance == res2.unwrap().distance
                &&& res1.unwrap().trace_directions@ == res2.unwrap().trace_directions@
                &&& res1.unwrap().trace_path.covered@ == res2.unwrap().trace_path.covered@
                &&& res1.unwrap().trace_path.diagonal_covered@
                    == res2.unwrap().trace_path.diagonal_covered@
            },
            res1 is Err ==> res1.unwrap_err()@ == res2.unwrap_err()@,
    {
    }
}

} // verus!
