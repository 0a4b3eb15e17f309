//! The state of the probabilistic router: candidate traces of each pair of
//! pads, and which of them collide.

use vstd::prelude::*;
use crate::cost::PathCost;
use crate::grid::{points_within, share_point, Point};
use crate::interface_types::{white, Color, ColorGrid};
use crate::table::{is_table, table_fits};

verus! {

/// One step of a trace: each component is -1, 0 or 1.
#[derive(Debug, Clone, Copy, PartialEq, Eq, Hash, Structural)]
pub struct Direction {
    pub x: i32,
    pub y: i32,
}

/// The cells that a trace occupies, and the top-left cells of the 2×2 blocks
/// that it crosses diagonally. Either list stands for the set of its points.
#[derive(Debug, Clone)]
pub struct TracePath {
    pub covered: Vec<Point>,
    pub diagonal_covered: Vec<Point>,
}

impl TracePath {
    /// Two traces collide when they share a cell or cross the same block.
    pub open spec fn spec_collides_with(&self, other: &TracePath) -> bool {
        ||| exists|p: Point| self.covered@.contains(p) && other.covered@.contains(p)
        ||| exists|p: Point|
            self.diagonal_covered@.contains(p) && other.diagonal_covered@.contains(p)
    }

    /// Whether the two traces collide.
    #[verifier::when_used_as_spec(spec_collides_with)]
    pub fn collides_with(&self, other: &TracePath) -> (hit: bool)
        ensures
            hit == self.spec_collides_with(other),
    {
        share_point(&self.covered, &other.covered) || share_point(
            &self.diagonal_covered,
            &other.diagonal_covered,
        )
    }

    /// Two traces are the same when they occupy the same cells and cross the
    /// same blocks.
    pub open spec fn spec_same_as(&self, other: &TracePath) -> bool {
        &&& self.covered@.to_set() == other.covered@.to_set()
        &&& self.diagonal_covered@.to_set() == other.diagonal_covered@.to_set()
    }

    /// Whether the two traces are the same.
    #[verifier::when_used_as_spec(spec_same_as)]
    pub fn same_as(&self, other: &TracePath) -> (same: bool)
        ensures
            same == self.spec_same_as(other),
    {
        let same = points_within(&self.covered, &other.covered) && points_within(
            &other.covered,
            &self.covered,
        ) && points_within(&self.diagonal_covered, &other.diagonal_covered) && points_within(
            &other.diagonal_covered,
            &self.diagonal_covered,
        );
        proof {
            if same {
                assert(self.covered@.to_set() =~= other.covered@.to_set());
                assert(self.diagonal_covered@.to_set() =~= other.diagonal_covered@.to_set());
            } else {
                if self.spec_same_as(other) {
                    assert forall|p: Point| self.covered@.contains(p) <==> other.covered@.contains(
                        p,
                    ) by {
                        assert(self.covered@.to_set().contains(p) <==> other.covered@.to_set().contains(p));
                    }
                    assert forall|p: Point| self.diagonal_covered@.contains(p)
                        <==> other.diagonal_covered@.contains(p) by {
                        assert(self.diagonal_covered@.to_set().contains(p)
                            <==> other.diagonal_covered@.to_set().contains(p));
                    }
                }
            }
        }
        same
    }
}


/// What is known of a net: its number, and how its pads and traces are shown.
#[derive(Debug, Clone, Copy)]
pub struct NetInfo {
    pub net_id: usize,
    pub pad_character: Option<char>,
    pub route_character: Option<char>,
    pub pad_color: Option<Color>,
    pub route_color: Option<Color>,
}

/// The number of a net.
#[derive(Copy, Debug, Clone, PartialEq, Hash, Eq, PartialOrd, Ord, Structural)]
pub struct NetID(pub usize);

/// The number of a pair of pads: its place among the pairs of the board.
#[derive(Copy, Debug, Clone, PartialEq, Hash, Eq, PartialOrd, Ord, Structural)]
pub struct PadPairID(pub usize);

/// The number of a trace: its place among the traces of the board.
#[derive(Copy, Debug, Clone, PartialEq, Hash, Eq, PartialOrd, Ord, Structural)]
pub struct TraceID(pub usize);

/// The number of a round of sampling; the first round is round 1.
#[derive(Copy, Debug, Clone, PartialEq, Hash, Eq, PartialOrd, Ord, Structural)]
pub struct IterationNum(pub usize);

/// Two pads of one net that a trace may join.
#[derive(Debug, Clone, Copy)]
pub struct PadPair {
    pub net_id: NetID,
    pub pad_pair_id: PadPairID,
    pub start: Point,
    pub end: Point,
}

/// The number of a net with the given number, if the list has one.
pub open spec fn info_of(nets: Seq<NetInfo>, id: NetID) -> Option<NetInfo> {
    if exists|i: int| 0 <= i < nets.len() && (#[trigger] nets[i]).net_id == id.0 {
        Some(nets[choose|i: int| 0 <= i < nets.len() && (#[trigger] nets[i]).net_id == id.0])
    } else {
        None
    }
}

/// No two entries of the list have the same number.
pub open spec fn distinct_nets(nets: Seq<NetInfo>) -> bool {
    forall|i: int, j: int|
        0 <= i < nets.len() && 0 <= j < nets.len() && i != j ==> (#[trigger] nets[i]).net_id
            != (#[trigger] nets[j]).net_id
}

/// The place of the net with the given number in the list.
pub fn find_net(nets: &Vec<NetInfo>, id: NetID) -> (place: Option<usize>)
    ensures
        match place {
            Some(i) => i < nets@.len() && nets@[i as int].net_id == id.0,
            None => forall|i: int| 0 <= i < nets@.len() ==> (#[trigger] nets@[i]).net_id != id.0,
        },
{
    let mut i: usize = 0;
    while i < nets.len()
        invariant
            i <= nets@.len(),
            forall|j: int| 0 <= j < i ==> (#[trigger] nets@[j]).net_id != id.0,
        decreases nets@.len() - i,
    {
        if nets[i].net_id == id.0 {
            return Some(i);
        }
        i += 1;
    }
    None
}

/// The net that owns cell `p` in a table of owners, if any does.
pub open spec fn id_at(pads: Seq<Vec<Option<NetID>>>, p: Point) -> Option<NetID> {
    if p.y < pads.len() && p.x < pads[p.y as int]@.len() {
        pads[p.y as int]@[p.x as int]
    } else {
        None
    }
}

/// A routing problem that can still be edited: the board, its nets, and the
/// pad of each cell.
#[derive(Debug, Clone)]
pub struct ProbaGridProblem {
    pub width: usize,
    pub height: usize,
    /// The nets that have had a pad, each once.
    pub nets: Vec<NetInfo>,
    /// The net whose pad each cell holds: `net_to_pads[y][x]` for cell `(x, y)`.
    pub net_to_pads: Vec<Vec<Option<NetID>>>,
}

/// The nets are known by their colours, each once, and every pad belongs to
/// one of them.
pub open spec fn nets_wf(nets: Seq<NetInfo>, pads: Seq<Vec<Option<NetID>>>) -> bool {
    &&& distinct_nets(nets)
    &&& forall|i: int| 0 <= i < nets.len() ==> (#[trigger] nets[i]).pad_color is Some
    &&& forall|i: int| 0 <= i < nets.len() ==> (#[trigger] nets[i]).route_color is Some
    &&& forall|p: Point| (#[trigger] id_at(pads, p)) is Some ==> info_of(nets, id_at(pads, p).unwrap()) is Some
}

/// The colour of cell `p` in the picture of the pads: the pad colour of the
/// net whose pad it holds, else white.
pub open spec fn pad_color_at(nets: Seq<NetInfo>, pads: Seq<Vec<Option<NetID>>>, p: Point) -> Color {
    match id_at(pads, p) {
        Some(id) => match info_of(nets, id) {
            Some(info) => match info.pad_color {
                Some(c) => c,
                None => white(),
            },
            None => white(),
        },
        None => white(),
    }
}

/// The picture of the pads.
pub fn pads_picture(width: usize, height: usize, nets: &Vec<NetInfo>, pads: &Vec<Vec<Option<NetID>>>) -> (picture:
    ColorGrid)
    requires
        is_table(pads@, width as nat, height as nat),
        distinct_nets(nets@),
    ensures
        is_table(picture.grid@, width as nat, height as nat),
        forall|p: Point|
            p.x < width && p.y < height ==> picture.grid@[p.y as int]@[p.x as int]
                == #[trigger] pad_color_at(nets@, pads@, p),
{
    let mut grid: Vec<Vec<Color>> = Vec::new();
    let mut y: usize = 0;
    while y < height
        invariant
            y <= height,
            is_table(pads@, width as nat, height as nat),
            distinct_nets(nets@),
            is_table(grid@, width as nat, y as nat),
            forall|p: Point|
                p.x < width && p.y < y ==> grid@[p.y as int]@[p.x as int] == #[trigger] pad_color_at(
                    nets@,
                    pads@,
                    p,
                ),
        decreases height - y,
    {
        let mut row: Vec<Color> = Vec::new();
        let mut x: usize = 0;
        while x < width
            invariant
                x <= width,
                y < height,
                is_table(pads@, width as nat, height as nat),
                distinct_nets(nets@),
                row@.len() == x,
                forall|i: int|
                    0 <= i < x ==> row@[i] == pad_color_at(nets@, pads@, Point { x: i as usize, y }),
            decreases width - x,
        {
            let ghost here = Point { x, y };
            let blank = Color { r: 255, g: 255, b: 255 };
            let color = match pads[y][x] {
                Some(id) => match find_net(nets, id) {
                    Some(i) => {
                        proof {
                            lemma_info_of(nets@, i as int);
                        }
                        match nets[i].pad_color {
                            Some(c) => c,
                            None => blank,
                        }
                    },
                    None => blank,
                },
                None => blank,
            };
            proof {
                assert(id_at(pads@, here) == pads@[y as int]@[x as int]);
                assert(color == pad_color_at(nets@, pads@, here));
            }
            row.push(color);
            x += 1;
        }
        grid.push(row);
        proof {
            assert forall|p: Point| p.x < width && p.y < y + 1 implies grid@[p.y as int]@[p.x as int]
                == #[trigger] pad_color_at(nets@, pads@, p) by {
                if p.y == y {
                    assert(p == Point { x: p.x, y });
                }
            }
        }
        y += 1;
    }
    ColorGrid { grid }
}

/// In a list without a number twice, the entry with a number is the one
/// entry that has it.
pub proof fn lemma_info_of(nets: Seq<NetInfo>, i: int)
    requires
        distinct_nets(nets),
        0 <= i < nets.len(),
    ensures
        info_of(nets, NetID(nets[i].net_id)) == Some(nets[i]),
{
    let id = NetID(nets[i].net_id);
    let j = choose|j: int| 0 <= j < nets.len() && (#[trigger] nets[j]).net_id == id.0;
    assert(j == i);
}

impl ProbaGridProblem {
    /// The table of pads has one slot for each cell, and every pad belongs
    /// to a net that is known by its colours.
    pub open spec fn wf(&self) -> bool {
        &&& is_table(self.net_to_pads@, self.width as nat, self.height as nat)
        &&& nets_wf(self.nets@, self.net_to_pads@)
    }

    pub open spec fn inside(&self, p: Point) -> bool {
        p.x < self.width && p.y < self.height
    }

    /// The net whose pad cell `p` holds.
    pub open spec fn pad_at(&self, p: Point) -> Option<NetID> {
        id_at(self.net_to_pads@, p)
    }

    /// An empty problem on a board of the given size.
    pub fn new(width: usize, height: usize) -> (problem: Self)
        ensures
            problem.wf(),
            problem.width == width,
            problem.height == height,
            problem.nets@.len() == 0,
            forall|p: Point| problem.pad_at(p) is None,
    {
        ProbaGridProblem {
            width,
            height,
            nets: Vec::new(),
            net_to_pads: crate::table::new_table(width, height, None),
        }
    }

    /// The picture of the problem: each pad in the pad colour of its net on white.
    pub fn to_color_grid(&self) -> (picture: ColorGrid)
        requires
            self.wf(),
        ensures
            is_table(picture.grid@, self.width as nat, self.height as nat),
            forall|p: Point|
                self.inside(p) ==> picture.grid@[p.y as int]@[p.x as int] == #[trigger] pad_color_at(
                    self.nets@,
                    self.net_to_pads@,
                    p,
                ),
    {
        pads_picture(self.width, self.height, &self.nets, &self.net_to_pads)
    }

    /// Takes the pad off cell `point`, whichever net it belongs to. The net
    /// stays known.
    pub fn remove_pad(&mut self, point: Point)
        requires
            old(self).wf(),
        ensures
            final(self).wf(),
            final(self).width == old(self).width,
            final(self).height == old(self).height,
            final(self).nets == old(self).nets,
            forall|p: Point|
                final(self).pad_at(p) == if p == point {
                    None
                } else {
                    old(self).pad_at(p)
                },
    {
        if point.x < self.width && point.y < self.height {
            self.net_to_pads[point.y][point.x] = None;
        }
        proof {
            assert forall|p: Point| (#[trigger] id_at(self.net_to_pads@, p)) is Some implies info_of(
                self.nets@,
                id_at(self.net_to_pads@, p).unwrap(),
            ) is Some by {
                assert(id_at(old(self).net_to_pads@, p) is Some);
            }
        }
    }

    /// Makes cell `point` a pad of the net `net_id`, whatever it held
    /// before. A net that is new to the problem becomes known with the two
    /// colours; a net that is known keeps the colours it has.
    pub fn insert_pad(&mut self, net_id: NetID, point: Point, pad_color: Color, route_color: Color)
        requires
            old(self).wf(),
            old(self).inside(point),
        ensures
            final(self).wf(),
            final(self).width == old(self).width,
            final(self).height == old(self).height,
            forall|p: Point|
                final(self).pad_at(p) == if p == point {
                    Some(net_id)
                } else {
                    old(self).pad_at(p)
                },
            info_of(old(self).nets@, net_id) is Some ==> final(self).nets == old(self).nets,
            info_of(old(self).nets@, net_id) is None ==> final(self).nets@ == old(self).nets@.push(
                NetInfo {
                    net_id: net_id.0,
                    pad_character: None,
                    route_character: None,
                    pad_color: Some(pad_color),
                    route_color: Some(route_color),
                },
            ),
    {
        self.net_to_pads[point.y][point.x] = Some(net_id);
        let ghost old_nets = self.nets@;
        let ghost mut place: int = 0;
        match find_net(&self.nets, net_id) {
            Some(i) => {
                proof {
                    lemma_info_of(self.nets@, i as int);
                    place = i as int;
                }
            },
            None => {
                self.nets.push(
                    NetInfo {
                        net_id: net_id.0,
                        pad_character: None,
                        route_character: None,
                        pad_color: Some(pad_color),
                        route_color: Some(route_color),
                    },
                );
                proof {
                    place = old_nets.len() as int;
                    assert forall|i: int, j: int|
                        0 <= i < self.nets@.len() && 0 <= j < self.nets@.len() && i != j implies (
                    #[trigger] self.nets@[i]).net_id != (#[trigger] self.nets@[j]).net_id by {
                        if i < old_nets.len() {
                            assert(self.nets@[i] == old_nets[i]);
                        }
                        if j < old_nets.len() {
                            assert(self.nets@[j] == old_nets[j]);
                        }
                    }
                }
            },
        }
        proof {
            assert forall|p: Point| (#[trigger] id_at(self.net_to_pads@, p)) is Some implies info_of(
                self.nets@,
                id_at(self.net_to_pads@, p).unwrap(),
            ) is Some by {
                let id = id_at(self.net_to_pads@, p).unwrap();
                if p != point {
                    assert(id_at(old(self).net_to_pads@, p) == Some(id));
                    assert(info_of(old_nets, id) is Some);
                    let i = choose|i: int| 0 <= i < old_nets.len() && (#[trigger] old_nets[i]).net_id == id.0;
                    assert(self.nets@[i] == old_nets[i]);
                } else {
                    assert(self.nets@[place].net_id == net_id.0);
                }
            }
        }
    }
}


/// One candidate trace of a pair of pads.
#[derive(Debug, Clone)]
pub struct TraceInfo {
    pub net_id: NetID,
    pub pad_pair_id: PadPairID,
    pub trace_id: TraceID,
    pub start: Point,
    pub end: Point,
    pub trace_path: TracePath,
    /// The steps of the trace, from `start` to `end`.
    pub trace_directions: Vec<Direction>,
    pub trace_length: PathCost,
    /// The round of sampling that found the trace; the first round is round 1.
    pub iteration: usize,
}

/// The number of steps of a trace that go another way than the step before.
pub open spec fn turns_of(steps: Seq<Direction>) -> nat
    decreases steps.len(),
{
    if steps.len() <= 1 {
        0
    } else {
        turns_of(steps.drop_last()) + if steps[steps.len() - 1] != steps[steps.len() - 2] {
            1nat
        } else {
            0nat
        }
    }
}

/// The number of turns of a trace.
pub fn count_turns(steps: &Vec<Direction>) -> (turns: usize)
    ensures
        turns == turns_of(steps@),
{
    let mut turns: usize = 0;
    if steps.len() == 0 {
        return 0;
    }
    let mut i: usize = 1;
    assert(steps@.take(1).len() == 1);
    while i < steps.len()
        invariant
            1 <= i <= steps@.len(),
            turns == turns_of(steps@.take(i as int)),
            turns < i,
        decreases steps@.len() - i,
    {
        proof {
            let part = steps@.take(i + 1);
            assert(part.drop_last() =~= steps@.take(i as int));
            assert(part[part.len() - 1] == steps@[i as int]);
            assert(part[part.len() - 2] == steps@[i - 1]);
        }
        if steps[i].x != steps[i - 1].x || steps[i].y != steps[i - 1].y {
            turns += 1;
        }
        i += 1;
    }
    proof {
        assert(steps@.take(steps@.len() as int) =~= steps@);
    }
    turns
}

/// The number of the first `n` traces that belong to the pair of pads `pair`
/// and to the round `iteration`.
pub open spec fn count_same(traces: Seq<TraceInfo>, pair: PadPairID, iteration: usize, n: int) -> nat
    decreases n,
{
    if n <= 0 {
        0
    } else {
        count_same(traces, pair, iteration, n - 1) + if traces[n - 1].pad_pair_id == pair && traces[n
            - 1].iteration == iteration {
            1nat
        } else {
            0nat
        }
    }
}

/// No two traces occupy the same cells and cross the same blocks.
pub open spec fn distinct_paths(traces: Seq<TraceInfo>) -> bool {
    forall|j: int, k: int|
        0 <= j < k < traces.len() ==> !(#[trigger] traces[j]).trace_path.spec_same_as(
            &(#[trigger] traces[k]).trace_path,
        )
}

/// The state of the probabilistic router once the pads are fixed.
#[derive(Debug, Clone)]
pub struct ProbaGrid {
    pub width: usize,
    pub height: usize,
    pub nets: Vec<NetInfo>,
    /// The net whose pad each cell holds: `net_to_pads[y][x]` for cell `(x, y)`.
    pub net_to_pads: Vec<Vec<Option<NetID>>>,
    /// The pairs of pads; the pair with the number `k` stands at place `k`.
    pub pad_pairs: Vec<PadPair>,
    /// The traces of all rounds; the trace with the number `k` stands at place `k`.
    pub traces: Vec<TraceInfo>,
    /// For each trace, the traces of other nets that collide with it.
    pub trace_collision_adjacency: Vec<Vec<TraceID>>,
    /// The number of the next round of sampling.
    pub next_iteration: usize,
}

impl ProbaGrid {
    pub open spec fn inside(&self, p: Point) -> bool {
        p.x < self.width && p.y < self.height
    }

    /// The pair of pads at place `k` has the number `k` and joins two cells
    /// of the board.
    pub open spec fn pair_wf(&self, k: int) -> bool {
        &&& self.pad_pairs@[k].pad_pair_id == PadPairID(k as usize)
        &&& self.inside(self.pad_pairs@[k].start)
        &&& self.inside(self.pad_pairs@[k].end)
    }

    /// The trace at place `k` has the number `k`, belongs to a pair of pads
    /// of the board and joins its pads, and was found in a round before
    /// the round `limit`.
    pub open spec fn trace_wf(&self, k: int, limit: int) -> bool {
        let t = self.traces@[k];
        &&& t.trace_id == TraceID(k as usize)
        &&& t.pad_pair_id.0 < self.pad_pairs@.len()
        &&& t.net_id == self.pad_pairs@[t.pad_pair_id.0 as int].net_id
        &&& t.start == self.pad_pairs@[t.pad_pair_id.0 as int].start
        &&& t.end == self.pad_pairs@[t.pad_pair_id.0 as int].end
        &&& 1 <= t.iteration < limit
        &&& forall|i: int|
            0 <= i < t.trace_path.covered@.len() ==> self.inside(#[trigger] t.trace_path.covered@[i])
    }

    /// The board, its nets, its pads and its pairs of pads fit together.
    pub open spec fn board_wf(&self) -> bool {
        &&& is_table(self.net_to_pads@, self.width as nat, self.height as nat)
        &&& nets_wf(self.nets@, self.net_to_pads@)
        &&& self.next_iteration >= 1
        &&& forall|k: int| 0 <= k < self.pad_pairs@.len() ==> #[trigger] self.pair_wf(k)
    }

    /// The traces fit the board, were found before the round `limit`, and
    /// no two of them are the same.
    pub open spec fn traces_wf(&self, limit: int) -> bool {
        &&& forall|k: int| 0 <= k < self.traces@.len() ==> #[trigger] self.trace_wf(k, limit)
        &&& distinct_paths(self.traces@)
    }

    pub open spec fn wf(&self) -> bool {
        &&& self.board_wf()
        &&& self.traces_wf(self.next_iteration as int)
        &&& self.trace_collision_adjacency@.len() == self.traces@.len()
    }

    /// The number of traces that the pair of pads of the trace `trace_id`
    /// got in the round of that trace, the trace itself among them.
    pub fn get_num_traces_in_the_same_iteration(&self, trace_id: TraceID) -> (num: usize)
        requires
            trace_id.0 < self.traces@.len(),
        ensures
            num == count_same(
                self.traces@,
                self.traces@[trace_id.0 as int].pad_pair_id,
                self.traces@[trace_id.0 as int].iteration,
                self.traces@.len() as int,
            ),
            num >= 1,
    {
        let pair = self.traces[trace_id.0].pad_pair_id;
        let iteration = self.traces[trace_id.0].iteration;
        let mut num: usize = 0;
        let mut i: usize = 0;
        while i < self.traces.len()
            invariant
                i <= self.traces@.len(),
                trace_id.0 < self.traces@.len(),
                pair == self.traces@[trace_id.0 as int].pad_pair_id,
                iteration == self.traces@[trace_id.0 as int].iteration,
                num == count_same(self.traces@, pair, iteration, i as int),
                num <= i,
                i > trace_id.0 ==> num >= 1,
            decreases self.traces@.len() - i,
        {
            if self.traces[i].pad_pair_id == pair && self.traces[i].iteration == iteration {
                num += 1;
            }
            i += 1;
        }
        num
    }

    /// The picture of the pads: each pad in the pad colour of its net on
    /// white, without the traces.
    pub fn pads_color_grid(&self) -> (picture: ColorGrid)
        requires
            self.wf(),
        ensures
            is_table(picture.grid@, self.width as nat, self.height as nat),
            forall|p: Point|
                self.inside(p) ==> picture.grid@[p.y as int]@[p.x as int] == #[trigger] pad_color_at(
                    self.nets@,
                    self.net_to_pads@,
                    p,
                ),
    {
        pads_picture(self.width, self.height, &self.nets, &self.net_to_pads)
    }
}

/// The probabilistic router before and after its pads are fixed.
#[derive(Debug, Clone)]
pub enum ProbaGridState {
    Uninitialized { input: ProbaGridProblem },
    Initialized { output: ProbaGrid },
}

impl ProbaGridState {
    /// The pads are fixed.
    pub open spec fn is_initialized(&self) -> bool {
        self is Initialized
    }

    /// The problem, as long as the pads are not fixed.
    pub open spec fn problem(&self) -> ProbaGridProblem {
        self->input
    }

    /// The board, once the pads are fixed.
    pub open spec fn board(&self) -> ProbaGrid {
        self->output
    }

    pub open spec fn wf(&self) -> bool {
        match self {
            ProbaGridState::Uninitialized { input } => input.wf(),
            ProbaGridState::Initialized { output } => output.wf(),
        }
    }

    /// The picture of the pads of the board, before or after they are fixed.
    pub fn pads_color_grid(&self) -> (picture: ColorGrid)
        requires
            self.wf(),
        ensures
            match self {
                ProbaGridState::Uninitialized { input } => {
                    &&& is_table(picture.grid@, input.width as nat, input.height as nat)
                    &&& forall|p: Point|
                        input.inside(p) ==> picture.grid@[p.y as int]@[p.x as int]
                            == #[trigger] pad_color_at(input.nets@, input.net_to_pads@, p)
                },
                ProbaGridState::Initialized { output } => {
                    &&& is_table(picture.grid@, output.width as nat, output.height as nat)
                    &&& forall|p: Point|
                        output.inside(p) ==> picture.grid@[p.y as int]@[p.x as int]
                            == #[trigger] pad_color_at(output.nets@, output.net_to_pads@, p)
                },
            },
    {
        match self {
            ProbaGridState::Uninitialized { input } => input.to_color_grid(),
            ProbaGridState::Initialized { output } => output.pads_color_grid(),
        }
    }
}


/// Whether the nets are known by their colours, each once, and every pad
/// belongs to one of them.
pub fn check_nets(width: usize, height: usize, nets: &Vec<NetInfo>, pads: &Vec<Vec<Option<NetID>>>) -> (ok: bool)
    requires
        is_table(pads@, width as nat, height as nat),
    ensures
        ok == nets_wf(nets@, pads@),
{
    let mut i: usize = 0;
    while i < nets.len()
        invariant
            i <= nets@.len(),
            forall|a: int, b: int|
                0 <= a < i && 0 <= b < nets@.len() && a != b ==> (#[trigger] nets@[a]).net_id != (
                #[trigger] nets@[b]).net_id,
            forall|a: int| 0 <= a < i ==> (#[trigger] nets@[a]).pad_color is Some,
            forall|a: int| 0 <= a < i ==> (#[trigger] nets@[a]).route_color is Some,
        decreases nets@.len() - i,
    {
        if nets[i].pad_color.is_none() || nets[i].route_color.is_none() {
            return false;
        }
        let mut j: usize = 0;
        while j < nets.len()
            invariant
                j <= nets@.len(),
                i < nets@.len(),
                forall|b: int|
                    0 <= b < j && b != i ==> nets@[i as int].net_id != (#[trigger] nets@[b]).net_id,
            decreases nets@.len() - j,
        {
            if j != i && nets[j].net_id == nets[i].net_id {
                return false;
            }
            j += 1;
        }
        i += 1;
    }
    assert(distinct_nets(nets@));
    let mut y: usize = 0;
    while y < height
        invariant
            y <= height,
            is_table(pads@, width as nat, height as nat),
            distinct_nets(nets@),
            forall|p: Point|
                p.y < y && (#[trigger] id_at(pads@, p)) is Some ==> info_of(
                    nets@,
                    id_at(pads@, p).unwrap(),
                ) is Some,
        decreases height - y,
    {
        let mut x: usize = 0;
        while x < width
            invariant
                x <= width,
                y < height,
                is_table(pads@, width as nat, height as nat),
                distinct_nets(nets@),
                forall|p: Point|
                    (p.y < y || (p.y == y && p.x < x)) && (#[trigger] id_at(pads@, p)) is Some ==> info_of(
                        nets@,
                        id_at(pads@, p).unwrap(),
                    ) is Some,
            decreases width - x,
        {
            let ghost here = Point { x, y };
            assert(id_at(pads@, here) == pads@[y as int]@[x as int]);
            match pads[y][x] {
                Some(id) => {
                    match find_net(nets, id) {
                        Some(place) => {
                            proof {
                                lemma_info_of(nets@, place as int);
                            }
                        },
                        None => {
                            return false;
                        },
                    }
                },
                None => {},
            }
            assert forall|p: Point|
                (p.y < y || (p.y == y && p.x < x + 1)) && (#[trigger] id_at(pads@, p)) is Some implies info_of(
                nets@,
                id_at(pads@, p).unwrap(),
            ) is Some by {
                if p.y == y && p.x == x {
                    assert(p == here);
                }
            }
            x += 1;
        }
        y += 1;
    }
    true
}

/// Whether every point of the list is a cell of the board.
pub fn all_inside(width: usize, height: usize, points: &Vec<Point>) -> (ok: bool)
    ensures
        ok == forall|i: int|
            0 <= i < points@.len() ==> (#[trigger] points@[i]).x < width && points@[i].y < height,
{
    let mut i: usize = 0;
    while i < points.len()
        invariant
            i <= points@.len(),
            forall|j: int| 0 <= j < i ==> (#[trigger] points@[j]).x < width && points@[j].y < height,
        decreases points@.len() - i,
    {
        if points[i].x >= width || points[i].y >= height {
            return false;
        }
        i += 1;
    }
    true
}

impl ProbaGridProblem {
    /// Whether the problem is well formed.
    pub fn is_wf(&self) -> (ok: bool)
        ensures
            ok == self.wf(),
    {
        table_fits(&self.net_to_pads, self.width, self.height) && check_nets(
            self.width,
            self.height,
            &self.nets,
            &self.net_to_pads,
        )
    }
}

impl ProbaGrid {
    /// Whether the board, its nets, its pads and its pairs of pads fit together.
    pub fn is_board_wf(&self) -> (ok: bool)
        ensures
            ok == self.board_wf(),
    {
        if !table_fits(&self.net_to_pads, self.width, self.height) {
            return false;
        }
        if !check_nets(self.width, self.height, &self.nets, &self.net_to_pads) {
            return false;
        }
        if self.next_iteration < 1 {
            return false;
        }
        let mut k: usize = 0;
        while k < self.pad_pairs.len()
            invariant
                k <= self.pad_pairs@.len(),
                forall|j: int| 0 <= j < k ==> #[trigger] self.pair_wf(j),
            decreases self.pad_pairs@.len() - k,
        {
            let pair = self.pad_pairs[k];
            if pair.pad_pair_id.0 != k || pair.start.x >= self.width || pair.start.y >= self.height
                || pair.end.x >= self.width || pair.end.y >= self.height {
                assert(!self.pair_wf(k as int));
                return false;
            }
            k += 1;
        }
        true
    }

    /// Whether the traces fit the board, were found before the round
    /// `limit`, and no two of them are the same.
    pub fn is_traces_wf(&self, limit: usize) -> (ok: bool)
        ensures
            ok == self.traces_wf(limit as int),
    {
        let mut k: usize = 0;
        while k < self.traces.len()
            invariant
                k <= self.traces@.len(),
                forall|j: int| 0 <= j < k ==> #[trigger] self.trace_wf(j, limit as int),
                forall|i: int, j: int|
                    0 <= i < j < k ==> !(#[trigger] self.traces@[i]).trace_path.spec_same_as(
                        &(#[trigger] self.traces@[j]).trace_path,
                    ),
            decreases self.traces@.len() - k,
        {
            let t = &self.traces[k];
            if t.trace_id.0 != k || t.pad_pair_id.0 >= self.pad_pairs.len() {
                assert(!self.trace_wf(k as int, limit as int));
                return false;
            }
            let pair = self.pad_pairs[t.pad_pair_id.0];
            if t.net_id != pair.net_id || t.start != pair.start || t.end != pair.end || t.iteration < 1
                || t.iteration >= limit {
                assert(!self.trace_wf(k as int, limit as int));
                return false;
            }
            if !all_inside(self.width, self.height, &t.trace_path.covered) {
                assert(!self.trace_wf(k as int, limit as int));
                return false;
            }
            assert(self.trace_wf(k as int, limit as int));
            let mut i: usize = 0;
            while i < k
                invariant
                    i <= k,
                    k < self.traces@.len(),
                    forall|a: int|
                        0 <= a < i ==> !(#[trigger] self.traces@[a]).trace_path.spec_same_as(
                            &self.traces@[k as int].trace_path,
                        ),
                decreases k - i,
            {
                if self.traces[i].trace_path.same_as(&self.traces[k].trace_path) {
                    return false;
                }
                i += 1;
            }
            k += 1;
        }
        true
    }

    /// Whether the state is well formed.
    pub fn is_wf(&self) -> (ok: bool)
        ensures
            ok == self.wf(),
    {
        self.is_board_wf() && self.is_traces_wf(self.next_iteration)
            && self.trace_collision_adjacency.len() == self.traces.len()
    }
}

impl ProbaGridState {
    /// Whether the state is well formed.
    pub fn is_wf(&self) -> (ok: bool)
        ensures
            ok == self.wf(),
    {
        match self {
            ProbaGridState::Uninitialized { input } => input.is_wf(),
            ProbaGridState::Initialized { output } => output.is_wf(),
        }
    }
}

} // verus!
