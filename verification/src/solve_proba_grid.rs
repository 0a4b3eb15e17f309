//! The steps of the probabilistic router: fixing the pads, and sampling new
//! candidate traces around traces drawn from those of the other nets.

use vstd::prelude::*;
use crate::dijkstra::{corners_of, directions_of, DijkstraModel, Maze};
use crate::hyperparameters::{MAX_GENERATION_ATTEMPTS, MAX_TRACES_PER_ITERATION};
use crate::grid::{Point, PointPair};
use crate::proba_grid::{
    count_same, id_at, info_of, NetID, NetInfo, PadPair, PadPairID, ProbaGrid, ProbaGridProblem, TraceID,
    TraceInfo, TracePath,
};

verus! {

/// The pads of the net `id`, row by row.
pub fn pads_of_net(pads: &Vec<Vec<Option<NetID>>>, id: NetID) -> (cells: Vec<Point>)
    ensures
        forall|p: Point| cells@.contains(p) <==> id_at(pads@, p) == Some(id),
        cells@.no_duplicates(),
{
    let mut cells: Vec<Point> = Vec::new();
    let mut y: usize = 0;
    while y < pads.len()
        invariant
            y <= pads@.len(),
            forall|p: Point| cells@.contains(p) <==> (id_at(pads@, p) == Some(id) && p.y < y),
            cells@.no_duplicates(),
        decreases pads@.len() - y,
    {
        let mut x: usize = 0;
        while x < pads[y].len()
            invariant
                y < pads@.len(),
                x <= pads@[y as int]@.len(),
                forall|p: Point|
                    cells@.contains(p) <==> (id_at(pads@, p) == Some(id) && (p.y < y || (p.y == y && p.x
                        < x))),
                cells@.no_duplicates(),
            decreases pads@[y as int]@.len() - x,
        {
            let here = Point { x, y };
            let ghost before = cells@;
            let taken = match pads[y][x] {
                Some(owner) => owner.0 == id.0,
                None => false,
            };
            proof {
                assert(id_at(pads@, here) == pads@[y as int]@[x as int]);
                assert(taken == (id_at(pads@, here) == Some(id)));
                assert(!before.contains(here));
            }
            if taken {
                cells.push(here);
            }
            proof {
                assert forall|p: Point|
                    cells@.contains(p) <==> (id_at(pads@, p) == Some(id) && (p.y < y || (p.y == y && p.x
                        < x + 1))) by {
                    let early = p.y < y || (p.y == y && p.x < x);
                    assert((p.y < y || (p.y == y && p.x < x + 1)) <==> (early || p == here));
                    assert(before.contains(p) <==> (id_at(pads@, p) == Some(id) && early));
                    if taken {
                        assert(cells@ =~= before.push(here));
                        if before.contains(p) {
                            let j = choose|j: int| 0 <= j < before.len() && before[j] == p;
                            assert(cells@[j] == p);
                        }
                        if p == here {
                            assert(cells@[before.len() as int] == here);
                        }
                        if cells@.contains(p) {
                            let j = choose|j: int| 0 <= j < cells@.len() && cells@[j] == p;
                            if j < before.len() {
                                assert(before[j] == p);
                            }
                        }
                    }
                }
            }
            x += 1;
        }
        y += 1;
    }
    cells
}

/// The pair at place `k` joins two pads of its net, the smaller one first.
pub open spec fn joins_pads(pads: Seq<Vec<Option<NetID>>>, pair: PadPair) -> bool {
    &&& id_at(pads, pair.start) == Some(pair.net_id)
    &&& id_at(pads, pair.end) == Some(pair.net_id)
    &&& pair.start.spec_precedes(pair.end)
}

/// One of the pairs joins `p` and `q`.
pub open spec fn paired(pairs: Seq<PadPair>, p: Point, q: Point) -> bool {
    exists|k: int| 0 <= k < pairs.len() && (#[trigger] pairs[k]).start == p && pairs[k].end == q
}

/// `pairs` holds each pair of pads of one net once, and nothing else; the
/// pair at place `k` has the number `k`.
pub open spec fn all_pairs(pads: Seq<Vec<Option<NetID>>>, pairs: Seq<PadPair>) -> bool {
    &&& forall|k: int|
        0 <= k < pairs.len() ==> joins_pads(pads, #[trigger] pairs[k]) && pairs[k].pad_pair_id
            == PadPairID(k as usize)
    &&& forall|p: Point, q: Point|
        id_at(pads, p) is Some && id_at(pads, p) == id_at(pads, q) && p.spec_precedes(q)
            ==> #[trigger] paired(pairs, p, q)
    &&& forall|j: int, k: int|
        0 <= j < k < pairs.len() ==> (#[trigger] pairs[j]).start != (#[trigger] pairs[k]).start
            || pairs[j].end != pairs[k].end
}

/// What fixing the pads of `input` gives: the same board, nets and pads,
/// every pair of pads of one net, no trace yet, and the first round of
/// sampling to come.
pub open spec fn initialized(input: ProbaGridProblem, grid: ProbaGrid) -> bool {
    &&& grid.wf()
    &&& grid.width == input.width
    &&& grid.height == input.height
    &&& grid.nets == input.nets
    &&& grid.net_to_pads == input.net_to_pads
    &&& all_pairs(grid.net_to_pads@, grid.pad_pairs@)
    &&& grid.traces@.len() == 0
    &&& grid.trace_collision_adjacency@.len() == 0
    &&& grid.next_iteration == 1
}

/// The pair joins the cells at two places of `cells` that come before the
/// places `(i, j)`, taken row by row.
pub open spec fn from_cells(pair: PadPair, cells: Seq<Point>, i: int, j: int) -> bool {
    exists|a: int, b: int|
        0 <= a < b < cells.len() && (a < i || (a == i && b < j)) && #[trigger] ends_are(
            pair,
            cells[a],
            cells[b],
        )
}

/// One of the pairs from place `from` on joins `p` and `q`.
pub open spec fn has_pair(pairs: Seq<PadPair>, from: int, p: Point, q: Point) -> bool {
    exists|k: int| from <= k < pairs.len() && #[trigger] ends_are(pairs[k], p, q)
}

/// The pair joins `p` and `q`, whichever comes first.
pub open spec fn ends_are(pair: PadPair, p: Point, q: Point) -> bool {
    (pair.start == p && pair.end == q) || (pair.start == q && pair.end == p)
}

/// Adds to `pairs` each pair of pads of the net `id`.
fn add_pairs_of_net(pads: &Vec<Vec<Option<NetID>>>, id: NetID, pairs: &mut Vec<PadPair>)
    requires
        forall|k: int|
            0 <= k < old(pairs)@.len() ==> joins_pads(pads@, #[trigger] old(pairs)@[k]) && old(pairs)@[k].pad_pair_id == PadPairID(k as usize) && old(pairs)@[k].net_id != id,
        forall|j: int, k: int|
            0 <= j < k < old(pairs)@.len() ==> (#[trigger] old(pairs)@[j]).start != (#[trigger] old(pairs)@[k]).start || old(pairs)@[j].end != old(pairs)@[k].end,
    ensures
        old(pairs)@.len() <= final(pairs)@.len(),
        forall|k: int| 0 <= k < old(pairs)@.len() ==> final(pairs)@[k] == old(pairs)@[k],
        forall|k: int|
            0 <= k < final(pairs)@.len() ==> joins_pads(pads@, #[trigger] final(pairs)@[k]) && final(pairs)@[k].pad_pair_id == PadPairID(k as usize),
        forall|k: int|
            old(pairs)@.len() <= k < final(pairs)@.len() ==> (#[trigger] final(pairs)@[k]).net_id == id,
        forall|p: Point, q: Point|
            id_at(pads@, p) == Some(id) && id_at(pads@, q) == Some(id) && p.spec_precedes(q)
                ==> #[trigger] paired(final(pairs)@, p, q),
        forall|j: int, k: int|
            0 <= j < k < final(pairs)@.len() ==> (#[trigger] final(pairs)@[j]).start != (
            #[trigger] final(pairs)@[k]).start || final(pairs)@[j].end != final(pairs)@[k].end,
{
    let cells = pads_of_net(pads, id);
    let ghost n0 = pairs@.len() as int;
    let mut i: usize = 0;
    while i < cells.len()
        invariant
            i <= cells@.len(),
            n0 == old(pairs)@.len(),
            n0 <= pairs@.len(),
            cells@.no_duplicates(),
            forall|p: Point| cells@.contains(p) <==> id_at(pads@, p) == Some(id),
            forall|k: int| 0 <= k < n0 ==> pairs@[k] == old(pairs)@[k] && pairs@[k].net_id != id,
            forall|k: int|
                0 <= k < pairs@.len() ==> joins_pads(pads@, #[trigger] pairs@[k]) && pairs@[k].pad_pair_id
                    == PadPairID(k as usize),
            forall|k: int|
                n0 <= k < pairs@.len() ==> (#[trigger] pairs@[k]).net_id == id && from_cells(
                    pairs@[k],
                    cells@,
                    i as int,
                    0,
                ),
            forall|a: int, b: int|
                0 <= a < b < cells@.len() && a < i ==> #[trigger] has_pair(
                    pairs@,
                    n0,
                    cells@[a],
                    cells@[b],
                ),
            forall|j: int, k: int|
                0 <= j < k < pairs@.len() ==> (#[trigger] pairs@[j]).start != (#[trigger] pairs@[k]).start
                    || pairs@[j].end != pairs@[k].end,
        decreases cells@.len() - i,
    {
        let mut j: usize = i + 1;
        proof {
            assert forall|k: int| n0 <= k < pairs@.len() implies from_cells(
                #[trigger] pairs@[k],
                cells@,
                i as int,
                i + 1,
            ) by {
                assert(from_cells(pairs@[k], cells@, i as int, 0));
                let (a, b) = choose|a: int, b: int|
                    0 <= a < b < cells@.len() && (a < i || (a == i && b < 0)) && #[trigger] ends_are(
                        pairs@[k],
                        cells@[a],
                        cells@[b],
                    );
                assert(ends_are(pairs@[k], cells@[a], cells@[b]));
            }
        }
        while j < cells.len()
            invariant
                i < cells@.len(),
                i < j <= cells@.len(),
                n0 == old(pairs)@.len(),
                n0 <= pairs@.len(),
                cells@.no_duplicates(),
                forall|p: Point| cells@.contains(p) <==> id_at(pads@, p) == Some(id),
                forall|k: int| 0 <= k < n0 ==> pairs@[k] == old(pairs)@[k] && pairs@[k].net_id != id,
                forall|k: int|
                    0 <= k < pairs@.len() ==> joins_pads(pads@, #[trigger] pairs@[k])
                        && pairs@[k].pad_pair_id == PadPairID(k as usize),
                forall|k: int|
                    n0 <= k < pairs@.len() ==> (#[trigger] pairs@[k]).net_id == id && from_cells(
                        pairs@[k],
                        cells@,
                        i as int,
                        j as int,
                    ),
                forall|a: int, b: int|
                    0 <= a < b < cells@.len() && (a < i || (a == i && b < j)) ==> #[trigger] has_pair(
                        pairs@,
                        n0,
                        cells@[a],
                        cells@[b],
                    ),
                forall|j: int, k: int|
                    0 <= j < k < pairs@.len() ==> (#[trigger] pairs@[j]).start != (
                    #[trigger] pairs@[k]).start || pairs@[j].end != pairs@[k].end,
            decreases cells@.len() - j,
        {
            let both = PointPair::new(cells[i], cells[j]);
            let pair = PadPair {
                net_id: id,
                pad_pair_id: PadPairID(pairs.len()),
                start: both.start(),
                end: both.end(),
            };
            let ghost before = pairs@;
            proof {
                assert(cells@.contains(cells@[i as int]));
                assert(cells@.contains(cells@[j as int]));
                assert(cells@[i as int] != cells@[j as int]);
                assert(ends_are(pair, cells@[i as int], cells@[j as int]));
                assert forall|k: int| 0 <= k < before.len() implies before[k].start != pair.start
                    || before[k].end != pair.end by {
                    if k >= n0 {
                        assert(from_cells(before[k], cells@, i as int, j as int));
                        let (a, b) = choose|a: int, b: int|
                            0 <= a < b < cells@.len() && (a < i || (a == i && b < j))
                                && #[trigger] ends_are(before[k], cells@[a], cells@[b]);
                        assert(ends_are(before[k], cells@[a], cells@[b]));
                    } else {
                        assert(joins_pads(pads@, before[k]));
                    }
                }
            }
            pairs.push(pair);
            proof {
                assert forall|k: int| n0 <= k < pairs@.len() implies (#[trigger] pairs@[k]).net_id == id
                    && from_cells(pairs@[k], cells@, i as int, j + 1) by {
                    if k < before.len() {
                        assert(pairs@[k] == before[k]);
                        assert(from_cells(before[k], cells@, i as int, j as int));
                        let (a, b) = choose|a: int, b: int|
                            0 <= a < b < cells@.len() && (a < i || (a == i && b < j))
                                && #[trigger] ends_are(before[k], cells@[a], cells@[b]);
                        assert(ends_are(pairs@[k], cells@[a], cells@[b]));
                    } else {
                        assert(ends_are(pairs@[k], cells@[i as int], cells@[j as int]));
                    }
                }
                assert forall|a: int, b: int|
                    0 <= a < b < cells@.len() && (a < i || (a == i && b < j + 1))
                    implies #[trigger] has_pair(pairs@, n0, cells@[a], cells@[b]) by {
                    if a == i && b == j {
                        assert(ends_are(pairs@[before.len() as int], cells@[a], cells@[b]));
                    } else {
                        assert(has_pair(before, n0, cells@[a], cells@[b]));
                        let k = choose|k: int|
                            n0 <= k < before.len() && #[trigger] ends_are(before[k], cells@[a], cells@[b]);
                        assert(pairs@[k] == before[k]);
                        assert(ends_are(pairs@[k], cells@[a], cells@[b]));
                    }
                }
                assert forall|a: int, b: int| 0 <= a < b < pairs@.len() implies (#[trigger] pairs@[a]).start
                    != (#[trigger] pairs@[b]).start || pairs@[a].end != pairs@[b].end by {
                    if b < before.len() {
                        assert(pairs@[a] == before[a]);
                        assert(pairs@[b] == before[b]);
                    } else {
                        assert(pairs@[a] == before[a]);
                    }
                }
                assert forall|k: int| 0 <= k < pairs@.len() implies joins_pads(pads@, #[trigger] pairs@[k])
                    && pairs@[k].pad_pair_id == PadPairID(k as usize) by {
                    if k < before.len() {
                        assert(pairs@[k] == before[k]);
                    }
                }
            }
            j += 1;
        }
        proof {
            assert forall|k: int| n0 <= k < pairs@.len() implies from_cells(
                #[trigger] pairs@[k],
                cells@,
                i + 1,
                0,
            ) by {
                assert(from_cells(pairs@[k], cells@, i as int, j as int));
                let (a, b) = choose|a: int, b: int|
                    0 <= a < b < cells@.len() && (a < i || (a == i && b < j)) && #[trigger] ends_are(
                        pairs@[k],
                        cells@[a],
                        cells@[b],
                    );
                assert(ends_are(pairs@[k], cells@[a], cells@[b]));
            }
        }
        i += 1;
    }
    proof {
        assert forall|p: Point, q: Point|
            id_at(pads@, p) == Some(id) && id_at(pads@, q) == Some(id) && p.spec_precedes(
                q,
            ) implies #[trigger] paired(pairs@, p, q) by {
            assert(cells@.contains(p));
            assert(cells@.contains(q));
            let a = choose|a: int| 0 <= a < cells@.len() && cells@[a] == p;
            let b = choose|b: int| 0 <= b < cells@.len() && cells@[b] == q;
            let (lo, hi) = if a < b { (a, b) } else { (b, a) };
            assert(has_pair(pairs@, n0, cells@[lo], cells@[hi]));
            let k = choose|k: int|
                n0 <= k < pairs@.len() && #[trigger] ends_are(pairs@[k], cells@[lo], cells@[hi]);
            assert(joins_pads(pads@, pairs@[k]));
        }
    }
}

/// One of the first `m` nets has the number `id`.
pub open spec fn among_first(nets: Seq<NetInfo>, m: int, id: NetID) -> bool {
    exists|a: int| 0 <= a < m && a < nets.len() && (#[trigger] nets[a]).net_id == id.0
}

/// Fixes the pads of the problem: every two pads of one net become a pair
/// of pads, numbered from 0 in the order of the nets. There is no trace yet,
/// and the first round of sampling is to come.
pub fn initialize_proba_grid(input: ProbaGridProblem) -> (res: Result<ProbaGrid, String>)
    requires
        input.wf(),
    ensures
        res is Ok,
        initialized(input, res.unwrap()),
{
    let mut pad_pairs: Vec<PadPair> = Vec::new();
    let mut m: usize = 0;
    while m < input.nets.len()
        invariant
            m <= input.nets@.len(),
            input.wf(),
            forall|k: int|
                0 <= k < pad_pairs@.len() ==> joins_pads(input.net_to_pads@, #[trigger] pad_pairs@[k])
                    && pad_pairs@[k].pad_pair_id == PadPairID(k as usize),
            forall|k: int|
                0 <= k < pad_pairs@.len() ==> among_first(
                    input.nets@,
                    m as int,
                    (#[trigger] pad_pairs@[k]).net_id,
                ),
            forall|p: Point, q: Point|
                id_at(input.net_to_pads@, p) is Some && id_at(input.net_to_pads@, p) == id_at(
                    input.net_to_pads@,
                    q,
                ) && p.spec_precedes(q) && among_first(
                    input.nets@,
                    m as int,
                    id_at(input.net_to_pads@, p).unwrap(),
                ) ==> #[trigger] paired(pad_pairs@, p, q),
            forall|j: int, k: int|
                0 <= j < k < pad_pairs@.len() ==> (#[trigger] pad_pairs@[j]).start != (
                #[trigger] pad_pairs@[k]).start || pad_pairs@[j].end != pad_pairs@[k].end,
        decreases input.nets@.len() - m,
    {
        let id = NetID(input.nets[m].net_id);
        let ghost before = pad_pairs@;
        proof {
            assert forall|k: int| 0 <= k < before.len() implies (#[trigger] before[k]).net_id != id by {
                assert(among_first(input.nets@, m as int, before[k].net_id));
                let a = choose|a: int|
                    0 <= a < m && a < input.nets@.len() && (#[trigger] input.nets@[a]).net_id
                        == before[k].net_id.0;
                assert(input.nets@[a].net_id != input.nets@[m as int].net_id);
            }
        }
        add_pairs_of_net(&input.net_to_pads, id, &mut pad_pairs);
        proof {
            assert forall|k: int| 0 <= k < pad_pairs@.len() implies among_first(
                input.nets@,
                m + 1,
                (#[trigger] pad_pairs@[k]).net_id,
            ) by {
                if k < before.len() {
                    assert(pad_pairs@[k] == before[k]);
                    assert(among_first(input.nets@, m as int, before[k].net_id));
                    let a = choose|a: int|
                        0 <= a < m && a < input.nets@.len() && (#[trigger] input.nets@[a]).net_id
                            == before[k].net_id.0;
                    assert(input.nets@[a].net_id == pad_pairs@[k].net_id.0);
                } else {
                    assert(input.nets@[m as int].net_id == pad_pairs@[k].net_id.0);
                }
            }
            assert forall|p: Point, q: Point|
                id_at(input.net_to_pads@, p) is Some && id_at(input.net_to_pads@, p) == id_at(
                    input.net_to_pads@,
                    q,
                ) && p.spec_precedes(q) && among_first(
                    input.nets@,
                    m + 1,
                    id_at(input.net_to_pads@, p).unwrap(),
                ) implies #[trigger] paired(pad_pairs@, p, q) by {
                let pid = id_at(input.net_to_pads@, p).unwrap();
                let a = choose|a: int|
                    0 <= a < m + 1 && a < input.nets@.len() && (#[trigger] input.nets@[a]).net_id == pid.0;
                if a < m {
                    assert(among_first(input.nets@, m as int, pid));
                    assert(paired(before, p, q));
                    let k = choose|k: int|
                        0 <= k < before.len() && (#[trigger] before[k]).start == p && before[k].end == q;
                    assert(pad_pairs@[k] == before[k]);
                } else {
                    assert(pid == id);
                }
            }
        }
        m += 1;
    }
    let grid = ProbaGrid {
        width: input.width,
        height: input.height,
        nets: input.nets,
        net_to_pads: input.net_to_pads,
        pad_pairs,
        traces: Vec::new(),
        trace_collision_adjacency: Vec::new(),
        next_iteration: 1,
    };
    proof {
        assert forall|p: Point, q: Point|
            id_at(grid.net_to_pads@, p) is Some && id_at(grid.net_to_pads@, p) == id_at(
                grid.net_to_pads@,
                q,
            ) && p.spec_precedes(q) implies #[trigger] paired(grid.pad_pairs@, p, q) by {
            let id = id_at(grid.net_to_pads@, p).unwrap();
            assert(info_of(grid.nets@, id) is Some);
            let a = choose|a: int| 0 <= a < grid.nets@.len() && (#[trigger] grid.nets@[a]).net_id == id.0;
            assert(among_first(input.nets@, m as int, id));
        }
        assert forall|k: int| 0 <= k < grid.pad_pairs@.len() implies #[trigger] grid.pair_wf(k) by {
            assert(joins_pads(grid.net_to_pads@, grid.pad_pairs@[k]));
        }
    }
    Ok(grid)
}

/// The nets that have a pair of pads, each once, in the order of their
/// first pairs.
pub open spec fn net_list(pairs: Seq<PadPair>) -> Seq<NetID>
    decreases pairs.len(),
{
    if pairs.len() == 0 {
        Seq::empty()
    } else {
        let before = net_list(pairs.drop_last());
        if before.contains(pairs.last().net_id) {
            before
        } else {
            before.push(pairs.last().net_id)
        }
    }
}

/// The nets that have a pair of pads, each once, in the order of their
/// first pairs. A round of sampling takes the nets in this order.
pub fn sampling_nets(pairs: &Vec<PadPair>) -> (nets: Vec<NetID>)
    ensures
        nets@ == net_list(pairs@),
{
    let mut nets: Vec<NetID> = Vec::new();
    let mut k: usize = 0;
    assert(pairs@.take(0) =~= Seq::<PadPair>::empty());
    while k < pairs.len()
        invariant
            k <= pairs@.len(),
            nets@ == net_list(pairs@.take(k as int)),
        decreases pairs@.len() - k,
    {
        let id = pairs[k].net_id;
        proof {
            let part = pairs@.take(k + 1);
            assert(part.drop_last() =~= pairs@.take(k as int));
            assert(part.last() == pairs@[k as int]);
        }
        let mut found = false;
        let mut i: usize = 0;
        while i < nets.len()
            invariant
                i <= nets@.len(),
                found == exists|j: int| 0 <= j < i && nets@[j] == id,
            decreases nets@.len() - i,
        {
            if nets[i] == id {
                found = true;
            }
            i += 1;
        }
        if !found {
            nets.push(id);
        }
        k += 1;
    }
    proof {
        assert(pairs@.take(pairs@.len() as int) =~= pairs@);
    }
    nets
}

/// The cells that the drawn traces occupy.
pub open spec fn drawn_cells(traces: Seq<TraceInfo>, drawn: Seq<TraceID>) -> Set<Point> {
    Set::new(
        |p: Point|
            exists|i: int|
                0 <= i < drawn.len() && traces[(#[trigger] drawn[i]).0 as int].trace_path.covered@.contains(
                    p,
                ),
    )
}

/// The blocks that the drawn traces cross diagonally.
pub open spec fn drawn_corners(traces: Seq<TraceInfo>, drawn: Seq<TraceID>) -> Set<Point> {
    Set::new(
        |p: Point|
            exists|i: int|
                0 <= i < drawn.len() && traces[(
                #[trigger] drawn[i]).0 as int].trace_path.diagonal_covered@.contains(p),
    )
}

/// The search for a new trace of the pair of pads `pair`: the drawn traces
/// are in its way, and nothing else.
pub open spec fn sampling_maze(
    width: usize,
    height: usize,
    traces: Seq<TraceInfo>,
    pair: PadPair,
    drawn: Seq<TraceID>,
) -> Maze {
    Maze {
        width: width as int,
        height: height as int,
        obstacles: drawn_cells(traces, drawn),
        diagonal_obstacles: drawn_corners(traces, drawn),
        start: pair.start,
        end: pair.end,
    }
}

/// The traces drawn for one attempt of the net `net` are traces of the
/// board, none of them of that net, and no two of them of one pair of pads.
pub open spec fn valid_draw(traces: Seq<TraceInfo>, net: NetID, drawn: Seq<TraceID>) -> bool {
    &&& forall|i: int|
        0 <= i < drawn.len() ==> (#[trigger] drawn[i]).0 < traces.len() && traces[drawn[i].0 as int].net_id
            != net
    &&& forall|i: int, j: int|
        0 <= i < j < drawn.len() ==> traces[(#[trigger] drawn[i]).0 as int].pad_pair_id != traces[(
        #[trigger] drawn[j]).0 as int].pad_pair_id
}

/// Whether the traces drawn for one attempt of the net `net` are valid.
pub fn check_draw(traces: &Vec<TraceInfo>, net: NetID, drawn: &Vec<TraceID>) -> (ok: bool)
    ensures
        ok == valid_draw(traces@, net, drawn@),
{
    let mut i: usize = 0;
    while i < drawn.len()
        invariant
            i <= drawn@.len(),
            forall|a: int|
                0 <= a < i ==> (#[trigger] drawn@[a]).0 < traces@.len() && traces@[drawn@[a].0 as int].net_id
                    != net,
            forall|a: int, b: int|
                0 <= a < b < i ==> traces@[(#[trigger] drawn@[a]).0 as int].pad_pair_id != traces@[(
                #[trigger] drawn@[b]).0 as int].pad_pair_id,
        decreases drawn@.len() - i,
    {
        let id = drawn[i];
        if id.0 >= traces.len() {
            return false;
        }
        if traces[id.0].net_id == net {
            return false;
        }
        let mut a: usize = 0;
        while a < i
            invariant
                a <= i,
                i < drawn@.len(),
                id == drawn@[i as int],
                id.0 < traces@.len(),
                forall|b: int| 0 <= b < i ==> (#[trigger] drawn@[b]).0 < traces@.len(),
                forall|b: int|
                    0 <= b < a ==> traces@[(#[trigger] drawn@[b]).0 as int].pad_pair_id
                        != traces@[id.0 as int].pad_pair_id,
            decreases i - a,
        {
            if traces[drawn[a].0].pad_pair_id == traces[id.0].pad_pair_id {
                return false;
            }
            a += 1;
        }
        i += 1;
    }
    true
}

/// The draws of a round: for each net of `net_list`, in that order, the
/// traces drawn for each of its attempts.
pub open spec fn valid_draws(grid: &ProbaGrid, draws: Seq<Vec<Vec<TraceID>>>) -> bool {
    &&& draws.len() == net_list(grid.pad_pairs@).len()
    &&& forall|n: int, a: int|
        0 <= n < draws.len() && 0 <= a < draws[n]@.len() ==> valid_draw(
            grid.traces@,
            net_list(grid.pad_pairs@)[n],
            (#[trigger] draws[n]@[a])@,
        )
}

/// Whether the draws of a round are valid.
pub fn check_draws(grid: &ProbaGrid, nets: &Vec<NetID>, draws: &Vec<Vec<Vec<TraceID>>>) -> (ok: bool)
    requires
        nets@ == net_list(grid.pad_pairs@),
    ensures
        ok == valid_draws(grid, draws@),
{
    if draws.len() != nets.len() {
        return false;
    }
    let mut n: usize = 0;
    while n < draws.len()
        invariant
            n <= draws@.len(),
            draws@.len() == nets@.len(),
            nets@ == net_list(grid.pad_pairs@),
            forall|m: int, a: int|
                0 <= m < n && 0 <= a < draws@[m]@.len() ==> valid_draw(
                    grid.traces@,
                    nets@[m],
                    (#[trigger] draws@[m]@[a])@,
                ),
        decreases draws@.len() - n,
    {
        let mut a: usize = 0;
        while a < draws[n].len()
            invariant
                n < draws@.len(),
                a <= draws@[n as int]@.len(),
                draws@.len() == nets@.len(),
                nets@ == net_list(grid.pad_pairs@),
                forall|b: int|
                    0 <= b < a ==> valid_draw(grid.traces@, nets@[n as int], (#[trigger] draws@[n as int]@[b])@),
            decreases draws@[n as int]@.len() - a,
        {
            if !check_draw(&grid.traces, nets[n], &draws[n][a]) {
                proof {
                    assert(!valid_draw(grid.traces@, nets@[n as int], draws@[n as int]@[a as int]@));
                }
                return false;
            }
            a += 1;
        }
        n += 1;
    }
    true
}

/// The cells and the blocks of the drawn traces.
pub fn gather_obstacles(traces: &Vec<TraceInfo>, drawn: &Vec<TraceID>) -> (found: (Vec<Point>, Vec<Point>))
    requires
        forall|i: int| 0 <= i < drawn@.len() ==> (#[trigger] drawn@[i]).0 < traces@.len(),
    ensures
        found.0@.to_set() == drawn_cells(traces@, drawn@),
        found.1@.to_set() == drawn_corners(traces@, drawn@),
{
    let mut cells: Vec<Point> = Vec::new();
    let mut corners: Vec<Point> = Vec::new();
    let mut i: usize = 0;
    while i < drawn.len()
        invariant
            i <= drawn@.len(),
            forall|a: int| 0 <= a < drawn@.len() ==> (#[trigger] drawn@[a]).0 < traces@.len(),
            forall|p: Point|
                cells@.contains(p) <==> exists|a: int|
                    0 <= a < i && traces@[(#[trigger] drawn@[a]).0 as int].trace_path.covered@.contains(p),
            forall|p: Point|
                corners@.contains(p) <==> exists|a: int|
                    0 <= a < i && traces@[(
                    #[trigger] drawn@[a]).0 as int].trace_path.diagonal_covered@.contains(p),
        decreases drawn@.len() - i,
    {
        let t = &traces[drawn[i].0];
        let ghost cells_before = cells@;
        let ghost corners_before = corners@;
        append_points(&mut cells, &t.trace_path.covered);
        append_points(&mut corners, &t.trace_path.diagonal_covered);
        proof {
            assert forall|p: Point|
                cells@.contains(p) <==> exists|a: int|
                    0 <= a < i + 1 && traces@[(#[trigger] drawn@[a]).0 as int].trace_path.covered@.contains(
                        p,
                    ) by {
                if cells_before.contains(p) {
                    let a = choose|a: int|
                        0 <= a < i && traces@[(#[trigger] drawn@[a]).0 as int].trace_path.covered@.contains(
                            p,
                        );
                    assert(0 <= a < i + 1);
                }
                if t.trace_path.covered@.contains(p) {
                    assert(traces@[drawn@[i as int].0 as int].trace_path.covered@.contains(p));
                }
                if exists|a: int|
                    0 <= a < i + 1 && traces@[(#[trigger] drawn@[a]).0 as int].trace_path.covered@.contains(
                        p,
                    ) {
                    let a = choose|a: int|
                        0 <= a < i + 1 && traces@[(
                        #[trigger] drawn@[a]).0 as int].trace_path.covered@.contains(p);
                    if a < i {
                        assert(cells_before.contains(p));
                    }
                }
            }
            assert forall|p: Point|
                corners@.contains(p) <==> exists|a: int|
                    0 <= a < i + 1 && traces@[(
                    #[trigger] drawn@[a]).0 as int].trace_path.diagonal_covered@.contains(p) by {
                if corners_before.contains(p) {
                    let a = choose|a: int|
                        0 <= a < i && traces@[(
                        #[trigger] drawn@[a]).0 as int].trace_path.diagonal_covered@.contains(p);
                    assert(0 <= a < i + 1);
                }
                if t.trace_path.diagonal_covered@.contains(p) {
                    assert(traces@[drawn@[i as int].0 as int].trace_path.diagonal_covered@.contains(p));
                }
                if exists|a: int|
                    0 <= a < i + 1 && traces@[(
                    #[trigger] drawn@[a]).0 as int].trace_path.diagonal_covered@.contains(p) {
                    let a = choose|a: int|
                        0 <= a < i + 1 && traces@[(
                        #[trigger] drawn@[a]).0 as int].trace_path.diagonal_covered@.contains(p);
                    if a < i {
                        assert(corners_before.contains(p));
                    }
                }
            }
        }
        i += 1;
    }
    proof {
        assert(cells@.to_set() =~= drawn_cells(traces@, drawn@));
        assert(corners@.to_set() =~= drawn_corners(traces@, drawn@));
    }
    (cells, corners)
}

/// Appends the points of `more` to `points`.
fn append_points(points: &mut Vec<Point>, more: &Vec<Point>)
    ensures
        forall|p: Point| final(points)@.contains(p) <==> (old(points)@.contains(p) || more@.contains(p)),
{
    let mut i: usize = 0;
    while i < more.len()
        invariant
            i <= more@.len(),
            forall|p: Point|
                points@.contains(p) <==> (old(points)@.contains(p) || exists|a: int|
                    0 <= a < i && more@[a] == p),
        decreases more@.len() - i,
    {
        let ghost before = points@;
        points.push(more[i]);
        proof {
            assert forall|p: Point|
                points@.contains(p) <==> (old(points)@.contains(p) || exists|a: int|
                    0 <= a < i + 1 && more@[a] == p) by {
                if before.contains(p) {
                    let j = choose|j: int| 0 <= j < before.len() && before[j] == p;
                    assert(points@[j] == p);
                }
                if p == more@[i as int] {
                    assert(points@[before.len() as int] == p);
                }
                if points@.contains(p) {
                    let j = choose|j: int| 0 <= j < points@.len() && points@[j] == p;
                    if j < before.len() {
                        assert(before[j] == p);
                    }
                }
            }
        }
        i += 1;
    }
}

/// One of the traces occupies the cells `cells` and crosses the blocks `corners`.
pub open spec fn path_present(traces: Seq<TraceInfo>, cells: Seq<Point>, corners: Seq<Point>) -> bool {
    exists|j: int|
        0 <= j < traces.len() && (#[trigger] traces[j]).trace_path.covered@.to_set() == cells.to_set()
            && traces[j].trace_path.diagonal_covered@.to_set() == corners.to_set()
}

/// Whether one of the traces is the same as `path`.
pub fn find_same_path(traces: &Vec<TraceInfo>, path: &TracePath) -> (found: bool)
    ensures
        found == path_present(traces@, path.covered@, path.diagonal_covered@),
{
    let mut j: usize = 0;
    while j < traces.len()
        invariant
            j <= traces@.len(),
            forall|k: int| 0 <= k < j ==> !(#[trigger] traces@[k]).trace_path.spec_same_as(path),
        decreases traces@.len() - j,
    {
        if traces[j].trace_path.same_as(path) {
            return true;
        }
        j += 1;
    }
    proof {
        if path_present(traces@, path.covered@, path.diagonal_covered@) {
            let k = choose|k: int|
                0 <= k < traces@.len() && (#[trigger] traces@[k]).trace_path.covered@.to_set()
                    == path.covered@.to_set() && traces@[k].trace_path.diagonal_covered@.to_set()
                    == path.diagonal_covered@.to_set();
            assert(traces@[k].trace_path.spec_same_as(path));
        }
    }
    false
}

/// The number of traces of the pair of pads `pair` found in the round `iteration`.
pub fn count_traces(traces: &Vec<TraceInfo>, pair: PadPairID, iteration: usize) -> (num: usize)
    ensures
        num == count_same(traces@, pair, iteration, traces@.len() as int),
{
    let mut num: usize = 0;
    let mut i: usize = 0;
    while i < traces.len()
        invariant
            i <= traces@.len(),
            num == count_same(traces@, pair, iteration, i as int),
            num <= i,
        decreases traces@.len() - i,
    {
        if traces[i].pad_pair_id == pair && traces[i].iteration == iteration {
            num += 1;
        }
        i += 1;
    }
    num
}

/// `t` is the trace that the search `maze` finds for the pair of pads
/// `pair`: the chosen shortest path, numbered `place`, of the round `iteration`.
pub open spec fn is_sample(maze: Maze, pair: PadPair, t: TraceInfo, iteration: usize, place: int) -> bool {
    &&& t.net_id == pair.net_id
    &&& t.pad_pair_id == pair.pad_pair_id
    &&& t.trace_id == TraceID(place as usize)
    &&& t.start == pair.start
    &&& t.end == pair.end
    &&& t.trace_path.covered@ == maze.shortest_route()
    &&& t.trace_path.diagonal_covered@ == corners_of(maze.shortest_route())
    &&& t.trace_directions@ == directions_of(maze.shortest_route())
    &&& t.trace_length@ == maze.distance(maze.end)
    &&& t.iteration == iteration
}

/// What holds of the board during a round of sampling: the traces of the
/// round are there already, the round is not yet counted.
pub open spec fn sampling_wf(grid: &ProbaGrid) -> bool {
    &&& grid.board_wf()
    &&& grid.traces_wf(grid.next_iteration + 1)
    &&& grid.width * grid.height <= usize::MAX
    &&& grid.next_iteration < usize::MAX
}

/// The two states have the same board, nets, pads, pairs of pads and round.
pub open spec fn same_board(a: &ProbaGrid, b: &ProbaGrid) -> bool {
    &&& a.width == b.width
    &&& a.height == b.height
    &&& a.nets == b.nets
    &&& a.net_to_pads == b.net_to_pads
    &&& a.pad_pairs == b.pad_pairs
    &&& a.next_iteration == b.next_iteration
    &&& a.trace_collision_adjacency == b.trace_collision_adjacency
}

/// `after` holds the traces of `before`, and maybe more behind them.
pub open spec fn extends(before: Seq<TraceInfo>, after: Seq<TraceInfo>) -> bool {
    &&& before.len() <= after.len()
    &&& forall|k: int| 0 <= k < before.len() ==> #[trigger] after[k] == before[k]
}

/// Counting up to a place among the traces of `before` gives the same in `after`.
pub proof fn lemma_count_prefix(
    before: Seq<TraceInfo>,
    after: Seq<TraceInfo>,
    pair: PadPairID,
    iteration: usize,
    n: int,
)
    requires
        extends(before, after),
        0 <= n <= before.len(),
    ensures
        count_same(after, pair, iteration, n) == count_same(before, pair, iteration, n),
    decreases n,
{
    if n > 0 {
        lemma_count_prefix(before, after, pair, iteration, n - 1);
        assert(after[n - 1] == before[n - 1]);
    }
}

/// More traces count no less.
pub proof fn lemma_count_grows(traces: Seq<TraceInfo>, pair: PadPairID, iteration: usize, m: int, n: int)
    requires
        0 <= m <= n,
    ensures
        count_same(traces, pair, iteration, m) <= count_same(traces, pair, iteration, n),
    decreases n - m,
{
    if m < n {
        lemma_count_grows(traces, pair, iteration, m, n - 1);
    }
}

/// Traces of an earlier round do not count for a round.
pub proof fn lemma_count_none(traces: Seq<TraceInfo>, pair: PadPairID, iteration: usize, n: int)
    requires
        0 <= n <= traces.len(),
        forall|k: int| 0 <= k < n ==> (#[trigger] traces[k]).iteration != iteration,
    ensures
        count_same(traces, pair, iteration, n) == 0,
    decreases n,
{
    if n > 0 {
        lemma_count_none(traces, pair, iteration, n - 1);
    }
}

/// The attempt of the pair of pads at place `k` around the traces `drawn`
/// is accounted for: if the pair has not got its share of traces and the
/// search has a path, a trace with that path is there.
pub open spec fn tried(
    grid: &ProbaGrid,
    base: Seq<TraceInfo>,
    iteration: usize,
    k: int,
    drawn: Seq<TraceID>,
) -> bool {
    let pair = grid.pad_pairs@[k];
    let maze = sampling_maze(grid.width, grid.height, base, pair, drawn);
    count_same(grid.traces@, pair.pad_pair_id, iteration, grid.traces@.len() as int)
        < MAX_TRACES_PER_ITERATION && maze.reachable(maze.end) ==> path_present(
        grid.traces@,
        maze.shortest_route(),
        corners_of(maze.shortest_route()),
    )
}

/// The attempt around the traces `drawn` is accounted for with every pair
/// of pads of the net `net` among the first `upto` pairs.
pub open spec fn tried_all(
    grid: &ProbaGrid,
    base: Seq<TraceInfo>,
    iteration: usize,
    net: NetID,
    drawn: Seq<TraceID>,
    upto: int,
) -> bool {
    forall|k: int|
        0 <= k < upto && k < grid.pad_pairs@.len() && (#[trigger] grid.pad_pairs@[k]).net_id == net
            ==> tried(grid, base, iteration, k, drawn)
}

/// What was accounted for stays so when traces are added.
pub proof fn lemma_tried_all_stays(
    before: &ProbaGrid,
    after: &ProbaGrid,
    base: Seq<TraceInfo>,
    iteration: usize,
    net: NetID,
    drawn: Seq<TraceID>,
    upto: int,
)
    requires
        before.width == after.width,
        before.height == after.height,
        before.pad_pairs == after.pad_pairs,
        extends(before.traces@, after.traces@),
        tried_all(before, base, iteration, net, drawn, upto),
    ensures
        tried_all(after, base, iteration, net, drawn, upto),
{
    assert forall|k: int|
        0 <= k < upto && k < after.pad_pairs@.len() && (#[trigger] after.pad_pairs@[k]).net_id
            == net implies tried(after, base, iteration, k, drawn) by {
        let pair = after.pad_pairs@[k];
        assert(before.pad_pairs@[k] == pair);
        assert(tried(before, base, iteration, k, drawn));
        lemma_count_prefix(
            before.traces@,
            after.traces@,
            pair.pad_pair_id,
            iteration,
            before.traces@.len() as int,
        );
        lemma_count_grows(
            after.traces@,
            pair.pad_pair_id,
            iteration,
            before.traces@.len() as int,
            after.traces@.len() as int,
        );
        let maze = sampling_maze(after.width, after.height, base, pair, drawn);
        let route = maze.shortest_route();
        if path_present(before.traces@, route, corners_of(route)) {
            let j = choose|j: int|
                0 <= j < before.traces@.len() && (#[trigger] before.traces@[j]).trace_path.covered@.to_set()
                    == route.to_set() && before.traces@[j].trace_path.diagonal_covered@.to_set()
                    == corners_of(route).to_set();
            assert(after.traces@[j] == before.traces@[j]);
        }
    }
}

/// The number of attempts that a net makes with the draws given for it.
pub open spec fn attempts(draws: Seq<Vec<TraceID>>) -> int {
    if draws.len() < MAX_GENERATION_ATTEMPTS {
        draws.len() as int
    } else {
        MAX_GENERATION_ATTEMPTS as int
    }
}

/// The trace `t` at place `place` was found in this round, in an attempt of
/// its net, around the traces drawn for that attempt.
pub open spec fn found_in_round(
    width: usize,
    height: usize,
    pairs: Seq<PadPair>,
    base: Seq<TraceInfo>,
    iteration: usize,
    draws: Seq<Vec<Vec<TraceID>>>,
    t: TraceInfo,
    place: int,
) -> bool {
    exists|n: int, a: int|
        0 <= n < draws.len() && n < net_list(pairs).len() && 0 <= a < attempts(draws[n]@) && net_list(
            pairs,
        )[n] == t.net_id && t.pad_pair_id.0 < pairs.len() && #[trigger] is_sample(
            sampling_maze(width, height, base, pairs[t.pad_pair_id.0 as int], draws[n]@[a]@),
            pairs[t.pad_pair_id.0 as int],
            t,
            iteration,
            place,
        )
}

/// Drawn traces that are traces of `before` cover the same in `after`.
pub proof fn lemma_drawn_same(before: Seq<TraceInfo>, after: Seq<TraceInfo>, drawn: Seq<TraceID>)
    requires
        extends(before, after),
        forall|i: int| 0 <= i < drawn.len() ==> (#[trigger] drawn[i]).0 < before.len(),
    ensures
        drawn_cells(after, drawn) == drawn_cells(before, drawn),
        drawn_corners(after, drawn) == drawn_corners(before, drawn),
{
    assert forall|p: Point| drawn_cells(after, drawn).contains(p) <==> drawn_cells(before, drawn).contains(
        p,
    ) by {
        if drawn_cells(after, drawn).contains(p) {
            let i = choose|i: int|
                0 <= i < drawn.len() && after[(#[trigger] drawn[i]).0 as int].trace_path.covered@.contains(p);
            assert(after[drawn[i].0 as int] == before[drawn[i].0 as int]);
        }
        if drawn_cells(before, drawn).contains(p) {
            let i = choose|i: int|
                0 <= i < drawn.len() && before[(#[trigger] drawn[i]).0 as int].trace_path.covered@.contains(
                    p,
                );
            assert(after[drawn[i].0 as int] == before[drawn[i].0 as int]);
        }
    }
    assert forall|p: Point|
        drawn_corners(after, drawn).contains(p) <==> drawn_corners(before, drawn).contains(p) by {
        if drawn_corners(after, drawn).contains(p) {
            let i = choose|i: int|
                0 <= i < drawn.len() && after[(
                #[trigger] drawn[i]).0 as int].trace_path.diagonal_covered@.contains(p);
            assert(after[drawn[i].0 as int] == before[drawn[i].0 as int]);
        }
        if drawn_corners(before, drawn).contains(p) {
            let i = choose|i: int|
                0 <= i < drawn.len() && before[(
                #[trigger] drawn[i]).0 as int].trace_path.diagonal_covered@.contains(p);
            assert(after[drawn[i].0 as int] == before[drawn[i].0 as int]);
        }
    }
    assert(drawn_cells(after, drawn) =~= drawn_cells(before, drawn));
    assert(drawn_corners(after, drawn) =~= drawn_corners(before, drawn));
}

/// Searches a trace for the pair of pads at place `k` and takes it among
/// the traces unless a trace with the same path is there.
fn sample_pair(grid: &mut ProbaGrid, model: &DijkstraModel, k: usize) -> (added: bool)
    requires
        sampling_wf(old(grid)),
        k < old(grid).pad_pairs@.len(),
        model.width == old(grid).width,
        model.height == old(grid).height,
        model.start == old(grid).pad_pairs@[k as int].start,
        model.end == old(grid).pad_pairs@[k as int].end,
    ensures
        sampling_wf(final(grid)),
        same_board(old(grid), final(grid)),
        extends(old(grid).traces@, final(grid).traces@),
        added == (model@.reachable(model@.end) && !path_present(
            old(grid).traces@,
            model@.shortest_route(),
            corners_of(model@.shortest_route()),
        )),
        model@.reachable(model@.end) ==> path_present(
            final(grid).traces@,
            model@.shortest_route(),
            corners_of(model@.shortest_route()),
        ),
        !added ==> final(grid).traces@ == old(grid).traces@,
        added ==> final(grid).traces@.len() == old(grid).traces@.len() + 1 && is_sample(
            model@,
            old(grid).pad_pairs@[k as int],
            final(grid).traces@.last(),
            old(grid).next_iteration,
            old(grid).traces@.len() as int,
        ),
{
    let pair = grid.pad_pairs[k];
    assert(grid.pair_wf(k as int));
    match model.run() {
        Err(_) => false,
        Ok(found) => {
            let ghost maze = model@;
            let ghost route = maze.shortest_route();
            if find_same_path(&grid.traces, &found.trace_path) {
                false
            } else {
                let ghost before = grid.traces@;
                let t = TraceInfo {
                    net_id: pair.net_id,
                    pad_pair_id: pair.pad_pair_id,
                    trace_id: TraceID(grid.traces.len()),
                    start: pair.start,
                    end: pair.end,
                    trace_path: found.trace_path,
                    trace_directions: found.trace_directions,
                    trace_length: found.distance,
                    iteration: grid.next_iteration,
                };
                proof {
                    assert forall|i: int| 0 <= i < route.len() implies maze.inside(#[trigger] route[i]) by {
                        if i > 0 {
                            assert(maze.legal_step(route[i - 1], route[i]));
                        }
                    }
                }
                grid.traces.push(t);
                proof {
                    let limit = grid.next_iteration + 1;
                    assert(grid.traces@.last() == t);
                    assert forall|j: int| 0 <= j < grid.traces@.len() implies #[trigger] grid.trace_wf(
                        j,
                        limit,
                    ) by {
                        if j < before.len() {
                            assert(grid.traces@[j] == before[j]);
                            assert(old(grid).trace_wf(j, limit));
                        }
                    }
                    assert forall|i: int, j: int| 0 <= i < j < grid.traces@.len() implies !(
                    #[trigger] grid.traces@[i]).trace_path.spec_same_as(
                        &(#[trigger] grid.traces@[j]).trace_path,
                    ) by {
                        assert(grid.traces@[i] == before[i]);
                        if j < before.len() {
                            assert(grid.traces@[j] == before[j]);
                        }
                    }
                    assert(grid.traces@[before.len() as int].trace_path.covered@.to_set() == route.to_set());
                    assert(forall|j: int| 0 <= j < grid.pad_pairs@.len() ==> grid.pair_wf(j) == old(grid).pair_wf(j));
                }
                true
            }
        },
    }
}

/// `table` holds for each trace the traces of other nets that collide with it.
pub open spec fn collisions(traces: Seq<TraceInfo>, table: Seq<Vec<TraceID>>) -> bool {
    &&& table.len() == traces.len()
    &&& forall|t: int, id: TraceID|
        0 <= t < traces.len() ==> (#[trigger] table[t]@.contains(id) <==> (id.0 < traces.len()
            && traces[t].net_id != traces[id.0 as int].net_id && traces[t].trace_path.spec_collides_with(
            &traces[id.0 as int].trace_path,
        )))
}

/// For each trace, the traces of other nets that collide with it.
pub fn collisions_of(traces: &Vec<TraceInfo>) -> (table: Vec<Vec<TraceID>>)
    ensures
        collisions(traces@, table@),
{
    let mut table: Vec<Vec<TraceID>> = Vec::new();
    let mut t: usize = 0;
    while t < traces.len()
        invariant
            t <= traces@.len(),
            table@.len() == t,
            forall|a: int, id: TraceID|
                0 <= a < t ==> (#[trigger] table@[a]@.contains(id) <==> (id.0 < traces@.len()
                    && traces@[a].net_id != traces@[id.0 as int].net_id
                    && traces@[a].trace_path.spec_collides_with(&traces@[id.0 as int].trace_path))),
        decreases traces@.len() - t,
    {
        let mut row: Vec<TraceID> = Vec::new();
        let mut u: usize = 0;
        while u < traces.len()
            invariant
                u <= traces@.len(),
                t < traces@.len(),
                forall|id: TraceID|
                    row@.contains(id) <==> (id.0 < u && traces@[t as int].net_id != traces@[id.0 as int].net_id
                        && traces@[t as int].trace_path.spec_collides_with(
                        &traces@[id.0 as int].trace_path,
                    )),
            decreases traces@.len() - u,
        {
            let ghost before = row@;
            let hit = traces[t].net_id != traces[u].net_id && traces[t].trace_path.collides_with(
                &traces[u].trace_path,
            );
            if hit {
                row.push(TraceID(u));
            }
            proof {
                assert forall|id: TraceID|
                    row@.contains(id) <==> (id.0 < u + 1 && traces@[t as int].net_id
                        != traces@[id.0 as int].net_id && traces@[t as int].trace_path.spec_collides_with(
                        &traces@[id.0 as int].trace_path,
                    )) by {
                    if before.contains(id) {
                        let j = choose|j: int| 0 <= j < before.len() && before[j] == id;
                        assert(row@[j] == id);
                    }
                    if hit && id == TraceID(u) {
                        assert(row@[before.len() as int] == id);
                    }
                    if row@.contains(id) {
                        let j = choose|j: int| 0 <= j < row@.len() && row@[j] == id;
                        if j < before.len() {
                            assert(before[j] == id);
                        }
                    }
                }
            }
            u += 1;
        }
        let ghost old_table = table@;
        table.push(row);
        proof {
            assert forall|a: int, id: TraceID| 0 <= a < t + 1 implies (#[trigger] table@[a]@.contains(id) <==> (
            id.0 < traces@.len() && traces@[a].net_id != traces@[id.0 as int].net_id
                && traces@[a].trace_path.spec_collides_with(&traces@[id.0 as int].trace_path))) by {
                if a < t {
                    assert(table@[a] == old_table[a]);
                }
            }
        }
        t += 1;
    }
    table
}

/// What a round of sampling reports when the draws do not fit the board.
pub open spec fn invalid_draws_message() -> Seq<char> {
    "The draws do not fit the nets and traces of the board"@
}

/// Some pair of pads of the net has not got its share of traces of the round.
pub open spec fn has_open_pair(grid: &ProbaGrid, iteration: usize, net: NetID) -> bool {
    exists|k: int|
        0 <= k < grid.pad_pairs@.len() && (#[trigger] grid.pad_pairs@[k]).net_id == net && count_same(
            grid.traces@,
            grid.pad_pairs@[k].pad_pair_id,
            iteration,
            grid.traces@.len() as int,
        ) < MAX_TRACES_PER_ITERATION
}

/// Whether some pair of pads of the net has not got its share of traces of
/// the round.
fn any_open_pair(grid: &ProbaGrid, iteration: usize, net: NetID) -> (open: bool)
    ensures
        open == has_open_pair(grid, iteration, net),
{
    let mut k: usize = 0;
    while k < grid.pad_pairs.len()
        invariant
            k <= grid.pad_pairs@.len(),
            forall|j: int|
                0 <= j < k && (#[trigger] grid.pad_pairs@[j]).net_id == net ==> count_same(
                    grid.traces@,
                    grid.pad_pairs@[j].pad_pair_id,
                    iteration,
                    grid.traces@.len() as int,
                ) >= MAX_TRACES_PER_ITERATION,
        decreases grid.pad_pairs@.len() - k,
    {
        if grid.pad_pairs[k].net_id == net && count_traces(
            &grid.traces,
            grid.pad_pairs[k].pad_pair_id,
            iteration,
        ) < MAX_TRACES_PER_ITERATION {
            return true;
        }
        k += 1;
    }
    false
}

/// No pair of pads has more than its share of traces of the round.
pub open spec fn within_quota(grid: &ProbaGrid, iteration: usize) -> bool {
    forall|k: int|
        0 <= k < grid.pad_pairs@.len() ==> count_same(
            grid.traces@,
            (#[trigger] grid.pad_pairs@[k]).pad_pair_id,
            iteration,
            grid.traces@.len() as int,
        ) <= MAX_TRACES_PER_ITERATION
}

/// Every trace behind those of `base` was found in this round.
pub open spec fn all_found_in_round(
    width: usize,
    height: usize,
    pairs: Seq<PadPair>,
    traces: Seq<TraceInfo>,
    base: Seq<TraceInfo>,
    iteration: usize,
    draws: Seq<Vec<Vec<TraceID>>>,
) -> bool {
    forall|k: int|
        base.len() <= k < traces.len() ==> found_in_round(
            width,
            height,
            pairs,
            base,
            iteration,
            draws,
            #[trigger] traces[k],
            k,
        )
}

/// Every attempt of each of the first `upto` nets is accounted for.
pub open spec fn nets_tried(
    grid: &ProbaGrid,
    base: Seq<TraceInfo>,
    iteration: usize,
    draws: Seq<Vec<Vec<TraceID>>>,
    upto: int,
) -> bool {
    forall|n: int, a: int|
        0 <= n < upto && n < draws.len() && 0 <= a < attempts(draws[n]@) ==> tried_all(
            grid,
            base,
            iteration,
            net_list(grid.pad_pairs@)[n],
            (#[trigger] draws[n]@[a])@,
            grid.pad_pairs@.len() as int,
        )
}

/// What a round of sampling makes of the board `before`, with the draws
/// `draws`: the traces of `before` stay; each new trace is the chosen
/// shortest path of a pair of pads around the traces drawn for an attempt
/// of its net; no pair of pads gets more than its share, and no path comes
/// twice; each attempt is accounted for; the table of collisions is that of
/// all traces; and the round is counted.
pub open spec fn sampled(before: &ProbaGrid, draws: Seq<Vec<Vec<TraceID>>>, after: &ProbaGrid) -> bool {
    &&& after.wf()
    &&& after.width == before.width
    &&& after.height == before.height
    &&& after.nets == before.nets
    &&& after.net_to_pads == before.net_to_pads
    &&& after.pad_pairs == before.pad_pairs
    &&& after.next_iteration == before.next_iteration + 1
    &&& extends(before.traces@, after.traces@)
    &&& all_found_in_round(
        after.width,
        after.height,
        after.pad_pairs@,
        after.traces@,
        before.traces@,
        before.next_iteration,
        draws,
    )
    &&& within_quota(after, before.next_iteration)
    &&& nets_tried(after, before.traces@, before.next_iteration, draws, draws.len() as int)
    &&& collisions(after.traces@, after.trace_collision_adjacency@)
}

/// Every trace from place `from` on is the trace that the pair of pads it
/// belongs to, a pair of the net `net`, finds around the traces `drawn`.
pub open spec fn samples_of(
    grid: &ProbaGrid,
    base: Seq<TraceInfo>,
    iteration: usize,
    net: NetID,
    drawn: Seq<TraceID>,
    from: int,
) -> bool {
    forall|k: int|
        from <= k < grid.traces@.len() ==> {
            let t = #[trigger] grid.traces@[k];
            &&& t.net_id == net
            &&& t.pad_pair_id.0 < grid.pad_pairs@.len()
            &&& is_sample(
                sampling_maze(
                    grid.width,
                    grid.height,
                    base,
                    grid.pad_pairs@[t.pad_pair_id.0 as int],
                    drawn,
                ),
                grid.pad_pairs@[t.pad_pair_id.0 as int],
                t,
                iteration,
                k,
            )
        }
}

/// A trace more counts for its pair of pads and its round, and for no other.
pub proof fn lemma_count_push(before: Seq<TraceInfo>, after: Seq<TraceInfo>, pair: PadPairID, iteration: usize)
    requires
        extends(before, after),
        after.len() == before.len() + 1,
    ensures
        count_same(after, pair, iteration, after.len() as int) == count_same(
            before,
            pair,
            iteration,
            before.len() as int,
        ) + if after.last().pad_pair_id == pair && after.last().iteration == iteration {
            1nat
        } else {
            0nat
        },
{
    lemma_count_prefix(before, after, pair, iteration, before.len() as int);
}

/// One attempt of the net `net`: each of its pairs of pads that has not got
/// its share searches a trace around the traces `drawn`.
fn sample_attempt(grid: &mut ProbaGrid, net: NetID, drawn: &Vec<TraceID>, Ghost(base): Ghost<Seq<TraceInfo>>)
    requires
        sampling_wf(old(grid)),
        extends(base, old(grid).traces@),
        valid_draw(base, net, drawn@),
        within_quota(old(grid), old(grid).next_iteration),
    ensures
        sampling_wf(final(grid)),
        same_board(old(grid), final(grid)),
        extends(old(grid).traces@, final(grid).traces@),
        within_quota(final(grid), old(grid).next_iteration),
        tried_all(
            final(grid),
            base,
            old(grid).next_iteration,
            net,
            drawn@,
            old(grid).pad_pairs@.len() as int,
        ),
        samples_of(
            final(grid),
            base,
            old(grid).next_iteration,
            net,
            drawn@,
            old(grid).traces@.len() as int,
        ),
{
    let iteration = grid.next_iteration;
    let (obstacles, diagonal_obstacles) = gather_obstacles(&grid.traces, drawn);
    let mut model = DijkstraModel {
        width: grid.width,
        height: grid.height,
        obstacles,
        diagonal_obstacles,
        start: Point { x: 0, y: 0 },
        end: Point { x: 0, y: 0 },
    };
    proof {
        lemma_drawn_same(base, grid.traces@, drawn@);
    }
    let ghost start_len = grid.traces@.len() as int;
    let mut k: usize = 0;
    while k < grid.pad_pairs.len()
        invariant
            k <= grid.pad_pairs@.len(),
            sampling_wf(grid),
            same_board(old(grid), grid),
            iteration == grid.next_iteration,
            extends(old(grid).traces@, grid.traces@),
            extends(base, grid.traces@),
            start_len == old(grid).traces@.len(),
            model.width == grid.width,
            model.height == grid.height,
            model@.obstacles == drawn_cells(base, drawn@),
            model@.diagonal_obstacles == drawn_corners(base, drawn@),
            within_quota(grid, iteration),
            tried_all(grid, base, iteration, net, drawn@, k as int),
            samples_of(grid, base, iteration, net, drawn@, start_len),
        decreases grid.pad_pairs@.len() - k,
    {
        let pair = grid.pad_pairs[k];
        let ghost before = *grid;
        if pair.net_id == net && count_traces(&grid.traces, pair.pad_pair_id, iteration)
            < MAX_TRACES_PER_ITERATION {
            model.start = pair.start;
            model.end = pair.end;
            let ghost maze = sampling_maze(grid.width, grid.height, base, pair, drawn@);
            assert(model@ == maze);
            let added = sample_pair(grid, &model, k);
            proof {
                lemma_tried_all_stays(&before, grid, base, iteration, net, drawn@, k as int);
                assert(before.pair_wf(k as int));
                assert forall|j: int| 0 <= j < grid.pad_pairs@.len() implies count_same(
                    grid.traces@,
                    (#[trigger] grid.pad_pairs@[j]).pad_pair_id,
                    iteration,
                    grid.traces@.len() as int,
                ) <= MAX_TRACES_PER_ITERATION by {
                    assert(before.pad_pairs@[j] == grid.pad_pairs@[j]);
                    if added {
                        lemma_count_push(
                            before.traces@,
                            grid.traces@,
                            grid.pad_pairs@[j].pad_pair_id,
                            iteration,
                        );
                        assert(before.pair_wf(j));
                    }
                }
                assert(tried(grid, base, iteration, k as int, drawn@));
                assert forall|j: int| start_len <= j < grid.traces@.len() implies ({
                    let t = #[trigger] grid.traces@[j];
                    &&& t.net_id == net
                    &&& t.pad_pair_id.0 < grid.pad_pairs@.len()
                    &&& is_sample(
                        sampling_maze(
                            grid.width,
                            grid.height,
                            base,
                            grid.pad_pairs@[t.pad_pair_id.0 as int],
                            drawn@,
                        ),
                        grid.pad_pairs@[t.pad_pair_id.0 as int],
                        t,
                        iteration,
                        j,
                    )
                }) by {
                    if j < before.traces@.len() {
                        assert(grid.traces@[j] == before.traces@[j]);
                    }
                }
            }
        } else {
            proof {
                if pair.net_id == net {
                    assert(tried(grid, base, iteration, k as int, drawn@));
                }
            }
        }
        k += 1;
    }
}

/// Every trace from place `from` on was found by a pair of pads of the
/// net `net` in one of its first `upto` attempts.
pub open spec fn samples_of_net(
    grid: &ProbaGrid,
    base: Seq<TraceInfo>,
    iteration: usize,
    net: NetID,
    draws: Seq<Vec<TraceID>>,
    upto: int,
    from: int,
) -> bool {
    forall|k: int|
        from <= k < grid.traces@.len() ==> #[trigger] from_attempts(
            grid,
            base,
            iteration,
            net,
            draws,
            upto,
            k,
        )
}

/// The trace at place `k` was found by a pair of pads of the net `net` in
/// one of its first `upto` attempts.
pub open spec fn from_attempts(
    grid: &ProbaGrid,
    base: Seq<TraceInfo>,
    iteration: usize,
    net: NetID,
    draws: Seq<Vec<TraceID>>,
    upto: int,
    k: int,
) -> bool {
    exists|a: int|
        0 <= a < upto && a < draws.len() && #[trigger] sample_at(
            grid,
            base,
            iteration,
            net,
            draws[a]@,
            grid.traces@[k],
            k,
        )
}

/// The trace `t` at place `place` is the trace that its pair of pads, a
/// pair of the net `net`, finds around the traces `drawn`.
pub open spec fn sample_at(
    grid: &ProbaGrid,
    base: Seq<TraceInfo>,
    iteration: usize,
    net: NetID,
    drawn: Seq<TraceID>,
    t: TraceInfo,
    place: int,
) -> bool {
    &&& t.net_id == net
    &&& t.pad_pair_id.0 < grid.pad_pairs@.len()
    &&& is_sample(
        sampling_maze(grid.width, grid.height, base, grid.pad_pairs@[t.pad_pair_id.0 as int], drawn),
        grid.pad_pairs@[t.pad_pair_id.0 as int],
        t,
        iteration,
        place,
    )
}

/// The attempts of the net `net` in a round: one for each of the draws,
/// `MAX_GENERATION_ATTEMPTS` at most, and none once every pair of pads of
/// the net has got its share of traces.
fn sample_net(grid: &mut ProbaGrid, net: NetID, draws: &Vec<Vec<TraceID>>, Ghost(base): Ghost<Seq<TraceInfo>>)
    requires
        sampling_wf(old(grid)),
        extends(base, old(grid).traces@),
        forall|a: int| 0 <= a < draws@.len() ==> valid_draw(base, net, (#[trigger] draws@[a])@),
        within_quota(old(grid), old(grid).next_iteration),
    ensures
        sampling_wf(final(grid)),
        same_board(old(grid), final(grid)),
        extends(old(grid).traces@, final(grid).traces@),
        within_quota(final(grid), old(grid).next_iteration),
        forall|a: int|
            0 <= a < attempts(draws@) ==> tried_all(
                final(grid),
                base,
                old(grid).next_iteration,
                net,
                (#[trigger] draws@[a])@,
                old(grid).pad_pairs@.len() as int,
            ),
        samples_of_net(
            final(grid),
            base,
            old(grid).next_iteration,
            net,
            draws@,
            attempts(draws@),
            old(grid).traces@.len() as int,
        ),
{
    let iteration = grid.next_iteration;
    let limit = if draws.len() < MAX_GENERATION_ATTEMPTS {
        draws.len()
    } else {
        MAX_GENERATION_ATTEMPTS
    };
    let ghost start_len = grid.traces@.len() as int;
    let mut a: usize = 0;
    let mut open = any_open_pair(grid, iteration, net);
    while a < limit && open
        invariant
            a <= limit,
            limit == attempts(draws@),
            sampling_wf(grid),
            same_board(old(grid), grid),
            iteration == grid.next_iteration,
            extends(old(grid).traces@, grid.traces@),
            extends(base, grid.traces@),
            start_len == old(grid).traces@.len(),
            forall|b: int| 0 <= b < draws@.len() ==> valid_draw(base, net, (#[trigger] draws@[b])@),
            within_quota(grid, iteration),
            open == has_open_pair(grid, iteration, net),
            forall|b: int|
                0 <= b < a ==> tried_all(
                    grid,
                    base,
                    iteration,
                    net,
                    (#[trigger] draws@[b])@,
                    grid.pad_pairs@.len() as int,
                ),
            samples_of_net(grid, base, iteration, net, draws@, a as int, start_len),
        decreases limit - a,
    {
        let ghost before = *grid;
        sample_attempt(grid, net, &draws[a], Ghost(base));
        proof {
            assert forall|b: int| 0 <= b < a + 1 implies tried_all(
                grid,
                base,
                iteration,
                net,
                (#[trigger] draws@[b])@,
                grid.pad_pairs@.len() as int,
            ) by {
                if b < a {
                    lemma_tried_all_stays(
                        &before,
                        grid,
                        base,
                        iteration,
                        net,
                        draws@[b]@,
                        grid.pad_pairs@.len() as int,
                    );
                }
            }
            assert forall|k: int| start_len <= k < grid.traces@.len() implies #[trigger] from_attempts(
                grid,
                base,
                iteration,
                net,
                draws@,
                a + 1,
                k,
            ) by {
                if k < before.traces@.len() {
                    assert(grid.traces@[k] == before.traces@[k]);
                    assert(from_attempts(&before, base, iteration, net, draws@, a as int, k));
                    let b = choose|b: int|
                        0 <= b < a && b < draws@.len() && #[trigger] sample_at(
                            &before,
                            base,
                            iteration,
                            net,
                            draws@[b]@,
                            before.traces@[k],
                            k,
                        );
                    assert(sample_at(grid, base, iteration, net, draws@[b]@, grid.traces@[k], k));
                } else {
                    assert(sample_at(grid, base, iteration, net, draws@[a as int]@, grid.traces@[k], k));
                }
            }
        }
        a += 1;
        open = any_open_pair(grid, iteration, net);
    }
    proof {
        assert forall|b: int| 0 <= b < attempts(draws@) implies tried_all(
            grid,
            base,
            iteration,
            net,
            (#[trigger] draws@[b])@,
            grid.pad_pairs@.len() as int,
        ) by {
            if b >= a {
                assert(!has_open_pair(grid, iteration, net));
                assert forall|k: int|
                    0 <= k < grid.pad_pairs@.len() && (#[trigger] grid.pad_pairs@[k]).net_id
                        == net implies tried(grid, base, iteration, k, draws@[b]@) by {}
            }
        }
        assert forall|k: int| start_len <= k < grid.traces@.len() implies #[trigger] from_attempts(
            grid,
            base,
            iteration,
            net,
            draws@,
            attempts(draws@),
            k,
        ) by {
            assert(from_attempts(grid, base, iteration, net, draws@, a as int, k));
            let b = choose|b: int|
                0 <= b < a && b < draws@.len() && #[trigger] sample_at(
                    grid,
                    base,
                    iteration,
                    net,
                    draws@[b]@,
                    grid.traces@[k],
                    k,
                );
            assert(sample_at(grid, base, iteration, net, draws@[b]@, grid.traces@[k], k));
        }
    }
}

/// One round of sampling. The nets take their turns in the order of
/// `sampling_nets`; `draws[n][a]` holds the traces of other nets that stand
/// in the way of the net `n` at its attempt `a`, one at most from each pair
/// of pads. In each attempt every pair of pads of the net that has fewer
/// than `MAX_TRACES_PER_ITERATION` traces of this round searches a shortest
/// path around the drawn traces and keeps it as a new trace unless a trace
/// with that path is there. Then the collisions between the traces of
/// different nets are listed anew, and the round is counted.
///
/// Draws that do not fit the board are reported, and the board stays as it is.
pub fn sample_new_traces(grid: &mut ProbaGrid, draws: &Vec<Vec<Vec<TraceID>>>) -> (res: Result<(), String>)
    requires
        old(grid).wf(),
        old(grid).width * old(grid).height <= usize::MAX,
        old(grid).next_iteration < usize::MAX,
    ensures
        res is Ok <==> valid_draws(old(grid), draws@),
        res is Ok ==> sampled(old(grid), draws@, final(grid)),
        res is Err ==> *final(grid) == *old(grid) && res.unwrap_err()@ == invalid_draws_message(),
{
    let nets = sampling_nets(&grid.pad_pairs);
    if !check_draws(grid, &nets, draws) {
        return Err(String::from_str("The draws do not fit the nets and traces of the board"));
    }
    let ghost base = grid.traces@;
    let iteration = grid.next_iteration;
    let ghost pairs = grid.pad_pairs@;
    proof {
        assert forall|k: int| 0 <= k < grid.traces@.len() implies #[trigger] grid.trace_wf(
            k,
            grid.next_iteration + 1,
        ) by {
            assert(grid.trace_wf(k, grid.next_iteration as int));
        }
        assert forall|k: int| 0 <= k < grid.pad_pairs@.len() implies count_same(
            grid.traces@,
            (#[trigger] grid.pad_pairs@[k]).pad_pair_id,
            iteration,
            grid.traces@.len() as int,
        ) <= MAX_TRACES_PER_ITERATION by {
            assert forall|j: int| 0 <= j < grid.traces@.len() implies (#[trigger] grid.traces@[j]).iteration
                != iteration by {
                assert(grid.trace_wf(j, grid.next_iteration as int));
            }
            lemma_count_none(
                grid.traces@,
                grid.pad_pairs@[k].pad_pair_id,
                iteration,
                grid.traces@.len() as int,
            );
        }
    }
    let mut n: usize = 0;
    while n < nets.len()
        invariant
            n <= nets@.len(),
            nets@ == net_list(pairs),
            pairs == grid.pad_pairs@,
            draws@.len() == nets@.len(),
            valid_draws(old(grid), draws@),
            base == old(grid).traces@,
            sampling_wf(grid),
            same_board(old(grid), grid),
            iteration == grid.next_iteration,
            extends(base, grid.traces@),
            within_quota(grid, iteration),
            nets_tried(grid, base, iteration, draws@, n as int),
            all_found_in_round(grid.width, grid.height, pairs, grid.traces@, base, iteration, draws@),
        decreases nets@.len() - n,
    {
        let ghost before = *grid;
        proof {
            assert forall|a: int| 0 <= a < draws@[n as int]@.len() implies valid_draw(
                base,
                nets@[n as int],
                (#[trigger] draws@[n as int]@[a])@,
            ) by {}
        }
        sample_net(grid, nets[n], &draws[n], Ghost(base));
        proof {
            assert forall|m: int, a: int|
                0 <= m < n + 1 && m < draws@.len() && 0 <= a < attempts(draws@[m]@) implies tried_all(
                grid,
                base,
                iteration,
                net_list(grid.pad_pairs@)[m],
                (#[trigger] draws@[m]@[a])@,
                grid.pad_pairs@.len() as int,
            ) by {
                if m < n {
                    assert(tried_all(
                        &before,
                        base,
                        iteration,
                        net_list(before.pad_pairs@)[m],
                        draws@[m]@[a]@,
                        before.pad_pairs@.len() as int,
                    ));
                    lemma_tried_all_stays(
                        &before,
                        grid,
                        base,
                        iteration,
                        net_list(grid.pad_pairs@)[m],
                        draws@[m]@[a]@,
                        grid.pad_pairs@.len() as int,
                    );
                }
            }
            assert forall|k: int| base.len() <= k < grid.traces@.len() implies found_in_round(
                grid.width,
                grid.height,
                pairs,
                base,
                iteration,
                draws@,
                #[trigger] grid.traces@[k],
                k,
            ) by {
                if k < before.traces@.len() {
                    assert(grid.traces@[k] == before.traces@[k]);
                } else {
                    let t = grid.traces@[k];
                    assert(from_attempts(
                        grid,
                        base,
                        iteration,
                        nets@[n as int],
                        draws@[n as int]@,
                        attempts(draws@[n as int]@),
                        k,
                    ));
                    let a = choose|a: int|
                        0 <= a < attempts(draws@[n as int]@) && a < draws@[n as int]@.len()
                            && #[trigger] sample_at(
                            grid,
                            base,
                            iteration,
                            nets@[n as int],
                            draws@[n as int]@[a]@,
                            grid.traces@[k],
                            k,
                        );
                    assert(is_sample(
                        sampling_maze(
                            grid.width,
                            grid.height,
                            base,
                            pairs[t.pad_pair_id.0 as int],
                            draws@[n as int]@[a]@,
                        ),
                        pairs[t.pad_pair_id.0 as int],
                        t,
                        iteration,
                        k,
                    ));
                }
            }
        }
        n += 1;
    }
    let ghost mid = *grid;
    grid.trace_collision_adjacency = collisions_of(&grid.traces);
    grid.next_iteration = iteration + 1;
    proof {
        assert forall|k: int| 0 <= k < grid.pad_pairs@.len() implies #[trigger] grid.pair_wf(k) by {
            assert(old(grid).pair_wf(k));
        }
        assert forall|k: int| 0 <= k < grid.traces@.len() implies #[trigger] grid.trace_wf(
            k,
            grid.next_iteration as int,
        ) by {
            assert(mid.trace_wf(k, mid.next_iteration + 1));
        }
        assert(grid.wf());
        assert forall|k: int| 0 <= k < grid.pad_pairs@.len() implies count_same(
            grid.traces@,
            (#[trigger] grid.pad_pairs@[k]).pad_pair_id,
            iteration,
            grid.traces@.len() as int,
        ) <= MAX_TRACES_PER_ITERATION by {
            assert(mid.pad_pairs@[k] == grid.pad_pairs@[k]);
        }
        assert forall|m: int, a: int|
            0 <= m < draws@.len() && 0 <= a < attempts(draws@[m]@) implies tried_all(
            grid,
            base,
            iteration,
            net_list(grid.pad_pairs@)[m],
            (#[trigger] draws@[m]@[a])@,
            grid.pad_pairs@.len() as int,
        ) by {
            assert(tried_all(
                &mid,
                base,
                iteration,
                net_list(mid.pad_pairs@)[m],
                draws@[m]@[a]@,
                mid.pad_pairs@.len() as int,
            ));
            lemma_tried_all_stays(
                &mid,
                grid,
                base,
                iteration,
                net_list(grid.pad_pairs@)[m],
                draws@[m]@[a]@,
                grid.pad_pairs@.len() as int,
            );
        }
        assert(sampled(old(grid), draws@, grid));
    }
    Ok(())
}

} // verus!
