//! The connections of one net that join all its pads at the least total
//! length: a spanning tree grown from the least pad, one nearest pad at a time.

use vstd::prelude::*;
use crate::cost::{Length, PathCost};
use crate::grid::{Net, Point, PointPair};
use crate::table::{count_row, lemma_count_row_all, lemma_count_row_bound, lemma_count_row_set};

verus! {

/// `a <= b` for the weights of connections: a length, or none where the two
/// pads cannot be joined, which counts as longer than every length.
pub open spec fn weight_le(a: Option<PathCost>, b: Option<PathCost>) -> bool {
    match (a, b) {
        (_, None) => true,
        (None, Some(_)) => false,
        (Some(x), Some(y)) => x@.le(y@),
    }
}

/// `a < b` for the weights of connections.
pub open spec fn weight_lt(a: Option<PathCost>, b: Option<PathCost>) -> bool {
    weight_le(a, b) && a != b
}

/// Whether `a < b` for the weights of connections.
pub fn weight_less(a: Option<PathCost>, b: Option<PathCost>) -> (less: bool)
    ensures
        less == weight_lt(a, b),
{
    match (a, b) {
        (Some(x), Some(y)) => x.lt(y),
        (Some(_), None) => true,
        (None, _) => false,
    }
}

/// Whether the two weights are one weight.
pub fn weight_same(a: Option<PathCost>, b: Option<PathCost>) -> (same: bool)
    ensures
        same == (a == b),
{
    match (a, b) {
        (Some(x), Some(y)) => x.straight == y.straight && x.diagonal == y.diagonal,
        (None, None) => true,
        _ => false,
    }
}

/// The order in which connections are taken into the tree: by weight, then
/// by the pad that the connection adds, then by the pad that it starts from.
pub open spec fn key_le(
    w1: Option<PathCost>,
    new1: Point,
    old1: Point,
    w2: Option<PathCost>,
    new2: Point,
    old2: Point,
) -> bool {
    ||| weight_lt(w1, w2)
    ||| (w1 == w2 && new1.spec_precedes(new2))
    ||| (w1 == w2 && new1 == new2 && (old1.spec_precedes(old2) || old1 == old2))
}

pub proof fn lemma_key_le_transitive(
    w1: Option<PathCost>,
    n1: Point,
    o1: Point,
    w2: Option<PathCost>,
    n2: Point,
    o2: Point,
    w3: Option<PathCost>,
    n3: Point,
    o3: Point,
)
    requires
        key_le(w1, n1, o1, w2, n2, o2),
        key_le(w2, n2, o2, w3, n3, o3),
    ensures
        key_le(w1, n1, o1, w3, n3, o3),
{
    if w1 is Some && w2 is Some && w3 is Some {
        if weight_lt(w1, w2) && weight_lt(w2, w3) {
            Length::lemma_le_transitive(w1.unwrap()@, w2.unwrap()@, w3.unwrap()@);
            if w1 == w3 {
                Length::lemma_le_antisymmetric(w1.unwrap()@, w2.unwrap()@);
            }
        }
    }
}

pub proof fn lemma_key_le_total(
    w1: Option<PathCost>,
    n1: Point,
    o1: Point,
    w2: Option<PathCost>,
    n2: Point,
    o2: Point,
)
    ensures
        key_le(w1, n1, o1, w2, n2, o2) || key_le(w2, n2, o2, w1, n1, o1),
{
    if w1 is Some && w2 is Some {
        Length::lemma_le_total(w1.unwrap()@, w2.unwrap()@);
    }
}

/// A connection offered to the tree: its weight, its net, and its two pads.
pub type WeightedPair = (Option<PathCost>, Net, PointPair);

/// The pads that the connections join.
pub open spec fn endpoints(edges: Seq<WeightedPair>) -> Set<Point> {
    Set::new(
        |p: Point|
            exists|i: int|
                0 <= i < edges.len() && ((#[trigger] edges[i]).2.spec_start() == p
                    || edges[i].2.spec_end() == p),
    )
}

/// `p` is the first of `points` in the order of points.
pub open spec fn is_least(points: Set<Point>, p: Point) -> bool {
    &&& points.contains(p)
    &&& forall|q: Point| points.contains(q) ==> !q.spec_precedes(p)
}

/// The pads of the tree that consists of the root and the first `k` connections.
pub open spec fn tree_points(root: Point, tree: Seq<WeightedPair>, k: int) -> Set<Point> {
    Set::new(
        |p: Point|
            p == root || exists|j: int|
                0 <= j < k && ((#[trigger] tree[j]).2.spec_start() == p || tree[j].2.spec_end() == p),
    )
}

/// The connection `pair` leads from the pad `old` of the tree to the pad
/// `new` outside it.
pub open spec fn crosses(reached: Set<Point>, pair: PointPair, new: Point, old: Point) -> bool {
    &&& reached.contains(old)
    &&& !reached.contains(new)
    &&& (pair.spec_start() == old && pair.spec_end() == new) || (pair.spec_start() == new
        && pair.spec_end() == old)
}

/// The `k`-th connection of the tree adds the pad `new` from the pad `old`,
/// is one of the connections offered, and comes first, in the order of
/// `key_le`, among those that lead out of the tree of the connections before it.
pub open spec fn grows_at(
    edges: Seq<WeightedPair>,
    root: Point,
    tree: Seq<WeightedPair>,
    k: int,
    new: Point,
    old: Point,
) -> bool {
    let reached = tree_points(root, tree, k);
    &&& crosses(reached, tree[k].2, new, old)
    &&& tree[k].1 == edges[0].1
    &&& exists|i: int|
        0 <= i < edges.len() && (#[trigger] edges[i]).0 == tree[k].0 && edges[i].2 == tree[k].2
    &&& forall|j: int, n: Point, o: Point|
        0 <= j < edges.len() && #[trigger] crosses(reached, edges[j].2, n, o) ==> key_le(
            tree[k].0,
            new,
            old,
            edges[j].0,
            n,
            o,
        )
}

/// The `k`-th connection of the tree is the first that leads out of the
/// tree of the connections before it.
pub open spec fn grows(edges: Seq<WeightedPair>, root: Point, tree: Seq<WeightedPair>, k: int) -> bool {
    exists|new: Point, old: Point| #[trigger] grows_at(edges, root, tree, k, new, old)
}

/// `tree` is the tree that grows from `root` through the connections
/// offered: each of its connections is the first that leads out of the tree
/// before it, and no connection leads out of the whole.
pub open spec fn grown_from(edges: Seq<WeightedPair>, root: Point, tree: Seq<WeightedPair>) -> bool {
    &&& forall|k: int| 0 <= k < tree.len() ==> #[trigger] grows(edges, root, tree, k)
    &&& forall|j: int, n: Point, o: Point|
        0 <= j < edges.len() ==> !#[trigger] crosses(
            tree_points(root, tree, tree.len() as int),
            edges[j].2,
            n,
            o,
        )
}

/// `tree` is the spanning tree of the connections offered, grown from the
/// least of their pads.
pub open spec fn is_prim_tree(edges: Seq<WeightedPair>, tree: Seq<WeightedPair>) -> bool {
    exists|root: Point| is_least(endpoints(edges), root) && #[trigger] grown_from(edges, root, tree)
}

/// The points are in ascending order, each once.
pub open spec fn ascending(points: Seq<Point>) -> bool {
    forall|i: int, j: int| 0 <= i < j < points.len() ==> points[i].spec_precedes(points[j])
}

/// Adds `p` to the ascending list unless it is there.
fn insert_ascending(points: &mut Vec<Point>, p: Point)
    requires
        ascending(old(points)@),
    ensures
        ascending(final(points)@),
        forall|q: Point| final(points)@.contains(q) <==> (old(points)@.contains(q) || q == p),
{
    let mut i: usize = 0;
    while i < points.len() && points[i].precedes(p)
        invariant
            i <= points@.len(),
            points@ == old(points)@,
            forall|j: int| 0 <= j < i ==> points@[j].spec_precedes(p),
        decreases points@.len() - i,
    {
        i += 1;
    }
    if i < points.len() && points[i] == p {
        return ;
    }
    let ghost before = points@;
    assert(before == old(points)@);
    points.insert(i, p);
    proof {
        assert(points@ == before.insert(i as int, p));
        assert forall|a: int, b: int| 0 <= a < b < points@.len() implies points@[a].spec_precedes(
            points@[b],
        ) by {
            if b == i {
                assert(points@[a] == before[a]);
            } else if a == i {
                assert(points@[b] == before[b - 1]);
                assert(!before[i as int].spec_precedes(p));
                if b - 1 > i {
                    assert(before[i as int].spec_precedes(before[b - 1]));
                }
            } else {
                let a0 = if a < i { a } else { a - 1 };
                let b0 = if b < i { b } else { b - 1 };
                assert(points@[a] == before[a0]);
                assert(points@[b] == before[b0]);
            }
        }
        assert forall|q: Point| points@.contains(q) <==> (before.contains(q) || q == p) by {
            if before.contains(q) {
                let j = choose|j: int| 0 <= j < before.len() && before[j] == q;
                let j2 = if j < i { j } else { j + 1 };
                assert(points@[j2] == q);
            }
            if q == p {
                assert(points@[i as int] == p);
            }
            if points@.contains(q) {
                let j = choose|j: int| 0 <= j < points@.len() && points@[j] == q;
                if j < i {
                    assert(before[j] == q);
                } else if j > i {
                    assert(before[j - 1] == q);
                }
            }
        }
        assert forall|q: Point| points@.contains(q) <==> (old(points)@.contains(q) || q == p) by {
            assert(points@.contains(q) <==> (before.contains(q) || q == p));
        }
    }
}

/// The pads that the connections join, in ascending order, each once.
fn sorted_endpoints(edges: &Vec<WeightedPair>) -> (points: Vec<Point>)
    ensures
        ascending(points@),
        forall|q: Point| points@.contains(q) <==> endpoints(edges@).contains(q),
{
    let mut points: Vec<Point> = Vec::new();
    let mut i: usize = 0;
    while i < edges.len()
        invariant
            i <= edges@.len(),
            ascending(points@),
            forall|q: Point|
                points@.contains(q) <==> exists|k: int|
                    0 <= k < i && ((#[trigger] edges@[k]).2.spec_start() == q || edges@[k].2.spec_end()
                        == q),
        decreases edges@.len() - i,
    {
        let ghost before = points@;
        let pair = edges[i].2;
        insert_ascending(&mut points, pair.start());
        insert_ascending(&mut points, pair.end());
        proof {
            assert forall|q: Point|
                points@.contains(q) <==> exists|k: int|
                    0 <= k < i + 1 && ((#[trigger] edges@[k]).2.spec_start() == q
                        || edges@[k].2.spec_end() == q) by {
                if before.contains(q) {
                    let k = choose|k: int|
                        0 <= k < i && ((#[trigger] edges@[k]).2.spec_start() == q
                            || edges@[k].2.spec_end() == q);
                    assert(0 <= k < i + 1);
                }
                if q == pair.spec_start() || q == pair.spec_end() {
                    assert(edges@[i as int].2 == pair);
                }
                if exists|k: int|
                    0 <= k < i + 1 && ((#[trigger] edges@[k]).2.spec_start() == q
                        || edges@[k].2.spec_end() == q) {
                    let k = choose|k: int|
                        0 <= k < i + 1 && ((#[trigger] edges@[k]).2.spec_start() == q
                            || edges@[k].2.spec_end() == q);
                    if k < i {
                        assert(before.contains(q));
                    }
                }
            }
        }
        i += 1;
    }
    points
}

/// The place of `p` in the ascending list.
fn place_of(points: &Vec<Point>, p: Point) -> (i: usize)
    requires
        points@.contains(p),
    ensures
        i < points@.len(),
        points@[i as int] == p,
{
    let mut i: usize = 0;
    while i < points.len()
        invariant
            i <= points@.len(),
            forall|j: int| 0 <= j < i ==> points@[j] != p,
        decreases points@.len() - i,
    {
        if points[i] == p {
            return i;
        }
        i += 1;
    }
    assert(false);
    0
}

/// The tree up to its `k`-th connection is the same in `a` and `b`, so the
/// `k`-th connection grows the one as it grows the other.
pub proof fn lemma_grows_prefix(
    edges: Seq<WeightedPair>,
    root: Point,
    a: Seq<WeightedPair>,
    b: Seq<WeightedPair>,
    k: int,
)
    requires
        0 <= k < a.len(),
        k < b.len(),
        forall|j: int| 0 <= j <= k ==> a[j] == b[j],
        grows(edges, root, a, k),
    ensures
        grows(edges, root, b, k),
{
    assert(tree_points(root, a, k) =~= tree_points(root, b, k));
    let (new, old) = choose|new: Point, old: Point| #[trigger]
        grows_at(edges, root, a, k, new, old);
    assert(grows_at(edges, root, b, k, new, old));
}

/// What the tree holds after one more connection: the pads it held, and
/// the two pads of that connection.
pub proof fn lemma_tree_points_push(root: Point, tree: Seq<WeightedPair>, next: WeightedPair)
    ensures
        forall|p: Point|
            tree_points(root, tree.push(next), tree.len() as int + 1).contains(p) <==> (tree_points(
                root,
                tree,
                tree.len() as int,
            ).contains(p) || p == next.2.spec_start() || p == next.2.spec_end()),
        tree_points(root, tree.push(next), tree.len() as int) == tree_points(
            root,
            tree,
            tree.len() as int,
        ),
{
    let longer = tree.push(next);
    let n = tree.len() as int;
    assert forall|p: Point|
        tree_points(root, longer, n + 1).contains(p) <==> (tree_points(root, tree, n).contains(p) || p
            == next.2.spec_start() || p == next.2.spec_end()) by {
        if tree_points(root, tree, n).contains(p) && p != root {
            let j = choose|j: int|
                0 <= j < n && ((#[trigger] tree[j]).2.spec_start() == p || tree[j].2.spec_end() == p);
            assert(longer[j] == tree[j]);
        }
        if p == next.2.spec_start() || p == next.2.spec_end() {
            assert(longer[n] == next);
        }
        if tree_points(root, longer, n + 1).contains(p) && p != root {
            let j = choose|j: int|
                0 <= j < n + 1 && ((#[trigger] longer[j]).2.spec_start() == p || longer[j].2.spec_end()
                    == p);
            if j < n {
                assert(longer[j] == tree[j]);
            }
        }
    }
    assert forall|p: Point|
        tree_points(root, longer, n).contains(p) <==> tree_points(root, tree, n).contains(p) by {
        if tree_points(root, tree, n).contains(p) && p != root {
            let j = choose|j: int|
                0 <= j < n && ((#[trigger] tree[j]).2.spec_start() == p || tree[j].2.spec_end() == p);
            assert(longer[j] == tree[j]);
        }
        if tree_points(root, longer, n).contains(p) && p != root {
            let j = choose|j: int|
                0 <= j < n && ((#[trigger] longer[j]).2.spec_start() == p || longer[j].2.spec_end()
                    == p);
            assert(longer[j] == tree[j]);
        }
    }
    assert(tree_points(root, longer, n) =~= tree_points(root, tree, n));
}

/// The places of the two pads of each connection in the list of pads.
pub open spec fn places_of(
    edges: Seq<WeightedPair>,
    points: Seq<Point>,
    ends: Seq<(usize, usize)>,
) -> bool {
    &&& ends.len() == edges.len()
    &&& forall|j: int|
        0 <= j < edges.len() ==> {
            &&& (#[trigger] ends[j]).0 < points.len()
            &&& ends[j].1 < points.len()
            &&& points[ends[j].0 as int] == edges[j].2.spec_start()
            &&& points[ends[j].1 as int] == edges[j].2.spec_end()
        }
}

/// `visited` tells of each pad whether the tree holds it.
pub open spec fn visits(visited: Seq<bool>, points: Seq<Point>, reached: Set<Point>) -> bool {
    &&& visited.len() == points.len()
    &&& forall|i: int| 0 <= i < points.len() ==> visited[i] == reached.contains(#[trigger] points[i])
}

/// Among the connections that lead out of the tree, the first in the order
/// of `key_le`: its number, the place of the pad that it adds, and the place
/// of the pad that it starts from. `None` if no connection leads out.
fn first_crossing(
    edges: &Vec<WeightedPair>,
    points: &Vec<Point>,
    ends: &Vec<(usize, usize)>,
    visited: &Vec<bool>,
    Ghost(reached): Ghost<Set<Point>>,
) -> (best: Option<(usize, usize, usize)>)
    requires
        ascending(points@),
        places_of(edges@, points@, ends@),
        visits(visited@, points@, reached),
    ensures
        match best {
            Some((e, u, v)) => {
                &&& e < edges@.len()
                &&& u < points@.len()
                &&& v < points@.len()
                &&& crosses(reached, edges@[e as int].2, points@[u as int], points@[v as int])
                &&& forall|j: int, n: Point, o: Point|
                    0 <= j < edges@.len() && #[trigger] crosses(reached, edges@[j].2, n, o) ==> key_le(
                        edges@[e as int].0,
                        points@[u as int],
                        points@[v as int],
                        edges@[j].0,
                        n,
                        o,
                    )
            },
            None => forall|j: int, n: Point, o: Point|
                0 <= j < edges@.len() ==> !#[trigger] crosses(reached, edges@[j].2, n, o),
        },
{
    let mut best: Option<(usize, usize, usize)> = None;
    let mut j: usize = 0;
    while j < edges.len()
        invariant
            j <= edges@.len(),
            ascending(points@),
            places_of(edges@, points@, ends@),
            visits(visited@, points@, reached),
            match best {
                Some((e, u, v)) => {
                    &&& e < edges@.len()
                    &&& u < points@.len()
                    &&& v < points@.len()
                    &&& crosses(reached, edges@[e as int].2, points@[u as int], points@[v as int])
                    &&& forall|i: int, n: Point, o: Point|
                        0 <= i < j && #[trigger] crosses(reached, edges@[i].2, n, o) ==> key_le(
                            edges@[e as int].0,
                            points@[u as int],
                            points@[v as int],
                            edges@[i].0,
                            n,
                            o,
                        )
                },
                None => forall|i: int, n: Point, o: Point|
                    0 <= i < j ==> !#[trigger] crosses(reached, edges@[i].2, n, o),
            },
        decreases edges@.len() - j,
    {
        let (s, t) = ends[j];
        let w = edges[j].0;
        let ghost pair = edges@[j as int].2;
        let found: Option<(usize, usize)> = if visited[s] && !visited[t] {
            Some((t, s))
        } else if visited[t] && !visited[s] {
            Some((s, t))
        } else {
            None
        };
        proof {
            assert(points@[s as int] == pair.spec_start());
            assert(points@[t as int] == pair.spec_end());
            assert(visited@[s as int] == reached.contains(points@[s as int]));
            assert(visited@[t as int] == reached.contains(points@[t as int]));
        }
        match found {
            None => {
                assert forall|n: Point, o: Point| !#[trigger] crosses(reached, pair, n, o) by {}
            },
            Some((u, v)) => {
                let ghost pu = points@[u as int];
                let ghost pv = points@[v as int];
                assert(crosses(reached, pair, pu, pv));
                assert forall|n: Point, o: Point| #[trigger]
                    crosses(reached, pair, n, o) implies n == pu && o == pv by {}
                let better = match best {
                    None => true,
                    Some((e, ub, vb)) => {
                        let wb = edges[e].0;
                        proof {
                            lemma_place_order(points@, u as int, ub as int);
                            lemma_place_order(points@, v as int, vb as int);
                            lemma_place_order(points@, ub as int, u as int);
                            lemma_place_order(points@, vb as int, v as int);
                        }
                        weight_less(w, wb) || (weight_same(w, wb) && (u < ub || (u == ub && v < vb)))
                    },
                };
                if better {
                    proof {
                        match best {
                            Some((e, ub, vb)) => {
                                let wb = edges@[e as int].0;
                                let pub_ = points@[ub as int];
                                let pvb = points@[vb as int];
                                assert(key_le(w, pu, pv, wb, pub_, pvb));
                                assert forall|i: int, n: Point, o: Point|
                                    0 <= i < j + 1 && #[trigger] crosses(
                                        reached,
                                        edges@[i].2,
                                        n,
                                        o,
                                    ) implies key_le(w, pu, pv, edges@[i].0, n, o) by {
                                    if i < j {
                                        lemma_key_le_transitive(
                                            w,
                                            pu,
                                            pv,
                                            wb,
                                            pub_,
                                            pvb,
                                            edges@[i].0,
                                            n,
                                            o,
                                        );
                                    }
                                }
                            },
                            None => {},
                        }
                    }
                    best = Some((j, u, v));
                } else {
                    proof {
                        match best {
                            Some((e, ub, vb)) => {
                                let wb = edges@[e as int].0;
                                lemma_key_le_total(
                                    w,
                                    pu,
                                    pv,
                                    wb,
                                    points@[ub as int],
                                    points@[vb as int],
                                );
                            },
                            None => {},
                        }
                    }
                }
            },
        }
        j += 1;
    }
    best
}

/// In an ascending list, the order of two places is the order of their points.
pub proof fn lemma_place_order(points: Seq<Point>, i: int, j: int)
    requires
        ascending(points),
        0 <= i < points.len(),
        0 <= j < points.len(),
    ensures
        i < j <==> points[i].spec_precedes(points[j]),
        i == j <==> points[i] == points[j],
{
    if i < j {
        assert(points[i].spec_precedes(points[j]));
    } else if j < i {
        assert(points[j].spec_precedes(points[i]));
    }
}

/// Every connection joins two different pads.
pub open spec fn proper(edges: Seq<WeightedPair>) -> bool {
    forall|i: int| 0 <= i < edges.len() ==> (#[trigger] edges[i]).2.spec_start() != edges[i].2.spec_end()
}

/// The places in `points` of the pads of each connection.
fn places(edges: &Vec<WeightedPair>, points: &Vec<Point>) -> (ends: Vec<(usize, usize)>)
    requires
        forall|q: Point| points@.contains(q) <==> endpoints(edges@).contains(q),
    ensures
        places_of(edges@, points@, ends@),
{
    let mut ends: Vec<(usize, usize)> = Vec::new();
    let mut j: usize = 0;
    while j < edges.len()
        invariant
            j <= edges@.len(),
            forall|q: Point| points@.contains(q) <==> endpoints(edges@).contains(q),
            ends@.len() == j,
            forall|i: int|
                0 <= i < j ==> {
                    &&& (#[trigger] ends@[i]).0 < points@.len()
                    &&& ends@[i].1 < points@.len()
                    &&& points@[ends@[i].0 as int] == edges@[i].2.spec_start()
                    &&& points@[ends@[i].1 as int] == edges@[i].2.spec_end()
                },
        decreases edges@.len() - j,
    {
        let pair = edges[j].2;
        proof {
            assert(edges@[j as int].2 == pair);
            assert(endpoints(edges@).contains(pair.spec_start()));
            assert(endpoints(edges@).contains(pair.spec_end()));
        }
        let s = place_of(points, pair.start());
        let t = place_of(points, pair.end());
        ends.push((s, t));
        j += 1;
    }
    ends
}

/// Two different pads are the two pads of `pair`.
pub open spec fn joins(pair: PointPair, p: Point, q: Point) -> bool {
    (pair.spec_start() == p && pair.spec_end() == q) || (pair.spec_start() == q && pair.spec_end() == p)
}

/// Any two pads have a connection between them.
pub open spec fn complete(edges: Seq<WeightedPair>) -> bool {
    forall|p: Point, q: Point|
        endpoints(edges).contains(p) && endpoints(edges).contains(q) && p != q ==> exists|i: int|
            0 <= i < edges.len() && joins((#[trigger] edges[i]).2, p, q)
}

/// The connections that join all pads of a net at the least total weight.
///
/// The tree grows from the least pad. Each round takes, among the
/// connections that lead from a pad of the tree to a pad outside it, the
/// first by weight, then by the pad it adds, then by the pad it starts from.
/// The connections of the tree come back in the order in which they were
/// taken, each with the net of the first connection offered.
pub fn prim_mst(edges: Vec<WeightedPair>) -> (tree: Vec<WeightedPair>)
    requires
        edges@.len() >= 1,
        proper(edges@),
    ensures
        is_prim_tree(edges@, tree@),
        tree@.len() >= 1,
        endpoints(edges@).finite(),
        tree@.len() + 1 <= endpoints(edges@).len(),
        complete(edges@) ==> tree@.len() + 1 == endpoints(edges@).len(),
{
    let net = edges[0].1;
    let points = sorted_endpoints(&edges);
    let ends = places(&edges, &points);
    let n = points.len();
    proof {
        assert(endpoints(edges@).contains(edges@[0].2.spec_start()));
        assert(points@.contains(edges@[0].2.spec_start()));
    }
    let ghost root = points@[0];
    let mut visited: Vec<bool> = Vec::new();
    let mut i: usize = 0;
    while i < n
        invariant
            i <= n,
            visited@.len() == i,
            forall|k: int| 0 <= k < i ==> visited@[k] == (k == 0),
        decreases n - i,
    {
        visited.push(i == 0);
        i += 1;
    }
    let mut tree: Vec<WeightedPair> = Vec::new();
    let mut growing = true;
    proof {
        assert forall|k: int| 0 <= k < n implies visited@[k] == tree_points(
            root,
            tree@,
            0,
        ).contains(#[trigger] points@[k]) by {
            lemma_place_order(points@, k, 0);
        }
        assert(points@[0] == root);
        assert(points@.contains(root));
        assert(endpoints(edges@).contains(root));
        assert forall|q: Point| endpoints(edges@).contains(q) implies !q.spec_precedes(root) by {
            assert(points@.contains(q));
            let k = choose|k: int| 0 <= k < points@.len() && points@[k] == q;
            lemma_place_order(points@, 0, k);
        }
        lemma_count_row_bound(visited@);
        lemma_count_first(visited@);
    }
    while growing
        invariant
            n == points@.len(),
            n >= 1,
            root == points@[0],
            edges@.len() >= 1,
            proper(edges@),
            net == edges@[0].1,
            ascending(points@),
            forall|q: Point| points@.contains(q) <==> endpoints(edges@).contains(q),
            is_least(endpoints(edges@), root),
            places_of(edges@, points@, ends@),
            visits(visited@, points@, tree_points(root, tree@, tree@.len() as int)),
            forall|k: int| 0 <= k < tree@.len() ==> #[trigger] grows(edges@, root, tree@, k),
            !growing ==> grown_from(edges@, root, tree@),
            !growing ==> tree@.len() >= 1,
            count_row(visited@) == tree@.len() + 1,
        decreases
                if growing {
                    n - count_row(visited@) + 1
                } else {
                    0
                },
    {
        let ghost reached = tree_points(root, tree@, tree@.len() as int);
        proof {
            lemma_count_row_bound(visited@);
        }
        match first_crossing(&edges, &points, &ends, &visited, Ghost(reached)) {
            None => {
                proof {
                    if tree@.len() == 0 {
                        assert(tree@ =~= Seq::<WeightedPair>::empty());
                        assert(points@.contains(root));
                        lemma_root_has_crossing(edges@, points@, root);
                        assert(false);
                    }
                }
                growing = false;
            },
            Some((e, u, v)) => {
                let next: WeightedPair = (edges[e].0, net, edges[e].2);
                let ghost old_tree = tree@;
                let ghost old_visited = visited@;
                proof {
                    assert(!visited@[u as int]);
                    lemma_count_row_set(visited@, u as int);
                }
                visited[u] = true;
                tree.push(next);
                proof {
                    lemma_tree_points_push(root, old_tree, next);
                    let k = old_tree.len() as int;
                    assert(tree@[k] == next);
                    assert(grows_at(edges@, root, tree@, k, points@[u as int], points@[v as int]));
                    assert forall|j: int| 0 <= j < tree@.len() implies #[trigger] grows(
                        edges@,
                        root,
                        tree@,
                        j,
                    ) by {
                        if j < k {
                            assert(grows(edges@, root, old_tree, j));
                            lemma_grows_prefix(edges@, root, old_tree, tree@, j);
                        }
                    }
                    let after = tree_points(root, tree@, tree@.len() as int);
                    assert forall|i: int| 0 <= i < points@.len() implies visited@[i] == after.contains(
                        #[trigger] points@[i],
                    ) by {
                        lemma_place_order(points@, i, u as int);
                        assert(old_visited[i] == reached.contains(points@[i]));
                    }
                }
            },
        }
    }
    proof {
        assert(grown_from(edges@, root, tree@));
        lemma_count_row_bound(visited@);
        lemma_ascending_distinct(points@);
        points@.unique_seq_to_set();
        assert(points@.to_set() =~= endpoints(edges@));
        if complete(edges@) {
            let reached = tree_points(root, tree@, tree@.len() as int);
            assert forall|k: int| 0 <= k < visited@.len() implies visited@[k] by {
                let q = points@[k];
                assert(points@.contains(q));
                if !visited@[k] {
                    assert(q != root);
                    let i = choose|i: int| 0 <= i < edges@.len() && joins((#[trigger] edges@[i]).2, root, q);
                    assert(crosses(reached, edges@[i].2, q, root));
                }
            }
            lemma_count_row_all(visited@);
        }
    }
    tree
}

/// A row whose first slot alone is marked counts one.
pub proof fn lemma_count_first(row: Seq<bool>)
    requires
        row.len() >= 1,
        forall|k: int| 0 <= k < row.len() ==> row[k] == (k == 0),
    ensures
        count_row(row) == 1,
    decreases row.len(),
{
    if row.len() > 1 {
        lemma_count_first(row.drop_last());
    } else {
        assert(count_row(row.drop_last()) == 0);
    }
}

/// An ascending list holds no point twice.
pub proof fn lemma_ascending_distinct(points: Seq<Point>)
    requires
        ascending(points),
    ensures
        points.no_duplicates(),
{
    assert forall|i: int, j: int| 0 <= i < points.len() && 0 <= j < points.len() && i != j implies points[i]
        != points[j] by {
        lemma_place_order(points, i, j);
    }
}

/// Before the tree has a connection, one leads out of it: the least pad
/// belongs to a connection, whose other pad is a different one.
pub proof fn lemma_root_has_crossing(edges: Seq<WeightedPair>, points: Seq<Point>, root: Point)
    requires
        proper(edges),
        endpoints(edges).contains(root),
    ensures
        exists|j: int, n: Point, o: Point|
            0 <= j < edges.len() && #[trigger] crosses(
                tree_points(root, Seq::<WeightedPair>::empty(), 0),
                edges[j].2,
                n,
                o,
            ),
{
    let j = choose|j: int|
        0 <= j < edges.len() && ((#[trigger] edges[j]).2.spec_start() == root || edges[j].2.spec_end()
            == root);
    let other = if edges[j].2.spec_start() == root {
        edges[j].2.spec_end()
    } else {
        edges[j].2.spec_start()
    };
    let reached = tree_points(root, Seq::<WeightedPair>::empty(), 0);
    assert(crosses(reached, edges[j].2, other, root));
}

/// The pad that the `j`-th connection of the tree adds, and the pad of the
/// tree that it starts from.
pub open spec fn step_ends(edges: Seq<WeightedPair>, root: Point, tree: Seq<WeightedPair>, j: int) -> (
    Point,
    Point,
) {
    choose|new: Point, old: Point| #[trigger] grows_at(edges, root, tree, j, new, old)
}

/// The number of the connection, among the first `upto`, that added the pad
/// `p`; -1 if none of them did.
pub open spec fn place_added(
    edges: Seq<WeightedPair>,
    root: Point,
    tree: Seq<WeightedPair>,
    p: Point,
    upto: int,
) -> int
    decreases upto,
{
    if upto <= 0 {
        -1
    } else if step_ends(edges, root, tree, upto - 1).0 == p {
        upto - 1
    } else {
        place_added(edges, root, tree, p, upto - 1)
    }
}

/// The pad that the `j`-th connection added hangs on the `k`-th connection:
/// its way to the root through the tree leads over the pad that the `k`-th added.
pub open spec fn hangs(edges: Seq<WeightedPair>, root: Point, tree: Seq<WeightedPair>, k: int, j: int) -> bool
    decreases j,
{
    if j < k || j < 0 {
        false
    } else if j == k {
        true
    } else {
        let i = place_added(edges, root, tree, step_ends(edges, root, tree, j).1, j);
        0 <= i < j && hangs(edges, root, tree, k, i)
    }
}

/// The pad `p` hangs on the `k`-th connection.
pub open spec fn pad_hangs(edges: Seq<WeightedPair>, root: Point, tree: Seq<WeightedPair>, k: int, p: Point) -> bool {
    hangs(edges, root, tree, k, place_added(edges, root, tree, p, tree.len() as int))
}

/// `walk` goes from pad to pad along connections of the tree other than the `k`-th.
pub open spec fn is_walk_without(tree: Seq<WeightedPair>, k: int, walk: Seq<Point>) -> bool {
    &&& walk.len() >= 1
    &&& forall|i: int| 0 < i < walk.len() ==> #[trigger] steps_without(tree, k, walk[i - 1], walk[i])
}

/// A connection of the tree other than the `k`-th joins `p` and `q`.
pub open spec fn steps_without(tree: Seq<WeightedPair>, k: int, p: Point, q: Point) -> bool {
    exists|j: int| 0 <= j < tree.len() && j != k && joins((#[trigger] tree[j]).2, p, q)
}

/// The two pads of a connection of the tree are the pad it adds and the
/// pad it starts from.
pub proof fn lemma_step_ends(edges: Seq<WeightedPair>, root: Point, tree: Seq<WeightedPair>, j: int)
    requires
        grown_from(edges, root, tree),
        0 <= j < tree.len(),
    ensures
        grows_at(edges, root, tree, j, step_ends(edges, root, tree, j).0, step_ends(edges, root, tree, j).1),
{
    assert(grows(edges, root, tree, j));
}

/// Every pad of the tree of the first `j` connections is the root or was
/// added by one of them; none of them added the root.
pub proof fn lemma_points_added(edges: Seq<WeightedPair>, root: Point, tree: Seq<WeightedPair>, j: int, p: Point)
    requires
        grown_from(edges, root, tree),
        0 <= j <= tree.len(),
        tree_points(root, tree, j).contains(p),
    ensures
        p == root || exists|i: int| 0 <= i < j && (#[trigger] step_ends(edges, root, tree, i)).0 == p,
    decreases j,
{
    if p != root {
        let i = choose|i: int|
            0 <= i < j && ((#[trigger] tree[i]).2.spec_start() == p || tree[i].2.spec_end() == p);
        lemma_step_ends(edges, root, tree, i);
        let (n, o) = step_ends(edges, root, tree, i);
        if p != n {
            assert(p == o);
            lemma_points_added(edges, root, tree, i, p);
            let i2 = choose|i2: int| 0 <= i2 < i && (#[trigger] step_ends(edges, root, tree, i2)).0 == p;
            assert(0 <= i2 < j);
        }
    }
}

/// The pad that a connection adds was added by no connection before it,
/// and is not the root.
pub proof fn lemma_added_fresh(edges: Seq<WeightedPair>, root: Point, tree: Seq<WeightedPair>, i: int, j: int)
    requires
        grown_from(edges, root, tree),
        0 <= i < j < tree.len(),
    ensures
        step_ends(edges, root, tree, i).0 != step_ends(edges, root, tree, j).0,
        step_ends(edges, root, tree, j).0 != root,
        step_ends(edges, root, tree, i).0 != root,
{
    lemma_step_ends(edges, root, tree, i);
    lemma_step_ends(edges, root, tree, j);
    let n = step_ends(edges, root, tree, i).0;
    assert(tree[i].2.spec_start() == n || tree[i].2.spec_end() == n);
    assert(tree_points(root, tree, j).contains(n));
    assert(tree_points(root, tree, j).contains(root));
    assert(tree_points(root, tree, i).contains(root));
}

/// `place_added` finds the connection that added a pad, if one of the
/// first `upto` did.
pub proof fn lemma_place_added(edges: Seq<WeightedPair>, root: Point, tree: Seq<WeightedPair>, p: Point, upto: int)
    requires
        grown_from(edges, root, tree),
        0 <= upto <= tree.len(),
    ensures
        -1 <= place_added(edges, root, tree, p, upto) < upto,
        place_added(edges, root, tree, p, upto) >= 0 ==> step_ends(
            edges,
            root,
            tree,
            place_added(edges, root, tree, p, upto),
        ).0 == p,
        forall|i: int|
            0 <= i < upto && (#[trigger] step_ends(edges, root, tree, i)).0 == p ==> place_added(
                edges,
                root,
                tree,
                p,
                upto,
            ) == i,
    decreases upto,
{
    if upto > 0 {
        lemma_place_added(edges, root, tree, p, upto - 1);
        if step_ends(edges, root, tree, upto - 1).0 == p {
            assert forall|i: int|
                0 <= i < upto && (#[trigger] step_ends(edges, root, tree, i)).0 == p implies upto - 1
                == i by {
                if i < upto - 1 {
                    lemma_added_fresh(edges, root, tree, i, upto - 1);
                }
            }
        }
    }
}

/// The place of a pad among the first `upto` connections is its place
/// among all, if it was added before `upto` or not at all before the end.
pub proof fn lemma_place_stable(edges: Seq<WeightedPair>, root: Point, tree: Seq<WeightedPair>, p: Point, j: int)
    requires
        grown_from(edges, root, tree),
        0 <= j <= tree.len(),
        tree_points(root, tree, j).contains(p),
    ensures
        place_added(edges, root, tree, p, j) == place_added(edges, root, tree, p, tree.len() as int),
        place_added(edges, root, tree, p, j) < j,
{
    lemma_place_added(edges, root, tree, p, j);
    lemma_place_added(edges, root, tree, p, tree.len() as int);
    lemma_points_added(edges, root, tree, j, p);
    let whole = place_added(edges, root, tree, p, tree.len() as int);
    if p == root {
        if whole >= 0 {
            if whole > 0 {
                lemma_added_fresh(edges, root, tree, 0, whole);
            } else if tree.len() > 1 {
                lemma_added_fresh(edges, root, tree, 0, 1);
            } else {
                lemma_step_ends(edges, root, tree, 0);
                assert(tree_points(root, tree, 0).contains(root));
            }
        }
        let part = place_added(edges, root, tree, p, j);
        if part >= 0 {
            assert(step_ends(edges, root, tree, part).0 == p);
        }
    } else {
        let i = choose|i: int| 0 <= i < j && (#[trigger] step_ends(edges, root, tree, i)).0 == p;
        assert(place_added(edges, root, tree, p, j) == i);
        assert(whole == i);
    }
}

/// The two pads of a connection other than the `k`-th hang on the `k`-th
/// both, or neither does.
pub proof fn lemma_hangs_along(edges: Seq<WeightedPair>, root: Point, tree: Seq<WeightedPair>, k: int, j: int)
    requires
        grown_from(edges, root, tree),
        0 <= k < tree.len(),
        0 <= j < tree.len(),
        j != k,
    ensures
        pad_hangs(edges, root, tree, k, step_ends(edges, root, tree, j).0) == pad_hangs(
            edges,
            root,
            tree,
            k,
            step_ends(edges, root, tree, j).1,
        ),
{
    lemma_step_ends(edges, root, tree, j);
    let (n, o) = step_ends(edges, root, tree, j);
    let len = tree.len() as int;
    lemma_place_added(edges, root, tree, n, len);
    assert(place_added(edges, root, tree, n, len) == j);
    lemma_place_stable(edges, root, tree, o, j);
    let i = place_added(edges, root, tree, o, j);
    assert(i == place_added(edges, root, tree, o, len));
    if j < k {
        assert(!hangs(edges, root, tree, k, j));
        assert(!hangs(edges, root, tree, k, i));
    } else {
        assert(hangs(edges, root, tree, k, j) == (0 <= i < j && hangs(edges, root, tree, k, i)));
    }
}

/// Without one of its connections the tree falls apart: no walk along the
/// other connections leads from one pad of that connection to the other.
pub proof fn lemma_tree_edge_is_bridge(
    edges: Seq<WeightedPair>,
    tree: Seq<WeightedPair>,
    k: int,
    walk: Seq<Point>,
)
    requires
        is_prim_tree(edges, tree),
        0 <= k < tree.len(),
        is_walk_without(tree, k, walk),
        walk[0] == tree[k].2.spec_start(),
    ensures
        walk.last() != tree[k].2.spec_end(),
{
    let root = choose|root: Point| is_least(endpoints(edges), root) && #[trigger] grown_from(edges, root, tree);
    lemma_walk_hangs(edges, root, tree, k, walk, walk.len() as int - 1);
    lemma_step_ends(edges, root, tree, k);
    let (n, o) = step_ends(edges, root, tree, k);
    let len = tree.len() as int;
    lemma_place_added(edges, root, tree, n, len);
    lemma_place_stable(edges, root, tree, o, k);
    let i = place_added(edges, root, tree, o, len);
    assert(pad_hangs(edges, root, tree, k, n));
    assert(i < k);
    assert(!hangs(edges, root, tree, k, i));
    assert(!pad_hangs(edges, root, tree, k, o));
}

/// Along a walk that avoids the `k`-th connection, every pad hangs on the
/// `k`-th connection, or none does.
pub proof fn lemma_walk_hangs(
    edges: Seq<WeightedPair>,
    root: Point,
    tree: Seq<WeightedPair>,
    k: int,
    walk: Seq<Point>,
    i: int,
)
    requires
        grown_from(edges, root, tree),
        0 <= k < tree.len(),
        is_walk_without(tree, k, walk),
        0 <= i < walk.len(),
    ensures
        pad_hangs(edges, root, tree, k, walk[i]) == pad_hangs(edges, root, tree, k, walk[0]),
    decreases i,
{
    if i > 0 {
        lemma_walk_hangs(edges, root, tree, k, walk, i - 1);
        assert(steps_without(tree, k, walk[i - 1], walk[i]));
        let j = choose|j: int| 0 <= j < tree.len() && j != k && joins((#[trigger] tree[j]).2, walk[i - 1], walk[i]);
        lemma_step_ends(edges, root, tree, j);
        lemma_hangs_along(edges, root, tree, k, j);
    }
}

} // verus!
