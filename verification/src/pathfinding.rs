//! A* search over any map offering the `BaseMap` capability interface.
//!
//! The search keeps, per call, the best known cost to each discovered
//! point, the predecessor of each point on its best known route, and a
//! min-priority frontier keyed by cost-so-far plus heuristic estimate,
//! with lazy deletion of stale entries. A found path is reconstructed by
//! walking the predecessor links back from the goal; its every step is
//! proved to be an edge the map reports, and a search from a point to
//! itself yields the empty path.

use vstd::prelude::*;
use crate::point::Point;
use crate::basemap::{BaseMap, is_edge};
use crate::distance::DistanceAlg;
use crate::pmap::{PointMap, lemma_map_of_value};
use vstd::set_lib::lemma_len_subset;

verus! {

/// The route the predecessor links describe: walking from `p` back to
/// `origin` within `fuel` steps, reported in origin-to-`p` order, without
/// `origin` itself. `None` when the links do not reach `origin` in time.
pub open spec fn walk(m: Map<Point, Point>, p: Point, origin: Point, fuel: nat) -> Option<
    Seq<Point>,
>
    decreases fuel,
{
    if p == origin {
        Some(Seq::empty())
    } else if fuel == 0 {
        None
    } else if m.contains_key(p) {
        match walk(m, m[p], origin, (fuel - 1) as nat) {
            Some(s) => Some(s.push(p)),
            None => None,
        }
    } else {
        None
    }
}

/// A successful walk ends at its start point and follows the predecessor
/// links one by one down to `origin`.
pub proof fn lemma_walk_links(m: Map<Point, Point>, p: Point, origin: Point, fuel: nat, s: Seq<
    Point,
>)
    requires
        walk(m, p, origin, fuel) == Some(s),
    ensures
        p == origin ==> s.len() == 0,
        p != origin ==> s.len() > 0 && s[s.len() - 1] == p,
        forall|i: int| 0 < i < s.len() ==> m.contains_key(#[trigger] s[i]) && m[s[i]] == s[i - 1],
        s.len() > 0 ==> m.contains_key(s[0]) && m[s[0]] == origin,
    decreases fuel,
{
    if p != origin {
        let q = m[p];
        let sq = choose|sq: Seq<Point>| walk(m, q, origin, (fuel - 1) as nat) == Some(sq);
        lemma_walk_links(m, q, origin, (fuel - 1) as nat, sq);
        assert(s == sq.push(p));
        assert(forall|i: int| 0 <= i < sq.len() ==> s[i] == sq[i]);
        if sq.len() == 0 {
            assert(q == origin);
        } else {
            assert(s[s.len() - 2] == sq[sq.len() - 1]);
            assert(sq[sq.len() - 1] == q);
        }
    }
}

/// Two successful walks from the same point describe the same route, so a
/// contract that names some successful fuel names the route outright.
pub proof fn lemma_walk_deterministic(
    m: Map<Point, Point>,
    p: Point,
    origin: Point,
    f1: nat,
    f2: nat,
)
    requires
        walk(m, p, origin, f1) is Some,
        walk(m, p, origin, f2) is Some,
    ensures
        walk(m, p, origin, f1) == walk(m, p, origin, f2),
    decreases f1,
{
    if p != origin {
        lemma_walk_deterministic(m, m[p], origin, (f1 - 1) as nat, (f2 - 1) as nat);
    }
}

/// The per-entry shape of the search state that keeps the predecessor
/// links acyclic: every link leads to the origin or to another linked
/// point whose cost, or failing that whose discovery rank, is strictly
/// smaller.
pub open spec fn chain_wf(
    prev: Map<Point, Point>,
    g: Map<Point, u64>,
    rank: Map<Point, nat>,
    origin: Point,
) -> bool {
    forall|p: Point| #[trigger]
        prev.contains_key(p) ==> {
            &&& g.contains_key(p)
            &&& rank.contains_key(p)
            &&& (prev[p] == origin || {
                &&& prev.contains_key(prev[p])
                &&& (p != origin ==> (g[p] > g[prev[p]] || (g[p] == g[prev[p]] && rank[p]
                    > rank[prev[p]])))
            })
        }
}

/// Well-shaped predecessor links reach the origin from every linked point.
pub proof fn lemma_chain_walk_exists(
    prev: Map<Point, Point>,
    g: Map<Point, u64>,
    rank: Map<Point, nat>,
    origin: Point,
    p: Point,
)
    requires
        chain_wf(prev, g, rank, origin),
        p == origin || prev.contains_key(p),
    ensures
        exists|fuel: nat| walk(prev, p, origin, fuel) is Some,
    decreases
            (if p == origin || !g.contains_key(p) {
                0nat
            } else {
                g[p] as nat
            }),
            (if p == origin || !rank.contains_key(p) {
                0nat
            } else {
                rank[p]
            }),
{
    if p == origin {
        assert(walk(prev, p, origin, 0) is Some);
    } else {
        let q = prev[p];
        if q == origin {
            assert(walk(prev, q, origin, 0) == Some(Seq::<Point>::empty()));
            assert(walk(prev, p, origin, 1) is Some);
        } else {
            lemma_chain_walk_exists(prev, g, rank, origin, q);
            let fq = choose|fuel: nat| walk(prev, q, origin, fuel) is Some;
            assert(walk(prev, p, origin, fq + 1) is Some);
        }
    }
}

/// Total of the recorded costs, the potential the termination argument
/// spends when a cost improves.
pub open spec fn sum_costs(s: Seq<(Point, u64)>) -> nat
    decreases s.len(),
{
    if s.len() == 0 {
        0
    } else {
        sum_costs(s.drop_last()) + s.last().1 as nat
    }
}

/// Replacing one entry's cost moves the total by the difference.
proof fn lemma_sum_update(s: Seq<(Point, u64)>, i: int, e: (Point, u64))
    requires
        0 <= i < s.len(),
    ensures
        sum_costs(s.update(i, e)) + s[i].1 == sum_costs(s) + e.1,
    decreases s.len(),
{
    let t = s.update(i, e);
    if i == s.len() - 1 {
        assert(t.drop_last() =~= s.drop_last());
        assert(t.last() == e);
    } else {
        assert(t.drop_last() =~= s.drop_last().update(i, e));
        assert(t.last() == s.last());
        assert(s.drop_last()[i] == s[i]);
        lemma_sum_update(s.drop_last(), i, e);
    }
}

/// Appending an entry adds its cost to the total.
proof fn lemma_sum_push(s: Seq<(Point, u64)>, e: (Point, u64))
    ensures
        sum_costs(s.push(e)) == sum_costs(s) + e.1,
{
    assert(s.push(e).drop_last() =~= s);
    assert(s.push(e).last() == e);
}

/// Whether the map lets `p` be reached from `origin` in at most `n` steps.
pub open spec fn reaches<M: BaseMap>(map: &M, origin: Point, p: Point, n: nat) -> bool
    decreases n,
{
    p == origin || (n > 0 && exists|q: Point|
        reaches(map, origin, q, (n - 1) as nat) && is_edge(map, q, p))
}

/// A point that the search has recorded: the origin, or any point that
/// received a predecessor link.
pub open spec fn discovered(prev: Map<Point, Point>, origin: Point, p: Point) -> bool {
    p == origin || prev.contains_key(p)
}

/// Whether some frontier entry carries the point.
spec fn in_open(open: Seq<Node>, p: Point) -> bool {
    exists|e: int| 0 <= e < open.len() && open[e].point == p
}

/// A discovered set that already holds every neighbour of its members
/// holds everything reachable from the origin.
proof fn lemma_closed_reaches<M: BaseMap>(
    map: &M,
    prev: Map<Point, Point>,
    origin: Point,
    p: Point,
    n: nat,
)
    requires
        forall|q: Point, i: int|
            discovered(prev, origin, q) && 0 <= i < map.spec_neighbours(q).len() ==> discovered(
                prev,
                origin,
                (#[trigger] map.spec_neighbours(q)[i]).0,
            ),
        reaches(map, origin, p, n),
    ensures
        discovered(prev, origin, p),
    decreases n,
{
    if p != origin {
        let q = choose|q: Point| reaches(map, origin, q, (n - 1) as nat) && is_edge(map, q, p);
        lemma_closed_reaches(map, prev, origin, q, (n - 1) as nat);
        let i = choose|i: int|
            0 <= i < map.spec_neighbours(q).len() && map.spec_neighbours(q)[i].0 == p;
        assert(discovered(prev, origin, map.spec_neighbours(q)[i].0));
    }
}

/// A connecting path witnesses reachability within its own length.
pub proof fn lemma_path_reaches<M: BaseMap>(map: &M, origin: Point, goal: Point, s: Seq<Point>)
    requires
        path_connects(map, origin, goal, s),
    ensures
        reaches(map, origin, goal, s.len()),
{
    if origin != goal {
        lemma_prefix_reaches(map, origin, s, s.len() - 1);
    }
}

/// Every stop along a chain of reported edges is reachable in as many
/// steps as its position.
proof fn lemma_prefix_reaches<M: BaseMap>(map: &M, origin: Point, s: Seq<Point>, k: int)
    requires
        0 <= k < s.len(),
        is_edge(map, origin, s[0]),
        forall|i: int| 0 < i < s.len() ==> is_edge(map, s[i - 1], #[trigger] s[i]),
    ensures
        reaches(map, origin, s[k], (k + 1) as nat),
    decreases k,
{
    if k == 0 {
        assert(reaches(map, origin, origin, 0));
    } else {
        lemma_prefix_reaches(map, origin, s, k - 1);
        assert(is_edge(map, s[k - 1], s[k]));
    }
}

/// Whether `s` is a path the map can actually walk from `origin` to
/// `goal`: empty exactly for a search to the start itself, otherwise a
/// chain of reported edges from `origin` that ends at `goal`.
pub open spec fn path_connects<M: BaseMap>(map: &M, origin: Point, goal: Point, s: Seq<
    Point,
>) -> bool {
    &&& (origin == goal ==> s.len() == 0)
    &&& (origin != goal ==> {
        &&& s.len() > 0
        &&& s[s.len() - 1] == goal
        &&& is_edge(map, origin, s[0])
        &&& forall|i: int| 0 < i < s.len() ==> is_edge(map, s[i - 1], #[trigger] s[i])
    })
}

/// Rebuild the route that the predecessor links record from `goal` back
/// to `origin`, returned in origin-to-goal order without the origin. The
/// links must reach the origin, as the ones the search builds always do.
pub fn construct_path(origin: Point, goal: Point, previous: &PointMap<Point>) -> (path: Vec<
    Point,
>)
    requires
        previous.wf(),
        exists|fuel: nat| walk(previous@, goal, origin, fuel) is Some,
    ensures
        exists|fuel: nat| walk(previous@, goal, origin, fuel) == Some(path@),
{
    let ghost m = previous@;
    let ghost fuel0 = choose|fuel: nat| walk(m, goal, origin, fuel) is Some;
    let ghost total = choose|s: Seq<Point>| walk(m, goal, origin, fuel0) == Some(s);
    let mut path: Vec<Point> = Vec::new();
    let mut current = goal;
    let ghost mut fuel = fuel0;
    let ghost mut gs = total;
    proof {
        assert(total + path@ =~= total);
    }
    while current != origin
        invariant
            previous.wf(),
            m == previous@,
            walk(m, current, origin, fuel) == Some(gs),
            walk(m, goal, origin, fuel0) == Some(total),
            total == gs + path@,
        decreases fuel,
    {
        proof {
            assert(fuel > 0);
        }
        path.insert(0, current);
        let prior = previous.get(current).unwrap();
        proof {
            let rest = choose|s: Seq<Point>|
                walk(m, m[current], origin, (fuel - 1) as nat) == Some(s);
            assert(gs == rest.push(current));
            assert(rest + path@ =~= gs + path@.drop_first());
            assert(path@ == seq![current] + path@.drop_first() || path@.len() == 1);
            assert(rest + path@ =~= total);
            gs = rest;
            fuel = (fuel - 1) as nat;
        }
        current = prior;
    }
    proof {
        assert(gs.len() == 0);
        assert(gs + path@ =~= path@);
    }
    path
}

/// A frontier entry: a discovered point with its priority score, the cost
/// so far plus the heuristic estimate.
#[derive(Clone, Copy)]
struct Node {
    point: Point,
    f: u64,
}

/// Remove and return a frontier entry with the smallest score; ties fall
/// to the earliest entry.
fn pop_min(open_list: &mut Vec<Node>) -> (nd: Node)
    requires
        old(open_list)@.len() > 0,
    ensures
        exists|i: int|
            0 <= i < old(open_list)@.len() && old(open_list)@[i] == nd && final(open_list)@
                == old(open_list)@.remove(i),
        forall|j: int| 0 <= j < old(open_list)@.len() ==> nd.f <= #[trigger] old(
            open_list,
        )@[j].f,
{
    let mut mi: usize = 0;
    let mut i: usize = 1;
    while i < open_list.len()
        invariant
            open_list@ == old(open_list)@,
            open_list@.len() > 0,
            mi < i <= open_list@.len(),
            forall|j: int| 0 <= j < i ==> open_list@[mi as int].f <= #[trigger] open_list@[j].f,
        decreases open_list@.len() - i,
    {
        if open_list[i].f < open_list[mi].f {
            mi = i;
        }
        i = i + 1;
    }
    let nd = open_list[mi];
    open_list.remove(mi);
    nd
}

/// Saturating sum of a recorded cost and a step or heuristic increment;
/// the search never relies on totals beyond the saturation point.
fn sat_add(a: u64, b: u64) -> (r: u64)
    ensures
        r >= a,
        a + b <= u64::MAX ==> r == a + b,
{
    if a <= u64::MAX - b {
        a + b
    } else {
        u64::MAX
    }
}

/// Perform an A* search on the given map from origin to goal, using the
/// given heuristic to estimate distances.
///
/// Return `Some` path ordered from the step after `origin` through `goal`
/// if one was found — empty exactly when `origin == goal` — or `None` if
/// no path exists between the two points. Every returned path follows
/// edges the map reports, which `path_connects` pins down, and `None`
/// comes back only when the map offers no route of any length at all.
#[verifier::loop_isolation(false)]
pub fn a_star_search<M: BaseMap>(
    origin: Point,
    goal: Point,
    map: &M,
    heuristic: DistanceAlg,
) -> (r: Option<Vec<Point>>)
    ensures
        origin == goal ==> (r matches Some(p) && p@.len() == 0),
        r matches Some(p) ==> path_connects(map, origin, goal, p@),
        r is None ==> forall|n: nat| !reaches(map, origin, goal, n),
{
    let mut cost_to_node: PointMap<u64> = PointMap::new();
    cost_to_node.insert(origin, 0);
    let mut previous: PointMap<Point> = PointMap::new();
    let mut open_list: Vec<Node> = Vec::new();
    open_list.push(Node { point: origin, f: 0 });
    let ghost mut rank: Map<Point, nat> = Map::empty();
    let ghost mut counter: nat = 0;
    proof {
        map.lemma_universe(origin);
        assert(open_list@[0].point == origin);
        assert(in_open(open_list@, origin));
    }
    while open_list.len() > 0
        invariant
            cost_to_node.wf(),
            previous.wf(),
            cost_to_node@.contains_key(origin),
            forall|p: Point| #[trigger]
                previous@.contains_key(p) ==> cost_to_node@.contains_key(p)
                    && map.universe().contains(p),
            forall|i: int|
                0 <= i < open_list@.len() ==> (#[trigger] open_list@[i].point == origin
                    || previous@.contains_key(open_list@[i].point)),
            forall|p: Point| #[trigger]
                previous@.contains_key(p) ==> is_edge(map, previous@[p], p),
            chain_wf(previous@, cost_to_node@, rank, origin),
            forall|p: Point| #[trigger] rank.contains_key(p) ==> rank[p] < counter,
            previous.entries_view().len() <= map.universe().len(),
            discovered(previous@, origin, goal) ==> in_open(open_list@, goal),
            forall|p: Point, i: int|
                discovered(previous@, origin, p) && !in_open(open_list@, p) && 0 <= i
                    < map.spec_neighbours(p).len() ==> discovered(
                    previous@,
                    origin,
                    (#[trigger] map.spec_neighbours(p)[i]).0,
                ),
        decreases
                map.universe().len() - previous.entries_view().len(),
                sum_costs(cost_to_node.entries_view()),
                open_list@.len(),
    {
        let ghost snap_prev = previous.entries_view();
        let ghost snap_g = cost_to_node.entries_view();
        let ghost pre_open = open_list@;
        let node = pop_min(&mut open_list);
        let ghost snap_open = open_list@;
        let point = node.point;
        proof {
            let i = choose|i: int|
                0 <= i < pre_open.len() && pre_open[i] == node && open_list@ == pre_open.remove(
                    i,
                );
            assert forall|x: int| 0 <= x < open_list@.len() implies (#[trigger] open_list@[x].point
                == origin || previous@.contains_key(open_list@[x].point)) by {
                if x < i {
                    assert(open_list@[x] == pre_open[x]);
                } else {
                    assert(open_list@[x] == pre_open[x + 1]);
                }
            }
            assert(node.point == origin || previous@.contains_key(node.point));
        }
        // If we popped the goal from the frontier, we can finish.
        if point == goal {
            proof {
                if goal == origin {
                    assert(walk(previous@, goal, origin, 0) is Some);
                } else {
                    lemma_chain_walk_exists(previous@, cost_to_node@, rank, origin, goal);
                }
            }
            let path = construct_path(origin, goal, &previous);
            proof {
                let fuel = choose|fuel: nat|
                    walk(previous@, goal, origin, fuel) == Some(path@);
                lemma_walk_links(previous@, goal, origin, fuel, path@);
            }
            return Some(path);
        }
        // Expand neighbours.
        proof {
            let i = choose|i: int|
                0 <= i < pre_open.len() && pre_open[i] == node && open_list@ == pre_open.remove(
                    i,
                );
            if discovered(previous@, origin, goal) {
                let gi = choose|gi: int|
                    0 <= gi < pre_open.len() && #[trigger] pre_open[gi].point == goal;
                if gi < i {
                    assert(open_list@[gi] == pre_open[gi]);
                } else {
                    assert(open_list@[gi - 1] == pre_open[gi]);
                }
                assert(in_open(open_list@, goal));
            }
            assert forall|p: Point| p != point && in_open(pre_open, p) implies in_open(
                open_list@,
                p,
            ) by {
                let e = choose|e: int| 0 <= e < pre_open.len() && pre_open[e].point == p;
                if e < i {
                    assert(open_list@[e] == pre_open[e]);
                } else {
                    assert(e != i);
                    assert(open_list@[e - 1] == pre_open[e]);
                }
            }
        }
        let nbrs = map.neighbours(point);
        proof {
            map.lemma_universe(point);
        }
        let mut j: usize = 0;
        while j < nbrs.len()
            invariant
                cost_to_node.wf(),
                previous.wf(),
                cost_to_node@.contains_key(origin),
                forall|p: Point| #[trigger]
                    previous@.contains_key(p) ==> cost_to_node@.contains_key(p)
                        && map.universe().contains(p),
                forall|i: int|
                    0 <= i < open_list@.len() ==> (#[trigger] open_list@[i].point == origin
                        || previous@.contains_key(open_list@[i].point)),
                forall|p: Point| #[trigger]
                    previous@.contains_key(p) ==> is_edge(map, previous@[p], p),
                chain_wf(previous@, cost_to_node@, rank, origin),
                forall|p: Point| #[trigger] rank.contains_key(p) ==> rank[p] < counter,
                previous.entries_view().len() <= map.universe().len(),
                point == origin || previous@.contains_key(point),
                discovered(previous@, origin, goal) ==> in_open(open_list@, goal),
                forall|p: Point, i: int|
                    p != point && discovered(previous@, origin, p) && !in_open(open_list@, p)
                        && 0 <= i < map.spec_neighbours(p).len() ==> discovered(
                        previous@,
                        origin,
                        (#[trigger] map.spec_neighbours(p)[i]).0,
                    ),
                forall|i: int|
                    0 <= i < j ==> discovered(
                        previous@,
                        origin,
                        (#[trigger] map.spec_neighbours(point)[i]).0,
                    ),
                j <= nbrs@.len(),
                previous.entries_view().len() >= snap_prev.len(),
                previous.entries_view().len() > snap_prev.len() || (
                previous.entries_view().len() == snap_prev.len() && sum_costs(
                    cost_to_node.entries_view(),
                ) < sum_costs(snap_g)) || (previous.entries_view() == snap_prev
                    && cost_to_node.entries_view() == snap_g && open_list@ == snap_open),
            decreases nbrs@.len() - j,
        {
            let ghost it_open = open_list@;
            let (nb, nb_cost) = nbrs[j];
            let gp = cost_to_node.get(point).unwrap();
            // Consider unvisited points and points that this route reaches
            // at a smaller total cost than any known before.
            let cand = sat_add(gp, nb_cost as u64);
            let fresh = !previous.contains_key(nb);
            let improves: bool = if fresh {
                true
            } else {
                cand < cost_to_node.get(nb).unwrap()
            };
            if improves {
                let ghost old_g = cost_to_node;
                let ghost old_prev = previous;
                let ghost old_sum = sum_costs(cost_to_node.entries_view());
                cost_to_node.insert(nb, cand);
                previous.insert(nb, point);
                let h = heuristic.distance(&point, &nb);
                let f = sat_add(cand, h);
                open_list.push(Node { point: nb, f });
                proof {
                    assert(forall|i: int|
                        0 <= i < it_open.len() ==> open_list@[i] == it_open[i]);
                    assert(open_list@[open_list@.len() - 1].point == nb);
                    assert forall|p: Point| in_open(it_open, p) implies in_open(
                        open_list@,
                        p,
                    ) by {
                        let e = choose|e: int| 0 <= e < it_open.len() && it_open[e].point == p;
                        assert(open_list@[e].point == p);
                    }
                    if discovered(previous@, origin, goal) {
                        if goal == nb {
                            assert(in_open(open_list@, goal));
                        } else {
                            assert(discovered(old_prev@, origin, goal));
                        }
                    }
                    assert forall|p: Point, i: int|
                        p != point && discovered(previous@, origin, p) && !in_open(
                            open_list@,
                            p,
                        ) && 0 <= i < map.spec_neighbours(p).len() implies discovered(
                        previous@,
                        origin,
                        (#[trigger] map.spec_neighbours(p)[i]).0,
                    ) by {
                        assert(p != nb);
                        assert(discovered(old_prev@, origin, p));
                        assert(!in_open(it_open, p));
                        assert(discovered(old_prev@, origin, map.spec_neighbours(p)[i].0));
                    }
                    let t = counter;
                    rank = rank.insert(nb, t);
                    counter = t + 1;
                    old_g.lemma_view_entries();
                    old_prev.lemma_view_entries();
                    cost_to_node.lemma_view_entries();
                    previous.lemma_view_entries();
                    assert(map.spec_neighbours(point)[j as int].0 == nb);
                    assert(map.universe().contains(nb));
                    assert(is_edge(map, point, nb));
                    let prev1 = previous@;
                    let g1 = cost_to_node@;
                    assert forall|p: Point| #[trigger] prev1.contains_key(p) implies {
                        &&& g1.contains_key(p)
                        &&& rank.contains_key(p)
                        &&& (prev1[p] == origin || {
                            &&& prev1.contains_key(prev1[p])
                            &&& (p != origin ==> (g1[p] > g1[prev1[p]] || (g1[p]
                                == g1[prev1[p]] && rank[p] > rank[prev1[p]])))
                        })
                    } by {
                        if p == nb {
                            if point != origin {
                                if point == nb {
                                    assert(old_prev@.contains_key(nb));
                                    assert(cand < old_g@[nb]);
                                    assert(old_g@[point] == gp);
                                    assert(false);
                                }
                                assert(old_prev@.contains_key(point));
                                assert(g1[point] == old_g@[point]);
                                assert(old_g@[point] == gp);
                            }
                        } else {
                            assert(old_prev@.contains_key(p));
                            let v = old_prev@[p];
                            assert(prev1[p] == v);
                            if v != origin && p != origin && v == nb {
                                assert(old_prev@.contains_key(nb));
                                assert(cand < old_g@[nb]);
                                assert(old_g@[p] == g1[p]);
                            }
                        }
                    }
                    // The frontier still holds only linked points.
                    assert(forall|i: int|
                        0 <= i < open_list@.len() ==> (#[trigger] open_list@[i].point == origin
                            || prev1.contains_key(open_list@[i].point)));
                    // The storage stays within the universe bound.
                    if old_prev@.contains_key(nb) {
                        let ei = choose|ei: int|
                            0 <= ei < old_prev.entries_view().len()
                                && old_prev.entries_view()[ei].0 == nb
                                && previous.entries_view() == old_prev.entries_view().update(
                                ei,
                                (nb, point),
                            );
                        assert(previous.entries_view().len() == snap_prev.len()
                            || previous.entries_view().len() > snap_prev.len());
                    } else {
                        previous.lemma_dom();
                        assert(previous@.dom().subset_of(map.universe()));
                        lemma_len_subset(previous@.dom(), map.universe());
                    }
                    // The candidate either claims a fresh point or lowers a
                    // recorded cost: the termination potential notices.
                    if old_g@.contains_key(nb) {
                        let gi = choose|gi: int|
                            0 <= gi < old_g.entries_view().len() && old_g.entries_view()[gi].0
                                == nb && cost_to_node.entries_view()
                                == old_g.entries_view().update(gi, (nb, cand));
                        lemma_map_of_value(old_g.entries_view(), gi);
                        lemma_sum_update(old_g.entries_view(), gi, (nb, cand));
                    } else {
                        lemma_sum_push(old_g.entries_view(), (nb, cand));
                    }
                }
            }
            j = j + 1;
        }
        proof {
            assert forall|p: Point, i: int|
                discovered(previous@, origin, p) && !in_open(open_list@, p) && 0 <= i
                    < map.spec_neighbours(p).len() implies discovered(
                previous@,
                origin,
                (#[trigger] map.spec_neighbours(p)[i]).0,
            ) by {
                if p == point {
                    assert(discovered(previous@, origin, map.spec_neighbours(point)[i].0));
                }
            }
        }
    }
    proof {
        assert forall|n: nat| !reaches(map, origin, goal, n) by {
            if reaches(map, origin, goal, n) {
                assert forall|q: Point, i: int|
                    discovered(previous@, origin, q) && 0 <= i < map.spec_neighbours(
                        q,
                    ).len() implies discovered(
                    previous@,
                    origin,
                    (#[trigger] map.spec_neighbours(q)[i]).0,
                ) by {
                    assert(!in_open(open_list@, q));
                }
                lemma_closed_reaches(map, previous@, origin, goal, n);
                assert(in_open(open_list@, goal));
                assert(false);
            }
        }
    }
    None
}

} // verus!
