//! Shortest paths through a weight matrix: plain Dijkstra and the A* variant
//! guided by a straight-line estimate of the distance left to the goal.
use vstd::prelude::*;
use crate::graph::{
    WeightMatrix, is_path, path_cost, reachable, is_shortest_path, lemma_reverse_path,
};
use crate::math::Distance;

verus! {

/// Largest weight that one edge can carry.
spec fn max_weight() -> int {
    u64::MAX as int
}

/// A tentative cost, with "not reached yet" above every finite one.
spec fn potential_of(x: Option<u128>) -> nat {
    match x {
        Some(d) => d as nat,
        None => 0x1_0000_0000_0000_0000_0000_0000_0000_0000nat,
    }
}

/// Sum of the tentative costs; it falls each time one of them improves.
spec fn potential(s: Seq<Option<u128>>) -> nat
    decreases s.len(),
{
    if s.len() == 0 {
        0
    } else {
        potential(s.drop_last()) + potential_of(s.last())
    }
}

/// Number of nodes that have a finite tentative cost.
spec fn count_reached(s: Seq<Option<u128>>) -> nat
    decreases s.len(),
{
    if s.len() == 0 {
        0
    } else {
        count_reached(s.drop_last()) + if s.last() is Some {
            1nat
        } else {
            0nat
        }
    }
}

proof fn lemma_potential_update(s: Seq<Option<u128>>, j: int, x: Option<u128>)
    requires
        0 <= j < s.len(),
    ensures
        potential(s.update(j, x)) == potential(s) - potential_of(s[j]) + potential_of(x),
    decreases s.len(),
{
    let t = s.update(j, x);
    if j == s.len() - 1 {
        assert(t.drop_last() =~= s.drop_last());
    } else {
        assert(t.drop_last() =~= s.drop_last().update(j, x));
        lemma_potential_update(s.drop_last(), j, x);
    }
}

proof fn lemma_count_update(s: Seq<Option<u128>>, j: int, x: Option<u128>)
    requires
        0 <= j < s.len(),
    ensures
        count_reached(s.update(j, x)) + (if s[j] is Some {
            1int
        } else {
            0int
        }) == count_reached(s) + (if x is Some {
            1int
        } else {
            0int
        }),
    decreases s.len(),
{
    let t = s.update(j, x);
    if j == s.len() - 1 {
        assert(t.drop_last() =~= s.drop_last());
    } else {
        assert(t.drop_last() =~= s.drop_last().update(j, x));
        lemma_count_update(s.drop_last(), j, x);
    }
}

proof fn lemma_count_le_len(s: Seq<Option<u128>>)
    ensures
        count_reached(s) <= s.len(),
    decreases s.len(),
{
    if s.len() > 0 {
        lemma_count_le_len(s.drop_last());
    }
}

/// Every edge out of `u` leads to a node whose cost is no more than the cost
/// of `u` plus the edge's weight.
spec fn relaxed_from(m: WeightMatrix, dist: Seq<Option<u128>>, u: int) -> bool {
    forall|v: int|
        0 <= v < m.n && (#[trigger] m.weight(u, v)) is Some ==> dist[v] is Some && dist[v]->0
            <= dist[u]->0 + m.weight(u, v)->0
}

/// No edge out of a reached node can lower any cost.
spec fn all_relaxed(m: WeightMatrix, dist: Seq<Option<u128>>) -> bool {
    forall|u: int| 0 <= u < m.n && #[trigger] dist[u] is Some ==> relaxed_from(m, dist, u)
}

/// Node `v` was reached from its recorded predecessor: the predecessor is
/// reached, an edge joins the two, and the costs agree with it. Where the
/// costs are equal the predecessor was improved earlier.
spec fn pred_step_ok(
    m: WeightMatrix,
    dist: Seq<Option<u128>>,
    pred: Seq<usize>,
    stamp: Seq<nat>,
    v: int,
) -> bool {
    let p = pred[v] as int;
    &&& p < m.n
    &&& dist[p] is Some
    &&& m.weight(p, v) is Some
    &&& dist[p]->0 + m.weight(p, v)->0 <= dist[v]->0
    &&& (dist[p]->0 < dist[v]->0 || stamp[p] < stamp[v])
}

/// Every reached node but the start has a sound predecessor.
spec fn preds_ok(
    m: WeightMatrix,
    dist: Seq<Option<u128>>,
    pred: Seq<usize>,
    stamp: Seq<nat>,
    start: int,
) -> bool {
    forall|v: int|
        0 <= v < m.n && v != start && #[trigger] dist[v] is Some ==> pred_step_ok(
            m,
            dist,
            pred,
            stamp,
            v,
        )
}

/// With all edges relaxed, no path from a reached node costs less than the
/// difference of the costs at its two ends.
proof fn lemma_dist_le_path_cost(m: WeightMatrix, dist: Seq<Option<u128>>, p: Seq<usize>)
    requires
        dist.len() == m.n,
        all_relaxed(m, dist),
        is_path(m, p, p[0] as int, p.last() as int),
        dist[p[0] as int] is Some,
    ensures
        dist[p.last() as int] is Some,
        dist[p.last() as int]->0 <= dist[p[0] as int]->0 + path_cost(m, p),
    decreases p.len(),
{
    if p.len() >= 2 {
        let rest = p.subrange(1, p.len() as int);
        let z: int = 0;
        assert(m.weight(p[z] as int, p[z + 1] as int) is Some);
        assert(relaxed_from(m, dist, p[0] as int));
        assert(rest[0] == p[1]);
        assert(rest.last() == p.last());
        assert forall|k: int| 0 <= k < rest.len() - 1 implies (#[trigger] m.weight(
            rest[k] as int,
            rest[k + 1] as int,
        )) is Some by {
            assert(rest[k] == p[k + 1] && rest[k + 1] == p[k + 2]);
        }
        assert(is_path(m, rest, rest[0] as int, rest.last() as int));
        lemma_dist_le_path_cost(m, dist, rest);
    }
}

proof fn lemma_remove_keeps(s: Seq<(usize, u128)>, i: int, a: (usize, u128))
    requires
        0 <= i < s.len(),
        s.contains(a),
        s[i] != a,
    ensures
        s.remove(i).contains(a),
{
    let k = choose|k: int| 0 <= k < s.len() && s[k] == a;
    let t = s.remove(i);
    if k < i {
        assert(t[k] == a);
    } else {
        assert(t[k - 1] == a);
    }
}

proof fn lemma_count_none(s: Seq<Option<u128>>)
    requires
        forall|i: int| 0 <= i < s.len() ==> #[trigger] s[i] is None,
    ensures
        count_reached(s) == 0,
    decreases s.len(),
{
    if s.len() > 0 {
        lemma_count_none(s.drop_last());
    }
}

/// A frontier entry names a reached node of an `n`-node graph and a cost no
/// lower than that node's current one.
spec fn entry_ok(dist: Seq<Option<u128>>, n: int, e: (usize, u128)) -> bool {
    &&& e.0 < n
    &&& dist[e.0 as int] is Some
    &&& dist[e.0 as int]->0 <= e.1
    &&& e.1 <= max_weight() * (n - 1)
}

/// Computes the cost of the cheapest path from `start` to every node, with
/// each reached node's predecessor on such a path.
///
/// The frontier is searched for the entry of least `cost + h[node]`, ties
/// going to the lower node index; entries whose cost has since improved are
/// skipped. The search runs until the frontier is empty, so the costs it
/// returns are exact whatever `h` holds.
fn settle(m: &WeightMatrix, h: &Vec<u64>, start: usize) -> (r: (
    Vec<Option<u128>>,
    Vec<usize>,
    Ghost<Seq<nat>>,
))
    requires
        m.wf(),
        h@.len() == m.n,
        start < m.n,
    ensures
        r.0@.len() == m.n,
        r.1@.len() == m.n,
        r.2@.len() == m.n,
        r.0@[start as int] == Some(0u128),
        all_relaxed(*m, r.0@),
        preds_ok(*m, r.0@, r.1@, r.2@, start as int),
{
    let n = m.n;
    let mut dist: Vec<Option<u128>> = vec![None; n];
    proof {
        lemma_count_none(dist@);
        lemma_count_update(dist@, start as int, Some(0u128));
    }
    dist.set(start, Some(0));
    let mut pred: Vec<usize> = vec![n; n];
    let mut frontier: Vec<(usize, u128)> = Vec::new();
    frontier.push((start, 0));
    let ghost mut stamp: Seq<nat> = Seq::new(n as nat, |i: int| 0nat);
    let ghost mut clock: nat = 1;
    assert(frontier@[0] == (start, 0u128));
    while frontier.len() > 0
        invariant
            m.wf(),
            n == m.n,
            h@.len() == n,
            start < n,
            dist@.len() == n,
            pred@.len() == n,
            stamp.len() == n,
            dist@[start as int] == Some(0u128),
            1 <= count_reached(dist@) <= n,
            forall|v: int|
                0 <= v < n && #[trigger] dist@[v] is Some ==> dist@[v]->0 <= max_weight() * (
                count_reached(dist@) - 1),
            forall|k: int|
                0 <= k < frontier@.len() ==> entry_ok(dist@, n as int, #[trigger] frontier@[k]),
            forall|x: int|
                0 <= x < n && #[trigger] dist@[x] is Some ==> frontier@.contains(
                    (x as usize, dist@[x]->0),
                ) || relaxed_from(*m, dist@, x),
            preds_ok(*m, dist@, pred@, stamp, start as int),
            forall|v: int| 0 <= v < n ==> #[trigger] stamp[v] < clock,
        decreases potential(dist@), frontier@.len(),
    {
        let mut best: usize = 0;
        let mut best_key: u128 = frontier[0].1 + h[frontier[0].0] as u128;
        let mut k: usize = 1;
        while k < frontier.len()
            invariant
                1 <= k <= frontier@.len(),
                best < frontier@.len(),
                n == m.n,
                h@.len() == n,
                forall|i: int|
                    0 <= i < frontier@.len() ==> entry_ok(dist@, n as int, #[trigger] frontier@[i]),
                best_key == frontier@[best as int].1 + h@[frontier@[best as int].0 as int],
            decreases frontier@.len() - k,
        {
            let key: u128 = frontier[k].1 + h[frontier[k].0] as u128;
            if key < best_key || (key == best_key && frontier[k].0 < frontier[best].0) {
                best = k;
                best_key = key;
            }
            k = k + 1;
        }
        let ghost queued = frontier@;
        let entry = frontier.remove(best);
        let u = entry.0;
        let c = entry.1;
        assert(entry_ok(dist@, n as int, queued[best as int]));
        proof {
            assert forall|i: int| 0 <= i < frontier@.len() implies entry_ok(
                dist@,
                n as int,
                #[trigger] frontier@[i],
            ) by {
                if i < best {
                    assert(frontier@[i] == queued[i]);
                } else {
                    assert(frontier@[i] == queued[i + 1]);
                }
            }
            assert forall|x: int|
                0 <= x < n && x != u && #[trigger] dist@[x] is Some && queued.contains(
                    (x as usize, dist@[x]->0),
                ) implies frontier@.contains((x as usize, dist@[x]->0)) by {
                lemma_remove_keeps(queued, best as int, (x as usize, dist@[x]->0));
            }
        }
        let stale: bool = match dist[u] {
            Some(du) => du < c,
            None => true,
        };
        if stale {
            proof {
                assert forall|x: int|
                    0 <= x < n && #[trigger] dist@[x] is Some && queued.contains(
                        (x as usize, dist@[x]->0),
                    ) implies frontier@.contains((x as usize, dist@[x]->0)) by {
                    lemma_remove_keeps(queued, best as int, (x as usize, dist@[x]->0));
                }
            }
        } else {
            let ghost pot_before = potential(dist@);
            let ghost len_before = frontier@.len();
            let mut j: usize = 0;
            while j < n
                invariant
                    m.wf(),
                    n == m.n,
                    h@.len() == n,
                    start < n,
                    u < n,
                    j <= n,
                    dist@.len() == n,
                    pred@.len() == n,
                    stamp.len() == n,
                    dist@[start as int] == Some(0u128),
                    dist@[u as int] == Some(c),
                    1 <= count_reached(dist@) <= n,
                    forall|v: int|
                        0 <= v < n && #[trigger] dist@[v] is Some ==> dist@[v]->0 <= max_weight()
                            * (count_reached(dist@) - 1),
                    forall|k: int|
                        0 <= k < frontier@.len() ==> entry_ok(
                            dist@,
                            n as int,
                            #[trigger] frontier@[k],
                        ),
                    forall|x: int|
                        0 <= x < n && x != u && #[trigger] dist@[x] is Some ==> frontier@.contains(
                            (x as usize, dist@[x]->0),
                        ) || relaxed_from(*m, dist@, x),
                    forall|v: int|
                        0 <= v < j && (#[trigger] m.weight(u as int, v)) is Some ==> dist@[v] is Some
                            && dist@[v]->0 <= c + m.weight(u as int, v)->0,
                    preds_ok(*m, dist@, pred@, stamp, start as int),
                    forall|v: int| 0 <= v < n ==> #[trigger] stamp[v] < clock,
                    potential(dist@) <= pot_before,
                    potential(dist@) == pot_before ==> frontier@.len() == len_before,
                decreases n - j,
            {
                match m.get(u, j) {
                    Some(w) => {
                        let cand: u128 = c + w as u128;
                        let better: bool = match dist[j] {
                            Some(dj) => cand < dj,
                            None => true,
                        };
                        if better {
                            let ghost d0 = dist@;
                            let ghost f0 = frontier@;
                            let ghost pr0 = pred@;
                            let ghost s0 = stamp;
                            let ghost cnt0 = count_reached(d0);
                            proof {
                                lemma_potential_update(d0, j as int, Some(cand));
                                lemma_count_update(d0, j as int, Some(cand));
                            }
                            dist.set(j, Some(cand));
                            pred.set(j, u);
                            frontier.push((j, cand));
                            proof {
                                lemma_count_le_len(dist@);
                                stamp = stamp.update(j as int, clock);
                                clock = clock + 1;
                                let cnt = count_reached(dist@);
                                assert(cnt >= cnt0);
                                assert(cand <= max_weight() * (cnt - 1));
                                assert forall|v: int|
                                    0 <= v < n && #[trigger] dist@[v] is Some implies dist@[v]->0
                                    <= max_weight() * (count_reached(dist@) - 1) by {
                                    if v != j {
                                        assert(d0[v] is Some);
                                    }
                                }
                                assert forall|i: int| 0 <= i < frontier@.len() implies entry_ok(
                                    dist@,
                                    n as int,
                                    #[trigger] frontier@[i],
                                ) by {
                                    if i < f0.len() {
                                        assert(frontier@[i] == f0[i]);
                                        assert(entry_ok(d0, n as int, f0[i]));
                                    }
                                }
                                assert(frontier@[f0.len() as int] == (j, cand));
                                assert forall|x: int|
                                    0 <= x < n && x != u && #[trigger] dist@[x] is Some implies frontier@.contains(
                                        (x as usize, dist@[x]->0),
                                    ) || relaxed_from(*m, dist@, x) by {
                                    if x == j {
                                    } else {
                                        assert(d0[x] is Some);
                                        if f0.contains((x as usize, d0[x]->0)) {
                                            let i = choose|i: int|
                                                0 <= i < f0.len() && f0[i] == (x as usize, d0[x]->0);
                                            assert(frontier@[i] == f0[i]);
                                        } else {
                                            assert(relaxed_from(*m, d0, x));
                                            assert forall|v: int|
                                                0 <= v < m.n && (#[trigger] m.weight(x, v)) is Some implies dist@[v] is Some
                                                && dist@[v]->0 <= dist@[x]->0 + m.weight(x, v)->0 by {
                                                assert(d0[v] is Some);
                                            }
                                        }
                                    }
                                }
                                assert forall|v: int|
                                    0 <= v < n && v != start && #[trigger] dist@[v] is Some implies pred_step_ok(
                                        *m,
                                        dist@,
                                        pred@,
                                        stamp,
                                        v,
                                    ) by {
                                    if v != j {
                                        assert(d0[v] is Some);
                                        assert(pred_step_ok(*m, d0, pr0, s0, v));
                                        assert(pred@[v] == pr0[v]);
                                    }
                                }
                            }
                        }
                    },
                    None => {},
                }
                j = j + 1;
            }
            proof {
                assert(relaxed_from(*m, dist@, u as int));
            }
        }
    }
    proof {
        assert forall|u: int| 0 <= u < m.n && #[trigger] dist@[u] is Some implies relaxed_from(
            *m,
            dist@,
            u,
        ) by {
            if frontier@.contains((u as usize, dist@[u]->0)) {
                let i = choose|i: int|
                    0 <= i < frontier@.len() && frontier@[i] == (u as usize, dist@[u]->0);
            }
        }
    }
    (dist, pred, Ghost(stamp))
}

/// Node `a` got its cost before `b` in the order the predecessor walk
/// follows backward: a lower cost, or an equal one improved earlier.
spec fn improved_before(
    dist: Seq<Option<u128>>,
    stamp: Seq<nat>,
    a: int,
    b: int,
) -> bool {
    dist[a]->0 < dist[b]->0 || (dist[a]->0 == dist[b]->0 && stamp[a] < stamp[b])
}

/// Walks the recorded predecessors back from `end` to `start`.
fn trace_path(
    m: &WeightMatrix,
    dist: &Vec<Option<u128>>,
    pred: &Vec<usize>,
    Ghost(stamp): Ghost<Seq<nat>>,
    start: usize,
    end: usize,
) -> (p: Vec<usize>)
    requires
        m.wf(),
        start < m.n,
        end < m.n,
        dist@.len() == m.n,
        pred@.len() == m.n,
        stamp.len() == m.n,
        dist@[start as int] == Some(0u128),
        dist@[end as int] is Some,
        all_relaxed(*m, dist@),
        preds_ok(*m, dist@, pred@, stamp, start as int),
    ensures
        is_path(*m, p@, start as int, end as int),
        path_cost(*m, p@) == dist@[end as int]->0,
        p@.no_duplicates(),
{
    let mut path: Vec<usize> = Vec::new();
    path.push(end);
    let mut v: usize = end;
    while v != start
        invariant
            m.wf(),
            start < m.n,
            end < m.n,
            v < m.n,
            dist@.len() == m.n,
            pred@.len() == m.n,
            stamp.len() == m.n,
            dist@[start as int] == Some(0u128),
            dist@[v as int] is Some,
            dist@[end as int] is Some,
            all_relaxed(*m, dist@),
            preds_ok(*m, dist@, pred@, stamp, start as int),
            is_path(*m, path@, v as int, end as int),
            path_cost(*m, path@) + dist@[v as int]->0 == dist@[end as int]->0,
            forall|k: int, l: int|
                0 <= k < l < path@.len() ==> improved_before(
                    dist@,
                    stamp,
                    #[trigger] path@[k] as int,
                    #[trigger] path@[l] as int,
                ),
        decreases dist@[v as int]->0, stamp[v as int],
    {
        let p = pred[v];
        let ghost old_path = path@;
        proof {
            assert(pred_step_ok(*m, dist@, pred@, stamp, v as int));
            assert(relaxed_from(*m, dist@, p as int));
        }
        path.insert(0, p);
        proof {
            assert(path@.subrange(1, path@.len() as int) =~= old_path);
            assert(path@[0] == p && path@[1] == v);
            assert forall|k: int| 0 <= k < path@.len() - 1 implies (#[trigger] m.weight(
                path@[k] as int,
                path@[k + 1] as int,
            )) is Some by {
                if k > 0 {
                    assert(path@[k] == old_path[k - 1] && path@[k + 1] == old_path[k]);
                }
            }
            assert forall|k: int| 0 <= k < path@.len() implies #[trigger] path@[k] < m.n by {
                if k > 0 {
                    assert(path@[k] == old_path[k - 1]);
                }
            }
            assert forall|k: int, l: int| 0 <= k < l < path@.len() implies improved_before(
                dist@,
                stamp,
                #[trigger] path@[k] as int,
                #[trigger] path@[l] as int,
            ) by {
                assert(path@[l] == old_path[l - 1]);
                if k > 0 {
                    assert(path@[k] == old_path[k - 1]);
                } else if l > 1 {
                    assert(improved_before(dist@, stamp, old_path[0] as int, old_path[l - 1] as int));
                }
            }
        }
        v = p;
    }
    assert forall|k: int, l: int| 0 <= k < path@.len() && 0 <= l < path@.len() && k != l implies
        path@[k] != path@[l] by {
        if k < l {
            assert(improved_before(dist@, stamp, path@[k] as int, path@[l] as int));
        } else {
            assert(improved_before(dist@, stamp, path@[l] as int, path@[k] as int));
        }
    }
    path
}

/// `r` is what a query from `s` to `e` must answer: a cheapest path, which
/// visits no node twice, where one exists, and "no path" exactly where none
/// does.
pub open spec fn answers(m: WeightMatrix, s: int, e: int, r: Option<Vec<usize>>) -> bool {
    match r {
        Some(p) => is_shortest_path(m, p@, s, e) && p@.no_duplicates(),
        None => !reachable(m, s, e),
    }
}

/// Cheapest path from `start` to `end`, searching in order of
/// `cost + h[node]`.
fn search(m: &WeightMatrix, h: &Vec<u64>, start: usize, end: usize) -> (r: Option<Vec<usize>>)
    requires
        m.wf(),
        h@.len() == m.n,
        start < m.n,
        end < m.n,
    ensures
        answers(*m, start as int, end as int, r),
{
    let (dist, pred, stamp) = settle(m, h, start);
    match dist[end] {
        None => {
            proof {
                if reachable(*m, start as int, end as int) {
                    let q = choose|q: Seq<usize>| is_path(*m, q, start as int, end as int);
                    lemma_dist_le_path_cost(*m, dist@, q);
                }
            }
            None
        },
        Some(_) => {
            let p = trace_path(m, &dist, &pred, stamp, start, end);
            proof {
                assert forall|q: Seq<usize>| is_path(*m, q, start as int, end as int) implies path_cost(
                    *m,
                    p@,
                ) <= path_cost(*m, q) by {
                    lemma_dist_le_path_cost(*m, dist@, q);
                }
            }
            Some(p)
        },
    }
}

/// The one-node path from a node to itself is a cheapest one.
proof fn lemma_self_path(m: WeightMatrix, k: usize)
    requires
        k < m.n,
    ensures
        is_shortest_path(m, seq![k], k as int, k as int),
{
    assert(is_path(m, seq![k], k as int, k as int));
}

/// Dijkstra's search for a cheapest path from `start` to `end`.
///
/// Returns `None` when no path joins the two nodes; a query from a node to
/// itself returns the one-node path without searching.
pub fn dijkstra(weights: &WeightMatrix, start: usize, end: usize) -> (r: Option<Vec<usize>>)
    requires
        weights.wf(),
        start < weights.n,
        end < weights.n,
    ensures
        answers(*weights, start as int, end as int, r),
        r is Some <==> reachable(*weights, start as int, end as int),
        start == end ==> (r matches Some(p) && p@ == seq![start]),
{
    if start == end {
        let r = vec![start];
        proof {
            assert(r@ =~= seq![start]);
            lemma_self_path(*weights, start);
        }
        return Some(r);
    }
    let h: Vec<u64> = vec![0; weights.n];
    let r = search(weights, &h, start, end);
    r
}

/// The A* search for a cheapest path from `start` to `end`, guided by the
/// distance from each node to `nodes[end]`.
///
/// The estimate only decides the order in which nodes are expanded; the
/// search still runs until nothing is left to expand, so the path is a
/// cheapest one whatever the node positions.
///
/// Returns `None` when no path joins the two nodes; a query from a node to
/// itself returns the one-node path without searching.
pub fn shortest_path<T: Distance>(
    nodes: &Vec<T>,
    weights: &WeightMatrix,
    start: usize,
    end: usize,
) -> (r: Option<Vec<usize>>)
    requires
        weights.wf(),
        nodes@.len() == weights.n,
        start < weights.n,
        end < weights.n,
    ensures
        answers(*weights, start as int, end as int, r),
        r is Some <==> reachable(*weights, start as int, end as int),
        start == end ==> (r matches Some(p) && p@ == seq![start]),
{
    if start == end {
        let r = vec![start];
        proof {
            assert(r@ =~= seq![start]);
            lemma_self_path(*weights, start);
        }
        return Some(r);
    }
    let mut h: Vec<u64> = Vec::new();
    let mut i: usize = 0;
    while i < nodes.len()
        invariant
            i <= nodes@.len(),
            end < nodes@.len(),
            h@.len() == i,
        decreases nodes@.len() - i,
    {
        h.push(nodes[i].distance(&nodes[end]));
        i = i + 1;
    }
    let r = search(weights, &h, start, end);
    r
}

/// Only one path from `s` to `e` is cheapest among those that visit no node
/// twice.
pub open spec fn unique_shortest(m: WeightMatrix, s: int, e: int) -> bool {
    forall|a: Seq<usize>, b: Seq<usize>|
        is_shortest_path(m, a, s, e) && a.no_duplicates() && is_shortest_path(m, b, s, e)
            && b.no_duplicates() ==> a == b
}

/// Two answers to the same query agree: both find a path or neither does,
/// and the paths they find cost the same; where the cheapest path is unique
/// they are the same path. So repeated queries, and the Dijkstra and A*
/// searches, return paths of one cost.
pub proof fn lemma_answers_agree(
    m: WeightMatrix,
    s: int,
    e: int,
    r1: Option<Vec<usize>>,
    r2: Option<Vec<usize>>,
)
    requires
        answers(m, s, e, r1),
        answers(m, s, e, r2),
    ensures
        r1 is Some <==> r2 is Some,
        r1 is Some ==> path_cost(m, r1->0@) == path_cost(m, r2->0@),
        r1 is Some && unique_shortest(m, s, e) ==> r1->0@ == r2->0@,
{
    if r1 is Some && r2 is None {
        assert(is_path(m, r1->0@, s, e));
    }
    if r2 is Some && r1 is None {
        assert(is_path(m, r2->0@, s, e));
    }
}

/// In a symmetric matrix the query from `s` to `e` and the one from `e` to
/// `s` both find a path or both find none, and their paths cost the same;
/// where the cheapest path is unique, one is the other walked backward.
pub proof fn lemma_reversed_query(
    m: WeightMatrix,
    s: int,
    e: int,
    forward: Option<Vec<usize>>,
    backward: Option<Vec<usize>>,
)
    requires
        m.symmetric(),
        answers(m, s, e, forward),
        answers(m, e, s, backward),
    ensures
        forward is Some <==> backward is Some,
        forward is Some ==> path_cost(m, forward->0@) == path_cost(m, backward->0@),
        forward is Some && unique_shortest(m, s, e) ==> forward->0@ == backward->0@.reverse(),
{
    if let Some(p) = forward {
        lemma_reverse_path(m, p@, s, e);
        if let Some(q) = backward {
            lemma_reverse_path(m, q@, e, s);
            let r = q@.reverse();
            assert forall|i: int, j: int| 0 <= i < r.len() && 0 <= j < r.len() && i != j implies r[i]
                != r[j] by {
                assert(r[i] == q@[q@.len() - 1 - i] && r[j] == q@[q@.len() - 1 - j]);
            }
            assert(is_shortest_path(m, r, s, e));
            assert(r.no_duplicates());
            assert(p@.no_duplicates());
            if unique_shortest(m, s, e) {
                assert(is_shortest_path(m, p@, s, e) && p@.no_duplicates() && is_shortest_path(
                    m,
                    r,
                    s,
                    e,
                ) && r.no_duplicates());
                assert(p@ == r);
            }
        }
    } else if let Some(q) = backward {
        lemma_reverse_path(m, q@, e, s);
    }
}

} // verus!
