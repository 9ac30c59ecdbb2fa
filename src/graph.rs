//! The weight matrix of a waypoint graph, how it is built from nodes and
//! edges, and what a path through it is.
use vstd::prelude::*;
use crate::math::Distance;

verus! {

/// Dense `n x n` table of edge weights, stored row by row.
///
/// `None` stands for "no edge" (an infinite weight).
pub struct WeightMatrix {
    pub n: usize,
    pub cells: Vec<Option<u64>>,
}

impl WeightMatrix {
    /// The table holds exactly `n * n` cells.
    pub open spec fn wf(&self) -> bool {
        self.cells@.len() == self.n * self.n
    }

    /// The weight from `i` to `j`.
    pub open spec fn weight(&self, i: int, j: int) -> Option<u64> {
        self.cells@[i * self.n + j]
    }

    /// Going from `i` to `j` costs what going from `j` to `i` costs.
    pub open spec fn symmetric(&self) -> bool {
        forall|i: int, j: int|
            0 <= i < self.n && 0 <= j < self.n ==> #[trigger] self.weight(i, j) == self.weight(j, i)
    }

    /// Number of nodes.
    pub fn size(&self) -> (r: usize)
        ensures
            r == self.n,
    {
        self.n
    }

    /// The weight from `i` to `j`, `None` where there is no edge.
    pub fn get(&self, i: usize, j: usize) -> (r: Option<u64>)
        requires
            self.wf(),
            i < self.n,
            j < self.n,
        ensures
            r == self.weight(i as int, j as int),
    {
        let len = self.cells.len();
        proof {
            lemma_cell_in_range(self.n as int, i as int, j as int);
        }
        self.cells[i * self.n + j]
    }
}

/// Cell `(i, j)` of an `n x n` table lies inside it.
proof fn lemma_cell_in_range(n: int, i: int, j: int)
    requires
        0 <= i < n,
        0 <= j < n,
    ensures
        0 <= i * n + j < n * n,
        0 <= i * n,
{
    assert(i * n + j < n * n) by (nonlinear_arith)
        requires
            0 <= i < n,
            0 <= j < n,
    ;
    assert(0 <= i * n) by (nonlinear_arith)
        requires
            0 <= i,
            0 <= n,
    ;
}

/// Two different cells of an `n x n` table are stored at different places.
proof fn lemma_cells_distinct(n: int, i: int, j: int, a: int, b: int)
    requires
        0 <= i < n,
        0 <= j < n,
        0 <= a < n,
        0 <= b < n,
        i != a || j != b,
    ensures
        i * n + j != a * n + b,
{
    if i == a {
    } else if i < a {
        assert(i * n + j < a * n + b) by (nonlinear_arith)
            requires
                i < a,
                0 <= j < n,
                0 <= b,
        ;
    } else {
        assert(a * n + b < i * n + j) by (nonlinear_arith)
            requires
                a < i,
                0 <= b < n,
                0 <= j,
        ;
    }
}

/// The edge list connects `i` and `j`, in either order.
pub open spec fn has_edge(edges: Seq<(usize, usize)>, i: int, j: int) -> bool {
    exists|k: int|
        0 <= k < edges.len() && ((edges[k].0 == i && edges[k].1 == j) || (edges[k].0 == j
            && edges[k].1 == i))
}

/// Every edge joins two different nodes among the first `n`.
pub open spec fn valid_edges(edges: Seq<(usize, usize)>, n: int) -> bool {
    forall|k: int|
        0 <= k < edges.len() ==> #[trigger] edges[k].0 < n && edges[k].1 < n && edges[k].0
            != edges[k].1
}

/// The weight that the builder gives the pair `(i, j)`: zero on the
/// diagonal, the distance between the nodes where an edge joins them, and
/// none otherwise.
pub open spec fn built_weight<T: Distance>(
    nodes: Seq<T>,
    edges: Seq<(usize, usize)>,
    i: int,
    j: int,
) -> Option<nat> {
    if i == j {
        Some(0)
    } else if has_edge(edges, i, j) {
        Some(nodes[i].spec_distance(&nodes[j]))
    } else {
        None
    }
}

/// `m` holds, for each pair of nodes, the weight that the builder gives it.
pub open spec fn matches_graph<T: Distance>(
    m: WeightMatrix,
    nodes: Seq<T>,
    edges: Seq<(usize, usize)>,
) -> bool {
    forall|i: int, j: int|
        0 <= i < m.n && 0 <= j < m.n ==> match #[trigger] m.weight(i, j) {
            Some(w) => built_weight(nodes, edges, i, j) == Some(w as nat),
            None => built_weight(nodes, edges, i, j) is None,
        }
}

/// Builds the weight matrix of the graph whose nodes are `nodes` and whose
/// undirected edges are `edges`.
pub fn build<T: Distance>(nodes: &Vec<T>, edges: &Vec<(usize, usize)>) -> (m: WeightMatrix)
    requires
        nodes@.len() * nodes@.len() <= usize::MAX,
        valid_edges(edges@, nodes@.len() as int),
    ensures
        m.wf(),
        m.n == nodes@.len(),
        matches_graph(m, nodes@, edges@),
        m.symmetric(),
{
    let n = nodes.len();
    let mut cells: Vec<Option<u64>> = vec![None; n * n];
    let mut i: usize = 0;
    assert forall|a: int, b: int| 0 <= a < n && 0 <= b < n implies #[trigger] cells@[a * n + b]
        == if a == b && a < i {
        Some(0u64)
    } else {
        None
    } by {
        lemma_cell_in_range(n as int, a, b);
    }
    while i < n
        invariant
            i <= n,
            n == nodes@.len(),
            n * n <= usize::MAX,
            cells@.len() == n * n,
            forall|a: int, b: int|
                0 <= a < n && 0 <= b < n ==> #[trigger] cells@[a * n + b] == if a == b && a < i {
                    Some(0u64)
                } else {
                    None
                },
        decreases n - i,
    {
        proof {
            lemma_cell_in_range(n as int, i as int, i as int);
        }
        cells.set(i * n + i, Some(0));
        i = i + 1;
        assert forall|a: int, b: int| 0 <= a < n && 0 <= b < n implies #[trigger] cells@[a * n + b]
            == if a == b && a < i {
            Some(0u64)
        } else {
            None
        } by {
            lemma_cell_in_range(n as int, a, b);
            if a != i - 1 || b != i - 1 {
                lemma_cells_distinct(n as int, a, b, i - 1, i - 1);
            }
        }
    }
    let mut k: usize = 0;
    while k < edges.len()
        invariant
            k <= edges@.len(),
            n == nodes@.len(),
            n * n <= usize::MAX,
            cells@.len() == n * n,
            valid_edges(edges@, n as int),
            forall|a: int, b: int|
                0 <= a < n && 0 <= b < n ==> match #[trigger] cells@[a * n + b] {
                    Some(w) => built_weight(nodes@, edges@.take(k as int), a, b) == Some(w as nat),
                    None => built_weight(nodes@, edges@.take(k as int), a, b) is None,
                },
        decreases edges@.len() - k,
    {
        let (a, b) = edges[k];
        assert(a < n && b < n && a != b) by {
            assert(valid_edges(edges@, n as int));
            let e = edges@[k as int];
        }
        let d = nodes[a].distance(&nodes[b]);
        proof {
            T::lemma_distance_symmetric(&nodes@[a as int], &nodes@[b as int]);
            lemma_cell_in_range(n as int, a as int, b as int);
            lemma_cell_in_range(n as int, b as int, a as int);
        }
        let ghost before = cells@;
        cells.set(a * n + b, Some(d));
        cells.set(b * n + a, Some(d));
        proof {
            let prev = edges@.take(k as int);
            let next = edges@.take(k as int + 1);
            assert forall|x: int, y: int| 0 <= x < n && 0 <= y < n implies match #[trigger] cells@[x
                * n + y] {
                Some(w) => built_weight(nodes@, next, x, y) == Some(w as nat),
                None => built_weight(nodes@, next, x, y) is None,
            } by {
                lemma_cell_in_range(n as int, x, y);
                assert(next[k as int] == (a, b));
                if (x == a && y == b) || (x == b && y == a) {
                    assert(has_edge(next, x, y));
                } else {
                    lemma_cells_distinct(n as int, x, y, a as int, b as int);
                    lemma_cells_distinct(n as int, x, y, b as int, a as int);
                    assert(cells@[x * n + y] == before[x * n + y]);
                    if has_edge(next, x, y) {
                        let e = choose|e: int|
                            0 <= e < next.len() && ((next[e].0 == x && next[e].1 == y) || (
                            next[e].0 == y && next[e].1 == x));
                        assert(e < k);
                        assert(prev[e] == next[e]);
                        assert(has_edge(prev, x, y));
                    }
                    if has_edge(prev, x, y) {
                        let e = choose|e: int|
                            0 <= e < prev.len() && ((prev[e].0 == x && prev[e].1 == y) || (
                            prev[e].0 == y && prev[e].1 == x));
                        assert(prev[e] == next[e]);
                        assert(has_edge(next, x, y));
                    }
                }
            }
        }
        k = k + 1;
    }
    let m = WeightMatrix { n, cells };
    proof {
        assert(edges@.take(edges@.len() as int) =~= edges@);
        assert forall|x: int, y: int| 0 <= x < m.n && 0 <= y < m.n implies #[trigger] m.weight(x, y)
            == m.weight(y, x) by {
            T::lemma_distance_symmetric(&nodes@[x], &nodes@[y]);
            assert(cells@[x * n + y] == m.weight(x, y));
            assert(cells@[y * n + x] == m.weight(y, x));
            if has_edge(edges@, x, y) {
                let e = choose|e: int|
                    0 <= e < edges@.len() && ((edges@[e].0 == x && edges@[e].1 == y) || (edges@[e].0
                        == y && edges@[e].1 == x));
                assert(has_edge(edges@, y, x));
            }
            if has_edge(edges@, y, x) {
                let e = choose|e: int|
                    0 <= e < edges@.len() && ((edges@[e].0 == y && edges@[e].1 == x) || (edges@[e].0
                        == x && edges@[e].1 == y));
                assert(has_edge(edges@, x, y));
            }
        }
    }
    m
}

/// `p` walks from `s` to `e` through nodes of `m`, each step along an edge.
pub open spec fn is_path(m: WeightMatrix, p: Seq<usize>, s: int, e: int) -> bool {
    &&& p.len() >= 1
    &&& p[0] == s
    &&& p.last() == e
    &&& forall|k: int| 0 <= k < p.len() ==> #[trigger] p[k] < m.n
    &&& forall|k: int| 0 <= k < p.len() - 1 ==> (#[trigger] m.weight(p[k] as int, p[k + 1] as int)) is Some
}

/// The sum of the weights of the steps of `p`.
pub open spec fn path_cost(m: WeightMatrix, p: Seq<usize>) -> nat
    decreases p.len(),
{
    if p.len() < 2 {
        0
    } else {
        (m.weight(p[0] as int, p[1] as int)->0 as nat) + path_cost(m, p.subrange(1, p.len() as int))
    }
}

/// Some path leads from `s` to `e`.
pub open spec fn reachable(m: WeightMatrix, s: int, e: int) -> bool {
    exists|p: Seq<usize>| is_path(m, p, s, e)
}

/// `p` leads from `s` to `e`, and no path from `s` to `e` costs less.
pub open spec fn is_shortest_path(m: WeightMatrix, p: Seq<usize>, s: int, e: int) -> bool {
    &&& is_path(m, p, s, e)
    &&& forall|q: Seq<usize>| is_path(m, q, s, e) ==> path_cost(m, p) <= path_cost(m, q)
}

/// Appending a node to a path adds the weight of the new last step.
pub proof fn lemma_path_cost_push(m: WeightMatrix, p: Seq<usize>, x: usize)
    requires
        p.len() >= 1,
    ensures
        path_cost(m, p.push(x)) == path_cost(m, p) + (m.weight(p.last() as int, x as int)->0 as nat),
    decreases p.len(),
{
    let q = p.push(x);
    if p.len() >= 2 {
        let rest = p.subrange(1, p.len() as int);
        assert(q.subrange(1, q.len() as int) =~= rest.push(x));
        lemma_path_cost_push(m, rest, x);
        assert(rest.last() == p.last());
        assert(q[0] == p[0] && q[1] == p[1]);
    } else {
        assert(q.subrange(1, q.len() as int) =~= seq![x]);
        assert(path_cost(m, seq![x]) == 0);
        assert(q[0] == p[0] && q[1] == x);
        assert(p.last() == p[0]);
    }
}

/// In a symmetric matrix a path walked backward costs what it costs forward.
pub proof fn lemma_path_cost_reverse(m: WeightMatrix, p: Seq<usize>)
    requires
        m.symmetric(),
        forall|k: int| 0 <= k < p.len() ==> #[trigger] p[k] < m.n,
    ensures
        path_cost(m, p.reverse()) == path_cost(m, p),
    decreases p.len(),
{
    if p.len() >= 2 {
        let rest = p.subrange(1, p.len() as int);
        assert forall|k: int| 0 <= k < rest.len() implies #[trigger] rest[k] < m.n by {
            assert(rest[k] == p[k + 1]);
        }
        lemma_path_cost_reverse(m, rest);
        assert(p.reverse() =~= rest.reverse().push(p[0]));
        lemma_path_cost_push(m, rest.reverse(), p[0]);
        assert(rest.reverse().last() == p[1]);
        assert(p[0] < m.n && p[1] < m.n);
        assert(m.weight(p[1] as int, p[0] as int) == m.weight(p[0] as int, p[1] as int));
    } else if p.len() == 1 {
        assert(p.reverse() =~= p);
    } else {
        assert(p.reverse() =~= p);
    }
}

/// In a symmetric matrix a path walked backward is a path between the same
/// two nodes the other way round, at the same cost.
pub proof fn lemma_reverse_path(m: WeightMatrix, p: Seq<usize>, s: int, e: int)
    requires
        m.symmetric(),
        is_path(m, p, s, e),
    ensures
        is_path(m, p.reverse(), e, s),
        path_cost(m, p.reverse()) == path_cost(m, p),
{
    let r = p.reverse();
    assert forall|k: int| 0 <= k < r.len() implies #[trigger] r[k] < m.n by {
        assert(r[k] == p[p.len() - 1 - k]);
    }
    assert forall|k: int| 0 <= k < r.len() - 1 implies (#[trigger] m.weight(
        r[k] as int,
        r[k + 1] as int,
    )) is Some by {
        let i = p.len() - 2 - k;
        assert(r[k] == p[i + 1] && r[k + 1] == p[i]);
        assert(m.weight(p[i] as int, p[i + 1] as int) is Some);
        assert(p[i] < m.n && p[i + 1] < m.n);
        assert(m.weight(p[i + 1] as int, p[i] as int) == m.weight(p[i] as int, p[i + 1] as int));
    }
    lemma_path_cost_reverse(m, p);
}

/// Where no edge leaves a set of nodes, no path leads from inside the set to
/// a node outside it.
pub proof fn lemma_cut_off_unreachable(m: WeightMatrix, side: Set<int>, s: int, e: int)
    requires
        forall|i: int, j: int|
            side.contains(i) && !side.contains(j) ==> (#[trigger] m.weight(i, j)) is None,
        side.contains(s),
        !side.contains(e),
    ensures
        !reachable(m, s, e),
{
    if reachable(m, s, e) {
        let p = choose|p: Seq<usize>| is_path(m, p, s, e);
        lemma_stays_inside(m, side, p, s, e, p.len() - 1);
    }
}

proof fn lemma_stays_inside(
    m: WeightMatrix,
    side: Set<int>,
    p: Seq<usize>,
    s: int,
    e: int,
    k: int,
)
    requires
        forall|i: int, j: int|
            side.contains(i) && !side.contains(j) ==> (#[trigger] m.weight(i, j)) is None,
        is_path(m, p, s, e),
        side.contains(s),
        0 <= k < p.len(),
    ensures
        side.contains(p[k] as int),
    decreases k,
{
    if k > 0 {
        lemma_stays_inside(m, side, p, s, e, k - 1);
        let i = k - 1;
        assert(m.weight(p[i] as int, p[i + 1] as int) is Some);
    }
}

} // verus!
