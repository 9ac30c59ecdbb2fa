//! The per-tick step that turns shortest paths into an agent's next
//! waypoint.
use vstd::prelude::*;
use crate::graph::WeightMatrix;
use crate::math::Distance;
use crate::pathfinding::{answers, shortest_path};

verus! {

/// `r` indexes a node of `nodes` that no other node is nearer to `point`
/// than, and no node before it is as near.
pub open spec fn is_nearest<T: Distance>(nodes: Seq<T>, point: T, r: int) -> bool {
    &&& 0 <= r < nodes.len()
    &&& forall|i: int|
        0 <= i < nodes.len() ==> point.spec_distance(&nodes[r]) <= point.spec_distance(
            &#[trigger] nodes[i],
        )
    &&& forall|i: int|
        0 <= i < r ==> point.spec_distance(&nodes[r]) < point.spec_distance(&#[trigger] nodes[i])
}

/// Index of the node nearest to `point`; among equally near nodes, the first.
pub fn nearest<T: Distance>(nodes: &Vec<T>, point: &T) -> (r: usize)
    requires
        nodes@.len() > 0,
    ensures
        is_nearest(nodes@, *point, r as int),
{
    let mut best: usize = 0;
    let mut best_gap: u64 = point.distance(&nodes[0]);
    let mut i: usize = 1;
    while i < nodes.len()
        invariant
            1 <= i <= nodes@.len(),
            best < i,
            best_gap as nat == point.spec_distance(&nodes@[best as int]),
            forall|k: int|
                0 <= k < i ==> best_gap as nat <= point.spec_distance(&#[trigger] nodes@[k]),
            forall|k: int|
                0 <= k < best ==> (best_gap as nat) < point.spec_distance(&#[trigger] nodes@[k]),
        decreases nodes@.len() - i,
    {
        let gap = point.distance(&nodes[i]);
        if gap < best_gap {
            best = i;
            best_gap = gap;
        }
        i = i + 1;
    }
    best
}

/// The waypoint an agent heads for next: the second node of its path once
/// it is within `arrival_radius` of its current waypoint, else the current
/// one.
pub fn advance_waypoint(waypoint: usize, path: &Vec<usize>, gap: u64, arrival_radius: u64) -> (r:
    usize)
    ensures
        r == if path@.len() > 1 && gap <= arrival_radius {
            path@[1]
        } else {
            waypoint
        },
{
    if path.len() > 1 && gap <= arrival_radius {
        path[1]
    } else {
        waypoint
    }
}

/// What one tick of navigation decided.
pub struct NavStep {
    /// The node nearest to the cursor.
    pub target: usize,
    /// A cheapest path from the agent's waypoint to the target, if any.
    pub path: Option<Vec<usize>>,
    /// The waypoint the agent heads for after this tick.
    pub waypoint: usize,
}

/// One tick: picks the node nearest to `cursor` as the target, finds a
/// cheapest path to it from the agent's `waypoint`, and moves on to the
/// path's next node once the agent is within `arrival_radius` of its
/// waypoint. Where no path leads to the target, the agent holds its
/// waypoint.
pub fn navigate<T: Distance>(
    nodes: &Vec<T>,
    weights: &WeightMatrix,
    waypoint: usize,
    agent: &T,
    cursor: &T,
    arrival_radius: u64,
) -> (r: NavStep)
    requires
        weights.wf(),
        nodes@.len() == weights.n,
        waypoint < weights.n,
    ensures
        is_nearest(nodes@, *cursor, r.target as int),
        answers(*weights, waypoint as int, r.target as int, r.path),
        r.waypoint == match r.path {
            Some(p) => if p@.len() > 1 && nodes@[waypoint as int].spec_distance(agent)
                <= arrival_radius {
                p@[1]
            } else {
                waypoint
            },
            None => waypoint,
        },
        r.waypoint < weights.n,
{
    let target = nearest(nodes, cursor);
    let path = shortest_path(nodes, weights, waypoint, target);
    let gap = nodes[waypoint].distance(agent);
    let next = match &path {
        Some(p) => advance_waypoint(waypoint, p, gap, arrival_radius),
        None => waypoint,
    };
    proof {
        if path is Some && path->0@.len() > 1 {
            let k: int = 1;
            assert(path->0@[k] < weights.n);
        }
    }
    NavStep { target, path, waypoint: next }
}

} // verus!
