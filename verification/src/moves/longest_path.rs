//! In a road network without a ring, the search from the root finds the
//! longest path of roads among the intersections that the root is joined to.

use crate::game::board::{Game, INTERSECTIONS, Player};
use crate::moves::paths::{
    apart, fresh, has_neighbour, is_path, joined, lemma_fresh_wider, lemma_part_of_path,
    lemma_path_reversed, lemma_paths_joined, linked, newly,
};
use crate::moves::possible_moves::{ROOT, Scan, Walk, closed, lemma_visit, scan, unvisited, walk};
use crate::moves::search::{
    after_neighbour, keeps_visits, lemma_scan_goes_on, lemma_walk_keeps_visits, walk_from,
};
use vstd::prelude::*;

verus! {

/// Every road can be taken both ways: where the graph names `w` as a
/// neighbour of `u`, it names `u` as a neighbour of `w`.
pub open spec fn two_way(graph: Seq<Seq<usize>>) -> bool {
    forall|u: int, w: int| #[trigger] has_neighbour(graph, u, w) ==> has_neighbour(graph, w, u)
}

/// No road joins an intersection to itself.
pub open spec fn loop_free(graph: Seq<Seq<usize>>) -> bool {
    forall|u: int| !#[trigger] has_neighbour(graph, u, u)
}

/// No path of roads through three intersections or more comes back to
/// where it began: no road joins its last intersection to its first.
pub open spec fn ring_free(graph: Seq<Seq<usize>>) -> bool {
    forall|path: Seq<int>| #[trigger]
        is_path(graph, path) && path.len() >= 3 ==> !joined(graph, path.last(), path[0])
}

/// Every neighbour of an intersection that was visited in between is marked
/// after.
pub open spec fn shut(graph: Seq<Seq<usize>>, before: Seq<bool>, after: Seq<bool>) -> bool {
    forall|u: int, w: int|
        newly(before, after, u) && #[trigger] joined(graph, u, w) ==> 0 <= w < after.len()
            && after[w]
}

/// A path of roads that begins among the intersections visited in between,
/// where every neighbour of those is marked after and nothing that was
/// marked before is on the path, stays among them.
pub proof fn lemma_path_stays(
    graph: Seq<Seq<usize>>,
    before: Seq<bool>,
    after: Seq<bool>,
    path: Seq<int>,
    i: int,
)
    requires
        is_path(graph, path),
        before.len() == graph.len(),
        after.len() == graph.len(),
        shut(graph, before, after),
        newly(before, after, path[0]),
        forall|j: int| 0 <= j < path.len() ==> !before[#[trigger] path[j]],
        0 <= i < path.len(),
    ensures
        newly(before, after, path[i]),
    decreases i,
{
    if i > 0 {
        lemma_path_stays(graph, before, after, path, i - 1);
        assert(linked(graph, path, i - 1));
        assert(joined(graph, path[i - 1], path[i]));
    }
}

/// The list is a path of roads from `from` to `to` through intersections
/// visited in between.
pub open spec fn leads(
    graph: Seq<Seq<usize>>,
    before: Seq<bool>,
    after: Seq<bool>,
    path: Seq<int>,
    from: int,
    to: int,
) -> bool {
    is_path(graph, path) && path[0] == from && path.last() == to && fresh(before, after, path)
}

/// The list is a path of roads through intersections visited in between.
pub open spec fn road_within(
    graph: Seq<Seq<usize>>,
    before: Seq<bool>,
    after: Seq<bool>,
    path: Seq<int>,
) -> bool {
    is_path(graph, path) && fresh(before, after, path)
}

/// The list is a path of roads through intersections visited in between,
/// which begins at a neighbour of `node`.
pub open spec fn arm_within(
    graph: Seq<Seq<usize>>,
    before: Seq<bool>,
    after: Seq<bool>,
    node: int,
    path: Seq<int>,
) -> bool {
    is_path(graph, path) && fresh(before, after, path) && joined(graph, node, path[0])
}

/// What the search from `node` has found is all there is among the
/// intersections that it has newly visited: they are shut off from what is
/// not visited; a path of roads leads from `node` to each of them; no path
/// of roads from `node` has more intersections than the height; and none at
/// all has more edges than the longest road seen.
pub open spec fn walk_bounds(
    graph: Seq<Seq<usize>>,
    node: int,
    visited: Seq<bool>,
    found: Walk,
) -> bool {
    &&& keeps_visits(visited, found.visited)
    &&& 0 <= node < visited.len() ==> found.visited[node]
    &&& shut(graph, visited, found.visited)
    &&& forall|u: int| #[trigger]
        newly(visited, found.visited, u) ==> exists|path: Seq<int>| #[trigger]
            leads(graph, visited, found.visited, path, node, u)
    &&& forall|path: Seq<int>| #[trigger]
        leads(graph, visited, found.visited, path, node, path.last()) ==> path.len()
            <= found.height
    &&& forall|path: Seq<int>| #[trigger]
        road_within(graph, visited, found.visited, path) ==> path.len() <= found.longest + 1
}

/// What the search among the neighbours of `node` holds, once it is back
/// from the first `k` of them, is all there is among the intersections
/// visited since it began: they are shut off from what is not visited; a
/// path of roads leads to each of them from a neighbour of `node`; no such
/// path has more intersections than the first height; no two such paths
/// that are apart have together more than the two heights; no path of roads
/// at all has more edges than the longest road seen; and the first `k`
/// neighbours are visited.
pub open spec fn scan_bounds(
    graph: Seq<Seq<usize>>,
    node: int,
    base: Seq<bool>,
    k: int,
    state: Scan,
) -> bool {
    &&& state.second <= state.first
    &&& keeps_visits(base, state.visited)
    &&& shut(graph, base, state.visited)
    &&& forall|u: int| #[trigger]
        newly(base, state.visited, u) ==> exists|path: Seq<int>| #[trigger]
            arm_within(graph, base, state.visited, node, path) && path.last() == u
    &&& forall|path: Seq<int>| #[trigger]
        arm_within(graph, base, state.visited, node, path) ==> path.len() <= state.first
    &&& forall|one: Seq<int>, other: Seq<int>|
        #![trigger arm_within(graph, base, state.visited, node, one), arm_within(graph, base, state.visited, node, other)]
        arm_within(graph, base, state.visited, node, one) && arm_within(
            graph,
            base,
            state.visited,
            node,
            other,
        ) && apart(one, other) ==> one.len() + other.len() <= state.first + state.second
    &&& forall|path: Seq<int>| #[trigger]
        road_within(graph, base, state.visited, path) ==> path.len() <= state.longest + 1
    &&& forall|j: int|
        0 <= j < k && j < graph[node].len() ==> 0 <= #[trigger] graph[node][j] < state.visited.len()
            && state.visited[graph[node][j] as int]
}

/// A path of roads through intersections visited in one of two spans of
/// time lies in one span: where the intersections visited in the first are
/// shut off from what was not visited in it, the path is among them or
/// among those visited in the second.
pub proof fn lemma_path_in_one_span(
    graph: Seq<Seq<usize>>,
    before: Seq<bool>,
    between: Seq<bool>,
    after: Seq<bool>,
    path: Seq<int>,
)
    requires
        before.len() == graph.len(),
        keeps_visits(before, between),
        keeps_visits(between, after),
        shut(graph, before, between),
        is_path(graph, path),
        fresh(before, after, path),
    ensures
        fresh(before, between, path) || fresh(between, after, path),
{
    assert forall|j: int| 0 <= j < path.len() implies !before[#[trigger] path[j]] by {}
    if between[path[0]] {
        assert forall|i: int| 0 <= i < path.len() implies 0 <= #[trigger] path[i] < before.len()
            && path[i] < between.len() && between[path[i]] && !before[path[i]] by {
            lemma_path_stays(graph, before, between, path, i);
        }
    } else {
        assert forall|i: int| 0 <= i < path.len() implies 0 <= #[trigger] path[i] < between.len()
            && path[i] < after.len() && after[path[i]] && !between[path[i]] by {
            if between[path[i]] {
                let back = path.subrange(0, i + 1).reverse();
                lemma_part_of_path(graph, path, 0, i + 1);
                lemma_path_reversed(graph, path.subrange(0, i + 1));
                assert(back[0] == path[i]);
                assert(back[i] == path[0]);
                assert forall|j: int| 0 <= j < back.len() implies !before[#[trigger] back[j]] by {
                    assert(back[j] == path[i - j]);
                }
                lemma_path_stays(graph, before, between, back, i);
            }
        }
    }
}

/// In a graph without a ring, a path of roads under `node` through what
/// the search from a neighbour of `node` has newly visited begins at that
/// neighbour.
pub proof fn lemma_arm_begins_at_neighbour(
    graph: Seq<Seq<usize>>,
    node: int,
    neighbour: int,
    visited: Seq<bool>,
    found: Walk,
    arm: Seq<int>,
)
    requires
        ring_free(graph),
        visited.len() == graph.len(),
        0 <= node < graph.len(),
        visited[node],
        joined(graph, node, neighbour),
        walk_bounds(graph, neighbour, visited, found),
        arm_within(graph, visited, found.visited, node, arm),
    ensures
        arm[0] == neighbour,
{
    let x = arm[0];
    assert(newly(visited, found.visited, x));
    let to = choose|path: Seq<int>| #[trigger] leads(graph, visited, found.visited, path, neighbour, x);
    if x != neighbour {
        let top = seq![node];
        assert(is_path(graph, top));
        assert(apart(top, to)) by {
            assert forall|i: int, j: int| 0 <= i < top.len() && 0 <= j < to.len() implies #[trigger] top[i]
                != #[trigger] to[j] by {
                assert(!visited[to[j]]);
            }
        }
        lemma_paths_joined(graph, top, to);
        let ring = top + to;
        assert(to.len() >= 2);
        assert(ring.last() == x);
        assert(ring[0] == node);
        assert(is_path(graph, ring) && ring.len() >= 3);
    }
}

/// Where the search among the neighbours of `node` stands before it goes to
/// neighbour `k`, in a graph without a ring, with what the search from that
/// neighbour finds.
pub open spec fn at_neighbour(
    graph: Seq<Seq<usize>>,
    node: int,
    k: int,
    base: Seq<bool>,
    state: Scan,
) -> bool {
    let found = walk(graph, graph[node][k] as int, state.visited, state.longest);
    &&& ring_free(graph)
    &&& closed(graph)
    &&& base.len() == graph.len()
    &&& 0 <= node < graph.len()
    &&& base[node]
    &&& 0 <= k < graph[node].len()
    &&& scan_bounds(graph, node, base, k, state)
    &&& walk_bounds(graph, graph[node][k] as int, state.visited, found)
    &&& found.longest >= state.longest
}

/// Back from a neighbour, a path of roads under `node` lies among what was
/// visited before the search went to the neighbour, and is no longer than
/// the first height was; or it lies among what the search from the
/// neighbour has visited, begins at the neighbour, and is no longer than
/// the tree under the neighbour is high.
pub proof fn lemma_arm_after_neighbour(
    graph: Seq<Seq<usize>>,
    node: int,
    k: int,
    base: Seq<bool>,
    state: Scan,
    arm: Seq<int>,
)
    requires
        at_neighbour(graph, node, k, base, state),
        arm_within(
            graph,
            base,
            walk(graph, graph[node][k] as int, state.visited, state.longest).visited,
            node,
            arm,
        ),
    ensures
        ({
            let found = walk(graph, graph[node][k] as int, state.visited, state.longest);
            ||| arm_within(graph, base, state.visited, node, arm) && arm.len() <= state.first
            ||| fresh(state.visited, found.visited, arm) && arm[0] == graph[node][k]
                && arm.len() <= found.height
        }),
{
    let c = graph[node][k] as int;
    let found = walk(graph, c, state.visited, state.longest);
    lemma_path_in_one_span(graph, base, state.visited, found.visited, arm);
    if fresh(base, state.visited, arm) {
        assert(arm_within(graph, base, state.visited, node, arm));
    } else {
        assert(arm_within(graph, state.visited, found.visited, node, arm));
        assert(state.visited[node]);
        assert(has_neighbour(graph, node, c)) by {
            assert(graph[node][k] == c);
        }
        lemma_arm_begins_at_neighbour(graph, node, c, state.visited, found, arm);
        assert(leads(graph, state.visited, found.visited, arm, c, arm.last()));
    }
}

/// Back from a neighbour, a path of roads lies among what was visited
/// before the search went to the neighbour or among what the search from
/// the neighbour has visited, and has no more edges than the longest road
/// seen.
pub proof fn lemma_road_after_neighbour(
    graph: Seq<Seq<usize>>,
    node: int,
    k: int,
    base: Seq<bool>,
    state: Scan,
    road: Seq<int>,
)
    requires
        at_neighbour(graph, node, k, base, state),
        road_within(
            graph,
            base,
            walk(graph, graph[node][k] as int, state.visited, state.longest).visited,
            road,
        ),
    ensures
        road.len() <= walk(graph, graph[node][k] as int, state.visited, state.longest).longest + 1,
{
    let c = graph[node][k] as int;
    let found = walk(graph, c, state.visited, state.longest);
    lemma_path_in_one_span(graph, base, state.visited, found.visited, road);
    if fresh(base, state.visited, road) {
        assert(road_within(graph, base, state.visited, road));
    } else {
        assert(road_within(graph, state.visited, found.visited, road));
    }
}

/// Back from a neighbour, a path of roads leads from a neighbour of `node`
/// to each intersection visited since the search among the neighbours
/// began.
pub proof fn lemma_reach_after_neighbour(
    graph: Seq<Seq<usize>>,
    node: int,
    k: int,
    base: Seq<bool>,
    state: Scan,
    u: int,
)
    requires
        at_neighbour(graph, node, k, base, state),
        newly(
            base,
            walk(graph, graph[node][k] as int, state.visited, state.longest).visited,
            u,
        ),
    ensures
        exists|path: Seq<int>| #[trigger]
            arm_within(
                graph,
                base,
                walk(graph, graph[node][k] as int, state.visited, state.longest).visited,
                node,
                path,
            ) && path.last() == u,
{
    let c = graph[node][k] as int;
    let found = walk(graph, c, state.visited, state.longest);
    assert(keeps_visits(base, base));
    assert(keeps_visits(found.visited, found.visited));
    if state.visited[u] {
        assert(newly(base, state.visited, u));
        let path = choose|path: Seq<int>| #[trigger]
            arm_within(graph, base, state.visited, node, path) && path.last() == u;
        lemma_fresh_wider(base, state.visited, base, found.visited, path);
        assert(arm_within(graph, base, found.visited, node, path) && path.last() == u);
    } else {
        assert(newly(state.visited, found.visited, u));
        let path = choose|path: Seq<int>| #[trigger]
            leads(graph, state.visited, found.visited, path, c, u);
        lemma_fresh_wider(state.visited, found.visited, base, found.visited, path);
        assert(has_neighbour(graph, node, c)) by {
            assert(graph[node][k] == c);
        }
        assert(arm_within(graph, base, found.visited, node, path) && path.last() == u);
    }
}

/// Back from a neighbour, what the search among the neighbours holds is all
/// there is, where it was so before and what the search from the neighbour
/// found is all there is.
pub proof fn lemma_bounds_after_neighbour(
    graph: Seq<Seq<usize>>,
    node: int,
    k: int,
    base: Seq<bool>,
    state: Scan,
)
    requires
        at_neighbour(graph, node, k, base, state),
    ensures
        scan_bounds(graph, node, base, k + 1, after_neighbour(graph, node, k, state)),
{
    let c = graph[node][k] as int;
    let found = walk(graph, c, state.visited, state.longest);
    let next = after_neighbour(graph, node, k, state);
    assert(next.visited == found.visited);
    assert(keeps_visits(base, next.visited)) by {
        assert forall|x: int| 0 <= x < base.len() && base[x] implies #[trigger] next.visited[x] by {
            assert(state.visited[x]);
        }
    }
    assert(shut(graph, base, next.visited)) by {
        assert forall|u: int, w: int|
            newly(base, next.visited, u) && #[trigger] joined(graph, u, w) implies 0 <= w
            < next.visited.len() && next.visited[w] by {
            if state.visited[u] {
                assert(newly(base, state.visited, u));
                assert(state.visited[w]);
            } else {
                assert(newly(state.visited, found.visited, u));
            }
        }
    }
    assert forall|u: int| #[trigger] newly(base, next.visited, u) implies exists|path: Seq<int>| #[trigger]
        arm_within(graph, base, next.visited, node, path) && path.last() == u by {
        lemma_reach_after_neighbour(graph, node, k, base, state, u);
    }
    assert forall|path: Seq<int>| #[trigger]
        arm_within(graph, base, next.visited, node, path) implies path.len() <= next.first by {
        lemma_arm_after_neighbour(graph, node, k, base, state, path);
    }
    assert forall|one: Seq<int>, other: Seq<int>|
        #![trigger arm_within(graph, base, next.visited, node, one), arm_within(graph, base, next.visited, node, other)]
        arm_within(graph, base, next.visited, node, one) && arm_within(
            graph,
            base,
            next.visited,
            node,
            other,
        ) && apart(one, other) implies one.len() + other.len() <= next.first + next.second by {
        lemma_arm_after_neighbour(graph, node, k, base, state, one);
        lemma_arm_after_neighbour(graph, node, k, base, state, other);
        if fresh(state.visited, found.visited, one) && fresh(state.visited, found.visited, other) {
            assert(one[0] != other[0]);
        }
    }
    assert forall|path: Seq<int>| #[trigger]
        road_within(graph, base, next.visited, path) implies path.len() <= next.longest + 1 by {
        lemma_road_after_neighbour(graph, node, k, base, state, path);
    }
    assert forall|j: int| 0 <= j < k + 1 && j < graph[node].len() implies 0 <= #[trigger] graph[node][j]
        < next.visited.len() && next.visited[graph[node][j] as int] by {
        if j < k {
            assert(state.visited[graph[node][j] as int]);
        } else {
            assert(graph[node][k] < graph.len());
            assert(found.visited[c]);
        }
    }
}

/// The graph is a forest: every road can be taken both ways, none joins an
/// intersection to itself, no path of roads comes back to where it began,
/// and every neighbour named is an intersection of the graph.
pub open spec fn is_forest(graph: Seq<Seq<usize>>) -> bool {
    two_way(graph) && loop_free(graph) && ring_free(graph) && closed(graph)
}

/// Where the search among the neighbours of `node` ends, with `node` newly
/// visited and all that the search holds there is: the intersections newly
/// visited are shut off, and a path of roads leads from `node` to each.
proof fn lemma_reach_from_scan(
    graph: Seq<Seq<usize>>,
    node: int,
    visited: Seq<bool>,
    done: Scan,
    u: int,
)
    requires
        visited.len() == graph.len(),
        0 <= node < graph.len(),
        !visited[node],
        scan_bounds(graph, node, visited.update(node, true), graph[node].len() as int, done),
        newly(visited, done.visited, u),
    ensures
        exists|path: Seq<int>| #[trigger] leads(graph, visited, done.visited, path, node, u),
{
    let base = visited.update(node, true);
    let top = seq![node];
    assert(is_path(graph, top));
    assert(base[node]);
    assert(done.visited[node]);
    assert(keeps_visits(visited, base));
    assert(keeps_visits(done.visited, done.visited));
    if u == node {
        assert(top.last() == node);
        assert(leads(graph, visited, done.visited, top, node, u));
    } else {
        assert(newly(base, done.visited, u));
        let arm = choose|path: Seq<int>| #[trigger]
            arm_within(graph, base, done.visited, node, path) && path.last() == u;
        assert(apart(top, arm)) by {
            assert forall|i: int, j: int| 0 <= i < top.len() && 0 <= j < arm.len() implies #[trigger] top[i]
                != #[trigger] arm[j] by {
                assert(!base[arm[j]]);
            }
        }
        lemma_paths_joined(graph, top, arm);
        lemma_fresh_wider(base, done.visited, visited, done.visited, arm);
        let path = top + arm;
        assert(fresh(visited, done.visited, path)) by {
            assert forall|i: int| 0 <= i < path.len() implies 0 <= #[trigger] path[i] < visited.len()
                && path[i] < done.visited.len() && done.visited[path[i]] && !visited[path[i]] by {
                if i > 0 {
                    assert(path[i] == arm[i - 1]);
                }
            }
        }
        assert(path[0] == node && path.last() == u);
        assert(leads(graph, visited, done.visited, path, node, u));
    }
}

/// Where the search among the neighbours of `node` ends: a path of roads
/// from `node` through what was newly visited has no more intersections
/// than the first height and one.
proof fn lemma_spine_from_scan(
    graph: Seq<Seq<usize>>,
    node: int,
    visited: Seq<bool>,
    done: Scan,
    spine: Seq<int>,
)
    requires
        visited.len() == graph.len(),
        0 <= node < graph.len(),
        !visited[node],
        scan_bounds(graph, node, visited.update(node, true), graph[node].len() as int, done),
        leads(graph, visited, done.visited, spine, node, spine.last()),
    ensures
        spine.len() <= done.first + 1,
{
    let base = visited.update(node, true);
    if spine.len() >= 2 {
        let rest = spine.subrange(1, spine.len() as int);
        lemma_part_of_path(graph, spine, 1, spine.len() as int);
        assert(linked(graph, spine, 0));
        assert(rest[0] == spine[1]);
        assert(fresh(base, done.visited, rest)) by {
            assert forall|i: int| 0 <= i < rest.len() implies 0 <= #[trigger] rest[i] < base.len()
                && rest[i] < done.visited.len() && done.visited[rest[i]] && !base[rest[i]] by {
                assert(rest[i] == spine[i + 1]);
                assert(spine[i + 1] != spine[0]);
            }
        }
        assert(arm_within(graph, base, done.visited, node, rest));
    }
}

/// Where the search among the neighbours of `node` ends: a path of roads
/// through what was newly visited has no more edges than the longest road
/// seen, or than the two heights together.
proof fn lemma_road_from_scan(
    graph: Seq<Seq<usize>>,
    node: int,
    visited: Seq<bool>,
    done: Scan,
    road: Seq<int>,
)
    requires
        visited.len() == graph.len(),
        0 <= node < graph.len(),
        !visited[node],
        scan_bounds(graph, node, visited.update(node, true), graph[node].len() as int, done),
        road_within(graph, visited, done.visited, road),
    ensures
        road.len() <= done.longest + 1 || road.len() <= done.first + done.second + 1,
{
    let base = visited.update(node, true);
    let len = road.len() as int;
    if exists|t: int| 0 <= t < len && road[t] == node {
        let t = choose|t: int| 0 <= t < len && road[t] == node;
        let none = Seq::<int>::empty();
        let left = if t > 0 {
            road.subrange(0, t).reverse()
        } else {
            none
        };
        let right = if t < len - 1 {
            road.subrange(t + 1, len)
        } else {
            none
        };
        if t > 0 {
            lemma_part_of_path(graph, road, 0, t);
            lemma_path_reversed(graph, road.subrange(0, t));
            assert(left[0] == road[t - 1]);
            assert(linked(graph, road, t - 1));
            assert(fresh(base, done.visited, left)) by {
                assert forall|i: int| 0 <= i < left.len() implies 0 <= #[trigger] left[i] < base.len()
                    && left[i] < done.visited.len() && done.visited[left[i]] && !base[left[i]] by {
                    assert(left[i] == road[t - 1 - i]);
                    assert(road[t - 1 - i] != road[t]);
                }
            }
            assert(arm_within(graph, base, done.visited, node, left));
        }
        if t < len - 1 {
            lemma_part_of_path(graph, road, t + 1, len);
            assert(right[0] == road[t + 1]);
            assert(linked(graph, road, t));
            assert(fresh(base, done.visited, right)) by {
                assert forall|i: int| 0 <= i < right.len() implies 0 <= #[trigger] right[i] < base.len()
                    && right[i] < done.visited.len() && done.visited[right[i]] && !base[right[i]] by {
                    assert(right[i] == road[t + 1 + i]);
                    assert(road[t + 1 + i] != road[t]);
                }
            }
            assert(arm_within(graph, base, done.visited, node, right));
        }
        if t > 0 && t < len - 1 {
            assert(apart(left, right)) by {
                assert forall|i: int, j: int|
                    0 <= i < left.len() && 0 <= j < right.len() implies #[trigger] left[i]
                    != #[trigger] right[j] by {
                    assert(left[i] == road[t - 1 - i]);
                    assert(right[j] == road[t + 1 + j]);
                }
            }
        }
    } else {
        assert(fresh(base, done.visited, road)) by {
            assert forall|i: int| 0 <= i < road.len() implies 0 <= #[trigger] road[i] < base.len()
                && road[i] < done.visited.len() && done.visited[road[i]] && !base[road[i]] by {
                assert(road[i] != node);
            }
        }
        assert(road_within(graph, base, done.visited, road));
    }
}

/// Where the search among the neighbours of `node` ends and what it holds
/// is all there is, what the search from `node` finds is all there is.
proof fn lemma_bounds_from_scan(
    graph: Seq<Seq<usize>>,
    node: int,
    visited: Seq<bool>,
    done: Scan,
)
    requires
        two_way(graph),
        visited.len() == graph.len(),
        0 <= node < graph.len(),
        !visited[node],
        scan_bounds(graph, node, visited.update(node, true), graph[node].len() as int, done),
    ensures
        walk_bounds(graph, node, visited, walk_from(done)),
{
    let base = visited.update(node, true);
    let found = walk_from(done);
    assert(base[node]);
    assert(keeps_visits(visited, found.visited)) by {
        assert forall|x: int| 0 <= x < visited.len() && visited[x] implies #[trigger] found.visited[x] by {
            assert(base[x]);
        }
    }
    assert(shut(graph, visited, found.visited)) by {
        assert forall|u: int, w: int|
            newly(visited, found.visited, u) && #[trigger] joined(graph, u, w) implies 0 <= w
            < found.visited.len() && found.visited[w] by {
            if u == node {
                assert(has_neighbour(graph, node, w));
                let j = choose|j: int| 0 <= j < graph[node].len() && #[trigger] graph[node][j] == w;
                assert(done.visited[graph[node][j] as int]);
            } else {
                assert(newly(base, done.visited, u));
            }
        }
    }
    assert forall|u: int| #[trigger] newly(visited, found.visited, u) implies exists|path: Seq<int>| #[trigger]
        leads(graph, visited, found.visited, path, node, u) by {
        lemma_reach_from_scan(graph, node, visited, done, u);
    }
    assert forall|path: Seq<int>| #[trigger]
        leads(graph, visited, found.visited, path, node, path.last()) implies path.len()
        <= found.height by {
        lemma_spine_from_scan(graph, node, visited, done, path);
    }
    assert forall|path: Seq<int>| #[trigger]
        road_within(graph, visited, found.visited, path) implies path.len() <= found.longest
        + 1 by {
        lemma_road_from_scan(graph, node, visited, done, path);
    }
}

/// Nothing was visited in no time: no path of roads goes through
/// intersections visited between a time and the same time.
proof fn lemma_nothing_fresh(graph: Seq<Seq<usize>>, visited: Seq<bool>, path: Seq<int>)
    requires
        is_path(graph, path),
    ensures
        !fresh(visited, visited, path),
{
    if fresh(visited, visited, path) {
        assert(visited[path[0]]);
    }
}

/// Before the search among the neighbours goes to any, what it holds is all
/// there is.
proof fn lemma_scan_bounds_start(graph: Seq<Seq<usize>>, node: int, base: Seq<bool>, longest: nat)
    ensures
        scan_bounds(graph, node, base, 0, Scan { first: 0, second: 0, longest, visited: base }),
{
    let start = Scan { first: 0, second: 0, longest, visited: base };
    assert(keeps_visits(base, base));
    assert forall|path: Seq<int>| #[trigger]
        arm_within(graph, base, start.visited, node, path) implies path.len() <= start.first by {
        lemma_nothing_fresh(graph, base, path);
    }
    assert forall|one: Seq<int>, other: Seq<int>|
        #![trigger arm_within(graph, base, start.visited, node, one), arm_within(graph, base, start.visited, node, other)]
        arm_within(graph, base, start.visited, node, one) && arm_within(
            graph,
            base,
            start.visited,
            node,
            other,
        ) && apart(one, other) implies one.len() + other.len() <= start.first + start.second by {
        lemma_nothing_fresh(graph, base, one);
    }
    assert forall|path: Seq<int>| #[trigger]
        road_within(graph, base, start.visited, path) implies path.len() <= start.longest + 1 by {
        lemma_nothing_fresh(graph, base, path);
    }
}

/// The search from an intersection that was visited, or is none of the
/// graph, visits nothing, and so what it finds is all there is.
proof fn lemma_walk_bounds_none(
    graph: Seq<Seq<usize>>,
    node: int,
    visited: Seq<bool>,
    longest: nat,
)
    requires
        0 <= node < visited.len() ==> visited[node],
    ensures
        walk_bounds(graph, node, visited, Walk { height: 0, longest, visited }),
{
    let found = Walk { height: 0, longest, visited };
    assert(keeps_visits(visited, visited));
    assert forall|path: Seq<int>| #[trigger]
        leads(graph, visited, found.visited, path, node, path.last()) implies path.len()
        <= found.height by {
        lemma_nothing_fresh(graph, visited, path);
    }
    assert forall|path: Seq<int>| #[trigger]
        road_within(graph, visited, found.visited, path) implies path.len() <= found.longest
        + 1 by {
        lemma_nothing_fresh(graph, visited, path);
    }
}

/// In a forest, what the search finds is all there is among the
/// intersections that it has newly visited.
pub proof fn lemma_walk_bounds(graph: Seq<Seq<usize>>, node: int, visited: Seq<bool>, longest: nat)
    requires
        is_forest(graph),
        visited.len() == graph.len(),
    ensures
        walk_bounds(graph, node, visited, walk(graph, node, visited, longest)),
    decreases unvisited(visited), 0nat, 0nat,
{
    if 0 <= node < visited.len() && node < graph.len() && !visited[node] {
        lemma_visit(visited, node);
        let base = visited.update(node, true);
        let start = Scan { first: 0, second: 0, longest, visited: base };
        lemma_scan_bounds_start(graph, node, base, longest);
        lemma_scan_bounds(graph, node, 0, base, start);
        lemma_bounds_from_scan(graph, node, visited, scan(graph, node, 0, start));
    } else {
        lemma_walk_bounds_none(graph, node, visited, longest);
    }
}

/// In a forest, what the search among the neighbours of an intersection
/// holds at its end is all there is, where what it held before was.
pub proof fn lemma_scan_bounds(
    graph: Seq<Seq<usize>>,
    node: int,
    k: int,
    base: Seq<bool>,
    state: Scan,
)
    requires
        is_forest(graph),
        base.len() == graph.len(),
        0 <= node < graph.len(),
        base[node],
        0 <= k <= graph[node].len(),
        scan_bounds(graph, node, base, k, state),
    ensures
        scan_bounds(graph, node, base, graph[node].len() as int, scan(graph, node, k, state)),
    decreases unvisited(state.visited), 1nat, graph[node].len() - k,
{
    if k < graph[node].len() {
        let c = graph[node][k] as int;
        lemma_walk_bounds(graph, c, state.visited, state.longest);
        lemma_walk_keeps_visits(graph, c, state.visited, state.longest);
        lemma_bounds_after_neighbour(graph, node, k, base, state);
        lemma_scan_goes_on(graph, node, k, state);
        lemma_scan_bounds(graph, node, k + 1, base, after_neighbour(graph, node, k, state));
    }
}

/// A path of roads leads from one intersection to the other.
pub open spec fn reaches(graph: Seq<Seq<usize>>, from: int, to: int) -> bool {
    exists|path: Seq<int>| #[trigger] is_path(graph, path) && path[0] == from && path.last() == to
}

/// In a forest, no path of roads among the intersections that `root` is
/// joined to has more edges than the longest road that the search from
/// `root` finds.
pub proof fn lemma_walk_finds_longest(graph: Seq<Seq<usize>>, root: int, road: Seq<int>)
    requires
        is_forest(graph),
        0 <= root < graph.len(),
        is_path(graph, road),
        reaches(graph, root, road[0]),
    ensures
        road.len() <= walk(graph, root, Seq::new(graph.len(), |v: int| false), 0).longest + 1,
{
    let none = Seq::new(graph.len(), |v: int| false);
    let found = walk(graph, root, none, 0);
    lemma_walk_bounds(graph, root, none, 0);
    let to = choose|path: Seq<int>| #[trigger]
        is_path(graph, path) && path[0] == root && path.last() == road[0];
    assert(newly(none, found.visited, root));
    lemma_path_stays(graph, none, found.visited, to, to.len() - 1);
    assert forall|i: int| 0 <= i < road.len() implies 0 <= #[trigger] road[i] < none.len()
        && road[i] < found.visited.len() && found.visited[road[i]] && !none[road[i]] by {
        lemma_path_stays(graph, none, found.visited, road, i);
    }
    assert(road_within(graph, none, found.visited, road));
}

/// In the road network of a player, `w` is named as a neighbour of `v`
/// exactly where a road of the player joins them.
pub proof fn lemma_network_neighbours(game: Game, player: Player, v: int, w: int)
    requires
        game.board.wf(),
        game.state.roads_within(),
    ensures
        has_neighbour(game.network(player), v, w) <==> 0 <= v < INTERSECTIONS && exists|n: int| #[trigger]
            game.road_joins(player, n, v, w),
        has_neighbour(game.network(player), v, w) ==> 0 <= w < INTERSECTIONS,
{
    let graph = game.network(player);
    game.law_neighbours_are_joined(player, v, w);
    if has_neighbour(graph, v, w) {
        let k = choose|k: int| 0 <= k < graph[v].len() && #[trigger] graph[v][k] == w;
        assert(graph[v] == game.neighbours(player, v));
        assert(game.neighbours(player, v)[k] == w as usize);
        assert(game.neighbours(player, v).contains(w as usize));
        let n = choose|n: int| #[trigger] game.road_joins(player, n, v, w);
        assert(game.state.roads[n].id.0 < crate::game::board::PATHS);
        let id = game.state.roads[n].id.0 as int;
        assert(game.board.paths[id].0.0 < INTERSECTIONS && game.board.paths[id].1.0 < INTERSECTIONS);
    }
    if 0 <= v < INTERSECTIONS && exists|n: int| #[trigger] game.road_joins(player, n, v, w) {
        let n = choose|n: int| #[trigger] game.road_joins(player, n, v, w);
        assert(game.state.roads[n].id.0 < crate::game::board::PATHS);
        let id = game.state.roads[n].id.0 as int;
        assert(game.board.paths[id].0.0 < INTERSECTIONS && game.board.paths[id].1.0 < INTERSECTIONS);
        assert(game.neighbours(player, v).contains(w as usize));
        let k = choose|k: int|
            0 <= k < game.neighbours(player, v).len() && game.neighbours(player, v)[k] == w as usize;
        assert(graph[v][k] == w);
    }
}

/// The road network of a player names every road both ways, joins no
/// intersection to itself, and names intersections of the board alone.
pub proof fn lemma_network_is_sound(game: Game, player: Player)
    requires
        game.board.wf(),
        game.state.roads_within(),
    ensures
        two_way(game.network(player)),
        loop_free(game.network(player)),
        closed(game.network(player)),
{
    let graph = game.network(player);
    assert forall|u: int, w: int| #[trigger] has_neighbour(graph, u, w) implies has_neighbour(
        graph,
        w,
        u,
    ) by {
        lemma_network_neighbours(game, player, u, w);
        lemma_network_neighbours(game, player, w, u);
        let n = choose|n: int| #[trigger] game.road_joins(player, n, u, w);
        assert(game.road_joins(player, n, w, u));
    }
    assert forall|u: int| !#[trigger] has_neighbour(graph, u, u) by {
        lemma_network_neighbours(game, player, u, u);
    }
    assert forall|v: int, k: int| 0 <= v < graph.len() && 0 <= k < graph[v].len() implies #[trigger] graph[v][k]
        < graph.len() by {
        let w = graph[v][k] as int;
        assert(has_neighbour(graph, v, w));
        lemma_network_neighbours(game, player, v, w);
    }
}

/// Where the road network of a player has no ring, no path of roads of the
/// player among the intersections that the root is joined to has more edges
/// than the longest road of the player.
pub proof fn law_longest_road_is_longest(game: Game, player: Player, road: Seq<int>)
    requires
        game.board.wf(),
        game.state.roads_within(),
        ring_free(game.network(player)),
        is_path(game.network(player), road),
        reaches(game.network(player), ROOT as int, road[0]),
    ensures
        road.len() - 1 <= game.road_length(player),
{
    let graph = game.network(player);
    lemma_network_is_sound(game, player);
    lemma_walk_finds_longest(graph, ROOT as int, road);
    assert(Seq::new(graph.len(), |v: int| false) == Seq::new(INTERSECTIONS as nat, |v: int| false));
}

} // verus!
