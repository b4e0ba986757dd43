//! What holds of the search for the longest road in every graph: it takes no
//! visit back, and it goes through the neighbours of an intersection one by
//! one.

use crate::moves::possible_moves::{Scan, Walk, lemma_visit, scan, unvisited, walk};
use vstd::prelude::*;

verus! {

/// The second list marks every intersection that the first one marks.
pub open spec fn keeps_visits(before: Seq<bool>, after: Seq<bool>) -> bool {
    &&& after.len() == before.len()
    &&& forall|x: int| 0 <= x < before.len() && before[x] ==> #[trigger] after[x]
}

/// A search takes no visit back, and the longest road that it has seen is
/// no shorter than the one it was given.
pub proof fn lemma_walk_keeps_visits(
    graph: Seq<Seq<usize>>,
    node: int,
    visited: Seq<bool>,
    longest: nat,
)
    ensures
        keeps_visits(visited, walk(graph, node, visited, longest).visited),
        unvisited(walk(graph, node, visited, longest).visited) <= unvisited(visited),
        walk(graph, node, visited, longest).longest >= longest,
    decreases unvisited(visited), 0nat, 0nat,
{
    if 0 <= node < visited.len() && node < graph.len() && !visited[node] {
        lemma_visit(visited, node);
        let start = Scan { first: 0, second: 0, longest, visited: visited.update(node, true) };
        lemma_scan_keeps_visits(graph, node, 0, start);
        let done = scan(graph, node, 0, start);
        assert(keeps_visits(visited, done.visited)) by {
            assert forall|x: int| 0 <= x < visited.len() && visited[x] implies #[trigger] done.visited[x] by {
                assert(start.visited[x]);
            }
        }
    }
}

/// The search among the neighbours of an intersection takes no visit back,
/// and the longest road that it has seen does not get shorter.
pub proof fn lemma_scan_keeps_visits(graph: Seq<Seq<usize>>, node: int, k: int, state: Scan)
    ensures
        keeps_visits(state.visited, scan(graph, node, k, state).visited),
        unvisited(scan(graph, node, k, state).visited) <= unvisited(state.visited),
        scan(graph, node, k, state).longest >= state.longest,
    decreases unvisited(state.visited), 1nat, graph[node].len() - k,
{
    if 0 <= k < graph[node].len() {
        lemma_walk_keeps_visits(graph, graph[node][k] as int, state.visited, state.longest);
        let child = walk(graph, graph[node][k] as int, state.visited, state.longest);
        let next = Scan {
            first: if state.first < child.height {
                child.height
            } else {
                state.first
            },
            second: if state.first < child.height {
                state.first
            } else if state.second < child.height {
                child.height
            } else {
                state.second
            },
            longest: child.longest,
            visited: child.visited,
        };
        lemma_scan_keeps_visits(graph, node, k + 1, next);
        let done = scan(graph, node, k + 1, next);
        assert(keeps_visits(state.visited, done.visited)) by {
            assert forall|x: int|
                0 <= x < state.visited.len() && state.visited[x] implies #[trigger] done.visited[x] by {
                assert(next.visited[x]);
            }
        }
    }
}

/// The search among the neighbours of an intersection goes from each
/// neighbour to the next: the test that the definition of `scan` makes
/// before it goes on never fails.
pub proof fn lemma_scan_goes_on(graph: Seq<Seq<usize>>, node: int, k: int, state: Scan)
    requires
        0 <= k < graph[node].len(),
    ensures
        scan(graph, node, k, state) == scan(
            graph,
            node,
            k + 1,
            after_neighbour(graph, node, k, state),
        ),
{
    lemma_walk_keeps_visits(graph, graph[node][k] as int, state.visited, state.longest);
}

/// Where the search among the neighbours of `node` stands once it is back
/// from neighbour `k`.
pub open spec fn after_neighbour(graph: Seq<Seq<usize>>, node: int, k: int, state: Scan) -> Scan {
    let child = walk(graph, graph[node][k] as int, state.visited, state.longest);
    Scan {
        first: if state.first < child.height {
            child.height
        } else {
            state.first
        },
        second: if state.first < child.height {
            state.first
        } else if state.second < child.height {
            child.height
        } else {
            state.second
        },
        longest: child.longest,
        visited: child.visited,
    }
}

/// From an intersection that was visited nothing hangs, and the search goes
/// by without a trace.
pub proof fn lemma_walk_visited(graph: Seq<Seq<usize>>, node: int, visited: Seq<bool>, longest: nat)
    requires
        0 <= node < visited.len(),
        visited[node],
    ensures
        walk(graph, node, visited, longest) == (Walk { height: 0, longest, visited }),
{
}

/// What the search from an intersection that was not visited finds, from
/// where the search among its neighbours ends.
pub open spec fn walk_from(done: Scan) -> Walk {
    Walk {
        height: done.first + 1,
        longest: if done.first + done.second > done.longest {
            done.first + done.second
        } else {
            done.longest
        },
        visited: done.visited,
    }
}

/// The search from an intersection without neighbours.
pub proof fn lemma_walk_no_neighbour(
    graph: Seq<Seq<usize>>,
    node: int,
    visited: Seq<bool>,
    longest: nat,
)
    requires
        0 <= node < visited.len(),
        node < graph.len(),
        !visited[node],
        graph[node].len() == 0,
    ensures
        walk(graph, node, visited, longest) == walk_from(
            Scan { first: 0, second: 0, longest, visited: visited.update(node, true) },
        ),
{
}

/// The search from an intersection with one neighbour.
pub proof fn lemma_walk_one_neighbour(
    graph: Seq<Seq<usize>>,
    node: int,
    visited: Seq<bool>,
    longest: nat,
)
    requires
        0 <= node < visited.len(),
        node < graph.len(),
        !visited[node],
        graph[node].len() == 1,
    ensures
        walk(graph, node, visited, longest) == walk_from(
            after_neighbour(
                graph,
                node,
                0,
                Scan { first: 0, second: 0, longest, visited: visited.update(node, true) },
            ),
        ),
{
    let s0 = Scan { first: 0, second: 0, longest, visited: visited.update(node, true) };
    lemma_scan_goes_on(graph, node, 0, s0);
    let s1 = after_neighbour(graph, node, 0, s0);
    assert(scan(graph, node, 1, s1) == s1);
}

/// The search from an intersection with two neighbours.
pub proof fn lemma_walk_two_neighbours(
    graph: Seq<Seq<usize>>,
    node: int,
    visited: Seq<bool>,
    longest: nat,
)
    requires
        0 <= node < visited.len(),
        node < graph.len(),
        !visited[node],
        graph[node].len() == 2,
    ensures
        walk(graph, node, visited, longest) == walk_from(
            after_neighbour(
                graph,
                node,
                1,
                after_neighbour(
                    graph,
                    node,
                    0,
                    Scan { first: 0, second: 0, longest, visited: visited.update(node, true) },
                ),
            ),
        ),
{
    let s0 = Scan { first: 0, second: 0, longest, visited: visited.update(node, true) };
    lemma_scan_goes_on(graph, node, 0, s0);
    let s1 = after_neighbour(graph, node, 0, s0);
    lemma_scan_goes_on(graph, node, 1, s1);
    let s2 = after_neighbour(graph, node, 1, s1);
    assert(scan(graph, node, 2, s2) == s2);
}

} // verus!
