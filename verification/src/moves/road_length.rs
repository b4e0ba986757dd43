//! The longest road that the search finds is there: the road network holds
//! a path of that many roads.

use crate::game::board::{Game, INTERSECTIONS, Player};
use crate::moves::paths::{
    apart, fresh, is_path, joined, lemma_fresh_apart, lemma_fresh_wider, lemma_path_reversed,
    lemma_paths_joined,
};
use crate::moves::possible_moves::{ROOT, Scan, Walk, lemma_visit, scan, unvisited, walk};
use crate::moves::search::{
    after_neighbour, keeps_visits, lemma_scan_goes_on, lemma_walk_keeps_visits, walk_from,
};
use vstd::prelude::*;

verus! {

/// The list is an arm of `height` intersections under `node`: empty where
/// the height is nought, else a path of roads whose first intersection is a
/// neighbour of `node`, through intersections visited in between.
pub open spec fn is_arm(
    graph: Seq<Seq<usize>>,
    before: Seq<bool>,
    after: Seq<bool>,
    node: int,
    height: nat,
    arm: Seq<int>,
) -> bool {
    &&& arm.len() == height
    &&& fresh(before, after, arm)
    &&& height > 0 ==> is_path(graph, arm) && joined(graph, node, arm[0])
}

/// The list is a road of `length` edges through intersections visited in
/// between.
pub open spec fn is_road(
    graph: Seq<Seq<usize>>,
    before: Seq<bool>,
    after: Seq<bool>,
    length: nat,
    road: Seq<int>,
) -> bool {
    &&& road.len() == length + 1
    &&& is_path(graph, road)
    &&& fresh(before, after, road)
}

/// What the search has found is there: under the intersection hangs a path
/// of as many intersections as the height says, which starts at the
/// intersection; and the longest road seen is the one that was given, or
/// there is a road of that length. Both go through intersections that the
/// search has newly visited.
pub open spec fn found_is_there(
    graph: Seq<Seq<usize>>,
    node: int,
    visited: Seq<bool>,
    longest: nat,
    found: Walk,
) -> bool {
    &&& found.height > 0 ==> exists|spine: Seq<int>|
        #![trigger is_path(graph, spine)]
        is_path(graph, spine) && spine.len() == found.height && spine[0] == node && fresh(
            visited,
            found.visited,
            spine,
        )
    &&& found.longest == longest || exists|road: Seq<int>| #[trigger]
        is_road(graph, visited, found.visited, found.longest, road)
}

/// What the search among the neighbours of `node` holds is there: two arms
/// under `node` of the heights that it holds, with no intersection in
/// common; and the longest road seen is the one that was given, or there is
/// a road of that length. All go through intersections visited since the
/// search among the neighbours began.
pub open spec fn held_is_there(
    graph: Seq<Seq<usize>>,
    node: int,
    base: Seq<bool>,
    longest: nat,
    state: Scan,
) -> bool {
    &&& exists|first: Seq<int>, second: Seq<int>|
        #![trigger is_arm(graph, base, state.visited, node, state.first, first), is_arm(graph, base, state.visited, node, state.second, second)]
        is_arm(graph, base, state.visited, node, state.first, first) && is_arm(
            graph,
            base,
            state.visited,
            node,
            state.second,
            second,
        ) && apart(first, second)
    &&& state.longest == longest || exists|road: Seq<int>| #[trigger]
        is_road(graph, base, state.visited, state.longest, road)
}

/// Back from a neighbour: where what the search among the neighbours held
/// was there, and what the search from the neighbour found is there, what
/// the search holds now is there.
proof fn lemma_after_neighbour_there(
    graph: Seq<Seq<usize>>,
    node: int,
    k: int,
    base: Seq<bool>,
    longest: nat,
    state: Scan,
)
    requires
        0 <= node < graph.len(),
        0 <= k < graph[node].len(),
        keeps_visits(base, state.visited),
        held_is_there(graph, node, base, longest, state),
        found_is_there(
            graph,
            graph[node][k] as int,
            state.visited,
            state.longest,
            walk(graph, graph[node][k] as int, state.visited, state.longest),
        ),
        keeps_visits(
            state.visited,
            walk(graph, graph[node][k] as int, state.visited, state.longest).visited,
        ),
    ensures
        held_is_there(graph, node, base, longest, after_neighbour(graph, node, k, state)),
{
    let c = graph[node][k] as int;
    let child = walk(graph, c, state.visited, state.longest);
    let next = after_neighbour(graph, node, k, state);
    let (first, second) = choose|first: Seq<int>, second: Seq<int>|
        #![trigger is_arm(graph, base, state.visited, node, state.first, first), is_arm(graph, base, state.visited, node, state.second, second)]
        is_arm(graph, base, state.visited, node, state.first, first) && is_arm(
            graph,
            base,
            state.visited,
            node,
            state.second,
            second,
        ) && apart(first, second);
    assert(keeps_visits(base, base));
    assert(keeps_visits(child.visited, child.visited));
    lemma_fresh_wider(base, state.visited, base, child.visited, first);
    lemma_fresh_wider(base, state.visited, base, child.visited, second);
    assert(is_arm(graph, base, child.visited, node, state.first, first));
    assert(is_arm(graph, base, child.visited, node, state.second, second));
    if child.height > 0 {
        let spine = choose|spine: Seq<int>|
            #![trigger is_path(graph, spine)]
            is_path(graph, spine) && spine.len() == child.height && spine[0] == c && fresh(
                state.visited,
                child.visited,
                spine,
            );
        lemma_fresh_wider(state.visited, child.visited, base, child.visited, spine);
        lemma_fresh_apart(base, state.visited, child.visited, first, spine);
        lemma_fresh_apart(base, state.visited, child.visited, second, spine);
        assert(joined(graph, node, spine[0])) by {
            assert(graph[node][k] == c);
        }
        assert(is_arm(graph, base, child.visited, node, child.height, spine));
        if state.first < child.height {
            assert(is_arm(graph, base, next.visited, node, next.first, spine));
            assert(is_arm(graph, base, next.visited, node, next.second, first));
            assert(apart(spine, first));
        } else if state.second < child.height {
            assert(is_arm(graph, base, next.visited, node, next.first, first));
            assert(is_arm(graph, base, next.visited, node, next.second, spine));
            assert(apart(first, spine));
        } else {
            assert(is_arm(graph, base, next.visited, node, next.first, first));
            assert(is_arm(graph, base, next.visited, node, next.second, second));
        }
    } else {
        assert(is_arm(graph, base, next.visited, node, next.first, first));
        assert(is_arm(graph, base, next.visited, node, next.second, second));
    }
    if child.longest != longest {
        if child.longest == state.longest {
            let road = choose|road: Seq<int>| #[trigger]
                is_road(graph, base, state.visited, state.longest, road);
            lemma_fresh_wider(base, state.visited, base, child.visited, road);
            assert(is_road(graph, base, next.visited, next.longest, road));
        } else {
            let road = choose|road: Seq<int>| #[trigger]
                is_road(graph, state.visited, child.visited, child.longest, road);
            lemma_fresh_wider(state.visited, child.visited, base, child.visited, road);
            assert(is_road(graph, base, next.visited, next.longest, road));
        }
    }
}

/// From where the search among the neighbours ends: where what it holds is
/// there, what the search from the intersection finds is there.
proof fn lemma_walk_from_there(
    graph: Seq<Seq<usize>>,
    node: int,
    visited: Seq<bool>,
    longest: nat,
    done: Scan,
)
    requires
        0 <= node < graph.len(),
        visited.len() == graph.len(),
        !visited[node],
        keeps_visits(visited.update(node, true), done.visited),
        held_is_there(graph, node, visited.update(node, true), longest, done),
    ensures
        found_is_there(graph, node, visited, longest, walk_from(done)),
{
    let base = visited.update(node, true);
    let found = walk_from(done);
    let (first, second) = choose|first: Seq<int>, second: Seq<int>|
        #![trigger is_arm(graph, base, done.visited, node, done.first, first), is_arm(graph, base, done.visited, node, done.second, second)]
        is_arm(graph, base, done.visited, node, done.first, first) && is_arm(
            graph,
            base,
            done.visited,
            node,
            done.second,
            second,
        ) && apart(first, second);
    assert(keeps_visits(visited, base));
    assert(keeps_visits(done.visited, done.visited));
    let top = seq![node];
    assert(is_path(graph, top));
    assert(base[node]);
    assert(done.visited[node]);
    assert(fresh(visited, done.visited, top));
    lemma_fresh_wider(base, done.visited, visited, done.visited, first);
    lemma_fresh_wider(base, done.visited, visited, done.visited, second);
    let spine = top + first;
    assert(is_path(graph, spine) && fresh(visited, done.visited, spine)) by {
        if done.first > 0 {
            assert(apart(top, first)) by {
                assert forall|i: int, j: int|
                    0 <= i < top.len() && 0 <= j < first.len() implies #[trigger] top[i]
                    != #[trigger] first[j] by {
                    assert(!base[first[j]]);
                }
            }
            lemma_paths_joined(graph, top, first);
        } else {
            assert(spine == top);
        }
        assert forall|i: int| 0 <= i < spine.len() implies 0 <= #[trigger] spine[i] < visited.len()
            && spine[i] < done.visited.len() && done.visited[spine[i]] && !visited[spine[i]] by {
            if i > 0 {
                assert(spine[i] == first[i - 1]);
            }
        }
    }
    assert(spine.len() == found.height && spine[0] == node);
    if found.longest != longest {
        if done.first + done.second > done.longest {
            lemma_path_reversed(graph, spine);
            let up = spine.reverse();
            assert(up.last() == node) by {
                assert(up[up.len() - 1] == spine[0]);
            }
            assert(fresh(visited, done.visited, up)) by {
                assert forall|i: int| 0 <= i < up.len() implies 0 <= #[trigger] up[i] < visited.len()
                    && up[i] < done.visited.len() && done.visited[up[i]] && !visited[up[i]] by {
                    assert(up[i] == spine[spine.len() - 1 - i]);
                }
            }
            let road = up + second;
            assert(is_path(graph, road) && fresh(visited, done.visited, road)) by {
                if done.second > 0 {
                    assert(apart(up, second)) by {
                        assert forall|i: int, j: int|
                            0 <= i < up.len() && 0 <= j < second.len() implies #[trigger] up[i]
                            != #[trigger] second[j] by {
                            let m = spine.len() - 1 - i;
                            assert(up[i] == spine[m]);
                            assert(!base[second[j]]);
                            if m > 0 {
                                assert(spine[m] == first[m - 1]);
                            }
                        }
                    }
                    lemma_paths_joined(graph, up, second);
                } else {
                    assert(road == up);
                }
                assert forall|i: int| 0 <= i < road.len() implies 0 <= #[trigger] road[i]
                    < visited.len() && road[i] < done.visited.len() && done.visited[road[i]]
                    && !visited[road[i]] by {
                    if i < up.len() {
                        assert(road[i] == up[i]);
                    } else {
                        assert(road[i] == second[i - up.len()]);
                    }
                }
            }
            assert(is_road(graph, visited, found.visited, found.longest, road));
        } else {
            let road = choose|road: Seq<int>| #[trigger]
                is_road(graph, base, done.visited, done.longest, road);
            lemma_fresh_wider(base, done.visited, visited, done.visited, road);
            assert(is_road(graph, visited, found.visited, found.longest, road));
        }
    }
}

/// What the search finds is there.
pub proof fn lemma_walk_there(graph: Seq<Seq<usize>>, node: int, visited: Seq<bool>, longest: nat)
    requires
        visited.len() == graph.len(),
    ensures
        found_is_there(graph, node, visited, longest, walk(graph, node, visited, longest)),
    decreases unvisited(visited), 0nat, 0nat,
{
    if 0 <= node < visited.len() && node < graph.len() && !visited[node] {
        lemma_visit(visited, node);
        let base = visited.update(node, true);
        let start = Scan { first: 0, second: 0, longest, visited: base };
        let none = Seq::<int>::empty();
        assert(is_arm(graph, base, start.visited, node, start.first, none));
        assert(is_arm(graph, base, start.visited, node, start.second, none));
        assert(apart(none, none));
        assert(held_is_there(graph, node, base, longest, start));
        assert(keeps_visits(base, base));
        lemma_scan_there(graph, node, 0, base, longest, start);
        lemma_walk_from_there(graph, node, visited, longest, scan(graph, node, 0, start));
    }
}

/// What the search among the neighbours of an intersection holds at its end
/// is there, where what it held before was.
pub proof fn lemma_scan_there(
    graph: Seq<Seq<usize>>,
    node: int,
    k: int,
    base: Seq<bool>,
    longest: nat,
    state: Scan,
)
    requires
        0 <= node < graph.len(),
        0 <= k,
        state.visited.len() == graph.len(),
        keeps_visits(base, state.visited),
        held_is_there(graph, node, base, longest, state),
    ensures
        held_is_there(graph, node, base, longest, scan(graph, node, k, state)),
        keeps_visits(base, scan(graph, node, k, state).visited),
    decreases unvisited(state.visited), 1nat, graph[node].len() - k,
{
    if k < graph[node].len() {
        let c = graph[node][k] as int;
        lemma_walk_there(graph, c, state.visited, state.longest);
        lemma_walk_keeps_visits(graph, c, state.visited, state.longest);
        lemma_after_neighbour_there(graph, node, k, base, longest, state);
        lemma_scan_goes_on(graph, node, k, state);
        let next = after_neighbour(graph, node, k, state);
        assert(keeps_visits(base, next.visited)) by {
            assert forall|x: int| 0 <= x < base.len() && base[x] implies #[trigger] next.visited[x] by {
                assert(state.visited[x]);
            }
        }
        lemma_scan_there(graph, node, k + 1, base, longest, next);
    }
}

/// The longest road that the search from the root finds is there: where it
/// is one edge or more, the road network holds a path of that many roads,
/// one after the other, that meets no intersection twice.
pub proof fn law_longest_road_is_there(game: Game, player: Player)
    ensures
        game.road_length(player) > 0 ==> exists|road: Seq<int>|
            #![trigger is_path(game.network(player), road)]
            is_path(game.network(player), road) && road.len() == game.road_length(player) + 1,
{
    let graph = game.network(player);
    let visited = Seq::new(INTERSECTIONS as nat, |v: int| false);
    lemma_walk_there(graph, ROOT as int, visited, 0);
    let found = walk(graph, ROOT as int, visited, 0);
    if found.longest > 0 {
        let road = choose|road: Seq<int>| #[trigger]
            is_road(graph, visited, found.visited, found.longest, road);
        assert(is_path(graph, road) && road.len() == found.longest + 1);
    }
}

} // verus!
