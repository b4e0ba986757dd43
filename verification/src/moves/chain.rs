//! The longest road of a road network that is one path without a branch.

use crate::game::board::{Game, INTERSECTIONS, Player};
use crate::moves::possible_moves::{ROOT, Scan, Walk, walk};
use crate::moves::search::{
    after_neighbour, keeps_visits, lemma_walk_no_neighbour, lemma_walk_one_neighbour,
    lemma_walk_two_neighbours, lemma_walk_visited,
};
use vstd::prelude::*;

verus! {

/// The row of neighbours of place `i` of a chain: the place before it and
/// the place after it, in either order, as far as there are such.
#[verifier::opaque]
pub open spec fn row_fits(row: Seq<usize>, chain: Seq<usize>, i: int) -> bool {
    let last = chain.len() - 1;
    if last == 0 {
        row.len() == 0
    } else if i == 0 {
        row == seq![chain[1]]
    } else if i == last {
        row == seq![chain[i - 1]]
    } else {
        ||| row == seq![chain[i - 1], chain[i + 1]]
        ||| row == seq![chain[i + 1], chain[i - 1]]
    }
}

/// The intersections of `chain` are joined in the graph one to the next,
/// and to nothing else: the roads through them form one path without a
/// branch.
pub open spec fn is_chain(graph: Seq<Seq<usize>>, chain: Seq<usize>) -> bool {
    &&& chain.len() >= 1
    &&& chain.no_duplicates()
    &&& forall|i: int| 0 <= i < chain.len() ==> #[trigger] chain[i] < graph.len()
    &&& forall|i: int|
        0 <= i < chain.len() ==> #[trigger] row_fits(graph[chain[i] as int], chain, i)
}

/// The intersection is one of those from place `from` to before place `to`
/// of the chain.
pub open spec fn on_chain(chain: Seq<usize>, from: int, to: int, x: int) -> bool {
    exists|k: int| from <= k < to && 0 <= k < chain.len() && #[trigger] chain[k] == x
}

/// The longer of a road seen and a road of `n` edges.
pub open spec fn longer(longest: nat, n: int) -> int {
    if longest > n {
        longest as int
    } else {
        n
    }
}

/// What the search down a chain from place `i` finds: the tree under place
/// `i` is as high as the chain has places from there on; the longest road
/// seen is that down to the end, unless a longer one was seen before; and
/// only places of the chain from `i` on are newly visited.
pub open spec fn went_down(
    chain: Seq<usize>,
    i: int,
    visited: Seq<bool>,
    longest: nat,
    found: Walk,
) -> bool {
    &&& found.height == chain.len() - i
    &&& found.longest == longer(longest, chain.len() - 1 - i)
    &&& keeps_visits(visited, found.visited)
    &&& forall|x: int|
        0 <= x < visited.len() && #[trigger] found.visited[x] ==> visited[x] || on_chain(
            chain,
            i,
            chain.len() as int,
            x,
        )
}

/// The row of the last place of a chain of two places or more holds the
/// place before it.
proof fn lemma_row_of_end(graph: Seq<Seq<usize>>, chain: Seq<usize>)
    requires
        is_chain(graph, chain),
        chain.len() >= 2,
    ensures
        graph[chain[chain.len() - 1] as int] == seq![chain[chain.len() - 2]],
        graph[chain[0] as int] == seq![chain[1]],
{
    reveal(row_fits);
    assert(row_fits(graph[chain[chain.len() - 1] as int], chain, chain.len() - 1));
    assert(row_fits(graph[chain[0] as int], chain, 0));
}

/// The row of a place within a chain holds the place before it and the
/// place after it, in either order.
proof fn lemma_row_within(graph: Seq<Seq<usize>>, chain: Seq<usize>, i: int)
    requires
        is_chain(graph, chain),
        0 < i < chain.len() - 1,
    ensures
        graph[chain[i] as int] == seq![chain[i - 1], chain[i + 1]] || graph[chain[i] as int]
            == seq![chain[i + 1], chain[i - 1]],
{
    reveal(row_fits);
    assert(row_fits(graph[chain[i] as int], chain, i));
}

/// The search down a chain at its last place.
proof fn lemma_walk_down_end(
    graph: Seq<Seq<usize>>,
    chain: Seq<usize>,
    visited: Seq<bool>,
    longest: nat,
)
    requires
        is_chain(graph, chain),
        chain.len() >= 2,
        visited.len() == graph.len(),
        visited[chain[chain.len() - 2] as int],
        !visited[chain[chain.len() - 1] as int],
    ensures
        went_down(
            chain,
            chain.len() - 1,
            visited,
            longest,
            walk(graph, chain[chain.len() - 1] as int, visited, longest),
        ),
{
    let i = chain.len() - 1;
    let node = chain[i] as int;
    let v1 = visited.update(node, true);
    let s0 = Scan { first: 0, second: 0, longest, visited: v1 };
    let found = walk(graph, node, visited, longest);
    lemma_row_of_end(graph, chain);
    lemma_walk_one_neighbour(graph, node, visited, longest);
    assert(chain[i - 1] != chain[i]);
    lemma_walk_visited(graph, chain[i - 1] as int, v1, longest);
    assert(after_neighbour(graph, node, 0, s0) == s0);
    assert(found.visited == v1);
    assert forall|x: int| 0 <= x < visited.len() && #[trigger] found.visited[x] implies visited[x]
        || on_chain(chain, i, chain.len() as int, x) by {
        if x == node {
            assert(chain[i] == x);
        }
    }
}

/// The search down a chain at a place within it, from what the search finds
/// from the next place on.
proof fn lemma_walk_down_step(
    graph: Seq<Seq<usize>>,
    chain: Seq<usize>,
    i: int,
    visited: Seq<bool>,
    longest: nat,
)
    requires
        is_chain(graph, chain),
        1 <= i < chain.len() - 1,
        visited.len() == graph.len(),
        visited[chain[i - 1] as int],
        !visited[chain[i] as int],
        went_down(
            chain,
            i + 1,
            visited.update(chain[i] as int, true),
            longest,
            walk(graph, chain[i + 1] as int, visited.update(chain[i] as int, true), longest),
        ),
    ensures
        went_down(chain, i, visited, longest, walk(graph, chain[i] as int, visited, longest)),
{
    let len = chain.len() as int;
    let node = chain[i] as int;
    let v1 = visited.update(node, true);
    let s0 = Scan { first: 0, second: 0, longest, visited: v1 };
    let found = walk(graph, node, visited, longest);
    let below = walk(graph, chain[i + 1] as int, v1, longest);
    lemma_row_within(graph, chain, i);
    lemma_walk_two_neighbours(graph, node, visited, longest);
    assert(chain[i - 1] != chain[i]);
    assert(v1[chain[i - 1] as int]);
    let s1 = after_neighbour(graph, node, 0, s0);
    let s2 = after_neighbour(graph, node, 1, s1);
    if graph[node] == seq![chain[i - 1], chain[i + 1]] {
        lemma_walk_visited(graph, chain[i - 1] as int, v1, longest);
        assert(s1 == s0);
    } else {
        assert(below.visited[chain[i - 1] as int]);
        lemma_walk_visited(graph, chain[i - 1] as int, s1.visited, s1.longest);
        assert(s2 == s1);
    }
    assert(found.visited == below.visited);
    assert forall|x: int| 0 <= x < visited.len() && #[trigger] found.visited[x] implies visited[x]
        || on_chain(chain, i, len, x) by {
        if x == node {
            assert(chain[i] == x);
        } else if !visited[x] {
            assert(on_chain(chain, i + 1, len, x));
            let k = choose|k: int|
                i + 1 <= k < len && 0 <= k < chain.len() && #[trigger] chain[k] == x;
            assert(i <= k < len && chain[k] == x);
        }
    }
    assert(keeps_visits(visited, found.visited)) by {
        assert forall|x: int| 0 <= x < visited.len() && visited[x] implies #[trigger] found.visited[x] by {
            assert(v1[x]);
        }
    }
}

/// Down a chain: the search from place `i` of a chain, come from place
/// `i - 1`, with nothing visited from place `i` on, goes to the end of the
/// chain.
pub proof fn lemma_walk_down_chain(
    graph: Seq<Seq<usize>>,
    chain: Seq<usize>,
    i: int,
    visited: Seq<bool>,
    longest: nat,
)
    requires
        is_chain(graph, chain),
        1 <= i < chain.len(),
        visited.len() == graph.len(),
        visited[chain[i - 1] as int],
        forall|k: int| i <= k < chain.len() ==> !visited[#[trigger] chain[k] as int],
    ensures
        went_down(chain, i, visited, longest, walk(graph, chain[i] as int, visited, longest)),
    decreases chain.len() - i,
{
    if i == chain.len() - 1 {
        lemma_walk_down_end(graph, chain, visited, longest);
    } else {
        let v1 = visited.update(chain[i] as int, true);
        assert forall|k: int| i + 1 <= k < chain.len() implies !v1[#[trigger] chain[k] as int] by {
            assert(chain[k] != chain[i]);
        }
        lemma_walk_down_chain(graph, chain, i + 1, v1, longest);
        lemma_walk_down_step(graph, chain, i, visited, longest);
    }
}

/// A chain is a chain from its other end too.
pub proof fn lemma_chain_reversed(graph: Seq<Seq<usize>>, chain: Seq<usize>)
    requires
        is_chain(graph, chain),
    ensures
        is_chain(graph, chain.reverse()),
{
    let back = chain.reverse();
    let len = chain.len() as int;
    assert forall|i: int, j: int| 0 <= i < back.len() && 0 <= j < back.len() && i != j implies back[i]
        != back[j] by {
        assert(back[i] == chain[len - 1 - i]);
        assert(back[j] == chain[len - 1 - j]);
    }
    assert forall|i: int| 0 <= i < back.len() implies #[trigger] back[i] < graph.len() by {
        assert(back[i] == chain[len - 1 - i]);
    }
    assert forall|i: int| 0 <= i < back.len() implies #[trigger] row_fits(
        graph[back[i] as int],
        back,
        i,
    ) by {
        reveal(row_fits);
        let j = len - 1 - i;
        assert(back[i] == chain[j]);
        assert(row_fits(graph[chain[j] as int], chain, j));
        if 0 < i {
            assert(back[i - 1] == chain[j + 1]);
        }
        if i < len - 1 {
            assert(back[i + 1] == chain[j - 1]);
        }
    }
}

/// The one place of a chain of a single place has no neighbour.
proof fn lemma_row_alone(graph: Seq<Seq<usize>>, chain: Seq<usize>)
    requires
        is_chain(graph, chain),
        chain.len() == 1,
    ensures
        graph[chain[0] as int].len() == 0,
{
    reveal(row_fits);
    assert(row_fits(graph[chain[0] as int], chain, 0));
}

/// The search from the first place of a chain, with no place of the chain
/// visited, finds the chain from end to end.
proof fn lemma_walk_from_end(graph: Seq<Seq<usize>>, chain: Seq<usize>, visited: Seq<bool>)
    requires
        is_chain(graph, chain),
        visited.len() == graph.len(),
        forall|k: int| 0 <= k < chain.len() ==> !visited[#[trigger] chain[k] as int],
    ensures
        walk(graph, chain[0] as int, visited, 0).longest == chain.len() - 1,
{
    let node = chain[0] as int;
    let v1 = visited.update(node, true);
    let s0 = Scan { first: 0, second: 0, longest: 0, visited: v1 };
    if chain.len() == 1 {
        lemma_row_alone(graph, chain);
        lemma_walk_no_neighbour(graph, node, visited, 0);
    } else {
        lemma_row_of_end(graph, chain);
        lemma_walk_one_neighbour(graph, node, visited, 0);
        assert forall|k: int| 1 <= k < chain.len() implies !v1[#[trigger] chain[k] as int] by {
            assert(chain[k] != chain[0]);
        }
        lemma_walk_down_chain(graph, chain, 1, v1, 0);
    }
}

/// The search from a place within a chain, with no place of the chain
/// visited, finds the chain from end to end: the two trees under the place
/// are the two arms of the chain.
proof fn lemma_walk_from_within(
    graph: Seq<Seq<usize>>,
    chain: Seq<usize>,
    r: int,
    visited: Seq<bool>,
)
    requires
        is_chain(graph, chain),
        0 < r < chain.len() - 1,
        visited.len() == graph.len(),
        forall|k: int| 0 <= k < chain.len() ==> !visited[#[trigger] chain[k] as int],
    ensures
        walk(graph, chain[r] as int, visited, 0).longest == chain.len() - 1,
{
    let len = chain.len() as int;
    let back = chain.reverse();
    let node = chain[r] as int;
    let v1 = visited.update(node, true);
    let s0 = Scan { first: 0, second: 0, longest: 0, visited: v1 };
    lemma_chain_reversed(graph, chain);
    lemma_row_within(graph, chain, r);
    lemma_walk_two_neighbours(graph, node, visited, 0);
    assert(back[len - r] == chain[r - 1]);
    assert(back[len - r - 1] == chain[r]);
    assert forall|k: int| r + 1 <= k < len implies !v1[#[trigger] chain[k] as int] by {
        assert(chain[k] != chain[r]);
    }
    assert forall|j: int| len - r <= j < len implies !v1[#[trigger] back[j] as int] by {
        assert(back[j] == chain[len - 1 - j]);
        assert(chain[len - 1 - j] != chain[r]);
    }
    let s1 = after_neighbour(graph, node, 0, s0);
    let s2 = after_neighbour(graph, node, 1, s1);
    if graph[node] == seq![chain[r - 1], chain[r + 1]] {
        lemma_walk_down_chain(graph, back, len - r, v1, 0);
        let left = walk(graph, chain[r - 1] as int, v1, 0);
        assert(went_down(back, len - r, v1, 0, left));
        assert forall|k: int| r + 1 <= k < len implies !left.visited[#[trigger] chain[k] as int] by {
            if left.visited[chain[k] as int] {
                assert(on_chain(back, len - r, len, chain[k] as int));
                let j = choose|j: int|
                    len - r <= j < len && 0 <= j < back.len() && #[trigger] back[j] == chain[k];
                assert(back[j] == chain[len - 1 - j]);
                assert(chain[len - 1 - j] != chain[k]);
            }
        }
        assert(left.visited[chain[r] as int]);
        lemma_walk_down_chain(graph, chain, r + 1, left.visited, left.longest);
    } else {
        lemma_walk_down_chain(graph, chain, r + 1, v1, 0);
        let right = walk(graph, chain[r + 1] as int, v1, 0);
        assert(went_down(chain, r + 1, v1, 0, right));
        assert forall|j: int| len - r <= j < len implies !right.visited[#[trigger] back[j] as int] by {
            assert(back[j] == chain[len - 1 - j]);
            if right.visited[back[j] as int] {
                assert(on_chain(chain, r + 1, len, back[j] as int));
                let k = choose|k: int|
                    r + 1 <= k < len && 0 <= k < chain.len() && #[trigger] chain[k] == back[j];
                assert(chain[k] != chain[len - 1 - j]);
            }
        }
        assert(right.visited[back[len - r - 1] as int]);
        lemma_walk_down_chain(graph, back, len - r, right.visited, right.longest);
    }
}

/// The search from any place of a chain, with no place of the chain visited
/// and no road seen, finds a road as long as the chain has edges.
pub proof fn lemma_walk_along_chain(
    graph: Seq<Seq<usize>>,
    chain: Seq<usize>,
    r: int,
    visited: Seq<bool>,
)
    requires
        is_chain(graph, chain),
        0 <= r < chain.len(),
        visited.len() == graph.len(),
        forall|k: int| 0 <= k < chain.len() ==> !visited[#[trigger] chain[k] as int],
    ensures
        walk(graph, chain[r] as int, visited, 0).longest == chain.len() - 1,
{
    let len = chain.len() as int;
    if r == 0 {
        lemma_walk_from_end(graph, chain, visited);
    } else if r == len - 1 {
        let back = chain.reverse();
        lemma_chain_reversed(graph, chain);
        assert(back[0] == chain[r]);
        assert forall|k: int| 0 <= k < back.len() implies !visited[#[trigger] back[k] as int] by {
            assert(back[k] == chain[len - 1 - k]);
        }
        lemma_walk_from_end(graph, back, visited);
    } else {
        lemma_walk_from_within(graph, chain, r, visited);
    }
}

/// Where the roads of a player form one path without a branch through the
/// root, the longest road of the player is as long as the path has edges.
pub proof fn law_road_along_chain(game: Game, player: Player, chain: Seq<usize>)
    requires
        is_chain(game.network(player), chain),
        chain.contains(ROOT),
    ensures
        game.road_length(player) == chain.len() - 1,
{
    let r = choose|r: int| 0 <= r < chain.len() && chain[r] == ROOT;
    let visited = Seq::new(INTERSECTIONS as nat, |v: int| false);
    lemma_walk_along_chain(game.network(player), chain, r, visited);
}

} // verus!
