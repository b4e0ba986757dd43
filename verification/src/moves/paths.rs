//! Paths of roads in a graph, and the intersections visited between two
//! times of a search.

use crate::moves::search::keeps_visits;
use vstd::prelude::*;

verus! {

/// The graph names `w` as a neighbour of `u`.
pub open spec fn has_neighbour(graph: Seq<Seq<usize>>, u: int, w: int) -> bool {
    0 <= u < graph.len() && exists|k: int| 0 <= k < graph[u].len() && #[trigger] graph[u][k] == w
}

/// A road joins the two intersections: one is a neighbour of the other in
/// the graph.
pub open spec fn joined(graph: Seq<Seq<usize>>, u: int, w: int) -> bool {
    has_neighbour(graph, u, w) || has_neighbour(graph, w, u)
}

/// A road joins place `i` of the list to the next place.
pub open spec fn linked(graph: Seq<Seq<usize>>, path: Seq<int>, i: int) -> bool {
    joined(graph, path[i], path[i + 1])
}

/// The list is a path of roads: intersections of the graph, each joined to
/// the next by a road, and none met twice.
pub open spec fn is_path(graph: Seq<Seq<usize>>, path: Seq<int>) -> bool {
    &&& path.len() >= 1
    &&& path.no_duplicates()
    &&& forall|i: int| 0 <= i < path.len() ==> 0 <= #[trigger] path[i] < graph.len()
    &&& forall|i: int| 0 <= i < path.len() - 1 ==> #[trigger] linked(graph, path, i)
}

/// The two lists have no intersection in common.
pub open spec fn apart(first: Seq<int>, second: Seq<int>) -> bool {
    forall|i: int, j: int|
        0 <= i < first.len() && 0 <= j < second.len() ==> #[trigger] first[i] != #[trigger] second[j]
}

/// A path of roads is one from its other end too.
pub proof fn lemma_path_reversed(graph: Seq<Seq<usize>>, path: Seq<int>)
    requires
        is_path(graph, path),
    ensures
        is_path(graph, path.reverse()),
{
    let back = path.reverse();
    let len = path.len() as int;
    assert forall|i: int, j: int| 0 <= i < back.len() && 0 <= j < back.len() && i != j implies back[i]
        != back[j] by {
        assert(back[i] == path[len - 1 - i]);
        assert(back[j] == path[len - 1 - j]);
    }
    assert forall|i: int| 0 <= i < back.len() implies 0 <= #[trigger] back[i] < graph.len() by {
        assert(back[i] == path[len - 1 - i]);
    }
    assert forall|i: int| 0 <= i < back.len() - 1 implies #[trigger] linked(graph, back, i) by {
        assert(back[i] == path[len - 1 - i]);
        assert(back[i + 1] == path[len - 2 - i]);
        assert(linked(graph, path, len - 2 - i));
    }
}

/// Two paths of roads without an intersection in common, the end of the
/// first joined to the start of the second, are one path.
pub proof fn lemma_paths_joined(graph: Seq<Seq<usize>>, first: Seq<int>, second: Seq<int>)
    requires
        is_path(graph, first),
        is_path(graph, second),
        apart(first, second),
        joined(graph, first.last(), second[0]),
    ensures
        is_path(graph, first + second),
{
    let all = first + second;
    let n = first.len() as int;
    assert forall|i: int, j: int| 0 <= i < all.len() && 0 <= j < all.len() && i != j implies all[i]
        != all[j] by {
        if i < n && j < n {
            assert(all[i] == first[i] && all[j] == first[j]);
        } else if i >= n && j >= n {
            assert(all[i] == second[i - n] && all[j] == second[j - n]);
        } else if i < n {
            assert(all[i] == first[i] && all[j] == second[j - n]);
        } else {
            assert(all[j] == first[j] && all[i] == second[i - n]);
        }
    }
    assert forall|i: int| 0 <= i < all.len() implies 0 <= #[trigger] all[i] < graph.len() by {
        if i < n {
            assert(all[i] == first[i]);
        } else {
            assert(all[i] == second[i - n]);
        }
    }
    assert forall|i: int| 0 <= i < all.len() - 1 implies #[trigger] linked(graph, all, i) by {
        if i < n - 1 {
            assert(all[i] == first[i] && all[i + 1] == first[i + 1]);
            assert(linked(graph, first, i));
        } else if i == n - 1 {
            assert(all[i] == first.last() && all[i + 1] == second[0]);
        } else {
            assert(all[i] == second[i - n] && all[i + 1] == second[i - n + 1]);
            assert(linked(graph, second, i - n));
        }
    }
}

/// Every intersection of the list was visited in between: it is marked
/// after, and was not before.
pub open spec fn fresh(before: Seq<bool>, after: Seq<bool>, list: Seq<int>) -> bool {
    forall|i: int|
        0 <= i < list.len() ==> 0 <= #[trigger] list[i] < before.len() && list[i] < after.len()
            && after[list[i]] && !before[list[i]]
}

/// What was visited in between stays so where the time before is taken
/// earlier and the time after later.
pub proof fn lemma_fresh_wider(
    before: Seq<bool>,
    after: Seq<bool>,
    earlier: Seq<bool>,
    later: Seq<bool>,
    list: Seq<int>,
)
    requires
        fresh(before, after, list),
        keeps_visits(earlier, before),
        keeps_visits(after, later),
    ensures
        fresh(earlier, later, list),
{
    assert forall|i: int| 0 <= i < list.len() implies 0 <= #[trigger] list[i] < earlier.len()
        && list[i] < later.len() && later[list[i]] && !earlier[list[i]] by {
        let x = list[i];
        assert(after[x]);
        assert(later[x]);
        if earlier[x] {
            assert(before[x]);
        }
    }
}

/// What was visited before a time and what was visited after it have no
/// intersection in common.
pub proof fn lemma_fresh_apart(
    before: Seq<bool>,
    between: Seq<bool>,
    after: Seq<bool>,
    old: Seq<int>,
    new: Seq<int>,
)
    requires
        fresh(before, between, old),
        fresh(between, after, new),
    ensures
        apart(old, new),
        apart(new, old),
{
}

/// The intersection was visited in between: it is marked after, and was
/// not before.
pub open spec fn newly(before: Seq<bool>, after: Seq<bool>, x: int) -> bool {
    0 <= x < before.len() && x < after.len() && after[x] && !before[x]
}

/// A part of a path of roads is a path of roads.
pub proof fn lemma_part_of_path(graph: Seq<Seq<usize>>, path: Seq<int>, from: int, to: int)
    requires
        is_path(graph, path),
        0 <= from < to <= path.len(),
    ensures
        is_path(graph, path.subrange(from, to)),
{
    let part = path.subrange(from, to);
    assert forall|i: int, j: int| 0 <= i < part.len() && 0 <= j < part.len() && i != j implies part[i]
        != part[j] by {
        assert(part[i] == path[from + i]);
        assert(part[j] == path[from + j]);
    }
    assert forall|i: int| 0 <= i < part.len() implies 0 <= #[trigger] part[i] < graph.len() by {
        assert(part[i] == path[from + i]);
    }
    assert forall|i: int| 0 <= i < part.len() - 1 implies #[trigger] linked(graph, part, i) by {
        assert(part[i] == path[from + i]);
        assert(part[i + 1] == path[from + i + 1]);
        assert(linked(graph, path, from + i));
    }
}

} // verus!
