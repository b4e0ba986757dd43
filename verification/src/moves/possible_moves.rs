//! The longest road of a player, and where a player can build.

use crate::game::board::{Game, INTERSECTIONS, IntersectionId, PATHS, Path, Player};
use crate::game::resources::lemma_same_set;
use crate::moves::longest_path::{law_longest_road_is_longest, reaches, ring_free};
use crate::moves::paths::is_path;
use crate::moves::road_length::law_longest_road_is_there;
use vstd::prelude::*;

verus! {

/// The intersection at which the search for the longest road starts.
pub const ROOT: usize = 6;

/// True if the list holds the intersection.
fn holds_intersection(list: &Vec<IntersectionId>, x: IntersectionId) -> (b: bool)
    ensures
        b == list@.contains(x),
{
    let mut i: usize = 0;
    while i < list.len()
        invariant
            i <= list.len(),
            forall|j: int| 0 <= j < i ==> list@[j] != x,
        decreases list.len() - i,
    {
        if list[i] == x {
            return true;
        }
        i += 1;
    }
    false
}

/// Adds the intersection to the list unless the list holds it.
fn insert_intersection(list: &mut Vec<IntersectionId>, x: IntersectionId)
    requires
        old(list)@.no_duplicates(),
    ensures
        final(list)@.no_duplicates(),
        forall|y: IntersectionId| final(list)@.contains(y) <==> old(list)@.contains(y) || y == x,
{
    if !holds_intersection(list, x) {
        let ghost before = list@;
        list.push(x);
        assert forall|y: IntersectionId| list@.contains(y) <==> before.contains(y) || y == x by {
            if before.contains(y) {
                let j = choose|j: int| 0 <= j < before.len() && before[j] == y;
                assert(list@[j] == y);
            }
            if y == x {
                assert(list@[before.len() as int] == y);
            }
        }
    }
}

/// Adds the edge to the list unless the list holds it.
fn insert_path(list: &mut Vec<Path>, x: Path)
    requires
        old(list)@.no_duplicates(),
    ensures
        final(list)@.no_duplicates(),
        forall|y: Path| final(list)@.contains(y) <==> old(list)@.contains(y) || y == x,
{
    let mut i: usize = 0;
    while i < list.len()
        invariant
            i <= list.len(),
            list@ == old(list)@,
            list@.no_duplicates(),
            forall|j: int| 0 <= j < i ==> list@[j] != x,
        decreases list.len() - i,
    {
        if list[i] == x {
            return ;
        }
        i += 1;
    }
    let ghost before = list@;
    list.push(x);
    assert forall|y: Path| list@.contains(y) <==> before.contains(y) || y == x by {
        if before.contains(y) {
            let j = choose|j: int| 0 <= j < before.len() && before[j] == y;
            assert(list@[j] == y);
        }
        if y == x {
            assert(list@[before.len() as int] == y);
        }
    }
}

/// The rows of a graph: for each intersection the list of its neighbours.
pub open spec fn adjacency(graph: Seq<Vec<usize>>) -> Seq<Seq<usize>> {
    Seq::new(graph.len(), |v: int| graph[v]@)
}

/// Every neighbour that the graph names is an intersection of the graph.
pub open spec fn closed(graph: Seq<Seq<usize>>) -> bool {
    forall|v: int, k: int|
        0 <= v < graph.len() && 0 <= k < graph[v].len() ==> #[trigger] graph[v][k] < graph.len()
}

/// How many intersections were not visited.
pub open spec fn unvisited(visited: Seq<bool>) -> nat
    decreases visited.len(),
{
    if visited.len() == 0 {
        0
    } else {
        unvisited(visited.drop_last()) + if visited.last() {
            0nat
        } else {
            1nat
        }
    }
}

/// No more intersections are unvisited than there are.
pub proof fn lemma_unvisited_bound(visited: Seq<bool>)
    ensures
        unvisited(visited) <= visited.len(),
    decreases visited.len(),
{
    if visited.len() > 0 {
        lemma_unvisited_bound(visited.drop_last());
    }
}

/// A visit to an intersection that was not visited leaves one fewer.
pub proof fn lemma_visit(visited: Seq<bool>, node: int)
    requires
        0 <= node < visited.len(),
        !visited[node],
    ensures
        unvisited(visited.update(node, true)) + 1 == unvisited(visited),
    decreases visited.len(),
{
    let after = visited.update(node, true);
    if node == visited.len() - 1 {
        assert(after.drop_last() == visited.drop_last());
    } else {
        lemma_visit(visited.drop_last(), node);
        assert(after.drop_last() == visited.drop_last().update(node, true));
    }
}

/// What a search from an intersection found: the height of the tree of
/// roads that hangs from the intersection, counted in intersections; the
/// longest road seen so far; and the intersections visited so far.
pub struct Walk {
    pub height: nat,
    pub longest: nat,
    pub visited: Seq<bool>,
}

/// Where the search stands among the neighbours of an intersection: the
/// heights of the tallest and second tallest trees found under it, the
/// longest road seen so far and the intersections visited so far.
pub struct Scan {
    pub first: nat,
    pub second: nat,
    pub longest: nat,
    pub visited: Seq<bool>,
}

/// The search, depth first, from `node`. From an intersection that was
/// visited, or is none of the graph, nothing hangs. Else the intersection is
/// visited and its neighbours are searched in turn; the road through it is
/// as long as the two tallest trees under it together, and the tree that
/// hangs from it is one higher than the tallest.
pub open spec fn walk(graph: Seq<Seq<usize>>, node: int, visited: Seq<bool>, longest: nat) -> Walk
    decreases unvisited(visited), 0nat, 0nat,
{
    if 0 <= node < visited.len() && node < graph.len() && !visited[node] {
        proof {
            lemma_visit(visited, node);
        }
        let done = scan(
            graph,
            node,
            0,
            Scan { first: 0, second: 0, longest, visited: visited.update(node, true) },
        );
        Walk {
            height: done.first + 1,
            longest: if done.first + done.second > done.longest {
                done.first + done.second
            } else {
                done.longest
            },
            visited: done.visited,
        }
    } else {
        Walk { height: 0, longest, visited }
    }
}

/// The search among the neighbours of `node` from its neighbour `k` on. A
/// search never takes a visit back, which is all that the test before the
/// next neighbour says.
pub open spec fn scan(graph: Seq<Seq<usize>>, node: int, k: int, state: Scan) -> Scan
    decreases unvisited(state.visited), 1nat, graph[node].len() - k,
{
    if 0 <= k < graph[node].len() {
        let child = walk(graph, graph[node][k] as int, state.visited, state.longest);
        let next = Scan {
            first: if state.first < child.height {
                child.height
            } else {
                state.first
            },
            second: if state.first < child.height {
                state.first
            } else if state.second < child.height {
                child.height
            } else {
                state.second
            },
            longest: child.longest,
            visited: child.visited,
        };
        if unvisited(child.visited) <= unvisited(state.visited) {
            scan(graph, node, k + 1, next)
        } else {
            next
        }
    } else {
        state
    }
}

impl Game {
    /// The neighbours of intersection `v` over the first `n` roads of the
    /// state: the far end of each of them that `player` owns and that ends
    /// in `v`, in the order of the roads. A road on an edge that names one
    /// intersection twice joins nothing and is passed over.
    pub open spec fn neighbours_upto(&self, player: Player, v: int, n: int) -> Seq<usize>
        decreases n,
    {
        if n <= 0 {
            Seq::<usize>::empty()
        } else {
            let before = self.neighbours_upto(player, v, n - 1);
            let road = self.state.roads[n - 1];
            let path = self.board.paths[road.id.0 as int];
            if road.player == player && path.0 != path.1 {
                if path.0.0 == v {
                    before.push(path.1.0)
                } else if path.1.0 == v {
                    before.push(path.0.0)
                } else {
                    before
                }
            } else {
                before
            }
        }
    }

    /// The neighbours of intersection `v` in the road network of `player`.
    pub open spec fn neighbours(&self, player: Player, v: int) -> Seq<usize> {
        self.neighbours_upto(player, v, self.state.roads.len() as int)
    }

    /// The road network of a player: for each intersection of the board the
    /// intersections that a road of the player joins it to.
    pub fn road_graph(&self, player: Player) -> (graph: Vec<Vec<usize>>)
        requires
            self.board.wf(),
            self.state.roads_within(),
        ensures
            graph.len() == INTERSECTIONS,
            forall|v: int|
                0 <= v < INTERSECTIONS ==> (#[trigger] graph[v])@ == self.neighbours(player, v),
            closed(adjacency(graph@)),
    {
        let mut graph: Vec<Vec<usize>> = Vec::new();
        let mut v: usize = 0;
        while v < INTERSECTIONS
            invariant
                v <= INTERSECTIONS,
                graph.len() == v,
                forall|w: int| 0 <= w < v ==> (#[trigger] graph[w])@ == Seq::<usize>::empty(),
            decreases INTERSECTIONS - v,
        {
            graph.push(Vec::new());
            v += 1;
        }
        let mut n: usize = 0;
        while n < self.state.roads.len()
            invariant
                n <= self.state.roads.len(),
                self.board.wf(),
                self.state.roads_within(),
                graph.len() == INTERSECTIONS,
                forall|w: int|
                    0 <= w < INTERSECTIONS ==> (#[trigger] graph[w])@ == self.neighbours_upto(
                        player,
                        w,
                        n as int,
                    ),
                forall|w: int, k: int|
                    0 <= w < INTERSECTIONS && 0 <= k < graph[w].len() ==> #[trigger] graph[w][k]
                        < INTERSECTIONS,
            decreases self.state.roads.len() - n,
        {
            let road = self.state.roads[n];
            assert(self.state.roads@[n as int].id.0 < PATHS);
            let path = self.board.paths[road.id.0];
            let a = path.0.0;
            let b = path.1.0;
            assert(self.board.paths[road.id.0 as int].0.0 < INTERSECTIONS);
            if road.player == player && a != b {
                graph[a].push(b);
                graph[b].push(a);
            }
            n += 1;
        }
        graph
    }
}

impl Path {
    /// The edge ends in the intersection.
    pub open spec fn ends_in(self, x: IntersectionId) -> bool {
        self.0 == x || self.1 == x
    }
}

impl Game {
    /// Edge `m` of those that meet in the intersection of building `k` ends
    /// in `x`.
    pub open spec fn near(&self, k: int, m: int, x: IntersectionId) -> bool {
        let site = self.board.intersections[self.state.buildings[k].intersection_id.0 as int];
        &&& 0 <= k < self.state.buildings.len()
        &&& 0 <= m < site.paths.len()
        &&& self.board.paths[site.paths[m].0 as int].ends_in(x)
    }

    /// The intersection is too close to a building: it is an end of an edge
    /// that meets in the intersection of a building, whoever owns it.
    pub open spec fn too_close(&self, x: IntersectionId) -> bool {
        exists|k: int, m: int| #[trigger] self.near(k, m, x)
    }

    /// As `too_close`, over the buildings before building `k` and the first
    /// `m` edges of building `k`.
    pub open spec fn too_close_upto(&self, k: int, m: int, x: IntersectionId) -> bool {
        exists|k0: int, m0: int| #[trigger]
            self.near(k0, m0, x) && (k0 < k || (k0 == k && m0 < m))
    }

    /// The intersections that are too close to a building for another one.
    pub fn too_close_intersections(&self) -> (close: Vec<IntersectionId>)
        requires
            self.board.wf(),
            self.state.buildings_within(),
        ensures
            close@.no_duplicates(),
            forall|x: IntersectionId| close@.contains(x) <==> self.too_close(x),
    {
        let mut close: Vec<IntersectionId> = Vec::new();
        let mut k: usize = 0;
        while k < self.state.buildings.len()
            invariant
                k <= self.state.buildings.len(),
                self.board.wf(),
                self.state.buildings_within(),
                close@.no_duplicates(),
                forall|x: IntersectionId| close@.contains(x) <==> self.too_close_upto(k as int, 0, x),
            decreases self.state.buildings.len() - k,
        {
            let building = self.state.buildings[k];
            assert(self.state.buildings@[k as int].intersection_id.0 < INTERSECTIONS);
            let site = &self.board.intersections[building.intersection_id.0];
            let mut m: usize = 0;
            while m < site.paths.len()
                invariant
                    k < self.state.buildings.len(),
                    m <= site.paths.len(),
                    self.board.wf(),
                    building == self.state.buildings@[k as int],
                    building.intersection_id.0 < INTERSECTIONS,
                    *site == self.board.intersections[building.intersection_id.0 as int],
                    close@.no_duplicates(),
                    forall|x: IntersectionId|
                        close@.contains(x) <==> self.too_close_upto(k as int, m as int, x),
                decreases site.paths.len() - m,
            {
                let id = site.paths[m];
                assert(self.board.intersections[building.intersection_id.0 as int].paths[m as int].0
                    < PATHS);
                let path = self.board.paths[id.0];
                let ghost before = close@;
                insert_intersection(&mut close, path.0);
                insert_intersection(&mut close, path.1);
                assert forall|x: IntersectionId|
                    close@.contains(x) <==> self.too_close_upto(k as int, m + 1, x) by {
                    if self.too_close_upto(k as int, m + 1, x) {
                        let (k0, m0) = choose|k0: int, m0: int| #[trigger]
                            self.near(k0, m0, x) && (k0 < k || (k0 == k && m0 < m + 1));
                        if k0 == k && m0 == m {
                            assert(path.ends_in(x));
                        } else {
                            assert(self.near(k0, m0, x) && (k0 < k || (k0 == k && m0 < m)));
                            assert(self.too_close_upto(k as int, m as int, x));
                        }
                    }
                    if before.contains(x) {
                        let (k0, m0) = choose|k0: int, m0: int| #[trigger]
                            self.near(k0, m0, x) && (k0 < k || (k0 == k && m0 < m));
                        assert(self.near(k0, m0, x) && (k0 < k || (k0 == k && m0 < m + 1)));
                    }
                    if path.ends_in(x) {
                        assert(self.near(k as int, m as int, x));
                    }
                }
                m += 1;
            }
            assert forall|x: IntersectionId|
                self.too_close_upto(k as int, m as int, x) <==> self.too_close_upto(
                    k + 1,
                    0,
                    x,
                ) by {
                if self.too_close_upto(k as int, m as int, x) {
                    let (k0, m0) = choose|k0: int, m0: int| #[trigger]
                        self.near(k0, m0, x) && (k0 < k || (k0 == k && m0 < m));
                    assert(self.near(k0, m0, x) && (k0 < k + 1 || (k0 == k + 1 && m0 < 0)));
                }
                if self.too_close_upto(k + 1, 0, x) {
                    let (k0, m0) = choose|k0: int, m0: int| #[trigger]
                        self.near(k0, m0, x) && (k0 < k + 1 || (k0 == k + 1 && m0 < 0));
                    assert(self.near(k0, m0, x) && (k0 < k || (k0 == k && m0 < m)));
                }
            }
            k += 1;
        }
        assert forall|x: IntersectionId| self.too_close_upto(k as int, 0, x) <==> self.too_close(
            x,
        ) by {
            if self.too_close(x) {
                let (k0, m0) = choose|k0: int, m0: int| #[trigger] self.near(k0, m0, x);
                assert(self.near(k0, m0, x) && (k0 < k || (k0 == k && m0 < 0)));
            }
        }
        close
    }

    /// Road `n` of the state is a road of `player` that ends in `x`.
    pub open spec fn reaches(&self, player: Player, n: int, x: IntersectionId) -> bool {
        &&& 0 <= n < self.state.roads.len()
        &&& self.state.roads[n].player == player
        &&& self.board.paths[self.state.roads[n].id.0 as int].ends_in(x)
    }

    /// One of the first `n` roads of the state is a road of `player` that
    /// ends in `x`.
    pub open spec fn reached_upto(&self, player: Player, n: int, x: IntersectionId) -> bool {
        exists|n0: int| #[trigger] self.reaches(player, n0, x) && n0 < n
    }

    /// The player can build on the intersection: a road of the player ends
    /// in it, and it is not too close to a building.
    pub open spec fn can_build_on(&self, player: Player, x: IntersectionId) -> bool {
        (exists|n: int| #[trigger] self.reaches(player, n, x)) && !self.too_close(x)
    }

    /// The intersections on which the player can build.
    pub fn possible_building_intersections(&self, player: Player) -> (sites: Vec<IntersectionId>)
        requires
            self.board.wf(),
            self.state.buildings_within(),
            self.state.roads_within(),
        ensures
            sites@.no_duplicates(),
            forall|x: IntersectionId| sites@.contains(x) <==> self.can_build_on(player, x),
    {
        let too_close_intersections = self.too_close_intersections();
        let mut sites: Vec<IntersectionId> = Vec::new();
        let mut n: usize = 0;
        while n < self.state.roads.len()
            invariant
                n <= self.state.roads.len(),
                self.board.wf(),
                self.state.roads_within(),
                sites@.no_duplicates(),
                forall|x: IntersectionId|
                    too_close_intersections@.contains(x) <==> self.too_close(x),
                forall|x: IntersectionId| #[trigger]
                    sites@.contains(x) <==> self.reached_upto(player, n as int, x)
                        && !self.too_close(x),
            decreases self.state.roads.len() - n,
        {
            let road = self.state.roads[n];
            assert(self.state.roads@[n as int].id.0 < PATHS);
            let ghost before = sites@;
            if road.player == player {
                let path = self.board.paths[road.id.0];
                if !holds_intersection(&too_close_intersections, path.0) {
                    insert_intersection(&mut sites, path.0);
                }
                if !holds_intersection(&too_close_intersections, path.1) {
                    insert_intersection(&mut sites, path.1);
                }
            }
            assert forall|x: IntersectionId| #[trigger]
                sites@.contains(x) <==> self.reached_upto(player, n + 1, x) && !self.too_close(
                    x,
                ) by {
                if before.contains(x) {
                    let n0 = choose|n0: int| #[trigger] self.reaches(player, n0, x) && n0 < n;
                    assert(self.reaches(player, n0, x) && n0 < n + 1);
                }
                if sites@.contains(x) && !before.contains(x) {
                    assert(self.reaches(player, n as int, x) && n < n + 1);
                }
                if self.reached_upto(player, n + 1, x) && !self.too_close(x) {
                    let n0 = choose|n0: int| #[trigger] self.reaches(player, n0, x) && n0 < n + 1;
                    if n0 < n {
                        assert(self.reached_upto(player, n as int, x));
                        assert(before.contains(x));
                    }
                }
            }
            n += 1;
        }
        assert forall|x: IntersectionId|
            sites@.contains(x) <==> self.can_build_on(player, x) by {
            if self.can_build_on(player, x) {
                let n0 = choose|n0: int| #[trigger] self.reaches(player, n0, x);
                assert(self.reaches(player, n0, x) && n0 < n);
            }
            if sites@.contains(x) {
                let n0 = choose|n0: int| #[trigger] self.reaches(player, n0, x) && n0 < n;
                assert(self.reaches(player, n0, x));
            }
        }
        sites
    }

    /// Intersection `v` is a loose end of the player's road network, from
    /// which an edge to `other` would not lie on the road that ends there:
    /// exactly one road of the player ends in `v`, and it does not come from
    /// `other`.
    pub open spec fn loose_end(&self, player: Player, v: usize, other: usize) -> bool {
        let joined = self.neighbours(player, v as int);
        joined.len() == 1 && joined[0] != other
    }

    /// A road on the edge would prolong the player's road network from one
    /// of its loose ends.
    pub open spec fn prolongs(&self, player: Player, path: Path) -> bool {
        self.loose_end(player, path.0.0, path.1.0) || self.loose_end(player, path.1.0, path.0.0)
    }

    /// The edge is edge `i` of the board and would prolong the player's road
    /// network.
    pub open spec fn offers(&self, player: Player, i: int, path: Path) -> bool {
        0 <= i < PATHS && self.board.paths[i] == path && self.prolongs(player, path)
    }

    /// The edges of the board on which a road would prolong the player's
    /// road network from one of its loose ends. Roads and buildings of other
    /// players are not looked at.
    pub fn possible_road_paths(&self, player: Player) -> (paths: Vec<Path>)
        requires
            self.board.wf(),
            self.state.roads_within(),
        ensures
            paths@.no_duplicates(),
            forall|path: Path|
                paths@.contains(path) <==> exists|i: int| #[trigger] self.offers(player, i, path),
    {
        let graph = self.road_graph(player);
        let mut paths: Vec<Path> = Vec::new();
        let mut i: usize = 0;
        while i < PATHS
            invariant
                i <= PATHS,
                self.board.wf(),
                graph.len() == INTERSECTIONS,
                forall|v: int|
                    0 <= v < INTERSECTIONS ==> (#[trigger] graph[v])@ == self.neighbours(player, v),
                paths@.no_duplicates(),
                forall|path: Path|
                    paths@.contains(path) <==> exists|i0: int|
                        i0 < i && #[trigger] self.offers(player, i0, path),
            decreases PATHS - i,
        {
            let path = self.board.paths[i];
            let a = path.0.0;
            let b = path.1.0;
            assert(self.board.paths[i as int].0.0 < INTERSECTIONS);
            let ghost before = paths@;
            let from_a = graph[a].len() == 1 && graph[a][0] != b;
            let from_b = graph[b].len() == 1 && graph[b][0] != a;
            assert(from_a == self.loose_end(player, a, b));
            assert(from_b == self.loose_end(player, b, a));
            if from_a || from_b {
                insert_path(&mut paths, path);
            }
            assert forall|p: Path|
                paths@.contains(p) <==> exists|i0: int|
                    i0 < i + 1 && #[trigger] self.offers(player, i0, p) by {
                if before.contains(p) {
                    let i0 = choose|i0: int| i0 < i && #[trigger] self.offers(player, i0, p);
                    assert(i0 < i + 1 && self.offers(player, i0, p));
                }
                if paths@.contains(p) && !before.contains(p) {
                    assert(self.offers(player, i as int, p));
                }
                if exists|i0: int| i0 < i + 1 && #[trigger] self.offers(player, i0, p) {
                    let i0 = choose|i0: int| i0 < i + 1 && #[trigger] self.offers(player, i0, p);
                    if i0 < i {
                        assert(before.contains(p));
                    }
                }
            }
            i += 1;
        }
        assert forall|p: Path|
            paths@.contains(p) <==> exists|i0: int| #[trigger] self.offers(player, i0, p) by {
            if exists|i0: int| #[trigger] self.offers(player, i0, p) {
                let i0 = choose|i0: int| #[trigger] self.offers(player, i0, p);
                assert(i0 < i && self.offers(player, i0, p));
            }
        }
        paths
    }
}

impl Game {
    /// The road network of a player as a graph over the intersections of the
    /// board.
    pub open spec fn network(&self, player: Player) -> Seq<Seq<usize>> {
        Seq::new(INTERSECTIONS as nat, |v: int| self.neighbours(player, v))
    }

    /// The length of the longest road of a player, in edges, as the search
    /// from the root finds it.
    pub open spec fn road_length(&self, player: Player) -> nat {
        walk(self.network(player), ROOT as int, Seq::new(INTERSECTIONS as nat, |v: int| false), 0).longest
    }

    /// Searches the graph depth first from `node` and returns the height of
    /// the tree found under `node` and the longest road seen, which is
    /// `longest` or longer. The intersections that the search comes by are
    /// marked in `visited`.
    pub fn dfs(
        &self,
        node: usize,
        graph: &Vec<Vec<usize>>,
        visited: &mut Vec<bool>,
        longest: usize,
    ) -> (found: (usize, usize))
        requires
            old(visited).len() == graph.len(),
            node < graph.len(),
            closed(adjacency(graph@)),
        ensures
            final(visited).len() == graph.len(),
            found.0 == walk(adjacency(graph@), node as int, old(visited)@, longest as nat).height,
            found.1 == walk(adjacency(graph@), node as int, old(visited)@, longest as nat).longest,
            final(visited)@ == walk(
                adjacency(graph@),
                node as int,
                old(visited)@,
                longest as nat,
            ).visited,
            unvisited(final(visited)@) + found.0 <= unvisited(old(visited)@),
            found.1 >= longest,
        decreases unvisited(old(visited)@),
    {
        if visited[node] {
            return (0, longest);
        }
        let ghost net = adjacency(graph@);
        proof {
            lemma_visit(visited@, node as int);
        }
        visited.set(node, true);
        let ghost start = Scan { first: 0, second: 0, longest: longest as nat, visited: visited@ };
        let mut max1: usize = 0;
        let mut max2: usize = 0;
        let mut best: usize = longest;
        let row = &graph[node];
        assert(net[node as int] == row@);
        let mut k: usize = 0;
        while k < row.len()
            invariant
                k <= row.len(),
                visited.len() == graph.len(),
                net == adjacency(graph@),
                closed(net),
                node < graph.len(),
                net[node as int] == row@,
                scan(
                    net,
                    node as int,
                    k as int,
                    Scan {
                        first: max1 as nat,
                        second: max2 as nat,
                        longest: best as nat,
                        visited: visited@,
                    },
                ) == scan(net, node as int, 0, start),
                unvisited(visited@) + max1 + max2 <= unvisited(start.visited),
                unvisited(start.visited) + 1 == unvisited(old(visited)@),
                max2 <= max1,
                best >= longest,
            decreases row.len() - k,
        {
            let node2 = row[k];
            assert(net[node as int][k as int] < net.len());
            let (height, seen) = self.dfs(node2, graph, visited, best);
            best = seen;
            if max1 < height {
                max2 = max1;
                max1 = height;
            } else if max2 < height {
                max2 = height;
            }
            k += 1;
        }
        proof {
            lemma_unvisited_bound(old(visited)@);
        }
        let longest = if max1 + max2 > best {
            max1 + max2
        } else {
            best
        };
        (max1 + 1, longest)
    }

    /// The length of the longest road of a player, in edges.
    ///
    /// The road network is searched from the root intersection alone, and
    /// is taken to be a tree: roads that the root is not joined to are not
    /// measured, and in a network with a ring the length depends on the
    /// order in which the roads were built. The length is always that of a
    /// path of roads that is there; in a network without a ring no path of
    /// roads among the intersections that the root is joined to is longer.
    pub fn longest_road(&self, player: Player) -> (length: usize)
        requires
            self.board.wf(),
            self.state.roads_within(),
        ensures
            length == self.road_length(player),
            length > 0 ==> exists|road: Seq<int>|
                #![trigger is_path(self.network(player), road)]
                is_path(self.network(player), road) && road.len() == length + 1,
            ring_free(self.network(player)) ==> forall|road: Seq<int>|
                #![trigger is_path(self.network(player), road)]
                is_path(self.network(player), road) && reaches(
                    self.network(player),
                    ROOT as int,
                    road[0],
                ) ==> road.len() - 1 <= length,
    {
        proof {
            law_longest_road_is_there(*self, player);
            if ring_free(self.network(player)) {
                assert forall|road: Seq<int>|
                    #![trigger is_path(self.network(player), road)]
                    is_path(self.network(player), road) && reaches(
                        self.network(player),
                        ROOT as int,
                        road[0],
                    ) implies road.len() - 1 <= self.road_length(player) by {
                    law_longest_road_is_longest(*self, player, road);
                }
            }
        }
        let graph = self.road_graph(player);
        let mut visited: Vec<bool> = Vec::new();
        let mut v: usize = 0;
        while v < INTERSECTIONS
            invariant
                v <= INTERSECTIONS,
                visited.len() == v,
                forall|w: int| 0 <= w < v ==> !(#[trigger] visited[w]),
            decreases INTERSECTIONS - v,
        {
            visited.push(false);
            v += 1;
        }
        assert(visited@ == Seq::new(INTERSECTIONS as nat, |v: int| false));
        assert(adjacency(graph@) == self.network(player));
        let (_, road_length) = self.dfs(ROOT, &graph, &mut visited, 0);
        road_length
    }
}

impl Game {
    /// Road `n` of the state is a road of `player` that joins `v` and `w`:
    /// they are the two ends of its edge, and not one intersection.
    pub open spec fn road_joins(&self, player: Player, n: int, v: int, w: int) -> bool {
        let path = self.board.paths[self.state.roads[n].id.0 as int];
        &&& 0 <= n < self.state.roads.len()
        &&& self.state.roads[n].player == player
        &&& v != w
        &&& (path.0.0 == v && path.1.0 == w) || (path.0.0 == w && path.1.0 == v)
    }

    /// One of the first `m` roads of the state is a road of `player` that
    /// joins `v` and `w`.
    pub open spec fn joined_upto(&self, player: Player, m: int, v: int, w: int) -> bool {
        exists|n: int| #[trigger] self.road_joins(player, n, v, w) && n < m
    }

    /// Over the first `m` roads, `w` is a neighbour of `v` exactly where one
    /// of those roads joins them.
    pub proof fn lemma_neighbours_upto(&self, player: Player, m: int, v: int, w: int)
        requires
            0 <= m <= self.state.roads.len(),
        ensures
            self.neighbours_upto(player, v, m).contains(w as usize) && 0 <= w <= usize::MAX
                <==> self.joined_upto(player, m, v, w),
        decreases m,
    {
        if m > 0 {
            self.lemma_neighbours_upto(player, m - 1, v, w);
            let before = self.neighbours_upto(player, v, m - 1);
            let now = self.neighbours_upto(player, v, m);
            if self.joined_upto(player, m, v, w) {
                let n = choose|n: int| #[trigger] self.road_joins(player, n, v, w) && n < m;
                if n < m - 1 {
                    assert(self.joined_upto(player, m - 1, v, w));
                    let k = choose|k: int| 0 <= k < before.len() && before[k] == w as usize;
                    assert(now[k] == w as usize);
                } else {
                    assert(now[before.len() as int] == w as usize);
                }
            }
            if now.contains(w as usize) && 0 <= w <= usize::MAX {
                let k = choose|k: int| 0 <= k < now.len() && now[k] == w as usize;
                if k < before.len() {
                    assert(before[k] == w as usize);
                    assert(before.contains(w as usize));
                    let n = choose|n: int| #[trigger] self.road_joins(player, n, v, w) && n < m - 1;
                    assert(self.road_joins(player, n, v, w) && n < m);
                } else {
                    assert(self.road_joins(player, m - 1, v, w) && m - 1 < m);
                }
            }
        }
    }

    /// In the road network of a player, `w` is a neighbour of `v` exactly
    /// where a road of the player joins them.
    pub proof fn law_neighbours_are_joined(&self, player: Player, v: int, w: int)
        ensures
            self.neighbours(player, v).contains(w as usize) && 0 <= w <= usize::MAX <==> exists|
                n: int,
            | #[trigger] self.road_joins(player, n, v, w),
    {
        let m = self.state.roads.len() as int;
        self.lemma_neighbours_upto(player, m, v, w);
        if exists|n: int| #[trigger] self.road_joins(player, n, v, w) {
            let n = choose|n: int| #[trigger] self.road_joins(player, n, v, w);
            assert(self.road_joins(player, n, v, w) && n < m);
        }
    }
}

/// The longest road depends on the game and the player alone: two results
/// of `longest_road` for one player in one game are the same length.
pub proof fn law_longest_road_repeats(game: Game, player: Player, first: usize, second: usize)
    requires
        first == game.road_length(player),
        second == game.road_length(player),
    ensures
        first == second,
{
}

/// The road network depends on the game and the player alone: two results
/// of `road_graph` for one player in one game are the same graph.
pub proof fn law_road_graph_repeats(
    game: Game,
    player: Player,
    first: Seq<Seq<usize>>,
    second: Seq<Seq<usize>>,
)
    requires
        first.len() == INTERSECTIONS,
        forall|v: int| 0 <= v < INTERSECTIONS ==> #[trigger] first[v] == game.neighbours(player, v),
        second.len() == INTERSECTIONS,
        forall|v: int| 0 <= v < INTERSECTIONS ==> #[trigger] second[v] == game.neighbours(player, v),
    ensures
        first == second,
{
    assert(first =~= second);
}

/// The intersections that are too close to a building depend on the game
/// alone: two results of `too_close_intersections` on one game hold the
/// same intersections.
pub proof fn law_too_close_repeats(
    game: Game,
    first: Seq<IntersectionId>,
    second: Seq<IntersectionId>,
)
    requires
        first.no_duplicates(),
        forall|x: IntersectionId| first.contains(x) <==> game.too_close(x),
        second.no_duplicates(),
        forall|x: IntersectionId| second.contains(x) <==> game.too_close(x),
    ensures
        first.to_set() == second.to_set(),
        first.len() == second.len(),
{
    lemma_same_set(first, second);
}

/// The intersections on which a player can build depend on the game and the
/// player alone: two results of `possible_building_intersections` for one
/// player in one game hold the same intersections.
pub proof fn law_building_sites_repeat(
    game: Game,
    player: Player,
    first: Seq<IntersectionId>,
    second: Seq<IntersectionId>,
)
    requires
        first.no_duplicates(),
        forall|x: IntersectionId| first.contains(x) <==> game.can_build_on(player, x),
        second.no_duplicates(),
        forall|x: IntersectionId| second.contains(x) <==> game.can_build_on(player, x),
    ensures
        first.to_set() == second.to_set(),
        first.len() == second.len(),
{
    lemma_same_set(first, second);
}

/// The edges on which a player can build a road depend on the game and the
/// player alone: two results of `possible_road_paths` for one player in one
/// game hold the same edges.
pub proof fn law_road_paths_repeat(game: Game, player: Player, first: Seq<Path>, second: Seq<Path>)
    requires
        first.no_duplicates(),
        forall|path: Path|
            first.contains(path) <==> exists|i: int| #[trigger] game.offers(player, i, path),
        second.no_duplicates(),
        forall|path: Path|
            second.contains(path) <==> exists|i: int| #[trigger] game.offers(player, i, path),
    ensures
        first.to_set() == second.to_set(),
        first.len() == second.len(),
{
    lemma_same_set(first, second);
}

} // verus!
