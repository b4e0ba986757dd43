use catan::game::board::{Game, IntersectionId, Path, PathId, Player, Road};
use catan::game::encoding::{TEMPLATE, TextForm, decode_with};
use std::collections::HashSet;

const EMPTY: &str = "
          oo . oo . oo . oo . oo . oo . oo
          .   10O   .   02W   .   09L   .
     oo . oo . oo . oo . oo . oo . oo . oo . oo
     .   12G   .   06B   .   04W   .   10B   .
oo . oo . oo . oo . oo . oo . oo . oo . oo . oo . oo
.   09G!  .   11L   .   00N   .   03L   .   08O   .
oo . oo . oo . oo . oo . oo . oo . oo . oo . oo . oo
     .   08L   .   03O   .   04G   .   05W   .
     oo . oo . oo . oo . oo . oo . oo . oo . oo
          .   05B   .   06G   .   11W   .
          oo . oo . oo . oo . oo . oo . oo";

fn empty_game() -> Game {
    decode_with(TEMPLATE, EMPTY, TextForm::Minimal).unwrap()
}

fn with_roads(player: Player, ids: &[usize]) -> Game {
    let mut game = empty_game();
    for id in ids {
        game.state.roads.push(Road { id: PathId(*id), player });
    }
    game
}

#[test]
fn test_possible_possible_road_paths() {
    let game: Game = decode_with(TEMPLATE, "
          oo . oo . oo . oo . oo W oo W oo
          .   10O   .   02W   .   09L   W
     oo . oo . oo . RS R oo . oo B BS W oo . oo
     .   12G   .   06B   .   04W   W   10B   .
oo . oo . oo W WS . oo . oo . oo . oo W oo . oo . oo
.   09G!  .   11L   .   00N   .   03L   W   08O   .
oo . oo . RS R oo . oo . oo . oo . oo . WS W oo . oo
     .   08L   .   03O   .   04G   B   05W   W
     oo . oo . RS B oo . oo . oo . RS . oo . oo
          .   05B   .   06G   .   11W   .
          oo . oo . oo . oo . oo . oo . oo", TextForm::Minimal).unwrap();
    let s: HashSet<Path> = vec![Path(IntersectionId(19), IntersectionId(20)), Path(IntersectionId(18), IntersectionId(29)), Path(IntersectionId(3), IntersectionId(4)), Path(IntersectionId(17), IntersectionId(18)), Path(IntersectionId(4), IntersectionId(12)), Path(IntersectionId(9), IntersectionId(19))].into_iter().collect();
    let paths: HashSet<Path> = game.possible_road_paths(Player::White).into_iter().collect();
    assert_eq!(s, paths);
}

#[test]
fn test_longest_road() {
    let game: Game = decode_with(TEMPLATE, "
          oo . oo . oo . oo . oo W oo W oo
          .   10O   .   02W   .   09L   W
     oo . oo . oo . RS R oo . oo B BS W oo . oo
     .   12G   .   06B   .   04W   W   10B   .
oo . oo . oo W WS . oo . oo . oo . oo W oo . oo . oo
.   09G!  .   11L   .   00N   .   03L   W   08O   .
oo . oo . RS R oo . oo . oo . oo . oo . WS . oo . oo
     .   08L   .   03O   .   04G   B   05W   .
     oo . oo . RS B oo . oo . oo . RS . oo . oo
          .   05B   .   06G   .   11W   .
          oo . oo . oo . oo . oo . oo . oo", TextForm::Minimal).unwrap();
    assert_eq!(game.longest_road(Player::White), 7);
}

#[test]
fn test_possible_building_intersections() {
    let game: Game = decode_with(TEMPLATE, "
          oo . oo . oo . oo . oo W oo W oo
          .   10O   .   02W   .   09L   W
     oo . oo . oo . RS R oo . oo B BS W oo . oo
     .   12G   .   06B   .   04W   W   10B   .
oo . oo . oo W WS . oo . oo . oo . oo W oo . oo . oo
.   09G!  .   11L   .   00N   .   03L   W   08O   .
oo . oo . RS R oo . oo . oo . oo . oo . WS W oo . oo
     .   08L   .   03O   .   04G   B   05W   W
     oo . oo . RS B oo . oo . oo . RS . oo . oo
          .   05B   .   06G   .   11W   .
          oo . oo . oo . oo . oo . oo . oo", TextForm::Minimal).unwrap();
    let s: HashSet<IntersectionId> = vec![IntersectionId(46), IntersectionId(6), IntersectionId(4), IntersectionId(5)].into_iter().collect();
    let sites = game.possible_building_intersections(Player::White);
    assert_eq!(sites.len(), 4);
    let sites: HashSet<IntersectionId> = sites.into_iter().collect();
    assert_eq!(sites, s);
}

#[test]
fn a_path_of_seven_edges_from_the_root_is_seven_long() {
    let game = with_roads(Player::Red, &[9, 16, 21, 30, 37, 47, 53]);
    assert_eq!(game.longest_road(Player::Red), 7);
    assert_eq!(game.longest_road(Player::White), 0);
    assert_eq!(game.longest_road(Player::Blue), 0);
}

#[test]
fn a_single_edge_counts_one() {
    let game = with_roads(Player::Blue, &[5]);
    assert_eq!(game.longest_road(Player::Blue), 1);
    let game = with_roads(Player::Blue, &[9]);
    assert_eq!(game.longest_road(Player::Blue), 1);
}

#[test]
fn roads_away_from_the_root_are_not_measured() {
    let game = with_roads(Player::Blue, &[0, 1, 2]);
    assert_eq!(game.longest_road(Player::Blue), 0);
    assert_eq!(empty_game().longest_road(Player::Blue), 0);
}

#[test]
fn the_longest_road_may_pass_under_the_root() {
    // From the root 6 a stem 6-14, then two branches from 14: 14-13-12 and 14-15-25-24.
    let game = with_roads(Player::White, &[9, 16, 15, 17, 22, 31]);
    assert_eq!(game.longest_road(Player::White), 5);
    // The same with the root in the middle of a longer path.
    let game = with_roads(Player::White, &[9, 16, 15, 17, 22, 31, 5, 4, 3, 2, 1]);
    assert_eq!(game.longest_road(Player::White), 9);
}

#[test]
fn the_search_gives_heights_and_marks_visits() {
    let game = empty_game();
    let graph: Vec<Vec<usize>> = vec![vec![1, 2], vec![0, 3, 4], vec![0], vec![1], vec![1]];
    let mut visited = vec![false; 5];
    let found = game.dfs(0, &graph, &mut visited, 0);
    assert_eq!(found, (3, 3));
    assert_eq!(visited, vec![true; 5]);
    let found = game.dfs(0, &graph, &mut visited, 3);
    assert_eq!(found, (0, 3));
    let mut visited = vec![false, true, false, false, false];
    let found = game.dfs(0, &graph, &mut visited, 9);
    assert_eq!(found, (2, 9));
    assert_eq!(visited, vec![true, true, true, false, false]);
}

#[test]
fn the_road_graph_lists_neighbours_in_the_order_of_the_roads() {
    let mut game = with_roads(Player::White, &[5, 4, 9]);
    game.state.roads.push(Road { id: PathId(61), player: Player::White });
    game.state.roads.push(Road { id: PathId(3), player: Player::Red });
    let graph = game.road_graph(Player::White);
    assert_eq!(graph.len(), 54);
    assert_eq!(graph[5], vec![6, 4]);
    assert_eq!(graph[6], vec![5, 14]);
    assert_eq!(graph[4], vec![5]);
    assert_eq!(graph[14], vec![6]);
    assert_eq!(graph[45], Vec::<usize>::new());
    assert_eq!(graph.iter().map(|row| row.len()).sum::<usize>(), 6);
    let graph = game.road_graph(Player::Red);
    assert_eq!(graph[3], vec![4]);
    assert_eq!(graph[4], vec![3]);
}

#[test]
fn too_close_are_the_ends_of_the_edges_at_a_building() {
    let game: Game = decode_with(TEMPLATE, "
          oo . oo . oo . oo . oo . oo . oo
          .   10O   .   02W   .   09L   .
     oo . oo . oo . RS . oo . oo . oo . oo . oo
     .   12G   .   06B   .   04W   .   10B   .
oo . oo . oo . oo . oo . oo . oo . oo . oo . oo . oo
.   09G!  .   11L   .   00N   .   03L   .   08O   .
oo . oo . oo . oo . oo . oo . oo . oo . oo . oo . oo
     .   08L   .   03O   .   04G   .   05W   .
     oo . oo . oo . oo . oo . oo . oo . oo . BC
          .   05B   .   06G   .   11W   .
          oo . oo . oo . oo . oo . oo . oo", TextForm::Minimal).unwrap();
    let close = game.too_close_intersections();
    assert_eq!(
        close,
        vec![
            IntersectionId(2),
            IntersectionId(10),
            IntersectionId(9),
            IntersectionId(11),
            IntersectionId(36),
            IntersectionId(46),
            IntersectionId(45),
        ]
    );
    assert_eq!(empty_game().too_close_intersections(), vec![]);
}

#[test]
fn without_roads_nothing_can_be_built() {
    let game = empty_game();
    assert_eq!(game.possible_building_intersections(Player::Red), vec![]);
    assert_eq!(game.possible_road_paths(Player::Red), vec![]);
}

#[test]
fn a_lone_road_can_be_prolonged_at_both_ends() {
    let game = with_roads(Player::Red, &[12]);
    let paths: HashSet<Path> = game.possible_road_paths(Player::Red).into_iter().collect();
    let expected: HashSet<Path> = vec![
        Path(IntersectionId(8), IntersectionId(9)),
        Path(IntersectionId(9), IntersectionId(19)),
        Path(IntersectionId(2), IntersectionId(10)),
        Path(IntersectionId(10), IntersectionId(11)),
    ]
    .into_iter()
    .collect();
    assert_eq!(paths, expected);
    assert_eq!(
        game.possible_building_intersections(Player::Red),
        vec![IntersectionId(9), IntersectionId(10)]
    );
}

#[test]
fn an_edge_to_the_far_end_of_another_loose_end_is_offered() {
    // Roads 8-9 and 10-11: 9 and 10 are loose ends, and the edge 9-10 joins them.
    let game = with_roads(Player::Red, &[11, 13]);
    let paths = game.possible_road_paths(Player::Red);
    assert!(paths.contains(&Path(IntersectionId(9), IntersectionId(10))));
    // Roads 8-9 and 9-10, then 10 is a loose end whose road comes from 9.
    let game = with_roads(Player::Red, &[11, 12]);
    let paths = game.possible_road_paths(Player::Red);
    assert!(!paths.contains(&Path(IntersectionId(9), IntersectionId(10))));
    assert!(!paths.contains(&Path(IntersectionId(9), IntersectionId(19))));
    assert!(paths.contains(&Path(IntersectionId(10), IntersectionId(11))));
}

#[test]
fn derivations_give_the_same_result_twice() {
    let game: Game = decode_with(TEMPLATE, "
          oo . oo . oo . oo . oo W oo W oo
          .   10O   .   02W   .   09L   W
     oo . oo . oo . RS R oo . oo B BS W oo . oo
     .   12G   .   06B   .   04W   W   10B   .
oo . oo . oo W WS . oo . oo . oo . oo W oo . oo . oo
.   09G!  .   11L   .   00N   .   03L   W   08O   .
oo . oo . RS R oo . oo . oo . oo . oo . WS W oo . oo
     .   08L   .   03O   .   04G   B   05W   W
     oo . oo . RS B oo . oo . oo . RS . oo . oo
          .   05B   .   06G   .   11W   .
          oo . oo . oo . oo . oo . oo . oo", TextForm::Minimal).unwrap();
    for player in [Player::Red, Player::Blue, Player::White] {
        assert_eq!(game.longest_road(player), game.longest_road(player));
        assert_eq!(
            game.possible_building_intersections(player),
            game.possible_building_intersections(player)
        );
        assert_eq!(game.possible_road_paths(player), game.possible_road_paths(player));
        assert_eq!(game.road_graph(player), game.road_graph(player));
        assert_eq!(
            game.state.resources[player].possible_buys(),
            game.state.resources[player].possible_buys()
        );
    }
    assert_eq!(game.too_close_intersections(), game.too_close_intersections());
    assert_eq!(game.longest_road(Player::White), 9);
}

#[test]
fn a_ring_is_gone_round_once() {
    let game = with_roads(Player::White, &[5, 9, 16, 15, 8, 4]);
    assert_eq!(game.longest_road(Player::White), 5);
    let game = with_roads(Player::White, &[4, 9, 16, 15, 8, 5]);
    assert_eq!(game.longest_road(Player::White), 5);
}

#[test]
fn a_road_built_twice_counts_once() {
    let game = with_roads(Player::White, &[9, 9, 16]);
    assert_eq!(game.longest_road(Player::White), 2);
    assert_eq!(game.road_graph(Player::White)[6], vec![14, 14]);
}
