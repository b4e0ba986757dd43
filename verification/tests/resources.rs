use catan::game::board::{Game, Player, TileKind};
use catan::game::resources::{
    Buys, PlayerResourceCount, ResourceCount, city_cost, road_cost, settlement_cost,
};
use std::collections::HashSet;
use std::convert::TryInto;

fn stock_with(grain: i8, wool: i8, brick: i8, lumber: i8, ore: i8) -> ResourceCount {
    ResourceCount { grain, wool, brick, lumber, ore }
}

fn buys_of(stock: ResourceCount) -> HashSet<Buys> {
    let list = stock.possible_buys();
    let set: HashSet<Buys> = list.iter().copied().collect();
    assert_eq!(set.len(), list.len());
    set
}

#[test]
fn test_parse_resources() {
    let game: Game = "
          oo . oo . oo . oo . oo W oo W oo
          .   10O   .   02W   .   09L   W
     oo . oo . oo . RS R oo . oo B BS W oo . oo
     .   12G   .   06B   .   04W   W   10B   .
oo . oo . oo W WS . oo . oo . oo . oo W oo . oo . oo
.   09G!  .   11L   .   00N   .   03L   W   08O   .
oo . oo . RS R oo . oo . oo . oo . oo . WS . oo . oo
     .   08L   .   03O   .   04G   B   05W   .
     oo . oo . RS B oo . oo . oo . RS . oo . oo
          .   05B   .   06G   .   11W   .
          oo . oo . oo . oo . oo . oo . oo
   G  W  B  L  O
W  1  2  3  4  5  
R  6  7  8  9  10 
B  11 12 13 14 15"
        .to_string()
        .try_into()
        .unwrap();
    let s = PlayerResourceCount {
        red: ResourceCount {
            grain: 6,
            wool: 7,
            brick: 8,
            lumber: 9,
            ore: 10,
        },
        blue: ResourceCount {
            grain: 11,
            wool: 12,
            brick: 13,
            lumber: 14,
            ore: 15,
        },
        white: ResourceCount {
            grain: 1,
            wool: 2,
            brick: 3,
            lumber: 4,
            ore: 5,
        },
    };
    assert_eq!(s, game.state.resources);
}

#[test]
fn test_calculate_resources() {
    let game: Game = "
          oo . oo . oo . oo . oo W oo W oo
          .   10O   .   02W   .   09L   W
     oo . oo . oo . RS R oo . oo B BS W oo . oo
     .   12G   .   06B   .   04W   W   10B   .
oo . oo . oo W WS . oo . oo . oo . oo W oo . oo . oo
.   09G!  .   11L   .   00N   .   03L   W   08O   .
oo . oo . RS R oo . oo . oo . oo . oo . WS . oo . oo
     .   08L   .   03O   .   04G   B   05W   .
     oo . oo . RS B oo . oo . oo . RS . oo . oo
          .   05B   .   06G   .   11W   .
          oo . oo . oo . oo . oo . oo . oo
   G  W  B  L  O
W  1  1  1  1  1
R  6  7  8  9  10
B  11 12 13 14 15"
        .to_string()
        .try_into()
        .unwrap();

    let s = ResourceCount { grain: 0, wool: 0, brick: 0, lumber: 0, ore: 1 };
    let x = game.state.resources.white - settlement_cost();
    assert_eq!(s, x);
}

#[test]
fn test_possible_buys() {
    let game: Game = "
          oo . oo . oo . oo . oo W oo W oo
          .   10O   .   02W   .   09L   W
     oo . oo . oo . RS R oo . oo B BS W oo . oo
     .   12G   .   06B   .   04W   W   10B   .
oo . oo . oo W WS . oo . oo . oo . oo W oo . oo . oo
.   09G!  .   11L   .   00N   .   03L   W   08O   .
oo . oo . RS R oo . oo . oo . oo . oo . WS . oo . oo
     .   08L   .   03O   .   04G   B   05W   .
     oo . oo . RS B oo . oo . oo . RS . oo . oo
          .   05B   .   06G   .   11W   .
          oo . oo . oo . oo . oo . oo . oo
   G  W  B  L  O
W  1  1  1  1  1
R  6  7  8  9  10
B  11 12 13 14 15"
        .to_string()
        .try_into()
        .unwrap();

    let buys: HashSet<Buys> = game.state.resources.white.possible_buys().into_iter().collect();

    let a: HashSet<Buys> = vec![Buys::Road, Buys::Settlement].into_iter().collect();

    assert_eq!(a, buys);
}

#[test]
fn a_stock_without_ore_buys_road_and_settlement() {
    let buys = buys_of(stock_with(1, 1, 1, 1, 0));
    let expected: HashSet<Buys> = vec![Buys::Road, Buys::Settlement].into_iter().collect();
    assert_eq!(buys, expected);
}

#[test]
fn possible_buys_on_other_stocks() {
    assert_eq!(buys_of(stock_with(0, 0, 0, 0, 0)), HashSet::new());
    assert_eq!(buys_of(stock_with(0, 0, 1, 1, 0)), vec![Buys::Road].into_iter().collect());
    assert_eq!(buys_of(stock_with(3, 0, 0, 0, 2)), vec![Buys::City].into_iter().collect());
    assert_eq!(buys_of(stock_with(2, 9, 9, 9, 9)), vec![Buys::Road, Buys::Settlement].into_iter().collect());
    assert_eq!(
        buys_of(stock_with(3, 1, 1, 1, 2)),
        vec![Buys::Road, Buys::Settlement, Buys::City].into_iter().collect()
    );
    assert_eq!(
        buys_of(stock_with(127, 127, 127, 127, 127)),
        vec![Buys::Road, Buys::Settlement, Buys::City].into_iter().collect()
    );
    assert_eq!(buys_of(stock_with(-1, 5, 5, 5, 5)), HashSet::new());
    assert_eq!(buys_of(stock_with(-128, -128, -128, -128, -128)), HashSet::new());
    assert_eq!(buys_of(stock_with(9, 9, 9, 9, -1)), HashSet::new());
}

#[test]
fn possible_buys_dfs_adds_to_what_is_there() {
    let stock = stock_with(0, 0, 1, 1, 0);
    let mut buys = vec![Buys::City];
    stock.possible_buys_dfs(stock, &mut buys);
    assert_eq!(buys, vec![Buys::City, Buys::Road]);
    stock.possible_buys_dfs(stock_with(3, 1, 1, 1, 2), &mut buys);
    assert_eq!(buys, vec![Buys::City, Buys::Road, Buys::Settlement]);
}

#[test]
fn is_positive_is_false_for_any_negative_count() {
    assert!(stock_with(0, 0, 0, 0, 0).is_positive());
    assert!(stock_with(1, 2, 3, 4, 5).is_positive());
    assert!(stock_with(127, 0, 127, 0, 127).is_positive());
    assert!(!stock_with(-1, 0, 0, 0, 0).is_positive());
    assert!(!stock_with(0, -1, 0, 0, 0).is_positive());
    assert!(!stock_with(0, 0, -1, 0, 0).is_positive());
    assert!(!stock_with(0, 0, 0, -1, 0).is_positive());
    assert!(!stock_with(0, 0, 0, 0, -1).is_positive());
    assert!(!stock_with(-128, -128, -128, -128, -128).is_positive());
}

#[test]
fn the_prices() {
    assert_eq!(road_cost(), stock_with(0, 0, 1, 1, 0));
    assert_eq!(settlement_cost(), stock_with(1, 1, 1, 1, 0));
    assert_eq!(city_cost(), stock_with(3, 0, 0, 0, 2));
    assert_eq!(Buys::Road.cost(), road_cost());
    assert_eq!(Buys::Settlement.cost(), settlement_cost());
    assert_eq!(Buys::City.cost(), city_cost());
}

#[test]
fn stocks_add_and_subtract_count_by_count() {
    let a = stock_with(5, 4, 3, 2, 1);
    let b = stock_with(1, 1, 2, 2, 3);
    assert_eq!(a - b, stock_with(4, 3, 1, 0, -2));
    assert_eq!(a + b, stock_with(6, 5, 5, 4, 4));
    assert_eq!(a - city_cost(), stock_with(2, 4, 3, 2, -1));
    assert!(!(a - city_cost()).is_positive());
}

#[test]
fn index_by_tile_kind_and_player() {
    let a = stock_with(5, 4, 3, 2, 1);
    assert_eq!(a[TileKind::Grain], 5);
    assert_eq!(a[TileKind::Wool], 4);
    assert_eq!(a[TileKind::Brick], 3);
    assert_eq!(a[TileKind::Lumber], 2);
    assert_eq!(a[TileKind::Ore], 1);
    assert_eq!(a[TileKind::Nothing], 0);
    let stocks = PlayerResourceCount {
        red: stock_with(1, 0, 0, 0, 0),
        blue: stock_with(0, 1, 0, 0, 0),
        white: stock_with(0, 0, 1, 0, 0),
    };
    assert_eq!(stocks[Player::Red], stock_with(1, 0, 0, 0, 0));
    assert_eq!(stocks[Player::Blue], stock_with(0, 1, 0, 0, 0));
    assert_eq!(stocks[Player::White], stock_with(0, 0, 1, 0, 0));
}
