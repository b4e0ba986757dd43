use catan::game::board::{
    BAD_PLAYER, BAD_PLAYER_NAME, Board, Building, BuildingKind, Game, INTERSECTIONS,
    IntersectionId, PATHS, PathId, Player, Road, RobberId, State, Tile, TileKind,
};
use catan::game::encoding::{
    BAD_BUILDING_KIND, BAD_DICE, BAD_SLOT_COUNT, BAD_STOCK, BAD_TILE_KIND, NO_ROBBER, NO_STOCK,
    TEMPLATE, TextForm, decode_with, encode_with, template_fits,
};
use catan::game::resources::{PlayerResourceCount, ResourceCount};
use std::convert::TryFrom;
use std::convert::TryInto;

const SAMPLE: &str = "
          oo . oo . oo . oo . oo W oo W oo
          .   10O   .   02W   .   09L   W
     oo . oo . oo . RS R oo . oo B BS W oo . oo
     .   12G   .   06B   .   04W   W   10B   .
oo . oo . oo W WS . oo . oo . oo . oo W oo . oo . oo
.   09G!  .   11L   .   00N   .   03L   W   08O   .
oo . oo . RS R oo . oo . oo . oo . oo . WS . oo . oo
     .   08L   .   03O   .   04G   B   05W   .
     oo . oo . RS B oo . oo . oo . RS . oo . oo
          .   05B   .   06G   .   11W   .
          oo . oo . oo . oo . oo . oo . oo";

const STOCKS: &str = "
W 1 2 3 4 5
R 6 7 8 9 10
B 11 12 13 14 15";

fn stock(grain: i8, wool: i8, brick: i8, lumber: i8, ore: i8) -> ResourceCount {
    ResourceCount { grain, wool, brick, lumber, ore }
}

fn get_board() -> Board {
    let tiles = [
        Tile { dice: 10, kind: TileKind::Ore },
        Tile { dice: 02, kind: TileKind::Wool },
        Tile { dice: 09, kind: TileKind::Lumber },
        Tile { dice: 12, kind: TileKind::Grain },
        Tile { dice: 06, kind: TileKind::Brick },
        Tile { dice: 04, kind: TileKind::Wool },
        Tile { dice: 10, kind: TileKind::Brick },
        Tile { dice: 09, kind: TileKind::Grain },
        Tile { dice: 11, kind: TileKind::Lumber },
        Tile { dice: 00, kind: TileKind::Nothing },
        Tile { dice: 03, kind: TileKind::Lumber },
        Tile { dice: 08, kind: TileKind::Ore },
        Tile { dice: 08, kind: TileKind::Lumber },
        Tile { dice: 03, kind: TileKind::Ore },
        Tile { dice: 04, kind: TileKind::Grain },
        Tile { dice: 05, kind: TileKind::Wool },
        Tile { dice: 05, kind: TileKind::Brick },
        Tile { dice: 06, kind: TileKind::Grain },
        Tile { dice: 11, kind: TileKind::Wool },
    ];
    let board = Board::new(tiles);
    board
}

fn replaced(text: &str, line: usize, column: usize, with: &str) -> String {
    let mut lines: Vec<String> = text.split('\n').map(|l| l.to_string()).collect();
    let mut chars: Vec<char> = lines[line].chars().collect();
    for (k, c) in with.chars().enumerate() {
        chars[column + k] = c;
    }
    lines[line] = chars.into_iter().collect();
    lines.join("\n")
}

#[test]
fn test_parse1() {
    let board = get_board();

    let buildings = vec![
        Building {
            intersection_id: IntersectionId(10),
            kind: BuildingKind::Settlement,
            player: Player::Red,
        },
        Building {
            intersection_id: IntersectionId(13),
            kind: BuildingKind::Settlement,
            player: Player::Blue,
        },
        Building {
            intersection_id: IntersectionId(19),
            kind: BuildingKind::Settlement,
            player: Player::White,
        },
        Building {
            intersection_id: IntersectionId(35),
            kind: BuildingKind::Settlement,
            player: Player::White,
        },
        Building {
            intersection_id: IntersectionId(29),
            kind: BuildingKind::Settlement,
            player: Player::Red,
        },
        Building {
            intersection_id: IntersectionId(40),
            kind: BuildingKind::Settlement,
            player: Player::Red,
        },
        Building {
            intersection_id: IntersectionId(44),
            kind: BuildingKind::Settlement,
            player: Player::Red,
        },
    ];

    let roads = vec![
        Road { id: PathId(13), player: Player::Red },
        Road { id: PathId(15), player: Player::Blue },
        Road { id: PathId(37), player: Player::White },
        Road { id: PathId(41), player: Player::Red },
        Road { id: PathId(56), player: Player::Blue },
        Road { id: PathId(52), player: Player::Blue },
    ];

    let state = State {
        buildings,
        roads,
        robber: RobberId(7),
        resources: PlayerResourceCount {
            red: ResourceCount {
                grain: 2,
                wool: 3,
                brick: 4,
                lumber: 1,
                ore: 1,
            },
            blue: ResourceCount {
                grain: 0,
                wool: 1,
                brick: 2,
                lumber: 3,
                ore: 4,
            },
            white: ResourceCount {
                grain: 1,
                wool: 2,
                brick: 3,
                lumber: 4,
                ore: 5,
            },
        },
    };

    let game1 = Game { board, state };

    let string1 = String::from(game1);
    let game2: Game = string1.clone().try_into().unwrap();

    let string2 = String::from(game2);
    println!("{}", string1);
    assert_eq!(string1, string2);
}

#[test]
fn test_parse2() {
    let mut buildings: Vec<Building> = vec![];
    for i in 0..INTERSECTIONS {
        buildings.push(Building {
            intersection_id: IntersectionId(i),
            kind: BuildingKind::Settlement,
            player: Player::White,
        })
    }

    let mut roads: Vec<Road> = vec![];
    for i in 0..PATHS {
        roads.push(Road { id: PathId(i), player: Player::White })
    }

    let state = State {
        buildings,
        roads,
        robber: RobberId(8),
        resources: PlayerResourceCount {
            red: ResourceCount {
                grain: 10,
                wool: 10,
                brick: 10,
                lumber: 10,
                ore: 10,
            },
            blue: ResourceCount {
                grain: 10,
                wool: 10,
                brick: 10,
                lumber: 10,
                ore: 10,
            },
            white: ResourceCount {
                grain: 10,
                wool: 10,
                brick: 10,
                lumber: 10,
                ore: 10,
            },
        },
    };

    let board = get_board();
    let game1 = Game { board, state };

    let string1 = String::from(game1);
    let game2: Game = string1.clone().try_into().unwrap();

    let string2 = String::from(game2);
    println!("{}", &string1);

    assert_eq!(string1, string2);
}

#[test]
fn encode_gives_the_exact_text() {
    let state = State {
        buildings: vec![
            Building {
                intersection_id: IntersectionId(0),
                kind: BuildingKind::City,
                player: Player::Blue,
            },
            Building {
                intersection_id: IntersectionId(53),
                kind: BuildingKind::Settlement,
                player: Player::Red,
            },
        ],
        roads: vec![
            Road { id: PathId(0), player: Player::Blue },
            Road { id: PathId(71), player: Player::White },
            Road { id: PathId(6), player: Player::Red },
        ],
        robber: RobberId(18),
        resources: PlayerResourceCount {
            red: stock(0, 0, 0, 0, 0),
            blue: stock(127, 100, 10, 9, 1),
            white: stock(-1, -128, 5, 0, 99),
        },
    };
    let game = Game { board: get_board(), state };
    let expected = "
          BC B oo . oo . oo . oo . oo . oo
          R   10O   .   02W   .   09L   .
     oo . oo . oo . oo . oo . oo . oo . oo . oo
     .   12G   .   06B   .   04W   .   10B   .
oo . oo . oo . oo . oo . oo . oo . oo . oo . oo . oo
.   09G   .   11L   .   00N   .   03L   .   08O   .
oo . oo . oo . oo . oo . oo . oo . oo . oo . oo . oo
     .   08L   .   03O   .   04G   .   05W   .
     oo . oo . oo . oo . oo . oo . oo . oo . oo
          .   05B   .   06G   .   11W!  .
          oo . oo . oo . oo . oo . oo W RS";
    let minimal = encode_with(TEMPLATE, &game, TextForm::Minimal);
    assert_eq!(minimal, expected);
    let full = encode_with(TEMPLATE, &game, TextForm::Full);
    assert_eq!(
        full,
        format!("{}\nW -1 -128 5 0 99\nR 0 0 0 0 0\nB 127 100 10 9 1", expected)
    );
    assert_eq!(String::from(game), full);
}

#[test]
fn decode_reads_every_part() {
    let text = format!("{}{}", SAMPLE, STOCKS);
    let game = decode_with(TEMPLATE, &text, TextForm::Full).unwrap();
    assert_eq!(game.board.tiles, get_board().tiles);
    assert_eq!(game.state.robber, RobberId(7));
    assert_eq!(
        game.state.buildings,
        vec![
            Building {
                intersection_id: IntersectionId(10),
                kind: BuildingKind::Settlement,
                player: Player::Red
            },
            Building {
                intersection_id: IntersectionId(13),
                kind: BuildingKind::Settlement,
                player: Player::Blue
            },
            Building {
                intersection_id: IntersectionId(19),
                kind: BuildingKind::Settlement,
                player: Player::White
            },
            Building {
                intersection_id: IntersectionId(29),
                kind: BuildingKind::Settlement,
                player: Player::Red
            },
            Building {
                intersection_id: IntersectionId(35),
                kind: BuildingKind::Settlement,
                player: Player::White
            },
            Building {
                intersection_id: IntersectionId(40),
                kind: BuildingKind::Settlement,
                player: Player::Red
            },
            Building {
                intersection_id: IntersectionId(44),
                kind: BuildingKind::Settlement,
                player: Player::Red
            },
        ]
    );
    let roads: Vec<(usize, Player)> = game.state.roads.iter().map(|r| (r.id.0, r.player)).collect();
    assert_eq!(
        roads,
        vec![
            (4, Player::White),
            (5, Player::White),
            (9, Player::White),
            (13, Player::Red),
            (15, Player::Blue),
            (16, Player::White),
            (21, Player::White),
            (25, Player::White),
            (30, Player::White),
            (37, Player::White),
            (41, Player::Red),
            (52, Player::Blue),
            (56, Player::Blue),
        ]
    );
    assert_eq!(
        game.state.resources,
        PlayerResourceCount {
            red: stock(6, 7, 8, 9, 10),
            blue: stock(11, 12, 13, 14, 15),
            white: stock(1, 2, 3, 4, 5),
        }
    );
    assert_eq!(game.board.paths[61].0, IntersectionId(45));
    assert_eq!(game.board.paths[61].1, IntersectionId(45));
    assert_eq!(game.board.intersections[8].paths, vec![PathId(10), PathId(6), PathId(11)]);
}

#[test]
fn round_trip_keeps_an_encoded_text() {
    let text = format!("{}{}", SAMPLE, STOCKS);
    let game = decode_with(TEMPLATE, &text, TextForm::Full).unwrap();
    assert_eq!(encode_with(TEMPLATE, &game, TextForm::Full), text);
    let game = decode_with(TEMPLATE, SAMPLE, TextForm::Minimal).unwrap();
    assert_eq!(encode_with(TEMPLATE, &game, TextForm::Minimal), SAMPLE);
}

#[test]
fn minimal_form_reads_empty_stocks() {
    let text = format!("{}{}", SAMPLE, STOCKS);
    let game = decode_with(TEMPLATE, &text, TextForm::Minimal).unwrap();
    assert_eq!(
        game.state.resources,
        PlayerResourceCount {
            red: stock(0, 0, 0, 0, 0),
            blue: stock(0, 0, 0, 0, 0),
            white: stock(0, 0, 0, 0, 0),
        }
    );
}

#[test]
fn stock_lines_may_come_in_any_order() {
    let text = format!("{}\n   G  W  B  L  O\nB 11 12 13 14 15\nW\t1  2 3 4 05 \r\nR 6 7 8 9 10\n", SAMPLE);
    let game = decode_with(TEMPLATE, &text, TextForm::Full).unwrap();
    assert_eq!(
        game.state.resources,
        PlayerResourceCount {
            red: stock(6, 7, 8, 9, 10),
            blue: stock(11, 12, 13, 14, 15),
            white: stock(1, 2, 3, 4, 5),
        }
    );
}

#[test]
fn a_road_at_the_start_of_a_line_is_no_stock_line() {
    let text = replaced(&format!("{}{}", SAMPLE, STOCKS), 6, 0, "W");
    let game = decode_with(TEMPLATE, &text, TextForm::Full).unwrap();
    assert!(game.state.roads.contains(&Road { id: PathId(33), player: Player::White }));
    assert_eq!(encode_with(TEMPLATE, &game, TextForm::Full), text);
}

#[test]
fn wrong_slot_counts_are_refused() {
    let full = format!("{}{}", SAMPLE, STOCKS);
    let without_last_line: Vec<&str> = SAMPLE.split('\n').take(11).collect();
    let short = without_last_line.join("\n");
    assert_eq!(decode_with(TEMPLATE, &short, TextForm::Minimal).err(), Some(BAD_SLOT_COUNT));
    let cut: String = SAMPLE.chars().take(SAMPLE.chars().count() - 1).collect();
    assert_eq!(decode_with(TEMPLATE, &cut, TextForm::Minimal).err(), Some(BAD_SLOT_COUNT));
    assert_eq!(decode_with(TEMPLATE, "", TextForm::Full).err(), Some(BAD_SLOT_COUNT));
    let wide = format!("{} * BB", TEMPLATE);
    assert_eq!(decode_with(&wide, &format!("{} . oo", SAMPLE), TextForm::Minimal).err(), Some(BAD_SLOT_COUNT));
    assert_eq!(decode_with("BB * TTTT", &full, TextForm::Full).err(), Some(BAD_SLOT_COUNT));
    assert_eq!(Game::try_from(short).err(), Some(BAD_SLOT_COUNT));
}

#[test]
fn a_mark_that_the_text_does_not_reach_is_no_slot() {
    let wide = format!("{} * BB", TEMPLATE);
    let game = decode_with(&wide, SAMPLE, TextForm::Minimal).unwrap();
    assert_eq!(game.state.robber, RobberId(7));
    assert_eq!(
        encode_with(&wide, &game, TextForm::Minimal),
        format!("{} * BB", SAMPLE)
    );
}

#[test]
fn bad_letters_are_refused() {
    let text = replaced(SAMPLE, 1, 10, "XS");
    assert_eq!(decode_with(TEMPLATE, &text, TextForm::Minimal).err(), Some(BAD_PLAYER));
    let text = replaced(SAMPLE, 1, 10, "RX");
    assert_eq!(decode_with(TEMPLATE, &text, TextForm::Minimal).err(), Some(BAD_BUILDING_KIND));
    let text = replaced(SAMPLE, 1, 10, "XX");
    assert_eq!(decode_with(TEMPLATE, &text, TextForm::Minimal).err(), Some(BAD_BUILDING_KIND));
    let text = replaced(SAMPLE, 1, 13, "x");
    assert_eq!(decode_with(TEMPLATE, &text, TextForm::Minimal).err(), Some(BAD_PLAYER));
    let text = replaced(SAMPLE, 2, 14, "10X");
    assert_eq!(decode_with(TEMPLATE, &text, TextForm::Minimal).err(), Some(BAD_TILE_KIND));
    let text = replaced(SAMPLE, 2, 14, "1xO");
    assert_eq!(decode_with(TEMPLATE, &text, TextForm::Minimal).err(), Some(BAD_DICE));
    let text = replaced(SAMPLE, 2, 14, "+5O");
    assert_eq!(decode_with(TEMPLATE, &text, TextForm::Minimal).err(), Some(BAD_DICE));
    let text = replaced(SAMPLE, 2, 14, "xxX");
    assert_eq!(decode_with(TEMPLATE, &text, TextForm::Minimal).err(), Some(BAD_TILE_KIND));
    let text = replaced(&replaced(SAMPLE, 1, 13, "x"), 1, 10, "RX");
    assert_eq!(decode_with(TEMPLATE, &text, TextForm::Minimal).err(), Some(BAD_BUILDING_KIND));
    let text = replaced(&replaced(SAMPLE, 1, 13, "x"), 2, 14, "10X");
    assert_eq!(decode_with(TEMPLATE, &text, TextForm::Minimal).err(), Some(BAD_PLAYER));
}

#[test]
fn an_empty_slot_needs_only_its_first_letter() {
    let text = replaced(SAMPLE, 1, 10, "oX");
    let game = decode_with(TEMPLATE, &text, TextForm::Minimal).unwrap();
    assert_eq!(game.state.buildings.len(), 7);
}

#[test]
fn the_robber_is_needed_and_the_last_marker_counts() {
    let text = replaced(SAMPLE, 6, 7, " ");
    assert_eq!(decode_with(TEMPLATE, &text, TextForm::Minimal).err(), Some(NO_ROBBER));
    let text = replaced(SAMPLE, 2, 17, "!");
    let game = decode_with(TEMPLATE, &text, TextForm::Minimal).unwrap();
    assert_eq!(game.state.robber, RobberId(7));
    let text = replaced(SAMPLE, 10, 37, "!");
    let game = decode_with(TEMPLATE, &text, TextForm::Minimal).unwrap();
    assert_eq!(game.state.robber, RobberId(18));
}

#[test]
fn stock_lines_are_needed_once_each() {
    assert_eq!(decode_with(TEMPLATE, SAMPLE, TextForm::Full).err(), Some(NO_STOCK));
    assert_eq!(Game::try_from(SAMPLE.to_string()).err(), Some(NO_STOCK));
    let text = format!("{}\nW 1 2 3 4 5\nR 6 7 8 9 10", SAMPLE);
    assert_eq!(decode_with(TEMPLATE, &text, TextForm::Full).err(), Some(NO_STOCK));
    let text = format!("{}{}\nR 1 1 1 1 1", SAMPLE, STOCKS);
    assert_eq!(decode_with(TEMPLATE, &text, TextForm::Full).err(), Some(NO_STOCK));
    let text = format!("{}\n W 1 2 3 4 5\nR 6 7 8 9 10\nB 1 1 1 1 1", SAMPLE);
    assert_eq!(decode_with(TEMPLATE, &text, TextForm::Full).err(), Some(NO_STOCK));
}

#[test]
fn stock_lines_hold_five_numbers() {
    for bad in [
        "W 1 2 3 4",
        "W 1 2 3 4 5 6",
        "W 1 2 x 4 5",
        "W 1 2 3 4 128",
        "W 1 2 3 4 -5",
        "W 1 2 3 4 1000",
        "W",
    ] {
        let text = format!("{}\n{}\nR 6 7 8 9 10\nB 1 1 1 1 1", SAMPLE, bad);
        assert_eq!(decode_with(TEMPLATE, &text, TextForm::Full).err(), Some(BAD_STOCK));
    }
    let text = format!("{}\nW 127 0 00 000127 7\nR 6 7 8 9 10\nB 1 1 1 1 1", SAMPLE);
    let game = decode_with(TEMPLATE, &text, TextForm::Full).unwrap();
    assert_eq!(game.state.resources.white, stock(127, 0, 0, 127, 7));
}

#[test]
fn the_last_building_on_an_intersection_is_written() {
    let state = State {
        buildings: vec![
            Building {
                intersection_id: IntersectionId(0),
                kind: BuildingKind::City,
                player: Player::Blue,
            },
            Building {
                intersection_id: IntersectionId(0),
                kind: BuildingKind::Settlement,
                player: Player::Red,
            },
            Building {
                intersection_id: IntersectionId(54),
                kind: BuildingKind::Settlement,
                player: Player::Red,
            },
        ],
        roads: vec![
            Road { id: PathId(0), player: Player::Blue },
            Road { id: PathId(0), player: Player::White },
            Road { id: PathId(72), player: Player::White },
        ],
        robber: RobberId(0),
        resources: PlayerResourceCount {
            red: stock(0, 0, 0, 0, 0),
            blue: stock(0, 0, 0, 0, 0),
            white: stock(0, 0, 0, 0, 0),
        },
    };
    let game = Game { board: get_board(), state };
    let text = encode_with(TEMPLATE, &game, TextForm::Minimal);
    assert!(text.starts_with("\n          RS W oo . oo"));
    let again = decode_with(TEMPLATE, &text, TextForm::Minimal).unwrap();
    assert_eq!(again.state.buildings.len(), 1);
    assert_eq!(again.state.roads, vec![Road { id: PathId(0), player: Player::White }]);
}

#[test]
fn a_wide_production_number_shifts_the_line() {
    let mut board = get_board();
    board.tiles[0] = Tile { dice: 100, kind: TileKind::Ore };
    board.tiles[1] = Tile { dice: 255, kind: TileKind::Wool };
    let state = State {
        buildings: vec![],
        roads: vec![],
        robber: RobberId(0),
        resources: PlayerResourceCount {
            red: stock(0, 0, 0, 0, 0),
            blue: stock(0, 0, 0, 0, 0),
            white: stock(0, 0, 0, 0, 0),
        },
    };
    let game = Game { board, state };
    let text = encode_with(TEMPLATE, &game, TextForm::Minimal);
    let line: &str = text.split('\n').nth(2).unwrap();
    assert_eq!(line, "          .   100O!  .   255W   .   09L   .");
}

#[test]
fn letters_convert_both_ways() {
    for (c, p) in [('R', Player::Red), ('B', Player::Blue), ('W', Player::White)] {
        assert_eq!(Player::try_from(c), Ok(p));
        assert_eq!(char::from(p), c);
    }
    assert_eq!(Player::try_from('X'), Err(BAD_PLAYER));
    assert_eq!(Player::try_from('r'), Err("Invalid character for Player"));
    for (c, k) in [
        ('G', TileKind::Grain),
        ('W', TileKind::Wool),
        ('B', TileKind::Brick),
        ('L', TileKind::Lumber),
        ('O', TileKind::Ore),
        ('N', TileKind::Nothing),
    ] {
        assert_eq!(TileKind::try_from(c), Ok(k));
        assert_eq!(char::from(k), c);
    }
    assert_eq!(TileKind::try_from('X'), Err("Invalid character for TileKind"));
    assert_eq!(BuildingKind::try_from('S'), Ok(BuildingKind::Settlement));
    assert_eq!(BuildingKind::try_from('C'), Ok(BuildingKind::City));
    assert_eq!(BuildingKind::try_from('X'), Err("Invalid character for BuildingKind"));
    assert_eq!(BuildingKind::Settlement.to_char(), 'S');
    assert_eq!(BuildingKind::City.to_char(), 'C');
}

#[test]
fn the_standard_layout_has_the_marks_of_the_board() {
    assert!(template_fits(TEMPLATE));
    assert!(!template_fits(""));
    assert!(!template_fits("BB * BB * TTTT"));
    assert!(!template_fits(&format!("{} *", TEMPLATE)));
    assert!(!template_fits(&format!("{}\nTTTT", TEMPLATE)));
    assert!(template_fits(&format!("key:\n{}\n", TEMPLATE)));
    assert!(!template_fits(&TEMPLATE.replacen("BB", "B-", 1)));
}

#[test]
fn a_layout_of_another_shape_is_read_and_written() {
    let mut layout = String::new();
    for _ in 0..18 {
        layout.push_str("BB*BB*TTTT*BB*\n");
    }
    layout.push_str("TTTT");
    assert!(template_fits(&layout));
    let mut text = String::new();
    for _ in 0..18 {
        text.push_str("oo.WCR07L .RS.\n");
    }
    text.push_str("12N!");
    let game = decode_with(&layout, &text, TextForm::Minimal).unwrap();
    assert_eq!(game.state.robber, RobberId(18));
    assert_eq!(game.state.buildings.len(), 36);
    assert_eq!(game.state.roads.len(), 18);
    assert_eq!(game.board.tiles[18], Tile { dice: 12, kind: TileKind::Nothing });
    assert_eq!(encode_with(&layout, &game, TextForm::Minimal), text);
}

#[test]
fn players_have_names() {
    assert_eq!(Player::from_name("Red"), Ok(Player::Red));
    assert_eq!(Player::from_name("Blue"), Ok(Player::Blue));
    assert_eq!(Player::from_name("White"), Ok(Player::White));
    assert_eq!(Player::from_name("red"), Err(BAD_PLAYER_NAME));
    assert_eq!(Player::from_name(""), Err("Invalid player"));
    assert_eq!(Player::from_name("W"), Err(BAD_PLAYER_NAME));
}

#[test]
fn a_game_off_the_board_is_not_well_formed() {
    let game = decode_with(TEMPLATE, SAMPLE, TextForm::Minimal).unwrap();
    assert!(game.is_wf());
    let mut off = decode_with(TEMPLATE, SAMPLE, TextForm::Minimal).unwrap();
    off.state.roads.push(Road { id: PathId(72), player: Player::Red });
    assert!(!off.is_wf());
    let mut off = decode_with(TEMPLATE, SAMPLE, TextForm::Minimal).unwrap();
    off.state.buildings.push(Building {
        intersection_id: IntersectionId(54),
        kind: BuildingKind::City,
        player: Player::Red,
    });
    assert!(!off.is_wf());
    let mut off = decode_with(TEMPLATE, SAMPLE, TextForm::Minimal).unwrap();
    off.state.robber = RobberId(19);
    assert!(!off.is_wf());
    let mut off = decode_with(TEMPLATE, SAMPLE, TextForm::Minimal).unwrap();
    off.board.paths[0].1 = IntersectionId(54);
    assert!(!off.is_wf());
    let mut off = decode_with(TEMPLATE, SAMPLE, TextForm::Minimal).unwrap();
    off.board.intersections[0].paths.push(PathId(72));
    assert!(!off.is_wf());
    let mut off = decode_with(TEMPLATE, SAMPLE, TextForm::Minimal).unwrap();
    off.board.intersections[53].tiles.clear();
    assert!(!off.is_wf());
}
