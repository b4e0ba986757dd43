//! The fixed board topology and the state of one game.

use crate::game::resources::PlayerResourceCount;
use vstd::prelude::*;

verus! {

/// The players of a game, each identified by a colour.
#[derive(Debug, Copy, Clone, PartialEq, Eq, Hash, Structural)]
pub enum Player {
    Red,
    Blue,
    White,
}

/// Why a letter was refused: it names no player.
pub const BAD_PLAYER: &'static str = "Invalid character for Player";

/// The player that a letter stands for.
pub open spec fn player_of(c: char) -> Option<Player> {
    if c == 'R' {
        Some(Player::Red)
    } else if c == 'B' {
        Some(Player::Blue)
    } else if c == 'W' {
        Some(Player::White)
    } else {
        None
    }
}

impl Player {
    /// The letter that stands for the player.
    pub open spec fn letter(self) -> char {
        match self {
            Player::Red => 'R',
            Player::Blue => 'B',
            Player::White => 'W',
        }
    }
}

/// Why a name was refused: it names no player.
pub const BAD_PLAYER_NAME: &'static str = "Invalid player";

/// The player that a name stands for.
pub open spec fn player_named(name: Seq<char>) -> Option<Player> {
    if name == "Red"@ {
        Some(Player::Red)
    } else if name == "Blue"@ {
        Some(Player::Blue)
    } else if name == "White"@ {
        Some(Player::White)
    } else {
        None
    }
}

impl Player {
    /// The player that a name stands for: `Red`, `Blue` or `White`.
    pub fn from_name(name: &str) -> (r: Result<Player, &'static str>)
        ensures
            match r {
                Ok(player) => player_named(name@) == Some(player),
                Err(reason) => player_named(name@) is None && reason == BAD_PLAYER_NAME,
            },
    {
        let name = String::from_str(name);
        if name == String::from_str("Red") {
            Ok(Player::Red)
        } else if name == String::from_str("Blue") {
            Ok(Player::Blue)
        } else if name == String::from_str("White") {
            Ok(Player::White)
        } else {
            Err(BAD_PLAYER_NAME)
        }
    }
}

impl vstd::std_specs::convert::TryFromSpecImpl<char> for Player {
    open spec fn obeys_try_from_spec() -> bool {
        true
    }

    open spec fn try_from_spec(c: char) -> Result<Self, Self::Error> {
        match player_of(c) {
            Some(player) => Ok(player),
            None => Err(BAD_PLAYER),
        }
    }
}

impl TryFrom<char> for Player {
    type Error = &'static str;

    /// The player that a letter stands for: `R`, `B` or `W`.
    fn try_from(c: char) -> (r: Result<Self, Self::Error>) {
        match c {
            'R' => Ok(Player::Red),
            'B' => Ok(Player::Blue),
            'W' => Ok(Player::White),
            _ => Err(BAD_PLAYER),
        }
    }
}

/// Index of an intersection of the board.
#[derive(Debug, Copy, Clone, PartialEq, Eq, Hash, Structural)]
pub struct IntersectionId(pub usize);

/// An edge of the board: the two intersections it joins.
#[derive(Debug, Copy, Clone, PartialEq, Eq, Hash, Structural)]
pub struct Path(pub IntersectionId, pub IntersectionId);

/// What a tile produces. `Nothing` marks the desert.
#[derive(Debug, Copy, Clone, PartialEq, Eq, Hash, Structural)]
pub enum TileKind {
    Grain,
    Wool,
    Brick,
    Lumber,
    Ore,
    Nothing,
}

/// Index of a tile of the board.
#[derive(Debug, Copy, Clone, PartialEq, Eq, Hash, Structural)]
pub struct TileId(pub usize);

/// The tile on which the robber stands.
#[derive(Debug, Copy, Clone, PartialEq, Eq, Hash, Structural)]
pub struct RobberId(pub usize);

/// A tile: its production number and what it produces.
#[derive(Debug, Copy, Clone, PartialEq, Eq, Structural)]
pub struct Tile {
    pub dice: u8,
    pub kind: TileKind,
}

/// The two kinds of building.
#[derive(Debug, Copy, Clone, PartialEq, Eq, Hash, Structural)]
pub enum BuildingKind {
    Settlement,
    City,
}

impl BuildingKind {
    /// The letter that stands for this kind in the board text.
    pub open spec fn letter(self) -> char {
        match self {
            BuildingKind::Settlement => 'S',
            BuildingKind::City => 'C',
        }
    }

    /// The letter that stands for this kind in the board text: `'S'` or `'C'`.
    pub fn to_char(&self) -> (c: char)
        ensures
            c == self.letter(),
    {
        match self {
            BuildingKind::Settlement => 'S',
            BuildingKind::City => 'C',
        }
    }
}

/// A building: where it stands, what it is and who owns it.
#[derive(Debug, Copy, Clone, PartialEq, Eq, Structural)]
pub struct Building {
    pub intersection_id: IntersectionId,
    pub kind: BuildingKind,
    pub player: Player,
}

/// Index of an edge of the board.
#[derive(Debug, Copy, Clone, PartialEq, Eq, Hash, Structural)]
pub struct PathId(pub usize);

/// A road: the edge it lies on and who owns it.
#[derive(Debug, Copy, Clone, PartialEq, Eq, Structural)]
pub struct Road {
    pub id: PathId,
    pub player: Player,
}

/// An intersection: the edges that meet in it and the tiles that touch it.
#[derive(Debug)]
pub struct Intersection {
    pub paths: Vec<PathId>,
    pub tiles: Vec<TileId>,
}

impl Intersection {
    /// An intersection with the given incident edges and adjacent tiles.
    pub fn new(paths: Vec<PathId>, tiles: Vec<TileId>) -> (intersection: Intersection)
        ensures
            intersection.paths == paths,
            intersection.tiles == tiles,
    {
        Self { paths, tiles }
    }
}

/// Number of edges of the board.
pub const PATHS: usize = 72;

/// Number of intersections of the board.
pub const INTERSECTIONS: usize = 54;

/// Number of tiles of the board.
pub const TILES: usize = 19;

/// The two ends of each edge of the standard board, by edge index.
///
/// Edge 61 names intersection 45 twice: it is a placeholder on the rim of the
/// board and joins nothing.
pub const PATH_ENDS: [(usize, usize); 72] = [
    (0, 1), (1, 2), (2, 3), (3, 4), (4, 5), (5, 6),
    (0, 8), (2, 10), (4, 12), (6, 14), (8, 7), (8, 9),
    (9, 10), (10, 11), (11, 12), (12, 13), (13, 14), (14, 15),
    (7, 17), (9, 19), (11, 21), (13, 23), (15, 25), (16, 17),
    (17, 18), (18, 19), (19, 20), (20, 21), (21, 22), (22, 23),
    (23, 24), (24, 25), (25, 26), (16, 27), (18, 29), (20, 31),
    (22, 33), (24, 35), (26, 37), (27, 28), (28, 29), (29, 30),
    (30, 31), (31, 32), (32, 33), (33, 34), (34, 35), (35, 36),
    (36, 37), (28, 38), (30, 40), (32, 42), (34, 44), (36, 46),
    (38, 39), (39, 40), (40, 41), (41, 42), (42, 43), (43, 44),
    (44, 45), (45, 45), (39, 47), (41, 49), (43, 51), (45, 53),
    (47, 48), (48, 49), (49, 50), (50, 51), (51, 52), (52, 53),
];

/// The edges that meet in intersection `i` of the standard board.
pub open spec fn standard_incident_paths(i: int) -> Seq<PathId> {
    if i == 0 {
        seq![PathId(0), PathId(6)]
    } else if i == 1 {
        seq![PathId(0), PathId(1)]
    } else if i == 2 {
        seq![PathId(1), PathId(2), PathId(7)]
    } else if i == 3 {
        seq![PathId(2), PathId(3)]
    } else if i == 4 {
        seq![PathId(3), PathId(4), PathId(8)]
    } else if i == 5 {
        seq![PathId(4), PathId(5)]
    } else if i == 6 {
        seq![PathId(5), PathId(9)]
    } else if i == 7 {
        seq![PathId(10), PathId(18)]
    } else if i == 8 {
        seq![PathId(10), PathId(6), PathId(11)]
    } else if i == 9 {
        seq![PathId(11), PathId(12), PathId(19)]
    } else if i == 10 {
        seq![PathId(7), PathId(12), PathId(13)]
    } else if i == 11 {
        seq![PathId(13), PathId(14), PathId(20)]
    } else if i == 12 {
        seq![PathId(8), PathId(14), PathId(15)]
    } else if i == 13 {
        seq![PathId(15), PathId(16), PathId(21)]
    } else if i == 14 {
        seq![PathId(9), PathId(16), PathId(17)]
    } else if i == 15 {
        seq![PathId(17), PathId(22)]
    } else if i == 16 {
        seq![PathId(23), PathId(33)]
    } else if i == 17 {
        seq![PathId(18), PathId(23), PathId(24)]
    } else if i == 18 {
        seq![PathId(24), PathId(25), PathId(34)]
    } else if i == 19 {
        seq![PathId(19), PathId(25), PathId(26)]
    } else if i == 20 {
        seq![PathId(26), PathId(27), PathId(35)]
    } else if i == 21 {
        seq![PathId(20), PathId(27), PathId(28)]
    } else if i == 22 {
        seq![PathId(28), PathId(29), PathId(36)]
    } else if i == 23 {
        seq![PathId(21), PathId(29), PathId(30)]
    } else if i == 24 {
        seq![PathId(30), PathId(31), PathId(37)]
    } else if i == 25 {
        seq![PathId(22), PathId(31), PathId(32)]
    } else if i == 26 {
        seq![PathId(32), PathId(38)]
    } else if i == 27 {
        seq![PathId(33), PathId(39)]
    } else if i == 28 {
        seq![PathId(39), PathId(40), PathId(49)]
    } else if i == 29 {
        seq![PathId(34), PathId(40), PathId(41)]
    } else if i == 30 {
        seq![PathId(41), PathId(42), PathId(50)]
    } else if i == 31 {
        seq![PathId(35), PathId(42), PathId(43)]
    } else if i == 32 {
        seq![PathId(43), PathId(44), PathId(51)]
    } else if i == 33 {
        seq![PathId(36), PathId(44), PathId(45)]
    } else if i == 34 {
        seq![PathId(45), PathId(46), PathId(52)]
    } else if i == 35 {
        seq![PathId(37), PathId(46), PathId(47)]
    } else if i == 36 {
        seq![PathId(47), PathId(48), PathId(53)]
    } else if i == 37 {
        seq![PathId(38), PathId(48)]
    } else if i == 38 {
        seq![PathId(49), PathId(54)]
    } else if i == 39 {
        seq![PathId(54), PathId(55), PathId(62)]
    } else if i == 40 {
        seq![PathId(50), PathId(55), PathId(56)]
    } else if i == 41 {
        seq![PathId(56), PathId(57), PathId(63)]
    } else if i == 42 {
        seq![PathId(51), PathId(57), PathId(58)]
    } else if i == 43 {
        seq![PathId(58), PathId(59), PathId(64)]
    } else if i == 44 {
        seq![PathId(52), PathId(59), PathId(60)]
    } else if i == 45 {
        seq![PathId(60), PathId(61), PathId(65)]
    } else if i == 46 {
        seq![PathId(53), PathId(61)]
    } else if i == 47 {
        seq![PathId(62), PathId(66)]
    } else if i == 48 {
        seq![PathId(66), PathId(67)]
    } else if i == 49 {
        seq![PathId(63), PathId(67), PathId(68)]
    } else if i == 50 {
        seq![PathId(68), PathId(69)]
    } else if i == 51 {
        seq![PathId(64), PathId(69), PathId(70)]
    } else if i == 52 {
        seq![PathId(70), PathId(71)]
    } else {
        seq![PathId(65), PathId(71)]
    }
}

/// The tiles that touch intersection `i` of the standard board.
pub open spec fn standard_adjacent_tiles(i: int) -> Seq<TileId> {
    if i == 0 {
        seq![TileId(0)]
    } else if i == 1 {
        seq![TileId(0)]
    } else if i == 2 {
        seq![TileId(0), TileId(1)]
    } else if i == 3 {
        seq![TileId(1)]
    } else if i == 4 {
        seq![TileId(1), TileId(2)]
    } else if i == 5 {
        seq![TileId(2)]
    } else if i == 6 {
        seq![TileId(2)]
    } else if i == 7 {
        seq![TileId(3)]
    } else if i == 8 {
        seq![TileId(3), TileId(0)]
    } else if i == 9 {
        seq![TileId(3), TileId(4)]
    } else if i == 10 {
        seq![TileId(0), TileId(1), TileId(4)]
    } else if i == 11 {
        seq![TileId(1), TileId(4), TileId(5)]
    } else if i == 12 {
        seq![TileId(1), TileId(2), TileId(5)]
    } else if i == 13 {
        seq![TileId(2), TileId(5), TileId(6)]
    } else if i == 14 {
        seq![TileId(2), TileId(6)]
    } else if i == 15 {
        seq![TileId(6)]
    } else if i == 16 {
        seq![TileId(7)]
    } else if i == 17 {
        seq![TileId(3), TileId(7)]
    } else if i == 18 {
        seq![TileId(3), TileId(7), TileId(8)]
    } else if i == 19 {
        seq![TileId(3), TileId(4), TileId(8)]
    } else if i == 20 {
        seq![TileId(4), TileId(8), TileId(9)]
    } else if i == 21 {
        seq![TileId(4), TileId(5), TileId(9)]
    } else if i == 22 {
        seq![TileId(5), TileId(9), TileId(10)]
    } else if i == 23 {
        seq![TileId(5), TileId(6), TileId(10)]
    } else if i == 24 {
        seq![TileId(6), TileId(10), TileId(11)]
    } else if i == 25 {
        seq![TileId(6), TileId(11)]
    } else if i == 26 {
        seq![TileId(11)]
    } else if i == 27 {
        seq![TileId(7)]
    } else if i == 28 {
        seq![TileId(7), TileId(12)]
    } else if i == 29 {
        seq![TileId(7), TileId(8), TileId(12)]
    } else if i == 30 {
        seq![TileId(8), TileId(12), TileId(13)]
    } else if i == 31 {
        seq![TileId(8), TileId(9), TileId(13)]
    } else if i == 32 {
        seq![TileId(9), TileId(13), TileId(14)]
    } else if i == 33 {
        seq![TileId(9), TileId(10), TileId(14)]
    } else if i == 34 {
        seq![TileId(10), TileId(14), TileId(15)]
    } else if i == 35 {
        seq![TileId(10), TileId(11), TileId(15)]
    } else if i == 36 {
        seq![TileId(11), TileId(15)]
    } else if i == 37 {
        seq![TileId(11)]
    } else if i == 38 {
        seq![TileId(12)]
    } else if i == 39 {
        seq![TileId(12), TileId(16)]
    } else if i == 40 {
        seq![TileId(12), TileId(13), TileId(16)]
    } else if i == 41 {
        seq![TileId(13), TileId(16), TileId(17)]
    } else if i == 42 {
        seq![TileId(13), TileId(14), TileId(17)]
    } else if i == 43 {
        seq![TileId(14), TileId(17), TileId(18)]
    } else if i == 44 {
        seq![TileId(14), TileId(15), TileId(18)]
    } else if i == 45 {
        seq![TileId(15), TileId(18)]
    } else if i == 46 {
        seq![TileId(15)]
    } else if i == 47 {
        seq![TileId(16)]
    } else if i == 48 {
        seq![TileId(16)]
    } else if i == 49 {
        seq![TileId(16), TileId(17)]
    } else if i == 50 {
        seq![TileId(17)]
    } else if i == 51 {
        seq![TileId(17), TileId(18)]
    } else if i == 52 {
        seq![TileId(18)]
    } else {
        seq![TileId(18)]
    }
}

/// The board: edges, intersections and tiles.
pub struct Board {
    pub paths: [Path; PATHS],
    pub intersections: [Intersection; INTERSECTIONS],
    pub tiles: [Tile; TILES],
}

impl Board {
    /// Every id that the tables hold indexes an entry of the table it refers
    /// to, and every intersection has two or three edges and one to three
    /// tiles.
    pub open spec fn wf(&self) -> bool {
        &&& forall|p: int|
            0 <= p < PATHS ==> (#[trigger] self.paths[p]).0.0 < INTERSECTIONS && self.paths[p].1.0
                < INTERSECTIONS
        &&& forall|i: int|
            0 <= i < INTERSECTIONS ==> 2 <= (#[trigger] self.intersections[i]).paths.len() <= 3 && 1
                <= self.intersections[i].tiles.len() <= 3
        &&& forall|i: int, k: int|
            0 <= i < INTERSECTIONS && 0 <= k < self.intersections[i].paths.len()
                ==> (#[trigger] self.intersections[i].paths[k]).0 < PATHS
        &&& forall|i: int, k: int|
            0 <= i < INTERSECTIONS && 0 <= k < self.intersections[i].tiles.len()
                ==> (#[trigger] self.intersections[i].tiles[k]).0 < TILES
    }

    /// The edge and intersection tables are those of the standard board.
    pub open spec fn is_standard(&self) -> bool {
        &&& forall|p: int|
            0 <= p < PATHS ==> #[trigger] self.paths[p] == Path(
                IntersectionId(PATH_ENDS[p].0),
                IntersectionId(PATH_ENDS[p].1),
            )
        &&& forall|i: int|
            0 <= i < INTERSECTIONS ==> (#[trigger] self.intersections[i]).paths@
                == standard_incident_paths(i)
        &&& forall|i: int|
            0 <= i < INTERSECTIONS ==> (#[trigger] self.intersections[i]).tiles@
                == standard_adjacent_tiles(i)
    }

    /// The standard board is well formed.
    pub proof fn lemma_standard_wf(&self)
        requires
            self.is_standard(),
        ensures
            self.wf(),
    {
        assert forall|p: int| 0 <= p < PATHS implies (#[trigger] self.paths[p]).0.0 < INTERSECTIONS
            && self.paths[p].1.0 < INTERSECTIONS by {
            assert(PATH_ENDS[p].0 < 54 && PATH_ENDS[p].1 < 54);
        }
        assert forall|i: int| 0 <= i < INTERSECTIONS implies 2 <= (
        #[trigger] self.intersections[i]).paths.len() <= 3 && 1 <= self.intersections[i].tiles.len()
            <= 3 by {
            assert(2 <= standard_incident_paths(i).len() <= 3);
            assert(1 <= standard_adjacent_tiles(i).len() <= 3);
        }
        assert forall|i: int, k: int|
            0 <= i < INTERSECTIONS && 0 <= k < self.intersections[i].paths.len() implies (
        #[trigger] self.intersections[i].paths[k]).0 < PATHS by {
            assert(standard_incident_paths(i)[k].0 < 72);
        }
        assert forall|i: int, k: int|
            0 <= i < INTERSECTIONS && 0 <= k < self.intersections[i].tiles.len() implies (
        #[trigger] self.intersections[i].tiles[k]).0 < TILES by {
            assert(standard_adjacent_tiles(i)[k].0 < 19);
        }
    }

    /// The standard board with the given tiles.
    ///
    /// The tiles are taken row by row, in rows of 3, 4, 5, 4 and 3; the edge
    /// and intersection tables are fixed.
    pub fn new(tiles: [Tile; 19]) -> (board: Board)
        ensures
            board.tiles == tiles,
            board.is_standard(),
            board.wf(),
    {
        let paths: [Path; 72] = [
            Path(IntersectionId(0), IntersectionId(1)),
            Path(IntersectionId(1), IntersectionId(2)),
            Path(IntersectionId(2), IntersectionId(3)),
            Path(IntersectionId(3), IntersectionId(4)),
            Path(IntersectionId(4), IntersectionId(5)),
            Path(IntersectionId(5), IntersectionId(6)),
            Path(IntersectionId(0), IntersectionId(8)),
            Path(IntersectionId(2), IntersectionId(10)),
            Path(IntersectionId(4), IntersectionId(12)),
            Path(IntersectionId(6), IntersectionId(14)),
            Path(IntersectionId(8), IntersectionId(7)),
            Path(IntersectionId(8), IntersectionId(9)),
            Path(IntersectionId(9), IntersectionId(10)),
            Path(IntersectionId(10), IntersectionId(11)),
            Path(IntersectionId(11), IntersectionId(12)),
            Path(IntersectionId(12), IntersectionId(13)),
            Path(IntersectionId(13), IntersectionId(14)),
            Path(IntersectionId(14), IntersectionId(15)),
            Path(IntersectionId(7), IntersectionId(17)),
            Path(IntersectionId(9), IntersectionId(19)),
            Path(IntersectionId(11), IntersectionId(21)),
            Path(IntersectionId(13), IntersectionId(23)),
            Path(IntersectionId(15), IntersectionId(25)),
            Path(IntersectionId(16), IntersectionId(17)),
            Path(IntersectionId(17), IntersectionId(18)),
            Path(IntersectionId(18), IntersectionId(19)),
            Path(IntersectionId(19), IntersectionId(20)),
            Path(IntersectionId(20), IntersectionId(21)),
            Path(IntersectionId(21), IntersectionId(22)),
            Path(IntersectionId(22), IntersectionId(23)),
            Path(IntersectionId(23), IntersectionId(24)),
            Path(IntersectionId(24), IntersectionId(25)),
            Path(IntersectionId(25), IntersectionId(26)),
            Path(IntersectionId(16), IntersectionId(27)),
            Path(IntersectionId(18), IntersectionId(29)),
            Path(IntersectionId(20), IntersectionId(31)),
            Path(IntersectionId(22), IntersectionId(33)),
            Path(IntersectionId(24), IntersectionId(35)),
            Path(IntersectionId(26), IntersectionId(37)),
            Path(IntersectionId(27), IntersectionId(28)),
            Path(IntersectionId(28), IntersectionId(29)),
            Path(IntersectionId(29), IntersectionId(30)),
            Path(IntersectionId(30), IntersectionId(31)),
            Path(IntersectionId(31), IntersectionId(32)),
            Path(IntersectionId(32), IntersectionId(33)),
            Path(IntersectionId(33), IntersectionId(34)),
            Path(IntersectionId(34), IntersectionId(35)),
            Path(IntersectionId(35), IntersectionId(36)),
            Path(IntersectionId(36), IntersectionId(37)),
            Path(IntersectionId(28), IntersectionId(38)),
            Path(IntersectionId(30), IntersectionId(40)),
            Path(IntersectionId(32), IntersectionId(42)),
            Path(IntersectionId(34), IntersectionId(44)),
            Path(IntersectionId(36), IntersectionId(46)),
            Path(IntersectionId(38), IntersectionId(39)),
            Path(IntersectionId(39), IntersectionId(40)),
            Path(IntersectionId(40), IntersectionId(41)),
            Path(IntersectionId(41), IntersectionId(42)),
            Path(IntersectionId(42), IntersectionId(43)),
            Path(IntersectionId(43), IntersectionId(44)),
            Path(IntersectionId(44), IntersectionId(45)),
            Path(IntersectionId(45), IntersectionId(45)),
            Path(IntersectionId(39), IntersectionId(47)),
            Path(IntersectionId(41), IntersectionId(49)),
            Path(IntersectionId(43), IntersectionId(51)),
            Path(IntersectionId(45), IntersectionId(53)),
            Path(IntersectionId(47), IntersectionId(48)),
            Path(IntersectionId(48), IntersectionId(49)),
            Path(IntersectionId(49), IntersectionId(50)),
            Path(IntersectionId(50), IntersectionId(51)),
            Path(IntersectionId(51), IntersectionId(52)),
            Path(IntersectionId(52), IntersectionId(53)),
        ];
        let intersections: [Intersection; 54] = [
            Intersection::new(vec![PathId(0), PathId(6)], vec![TileId(0)]),
            Intersection::new(vec![PathId(0), PathId(1)], vec![TileId(0)]),
            Intersection::new(vec![PathId(1), PathId(2), PathId(7)], vec![TileId(0), TileId(1)]),
            Intersection::new(vec![PathId(2), PathId(3)], vec![TileId(1)]),
            Intersection::new(vec![PathId(3), PathId(4), PathId(8)], vec![TileId(1), TileId(2)]),
            Intersection::new(vec![PathId(4), PathId(5)], vec![TileId(2)]),
            Intersection::new(vec![PathId(5), PathId(9)], vec![TileId(2)]),
            Intersection::new(vec![PathId(10), PathId(18)], vec![TileId(3)]),
            Intersection::new(vec![PathId(10), PathId(6), PathId(11)], vec![TileId(3), TileId(0)]),
            Intersection::new(vec![PathId(11), PathId(12), PathId(19)], vec![TileId(3), TileId(4)]),
            Intersection::new(vec![PathId(7), PathId(12), PathId(13)], vec![TileId(0), TileId(1), TileId(4)]),
            Intersection::new(vec![PathId(13), PathId(14), PathId(20)], vec![TileId(1), TileId(4), TileId(5)]),
            Intersection::new(vec![PathId(8), PathId(14), PathId(15)], vec![TileId(1), TileId(2), TileId(5)]),
            Intersection::new(vec![PathId(15), PathId(16), PathId(21)], vec![TileId(2), TileId(5), TileId(6)]),
            Intersection::new(vec![PathId(9), PathId(16), PathId(17)], vec![TileId(2), TileId(6)]),
            Intersection::new(vec![PathId(17), PathId(22)], vec![TileId(6)]),
            Intersection::new(vec![PathId(23), PathId(33)], vec![TileId(7)]),
            Intersection::new(vec![PathId(18), PathId(23), PathId(24)], vec![TileId(3), TileId(7)]),
            Intersection::new(vec![PathId(24), PathId(25), PathId(34)], vec![TileId(3), TileId(7), TileId(8)]),
            Intersection::new(vec![PathId(19), PathId(25), PathId(26)], vec![TileId(3), TileId(4), TileId(8)]),
            Intersection::new(vec![PathId(26), PathId(27), PathId(35)], vec![TileId(4), TileId(8), TileId(9)]),
            Intersection::new(vec![PathId(20), PathId(27), PathId(28)], vec![TileId(4), TileId(5), TileId(9)]),
            Intersection::new(vec![PathId(28), PathId(29), PathId(36)], vec![TileId(5), TileId(9), TileId(10)]),
            Intersection::new(vec![PathId(21), PathId(29), PathId(30)], vec![TileId(5), TileId(6), TileId(10)]),
            Intersection::new(vec![PathId(30), PathId(31), PathId(37)], vec![TileId(6), TileId(10), TileId(11)]),
            Intersection::new(vec![PathId(22), PathId(31), PathId(32)], vec![TileId(6), TileId(11)]),
            Intersection::new(vec![PathId(32), PathId(38)], vec![TileId(11)]),
            Intersection::new(vec![PathId(33), PathId(39)], vec![TileId(7)]),
            Intersection::new(vec![PathId(39), PathId(40), PathId(49)], vec![TileId(7), TileId(12)]),
            Intersection::new(vec![PathId(34), PathId(40), PathId(41)], vec![TileId(7), TileId(8), TileId(12)]),
            Intersection::new(vec![PathId(41), PathId(42), PathId(50)], vec![TileId(8), TileId(12), TileId(13)]),
            Intersection::new(vec![PathId(35), PathId(42), PathId(43)], vec![TileId(8), TileId(9), TileId(13)]),
            Intersection::new(vec![PathId(43), PathId(44), PathId(51)], vec![TileId(9), TileId(13), TileId(14)]),
            Intersection::new(vec![PathId(36), PathId(44), PathId(45)], vec![TileId(9), TileId(10), TileId(14)]),
            Intersection::new(vec![PathId(45), PathId(46), PathId(52)], vec![TileId(10), TileId(14), TileId(15)]),
            Intersection::new(vec![PathId(37), PathId(46), PathId(47)], vec![TileId(10), TileId(11), TileId(15)]),
            Intersection::new(vec![PathId(47), PathId(48), PathId(53)], vec![TileId(11), TileId(15)]),
            Intersection::new(vec![PathId(38), PathId(48)], vec![TileId(11)]),
            Intersection::new(vec![PathId(49), PathId(54)], vec![TileId(12)]),
            Intersection::new(vec![PathId(54), PathId(55), PathId(62)], vec![TileId(12), TileId(16)]),
            Intersection::new(vec![PathId(50), PathId(55), PathId(56)], vec![TileId(12), TileId(13), TileId(16)]),
            Intersection::new(vec![PathId(56), PathId(57), PathId(63)], vec![TileId(13), TileId(16), TileId(17)]),
            Intersection::new(vec![PathId(51), PathId(57), PathId(58)], vec![TileId(13), TileId(14), TileId(17)]),
            Intersection::new(vec![PathId(58), PathId(59), PathId(64)], vec![TileId(14), TileId(17), TileId(18)]),
            Intersection::new(vec![PathId(52), PathId(59), PathId(60)], vec![TileId(14), TileId(15), TileId(18)]),
            Intersection::new(vec![PathId(60), PathId(61), PathId(65)], vec![TileId(15), TileId(18)]),
            Intersection::new(vec![PathId(53), PathId(61)], vec![TileId(15)]),
            Intersection::new(vec![PathId(62), PathId(66)], vec![TileId(16)]),
            Intersection::new(vec![PathId(66), PathId(67)], vec![TileId(16)]),
            Intersection::new(vec![PathId(63), PathId(67), PathId(68)], vec![TileId(16), TileId(17)]),
            Intersection::new(vec![PathId(68), PathId(69)], vec![TileId(17)]),
            Intersection::new(vec![PathId(64), PathId(69), PathId(70)], vec![TileId(17), TileId(18)]),
            Intersection::new(vec![PathId(70), PathId(71)], vec![TileId(18)]),
            Intersection::new(vec![PathId(65), PathId(71)], vec![TileId(18)]),
        ];
        proof {
            assert forall|p: int| 0 <= p < PATHS implies #[trigger] paths[p] == Path(
                IntersectionId(PATH_ENDS[p].0),
                IntersectionId(PATH_ENDS[p].1),
            ) by {}
            assert forall|i: int| 0 <= i < INTERSECTIONS implies (#[trigger] intersections[i]).paths@
                =~= standard_incident_paths(i) by {}
            assert forall|i: int| 0 <= i < INTERSECTIONS implies (#[trigger] intersections[i]).tiles@
                =~= standard_adjacent_tiles(i) by {}
        }
        let board = Self { paths, intersections, tiles };
        proof {
            board.lemma_standard_wf();
        }
        board
    }
}

/// The state of a game: what was built, where the robber stands and what
/// each player holds.
pub struct State {
    pub buildings: Vec<Building>,
    pub roads: Vec<Road>,
    pub robber: RobberId,
    pub resources: PlayerResourceCount,
}

impl State {
    /// Every building stands on an intersection of the board.
    pub open spec fn buildings_within(&self) -> bool {
        forall|k: int|
            0 <= k < self.buildings.len() ==> (#[trigger] self.buildings[k]).intersection_id.0
                < INTERSECTIONS
    }

    /// Every road lies on an edge of the board.
    pub open spec fn roads_within(&self) -> bool {
        forall|k: int| 0 <= k < self.roads.len() ==> (#[trigger] self.roads[k]).id.0 < PATHS
    }

    /// The robber stands on a tile of the board.
    pub open spec fn robber_within(&self) -> bool {
        self.robber.0 < TILES
    }

    /// Buildings, roads and robber are all on the board.
    pub open spec fn wf(&self) -> bool {
        self.buildings_within() && self.roads_within() && self.robber_within()
    }
}

/// A game: a board and a state.
pub struct Game {
    pub board: Board,
    pub state: State,
}

impl Game {
    /// The board is well formed and the state is on the board.
    pub open spec fn wf(&self) -> bool {
        self.board.wf() && self.state.wf()
    }

    /// True if the board is well formed and the state is on the board.
    ///
    /// The fields of a game are open to all, and the derivations ask for a
    /// game that is well formed: this is the test to make on a game of
    /// unknown origin.
    pub fn is_wf(&self) -> (b: bool)
        ensures
            b == self.wf(),
    {
        let mut p: usize = 0;
        while p < PATHS
            invariant
                p <= PATHS,
                forall|q: int|
                    0 <= q < p ==> (#[trigger] self.board.paths[q]).0.0 < INTERSECTIONS
                        && self.board.paths[q].1.0 < INTERSECTIONS,
            decreases PATHS - p,
        {
            let path = self.board.paths[p];
            if path.0.0 >= INTERSECTIONS || path.1.0 >= INTERSECTIONS {
                return false;
            }
            p += 1;
        }
        let mut i: usize = 0;
        while i < INTERSECTIONS
            invariant
                i <= INTERSECTIONS,
                forall|h: int|
                    0 <= h < i ==> 2 <= (#[trigger] self.board.intersections[h]).paths.len() <= 3
                        && 1 <= self.board.intersections[h].tiles.len() <= 3,
                forall|h: int, k: int|
                    0 <= h < i && 0 <= k < self.board.intersections[h].paths.len() ==> (
                    #[trigger] self.board.intersections[h].paths[k]).0 < PATHS,
                forall|h: int, k: int|
                    0 <= h < i && 0 <= k < self.board.intersections[h].tiles.len() ==> (
                    #[trigger] self.board.intersections[h].tiles[k]).0 < TILES,
            decreases INTERSECTIONS - i,
        {
            let site = &self.board.intersections[i];
            if site.paths.len() < 2 || site.paths.len() > 3 || site.tiles.len() < 1
                || site.tiles.len() > 3 {
                return false;
            }
            let mut k: usize = 0;
            while k < site.paths.len()
                invariant
                    k <= site.paths.len(),
                    i < INTERSECTIONS,
                    *site == self.board.intersections[i as int],
                    forall|m: int| 0 <= m < k ==> (#[trigger] site.paths[m]).0 < PATHS,
                decreases site.paths.len() - k,
            {
                if site.paths[k].0 >= PATHS {
                    return false;
                }
                k += 1;
            }
            let mut k: usize = 0;
            while k < site.tiles.len()
                invariant
                    k <= site.tiles.len(),
                    i < INTERSECTIONS,
                    *site == self.board.intersections[i as int],
                    forall|m: int| 0 <= m < k ==> (#[trigger] site.tiles[m]).0 < TILES,
                decreases site.tiles.len() - k,
            {
                if site.tiles[k].0 >= TILES {
                    return false;
                }
                k += 1;
            }
            i += 1;
        }
        let mut n: usize = 0;
        while n < self.state.buildings.len()
            invariant
                n <= self.state.buildings.len(),
                forall|k: int|
                    0 <= k < n ==> (#[trigger] self.state.buildings[k]).intersection_id.0
                        < INTERSECTIONS,
            decreases self.state.buildings.len() - n,
        {
            if self.state.buildings[n].intersection_id.0 >= INTERSECTIONS {
                return false;
            }
            n += 1;
        }
        let mut n: usize = 0;
        while n < self.state.roads.len()
            invariant
                n <= self.state.roads.len(),
                forall|k: int| 0 <= k < n ==> (#[trigger] self.state.roads[k]).id.0 < PATHS,
            decreases self.state.roads.len() - n,
        {
            if self.state.roads[n].id.0 >= PATHS {
                return false;
            }
            n += 1;
        }
        self.state.robber.0 < TILES
    }
}

} // verus!
