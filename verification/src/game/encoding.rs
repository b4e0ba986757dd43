//! The text form of a game: a fixed layout in which every intersection, tile
//! and edge of the board has a slot, followed by one line of resource counts
//! for each player.
//!
//! A template gives the layout. In it `BB` marks the slot of an
//! intersection, `TTTT` that of a tile and `*` that of an edge; the slots are
//! numbered, each kind by itself, in the order in which they are met, line by
//! line and from left to right. A text of a game has the same lines as the
//! template, with the content of each slot in the columns of its mark.
//!
//! In the full form the lines after those of the template hold the stocks of
//! the players. A line that begins with the letter of a player and a blank
//! holds the five counts of that player, for grain, wool, brick, lumber and
//! ore; each player has one such line, in any order, and other lines are
//! passed over. A text is written with the lines of White, Red and Blue, in
//! this order, and one blank between the fields.

use crate::game::board::{
    BAD_PLAYER, Board, Building, BuildingKind, Game, INTERSECTIONS, IntersectionId, PATHS, PathId,
    Player, Road, RobberId, State, TILES, Tile, TileKind, player_of,
};
use crate::game::resources::{PlayerResourceCount, ResourceCount};
use crate::game::round_trip::{
    lemma_shown_is_written_alike, lemma_text_reads_back, shown, writable,
};
use crate::game::standard::lemma_standard_fits;
use crate::game::text::{
    chars_of, digit_of, digit_value, fields, fields_of, is_blank, is_blank_char, join_lines,
    lemma_join_lines_same, lemma_split_lines_some, lines_of, number, number_of, push_chars,
    push_signed_decimal, push_two_digits, rows, signed_decimal, split_lines, two_digits,
};
use vstd::prelude::*;

verus! {

/// The layout of the standard board.
pub const TEMPLATE: &'static str = "
          BB * BB * BB * BB * BB * BB * BB
          *   TTTT  *   TTTT  *   TTTT  *
     BB * BB * BB * BB * BB * BB * BB * BB * BB
     *   TTTT  *   TTTT  *   TTTT  *   TTTT  *
BB * BB * BB * BB * BB * BB * BB * BB * BB * BB * BB
*   TTTT  *   TTTT  *   TTTT  *   TTTT  *   TTTT  *
BB * BB * BB * BB * BB * BB * BB * BB * BB * BB * BB
     *   TTTT  *   TTTT  *   TTTT  *   TTTT  *
     BB * BB * BB * BB * BB * BB * BB * BB * BB
          *   TTTT  *   TTTT  *   TTTT  *
          BB * BB * BB * BB * BB * BB * BB";

/// Why a text was refused: its slots are not those of the board.
pub const BAD_SLOT_COUNT: &'static str = "The board has not exactly 54 intersections, 19 tiles and 72 paths";

/// Why a text was refused: a letter that names no kind of tile.
pub const BAD_TILE_KIND: &'static str = "Invalid character for TileKind";

/// Why a text was refused: a letter that names no kind of building.
pub const BAD_BUILDING_KIND: &'static str = "Invalid character for BuildingKind";

/// Why a text was refused: a production number that is not two digits.
pub const BAD_DICE: &'static str = "Invalid tile dice number";

/// Why a text was refused: no tile holds the robber.
pub const NO_ROBBER: &'static str = "The robber stands on no tile";

/// Why a text was refused: a player without a line of resource counts, or
/// with more than one.
pub const NO_STOCK: &'static str = "Not exactly one line of resources for each player";

/// Why a text was refused: a line of resource counts that is not five
/// numbers.
pub const BAD_STOCK: &'static str = "Invalid line of resources";

/// How much of a game a text holds.
#[derive(Debug, Copy, Clone, PartialEq, Eq, Structural)]
pub enum TextForm {
    /// The board alone. The players' stocks are not written, and read as
    /// empty.
    Minimal,
    /// The board, then one line of resource counts for each player.
    Full,
}

/// The three kinds of slot.
#[derive(Debug, Copy, Clone, PartialEq, Eq, Structural)]
pub enum Slot {
    Building,
    Tile,
    Edge,
}

impl Slot {
    /// The number of columns that a slot of this kind takes.
    pub open spec fn width(self) -> int {
        match self {
            Slot::Building => 2,
            Slot::Tile => 4,
            Slot::Edge => 1,
        }
    }

    /// How many slots of this kind the board has.
    pub open spec fn count(self) -> int {
        match self {
            Slot::Building => INTERSECTIONS as int,
            Slot::Tile => TILES as int,
            Slot::Edge => PATHS as int,
        }
    }
}

/// The mark that begins at column `j` of a template line, if one does.
pub open spec fn token_at(line: Seq<char>, j: int) -> Option<Slot> {
    if 0 <= j && j + 4 <= line.len() && line[j] == 'T' && line[j + 1] == 'T' && line[j + 2] == 'T'
        && line[j + 3] == 'T' {
        Some(Slot::Tile)
    } else if 0 <= j && j + 2 <= line.len() && line[j] == 'B' && line[j + 1] == 'B' {
        Some(Slot::Building)
    } else if 0 <= j < line.len() && line[j] == '*' {
        Some(Slot::Edge)
    } else {
        None
    }
}

/// The number of columns from column `j` to where the scan of a template
/// line goes on: the width of the mark at `j`, or one.
pub open spec fn stride(line: Seq<char>, j: int) -> int {
    match token_at(line, j) {
        Some(slot) => slot.width(),
        None => 1,
    }
}

/// The slots of one kind that line `i` of a text has, from column `j` of the
/// template line on: the places of the marks of that kind whose columns the
/// text line, of length `avail`, holds.
pub open spec fn line_slots(line: Seq<char>, i: int, j: int, kind: Slot, avail: int) -> Seq<
    (int, int),
>
    decreases line.len() - j,
{
    if j < 0 || j >= line.len() {
        Seq::<(int, int)>::empty()
    } else {
        let rest = line_slots(line, i, j + stride(line, j), kind, avail);
        if token_at(line, j) == Some(kind) && j + kind.width() <= avail {
            seq![(i, j)] + rest
        } else {
            rest
        }
    }
}

/// The length of line `i` of the text; zero where the text has no such line.
pub open spec fn avail(text: Seq<Seq<char>>, i: int) -> int {
    if 0 <= i < text.len() {
        text[i].len() as int
    } else {
        0
    }
}

/// The slots of one kind that a text has in the first `n` lines of the
/// template, as pairs of line and column, in the order of their numbers.
pub open spec fn slots_upto(template: Seq<Seq<char>>, text: Seq<Seq<char>>, kind: Slot, n: int) -> Seq<
    (int, int),
>
    decreases n,
{
    if n <= 0 {
        Seq::<(int, int)>::empty()
    } else {
        slots_upto(template, text, kind, n - 1) + line_slots(
            template[n - 1],
            n - 1,
            0,
            kind,
            avail(text, n - 1),
        )
    }
}

/// The slots of one kind that a text has.
pub open spec fn slots(template: Seq<Seq<char>>, text: Seq<Seq<char>>, kind: Slot) -> Seq<(int, int)> {
    slots_upto(template, text, kind, template.len() as int)
}

impl TileKind {
    /// The letter that stands for the kind of tile.
    pub open spec fn letter(self) -> char {
        match self {
            TileKind::Grain => 'G',
            TileKind::Wool => 'W',
            TileKind::Brick => 'B',
            TileKind::Lumber => 'L',
            TileKind::Ore => 'O',
            TileKind::Nothing => 'N',
        }
    }
}

/// The kind of tile that a letter stands for.
pub open spec fn tile_kind_of(c: char) -> Option<TileKind> {
    if c == 'G' {
        Some(TileKind::Grain)
    } else if c == 'W' {
        Some(TileKind::Wool)
    } else if c == 'B' {
        Some(TileKind::Brick)
    } else if c == 'L' {
        Some(TileKind::Lumber)
    } else if c == 'O' {
        Some(TileKind::Ore)
    } else if c == 'N' {
        Some(TileKind::Nothing)
    } else {
        None
    }
}

/// The kind of building that a letter stands for.
pub open spec fn building_kind_of(c: char) -> Option<BuildingKind> {
    if c == 'S' {
        Some(BuildingKind::Settlement)
    } else if c == 'C' {
        Some(BuildingKind::City)
    } else {
        None
    }
}

impl vstd::std_specs::convert::TryFromSpecImpl<char> for TileKind {
    open spec fn obeys_try_from_spec() -> bool {
        true
    }

    open spec fn try_from_spec(c: char) -> Result<Self, Self::Error> {
        match tile_kind_of(c) {
            Some(kind) => Ok(kind),
            None => Err(BAD_TILE_KIND),
        }
    }
}

impl TryFrom<char> for TileKind {
    type Error = &'static str;

    /// The kind of tile that a letter stands for: `G`, `W`, `B`, `L`, `O`
    /// or `N`.
    fn try_from(c: char) -> (r: Result<Self, Self::Error>) {
        match c {
            'G' => Ok(TileKind::Grain),
            'W' => Ok(TileKind::Wool),
            'B' => Ok(TileKind::Brick),
            'L' => Ok(TileKind::Lumber),
            'O' => Ok(TileKind::Ore),
            'N' => Ok(TileKind::Nothing),
            _ => Err(BAD_TILE_KIND),
        }
    }
}

impl vstd::std_specs::convert::TryFromSpecImpl<char> for BuildingKind {
    open spec fn obeys_try_from_spec() -> bool {
        true
    }

    open spec fn try_from_spec(c: char) -> Result<Self, Self::Error> {
        match building_kind_of(c) {
            Some(kind) => Ok(kind),
            None => Err(BAD_BUILDING_KIND),
        }
    }
}

impl TryFrom<char> for BuildingKind {
    type Error = &'static str;

    /// The kind of building that a letter stands for: `S` or `C`.
    fn try_from(c: char) -> (r: Result<Self, Self::Error>) {
        match c {
            'S' => Ok(BuildingKind::Settlement),
            'C' => Ok(BuildingKind::City),
            _ => Err(BAD_BUILDING_KIND),
        }
    }
}

impl vstd::std_specs::convert::FromSpecImpl<TileKind> for char {
    open spec fn obeys_from_spec() -> bool {
        true
    }

    open spec fn from_spec(tile: TileKind) -> char {
        tile.letter()
    }
}

impl From<TileKind> for char {
    /// The letter that stands for the kind of tile.
    fn from(tile: TileKind) -> (c: char) {
        match tile {
            TileKind::Grain => 'G',
            TileKind::Wool => 'W',
            TileKind::Brick => 'B',
            TileKind::Lumber => 'L',
            TileKind::Ore => 'O',
            TileKind::Nothing => 'N',
        }
    }
}

impl vstd::std_specs::convert::FromSpecImpl<Player> for char {
    open spec fn obeys_from_spec() -> bool {
        true
    }

    open spec fn from_spec(player: Player) -> char {
        player.letter()
    }
}

impl From<Player> for char {
    /// The letter that stands for the player.
    fn from(player: Player) -> (c: char) {
        match player {
            Player::Red => 'R',
            Player::Blue => 'B',
            Player::White => 'W',
        }
    }
}

/// What the slot of intersection `id` holds: no building where its first
/// character is `o`, else a building whose owner the first character names
/// and whose kind the second.
pub open spec fn building_at(text: Seq<Seq<char>>, place: (int, int), id: int) -> Result<
    Option<Building>,
    Seq<char>,
> {
    let first = text[place.0][place.1];
    let second = text[place.0][place.1 + 1];
    if first == 'o' {
        Ok(None)
    } else {
        match building_kind_of(second) {
            None => Err(BAD_BUILDING_KIND@),
            Some(kind) => match player_of(first) {
                None => Err(BAD_PLAYER@),
                Some(player) => Ok(
                    Some(Building { intersection_id: IntersectionId(id as usize), kind, player }),
                ),
            },
        }
    }
}

/// The buildings in the first `n` intersection slots, in the order of the
/// slots, or the reason for which the first slot that is not valid is not.
pub open spec fn buildings_upto(text: Seq<Seq<char>>, places: Seq<(int, int)>, n: int) -> Result<
    Seq<Building>,
    Seq<char>,
>
    decreases n,
{
    if n <= 0 {
        Ok(Seq::<Building>::empty())
    } else {
        match buildings_upto(text, places, n - 1) {
            Err(reason) => Err(reason),
            Ok(before) => match building_at(text, places[n - 1], n - 1) {
                Err(reason) => Err(reason),
                Ok(None) => Ok(before),
                Ok(Some(building)) => Ok(before.push(building)),
            },
        }
    }
}

/// What the slot of edge `id` holds: no road where it is `.`, else a road of
/// the player that the character names.
pub open spec fn road_at(text: Seq<Seq<char>>, place: (int, int), id: int) -> Result<
    Option<Road>,
    Seq<char>,
> {
    let first = text[place.0][place.1];
    if first == '.' {
        Ok(None)
    } else {
        match player_of(first) {
            None => Err(BAD_PLAYER@),
            Some(player) => Ok(Some(Road { id: PathId(id as usize), player })),
        }
    }
}

/// The roads in the first `n` edge slots, in the order of the slots, or the
/// reason for which the first slot that is not valid is not.
pub open spec fn roads_upto(text: Seq<Seq<char>>, places: Seq<(int, int)>, n: int) -> Result<
    Seq<Road>,
    Seq<char>,
>
    decreases n,
{
    if n <= 0 {
        Ok(Seq::<Road>::empty())
    } else {
        match roads_upto(text, places, n - 1) {
            Err(reason) => Err(reason),
            Ok(before) => match road_at(text, places[n - 1], n - 1) {
                Err(reason) => Err(reason),
                Ok(None) => Ok(before),
                Ok(Some(road)) => Ok(before.push(road)),
            },
        }
    }
}

/// The tile that a tile slot holds: two digits of production number, then
/// the letter of its kind.
pub open spec fn tile_at(text: Seq<Seq<char>>, place: (int, int)) -> Result<Tile, Seq<char>> {
    let line = text[place.0];
    match tile_kind_of(line[place.1 + 2]) {
        None => Err(BAD_TILE_KIND@),
        Some(kind) => match (digit_value(line[place.1]), digit_value(line[place.1 + 1])) {
            (Some(tens), Some(ones)) => Ok(Tile { dice: (10 * tens + ones) as u8, kind }),
            _ => Err(BAD_DICE@),
        },
    }
}

/// The tiles in the first `n` tile slots, or the reason for which the first
/// slot that is not valid is not.
pub open spec fn tiles_upto(text: Seq<Seq<char>>, places: Seq<(int, int)>, n: int) -> Result<
    Seq<Tile>,
    Seq<char>,
>
    decreases n,
{
    if n <= 0 {
        Ok(Seq::<Tile>::empty())
    } else {
        match tiles_upto(text, places, n - 1) {
            Err(reason) => Err(reason),
            Ok(before) => match tile_at(text, places[n - 1]) {
                Err(reason) => Err(reason),
                Ok(tile) => Ok(before.push(tile)),
            },
        }
    }
}

/// The tile slot holds the robber: its fourth character is `!`.
pub open spec fn robber_at(text: Seq<Seq<char>>, place: (int, int)) -> bool {
    text[place.0][place.1 + 3] == '!'
}

/// The last of the first `n` tile slots that holds the robber.
pub open spec fn robber_upto(text: Seq<Seq<char>>, places: Seq<(int, int)>, n: int) -> Option<int>
    decreases n,
{
    if n <= 0 {
        None
    } else if robber_at(text, places[n - 1]) {
        Some(n - 1)
    } else {
        robber_upto(text, places, n - 1)
    }
}

/// The line holds the resource counts of the player that `letter` names: it
/// begins with the letter, and a blank or nothing follows.
pub open spec fn is_stock_line(line: Seq<char>, letter: char) -> bool {
    line.len() > 0 && line[0] == letter && (line.len() == 1 || is_blank(line[1]))
}

/// The lines `from..upto` of the text that hold the resource counts of the
/// player that `letter` names.
pub open spec fn stock_lines(text: Seq<Seq<char>>, letter: char, from: int, upto: int) -> Seq<int>
    decreases upto - from,
{
    if upto <= from {
        Seq::<int>::empty()
    } else {
        let before = stock_lines(text, letter, from, upto - 1);
        if is_stock_line(text[upto - 1], letter) {
            before.push(upto - 1)
        } else {
            before
        }
    }
}

/// The largest count that a stock holds.
pub open spec fn max_count() -> int {
    i8::MAX as int
}

/// The stock that a line of resource counts holds: after the player's letter
/// exactly five numbers, for grain, wool, brick, lumber and ore.
pub open spec fn stock_in(line: Seq<char>) -> Option<ResourceCount> {
    let found = fields(line);
    if found.len() == 6 {
        match (
            number(found[1], max_count()),
            number(found[2], max_count()),
            number(found[3], max_count()),
            number(found[4], max_count()),
            number(found[5], max_count()),
        ) {
            (Some(grain), Some(wool), Some(brick), Some(lumber), Some(ore)) => Some(
                ResourceCount {
                    grain: grain as i8,
                    wool: wool as i8,
                    brick: brick as i8,
                    lumber: lumber as i8,
                    ore: ore as i8,
                },
            ),
            _ => None,
        }
    } else {
        None
    }
}

/// The stock of the player that `letter` names, read from the lines of the
/// text from line `from` on: there is exactly one line for the player, and
/// it holds five numbers.
pub open spec fn stock_of(text: Seq<Seq<char>>, letter: char, from: int) -> Result<
    ResourceCount,
    Seq<char>,
> {
    let lines = stock_lines(text, letter, from, text.len() as int);
    if lines.len() != 1 {
        Err(NO_STOCK@)
    } else {
        match stock_in(text[lines[0]]) {
            None => Err(BAD_STOCK@),
            Some(stock) => Ok(stock),
        }
    }
}

/// The stocks of the three players, read from the lines of the text from
/// line `from` on. White's line is looked at first, then Red's, then Blue's.
pub open spec fn stocks_of(text: Seq<Seq<char>>, from: int) -> Result<PlayerResourceCount, Seq<char>> {
    match stock_of(text, Player::White.letter(), from) {
        Err(reason) => Err(reason),
        Ok(white) => match stock_of(text, Player::Red.letter(), from) {
            Err(reason) => Err(reason),
            Ok(red) => match stock_of(text, Player::Blue.letter(), from) {
                Err(reason) => Err(reason),
                Ok(blue) => Ok(PlayerResourceCount { red, blue, white }),
            },
        },
    }
}

/// What a text form holds of a game: the tiles of the board and the state.
pub struct GameView {
    pub tiles: Seq<Tile>,
    pub buildings: Seq<Building>,
    pub roads: Seq<Road>,
    pub robber: RobberId,
    pub resources: PlayerResourceCount,
}

impl View for Game {
    type V = GameView;

    open spec fn view(&self) -> GameView {
        GameView {
            tiles: self.board.tiles@,
            buildings: self.state.buildings@,
            roads: self.state.roads@,
            robber: self.state.robber,
            resources: self.state.resources,
        }
    }
}

/// A stock without resources.
pub open spec fn empty_stock() -> ResourceCount {
    ResourceCount { grain: 0, wool: 0, brick: 0, lumber: 0, ore: 0 }
}

/// The text has the slots of the board: 54 for intersections, 19 for tiles
/// and 72 for edges.
pub open spec fn has_board_slots(template: Seq<Seq<char>>, text: Seq<Seq<char>>) -> bool {
    &&& slots(template, text, Slot::Building).len() == Slot::Building.count()
    &&& slots(template, text, Slot::Tile).len() == Slot::Tile.count()
    &&& slots(template, text, Slot::Edge).len() == Slot::Edge.count()
}

/// What the lines of a text hold, read against the lines of a template, or
/// the reason for which the text is refused.
///
/// The checks are made in this order, and the first that fails gives the
/// reason: the number of slots; the intersection slots, by number, in each
/// the kind of building before the owner; the edge slots; the tile slots, in
/// each the kind before the production number; the robber; and, in the full
/// form, the lines of resource counts that follow the lines of the template.
pub open spec fn decoded_lines(template: Seq<Seq<char>>, text: Seq<Seq<char>>, form: TextForm) -> Result<
    GameView,
    Seq<char>,
> {
    let tile_places = slots(template, text, Slot::Tile);
    if !has_board_slots(template, text) {
        Err(BAD_SLOT_COUNT@)
    } else {
        match buildings_upto(
            text,
            slots(template, text, Slot::Building),
            Slot::Building.count(),
        ) {
            Err(reason) => Err(reason),
            Ok(buildings) => match roads_upto(
                text,
                slots(template, text, Slot::Edge),
                Slot::Edge.count(),
            ) {
                Err(reason) => Err(reason),
                Ok(roads) => match tiles_upto(text, tile_places, Slot::Tile.count()) {
                    Err(reason) => Err(reason),
                    Ok(tiles) => match robber_upto(text, tile_places, Slot::Tile.count()) {
                        None => Err(NO_ROBBER@),
                        Some(robber) => match form {
                            TextForm::Minimal => Ok(
                                GameView {
                                    tiles,
                                    buildings,
                                    roads,
                                    robber: RobberId(robber as usize),
                                    resources: PlayerResourceCount {
                                        red: empty_stock(),
                                        blue: empty_stock(),
                                        white: empty_stock(),
                                    },
                                },
                            ),
                            TextForm::Full => match stocks_of(text, template.len() as int) {
                                Err(reason) => Err(reason),
                                Ok(resources) => Ok(
                                    GameView {
                                        tiles,
                                        buildings,
                                        roads,
                                        robber: RobberId(robber as usize),
                                        resources,
                                    },
                                ),
                            },
                        },
                    },
                },
            },
        }
    }
}

/// What a text holds, read against a template, or the reason for which it is
/// refused.
pub open spec fn decoded(template: Seq<char>, text: Seq<char>, form: TextForm) -> Result<
    GameView,
    Seq<char>,
> {
    decoded_lines(split_lines(template), split_lines(text), form)
}

/// The places that a list holds, as pairs of integers.
spec fn places(list: Seq<(usize, usize)>) -> Seq<(int, int)> {
    Seq::new(list.len(), |k: int| (list[k].0 as int, list[k].1 as int))
}

/// Every place is within the text, with `width` columns from its column on.
spec fn within(list: Seq<(usize, usize)>, text: Seq<Seq<char>>, width: int) -> bool {
    forall|k: int|
        0 <= k < list.len() ==> (#[trigger] list[k]).0 < text.len() && list[k].1 + width
            <= text[list[k].0 as int].len()
}

/// The mark that begins at column `j` of a template line, if one does.
fn token_of(line: &Vec<char>, j: usize) -> (token: Option<Slot>)
    requires
        j < line.len(),
    ensures
        token == token_at(line@, j as int),
{
    let left = line.len() - j;
    if left >= 4 && line[j] == 'T' && line[j + 1] == 'T' && line[j + 2] == 'T' && line[j + 3]
        == 'T' {
        Some(Slot::Tile)
    } else if left >= 2 && line[j] == 'B' && line[j + 1] == 'B' {
        Some(Slot::Building)
    } else if line[j] == '*' {
        Some(Slot::Edge)
    } else {
        None
    }
}

/// The slots that a text has, kind by kind: those of intersections, of tiles
/// and of edges.
fn scan_slots(template: &Vec<Vec<char>>, text: &Vec<Vec<char>>) -> (found: (
    Vec<(usize, usize)>,
    Vec<(usize, usize)>,
    Vec<(usize, usize)>,
))
    ensures
        places(found.0@) == slots(rows(template@), rows(text@), Slot::Building),
        places(found.1@) == slots(rows(template@), rows(text@), Slot::Tile),
        places(found.2@) == slots(rows(template@), rows(text@), Slot::Edge),
        within(found.0@, rows(text@), 2),
        within(found.1@, rows(text@), 4),
        within(found.2@, rows(text@), 1),
{
    let mut buildings: Vec<(usize, usize)> = Vec::new();
    let mut tiles: Vec<(usize, usize)> = Vec::new();
    let mut edges: Vec<(usize, usize)> = Vec::new();
    let ghost tl = rows(template@);
    let ghost sl = rows(text@);
    let mut i: usize = 0;
    while i < template.len()
        invariant
            i <= template.len(),
            tl == rows(template@),
            sl == rows(text@),
            places(buildings@) == slots_upto(tl, sl, Slot::Building, i as int),
            places(tiles@) == slots_upto(tl, sl, Slot::Tile, i as int),
            places(edges@) == slots_upto(tl, sl, Slot::Edge, i as int),
            within(buildings@, sl, 2),
            within(tiles@, sl, 4),
            within(edges@, sl, 1),
        decreases template.len() - i,
    {
        let line = &template[i];
        let room: usize = if i < text.len() {
            text[i].len()
        } else {
            0
        };
        assert(room == avail(sl, i as int));
        assert(tl[i as int] == line@);
        let mut j: usize = 0;
        while j < line.len()
            invariant
                i < template.len(),
                j <= line.len(),
                sl == rows(text@),
                room == avail(sl, i as int),
                places(buildings@) + line_slots(line@, i as int, j as int, Slot::Building, room as int)
                    == slots_upto(tl, sl, Slot::Building, i as int) + line_slots(
                    line@,
                    i as int,
                    0,
                    Slot::Building,
                    room as int,
                ),
                places(tiles@) + line_slots(line@, i as int, j as int, Slot::Tile, room as int)
                    == slots_upto(tl, sl, Slot::Tile, i as int) + line_slots(
                    line@,
                    i as int,
                    0,
                    Slot::Tile,
                    room as int,
                ),
                places(edges@) + line_slots(line@, i as int, j as int, Slot::Edge, room as int)
                    == slots_upto(tl, sl, Slot::Edge, i as int) + line_slots(
                    line@,
                    i as int,
                    0,
                    Slot::Edge,
                    room as int,
                ),
                within(buildings@, sl, 2),
                within(tiles@, sl, 4),
                within(edges@, sl, 1),
            decreases line.len() - j,
        {
            let ghost b0 = places(buildings@);
            let ghost t0 = places(tiles@);
            let ghost e0 = places(edges@);
            let ghost here = seq![(i as int, j as int)];
            match token_of(line, j) {
                Some(Slot::Building) => {
                    if room >= 2 && j <= room - 2 {
                        buildings.push((i, j));
                        assert(places(buildings@) == b0 + here);
                    }
                    assert(places(buildings@) + line_slots(
                        line@,
                        i as int,
                        j + 2,
                        Slot::Building,
                        room as int,
                    ) == b0 + line_slots(line@, i as int, j as int, Slot::Building, room as int));
                    j += 2;
                },
                Some(Slot::Tile) => {
                    if room >= 4 && j <= room - 4 {
                        tiles.push((i, j));
                        assert(places(tiles@) == t0 + here);
                    }
                    assert(places(tiles@) + line_slots(
                        line@,
                        i as int,
                        j + 4,
                        Slot::Tile,
                        room as int,
                    ) == t0 + line_slots(line@, i as int, j as int, Slot::Tile, room as int));
                    j += 4;
                },
                Some(Slot::Edge) => {
                    if room >= 1 && j <= room - 1 {
                        edges.push((i, j));
                        assert(places(edges@) == e0 + here);
                    }
                    assert(places(edges@) + line_slots(
                        line@,
                        i as int,
                        j + 1,
                        Slot::Edge,
                        room as int,
                    ) == e0 + line_slots(line@, i as int, j as int, Slot::Edge, room as int));
                    j += 1;
                },
                None => {
                    j += 1;
                },
            }
        }
        i += 1;
    }
    (buildings, tiles, edges)
}

/// Once a slot was refused, the reason stays whatever follows.
proof fn lemma_buildings_refused(text: Seq<Seq<char>>, list: Seq<(int, int)>, n: int, m: int)
    requires
        0 <= n <= m,
        buildings_upto(text, list, n) is Err,
    ensures
        buildings_upto(text, list, m) == buildings_upto(text, list, n),
    decreases m - n,
{
    if n < m {
        lemma_buildings_refused(text, list, n, m - 1);
    }
}

/// Once a slot was refused, the reason stays whatever follows.
proof fn lemma_roads_refused(text: Seq<Seq<char>>, list: Seq<(int, int)>, n: int, m: int)
    requires
        0 <= n <= m,
        roads_upto(text, list, n) is Err,
    ensures
        roads_upto(text, list, m) == roads_upto(text, list, n),
    decreases m - n,
{
    if n < m {
        lemma_roads_refused(text, list, n, m - 1);
    }
}

/// Once a slot was refused, the reason stays whatever follows.
proof fn lemma_tiles_refused(text: Seq<Seq<char>>, list: Seq<(int, int)>, n: int, m: int)
    requires
        0 <= n <= m,
        tiles_upto(text, list, n) is Err,
    ensures
        tiles_upto(text, list, m) == tiles_upto(text, list, n),
    decreases m - n,
{
    if n < m {
        lemma_tiles_refused(text, list, n, m - 1);
    }
}

/// Reads the intersection slots, in the order of their numbers.
fn read_buildings(text: &Vec<Vec<char>>, list: &Vec<(usize, usize)>) -> (r: Result<
    Vec<Building>,
    &'static str,
>)
    requires
        within(list@, rows(text@), 2),
    ensures
        match r {
            Ok(buildings) => {
                &&& buildings_upto(rows(text@), places(list@), list.len() as int) == Ok::<
                    Seq<Building>,
                    Seq<char>,
                >(buildings@)
                &&& forall|k: int|
                    0 <= k < buildings.len() ==> (#[trigger] buildings[k]).intersection_id.0
                        < list.len()
            },
            Err(reason) => buildings_upto(rows(text@), places(list@), list.len() as int) == Err::<
                Seq<Building>,
                Seq<char>,
            >(reason@),
        },
{
    let ghost sl = rows(text@);
    let ghost pl = places(list@);
    let mut buildings: Vec<Building> = Vec::new();
    let mut id: usize = 0;
    while id < list.len()
        invariant
            id <= list.len(),
            sl == rows(text@),
            pl == places(list@),
            within(list@, sl, 2),
            buildings_upto(sl, pl, id as int) == Ok::<Seq<Building>, Seq<char>>(buildings@),
            forall|k: int|
                0 <= k < buildings.len() ==> (#[trigger] buildings[k]).intersection_id.0 < id,
        decreases list.len() - id,
    {
        let place = list[id];
        assert(place == list@[id as int]);
        assert(pl[id as int] == (place.0 as int, place.1 as int));
        let row = &text[place.0];
        assert(sl[place.0 as int] == row@);
        assert(place.1 + 2 <= row.len());
        let first = row[place.1];
        let second = row[place.1 + 1];
        if first != 'o' {
            let kind = match BuildingKind::try_from(second) {
                Ok(kind) => kind,
                Err(reason) => {
                    proof {
                        lemma_buildings_refused(sl, pl, id + 1, list.len() as int);
                    }
                    return Err(reason);
                },
            };
            let player = match Player::try_from(first) {
                Ok(player) => player,
                Err(reason) => {
                    proof {
                        lemma_buildings_refused(sl, pl, id + 1, list.len() as int);
                    }
                    return Err(reason);
                },
            };
            buildings.push(Building { intersection_id: IntersectionId(id), kind, player });
        }
        id += 1;
    }
    Ok(buildings)
}

/// Reads the edge slots, in the order of their numbers.
fn read_roads(text: &Vec<Vec<char>>, list: &Vec<(usize, usize)>) -> (r: Result<
    Vec<Road>,
    &'static str,
>)
    requires
        within(list@, rows(text@), 1),
    ensures
        match r {
            Ok(roads) => {
                &&& roads_upto(rows(text@), places(list@), list.len() as int) == Ok::<
                    Seq<Road>,
                    Seq<char>,
                >(roads@)
                &&& forall|k: int| 0 <= k < roads.len() ==> (#[trigger] roads[k]).id.0 < list.len()
            },
            Err(reason) => roads_upto(rows(text@), places(list@), list.len() as int) == Err::<
                Seq<Road>,
                Seq<char>,
            >(reason@),
        },
{
    let ghost sl = rows(text@);
    let ghost pl = places(list@);
    let mut roads: Vec<Road> = Vec::new();
    let mut id: usize = 0;
    while id < list.len()
        invariant
            id <= list.len(),
            sl == rows(text@),
            pl == places(list@),
            within(list@, sl, 1),
            roads_upto(sl, pl, id as int) == Ok::<Seq<Road>, Seq<char>>(roads@),
            forall|k: int| 0 <= k < roads.len() ==> (#[trigger] roads[k]).id.0 < id,
        decreases list.len() - id,
    {
        let place = list[id];
        assert(place == list@[id as int]);
        assert(pl[id as int] == (place.0 as int, place.1 as int));
        let row = &text[place.0];
        assert(sl[place.0 as int] == row@);
        assert(place.1 + 1 <= row.len());
        let first = row[place.1];
        if first != '.' {
            let player = match Player::try_from(first) {
                Ok(player) => player,
                Err(reason) => {
                    proof {
                        lemma_roads_refused(sl, pl, id + 1, list.len() as int);
                    }
                    return Err(reason);
                },
            };
            roads.push(Road { id: PathId(id), player });
        }
        id += 1;
    }
    Ok(roads)
}

/// Reads the tile slots, in the order of their numbers: the tiles, and the
/// last slot that holds the robber.
fn read_tiles(text: &Vec<Vec<char>>, list: &Vec<(usize, usize)>) -> (r: Result<
    (Vec<Tile>, Option<usize>),
    &'static str,
>)
    requires
        within(list@, rows(text@), 4),
    ensures
        match r {
            Ok((tiles, robber)) => {
                &&& tiles_upto(rows(text@), places(list@), list.len() as int) == Ok::<
                    Seq<Tile>,
                    Seq<char>,
                >(tiles@)
                &&& tiles.len() == list.len()
                &&& match robber {
                    Some(id) => robber_upto(rows(text@), places(list@), list.len() as int) == Some(
                        id as int,
                    ) && id < list.len(),
                    None => robber_upto(rows(text@), places(list@), list.len() as int) is None,
                }
            },
            Err(reason) => tiles_upto(rows(text@), places(list@), list.len() as int) == Err::<
                Seq<Tile>,
                Seq<char>,
            >(reason@),
        },
{
    let ghost sl = rows(text@);
    let ghost pl = places(list@);
    let mut tiles: Vec<Tile> = Vec::new();
    let mut robber: Option<usize> = None;
    let mut id: usize = 0;
    while id < list.len()
        invariant
            id <= list.len(),
            sl == rows(text@),
            pl == places(list@),
            within(list@, sl, 4),
            tiles_upto(sl, pl, id as int) == Ok::<Seq<Tile>, Seq<char>>(tiles@),
            tiles.len() == id,
            match robber {
                Some(at) => robber_upto(sl, pl, id as int) == Some(at as int) && at < id,
                None => robber_upto(sl, pl, id as int) is None,
            },
        decreases list.len() - id,
    {
        let place = list[id];
        assert(place == list@[id as int]);
        assert(pl[id as int] == (place.0 as int, place.1 as int));
        let row = &text[place.0];
        assert(sl[place.0 as int] == row@);
        assert(place.1 + 4 <= row.len());
        let line = row;
        if line[place.1 + 3] == '!' {
            robber = Some(id);
        }
        let kind = match TileKind::try_from(line[place.1 + 2]) {
            Ok(kind) => kind,
            Err(reason) => {
                proof {
                    lemma_tiles_refused(sl, pl, id + 1, list.len() as int);
                }
                return Err(reason);
            },
        };
        let dice = match (digit_of(line[place.1]), digit_of(line[place.1 + 1])) {
            (Some(tens), Some(ones)) => 10 * tens + ones,
            _ => {
                proof {
                    lemma_tiles_refused(sl, pl, id + 1, list.len() as int);
                }
                return Err(BAD_DICE);
            },
        };
        tiles.push(Tile { dice, kind });
        id += 1;
    }
    Ok((tiles, robber))
}

/// The lines that a list holds, as integers.
spec fn line_numbers(list: Seq<usize>) -> Seq<int> {
    Seq::new(list.len(), |k: int| list[k] as int)
}

/// Reads the stock of the player that `letter` names from the lines of the
/// text from line `from` on.
fn read_stock(text: &Vec<Vec<char>>, letter: char, from: usize) -> (r: Result<
    ResourceCount,
    &'static str,
>)
    ensures
        match r {
            Ok(stock) => stock_of(rows(text@), letter, from as int) == Ok::<
                ResourceCount,
                Seq<char>,
            >(stock),
            Err(reason) => stock_of(rows(text@), letter, from as int) == Err::<
                ResourceCount,
                Seq<char>,
            >(reason@),
        },
{
    let ghost sl = rows(text@);
    if from >= text.len() {
        return Err(NO_STOCK);
    }
    let mut found: Vec<usize> = Vec::new();
    let mut i: usize = from;
    while i < text.len()
        invariant
            from <= i <= text.len(),
            sl == rows(text@),
            line_numbers(found@) == stock_lines(sl, letter, from as int, i as int),
            forall|k: int| 0 <= k < found.len() ==> #[trigger] found[k] < text.len(),
        decreases text.len() - i,
    {
        let line = &text[i];
        assert(sl[i as int] == line@);
        let ghost before = line_numbers(found@);
        if line.len() > 0 && line[0] == letter && (line.len() == 1 || is_blank_char(line[1])) {
            found.push(i);
            assert(line_numbers(found@) == before.push(i as int));
        }
        i += 1;
    }
    if found.len() != 1 {
        return Err(NO_STOCK);
    }
    assert(line_numbers(found@)[0] == found[0]);
    let line = &text[found[0]];
    assert(sl[found[0] as int] == line@);
    let found_fields = fields_of(line);
    if found_fields.len() != 6 {
        return Err(BAD_STOCK);
    }
    let ghost fl = rows(found_fields@);
    assert(fl == fields(line@));
    assert(fl[1] == found_fields[1]@);
    assert(fl[2] == found_fields[2]@);
    assert(fl[3] == found_fields[3]@);
    assert(fl[4] == found_fields[4]@);
    assert(fl[5] == found_fields[5]@);
    match (
        number_of(&found_fields[1], 127),
        number_of(&found_fields[2], 127),
        number_of(&found_fields[3], 127),
        number_of(&found_fields[4], 127),
        number_of(&found_fields[5], 127),
    ) {
        (Some(grain), Some(wool), Some(brick), Some(lumber), Some(ore)) => Ok(
            ResourceCount {
                grain: grain as i8,
                wool: wool as i8,
                brick: brick as i8,
                lumber: lumber as i8,
                ore: ore as i8,
            },
        ),
        _ => Err(BAD_STOCK),
    }
}

/// Reads the stocks of the three players from the lines of the text from
/// line `from` on.
fn read_stocks(text: &Vec<Vec<char>>, from: usize) -> (r: Result<PlayerResourceCount, &'static str>)
    ensures
        match r {
            Ok(stocks) => stocks_of(rows(text@), from as int) == Ok::<
                PlayerResourceCount,
                Seq<char>,
            >(stocks),
            Err(reason) => stocks_of(rows(text@), from as int) == Err::<
                PlayerResourceCount,
                Seq<char>,
            >(reason@),
        },
{
    let white = match read_stock(text, 'W', from) {
        Ok(stock) => stock,
        Err(reason) => {
            return Err(reason);
        },
    };
    let red = match read_stock(text, 'R', from) {
        Ok(stock) => stock,
        Err(reason) => {
            return Err(reason);
        },
    };
    let blue = match read_stock(text, 'B', from) {
        Ok(stock) => stock,
        Err(reason) => {
            return Err(reason);
        },
    };
    Ok(PlayerResourceCount { red, blue, white })
}

/// Reads a game from a text in the layout that `template` gives.
///
/// The text is refused, with the reason, if it has not the slots of the
/// board (54 for intersections, 19 for tiles, 72 for edges), if a slot holds
/// what stands for nothing, if no tile holds the robber or, in the full
/// form, if the lines after the board do not hold the stock of each player
/// once. The board of the game is the standard board with the tiles read.
pub fn decode_with(template: &str, text: &str, form: TextForm) -> (r: Result<Game, &'static str>)
    ensures
        match r {
            Ok(game) => {
                &&& decoded(template@, text@, form) == Ok::<GameView, Seq<char>>(game@)
                &&& game.board.is_standard()
                &&& game.wf()
            },
            Err(reason) => decoded(template@, text@, form) == Err::<GameView, Seq<char>>(reason@),
        },
        !has_board_slots(split_lines(template@), split_lines(text@)) ==> r is Err,
{
    let template_chars = chars_of(template);
    let text_chars = chars_of(text);
    let template_lines = lines_of(&template_chars);
    let text_lines = lines_of(&text_chars);
    let ghost tl = rows(template_lines@);
    let ghost sl = rows(text_lines@);
    let (building_places, tile_places, edge_places) = scan_slots(&template_lines, &text_lines);
    if building_places.len() != INTERSECTIONS || tile_places.len() != TILES || edge_places.len()
        != PATHS {
        return Err(BAD_SLOT_COUNT);
    }
    let buildings = match read_buildings(&text_lines, &building_places) {
        Ok(buildings) => buildings,
        Err(reason) => {
            return Err(reason);
        },
    };
    let roads = match read_roads(&text_lines, &edge_places) {
        Ok(roads) => roads,
        Err(reason) => {
            return Err(reason);
        },
    };
    let (tiles, robber) = match read_tiles(&text_lines, &tile_places) {
        Ok(read) => read,
        Err(reason) => {
            return Err(reason);
        },
    };
    let robber = match robber {
        Some(id) => RobberId(id),
        None => {
            return Err(NO_ROBBER);
        },
    };
    let resources = match form {
        TextForm::Minimal => {
            let none = ResourceCount { grain: 0, wool: 0, brick: 0, lumber: 0, ore: 0 };
            PlayerResourceCount { red: none, blue: none, white: none }
        },
        TextForm::Full => match read_stocks(&text_lines, template_lines.len()) {
            Ok(stocks) => stocks,
            Err(reason) => {
                return Err(reason);
            },
        },
    };
    let tiles: [Tile; 19] = [
        tiles[0],
        tiles[1],
        tiles[2],
        tiles[3],
        tiles[4],
        tiles[5],
        tiles[6],
        tiles[7],
        tiles[8],
        tiles[9],
        tiles[10],
        tiles[11],
        tiles[12],
        tiles[13],
        tiles[14],
        tiles[15],
        tiles[16],
        tiles[17],
        tiles[18],
    ];
    let board = Board::new(tiles);
    assert(board.tiles@ =~= tiles_upto(sl, places(tile_places@), 19)->Ok_0);
    Ok(Game { board, state: State { buildings, roads, robber, resources } })
}

/// The building that the text shows on intersection `id`: the last of the
/// list that stands there.
pub open spec fn building_on(buildings: Seq<Building>, id: int) -> Option<Building>
    decreases buildings.len(),
{
    if buildings.len() == 0 {
        None
    } else if buildings.last().intersection_id.0 == id {
        Some(buildings.last())
    } else {
        building_on(buildings.drop_last(), id)
    }
}

/// The road that the text shows on edge `id`: the last of the list that lies
/// there.
pub open spec fn road_on(roads: Seq<Road>, id: int) -> Option<Road>
    decreases roads.len(),
{
    if roads.len() == 0 {
        None
    } else if roads.last().id.0 == id {
        Some(roads.last())
    } else {
        road_on(roads.drop_last(), id)
    }
}

/// What an intersection slot holds: `oo` without a building, else the letter
/// of the owner and that of the kind.
pub open spec fn building_text(building: Option<Building>) -> Seq<char> {
    match building {
        None => seq!['o', 'o'],
        Some(b) => seq![b.player.letter(), b.kind.letter()],
    }
}

/// What an edge slot holds: `.` without a road, else the letter of the
/// owner.
pub open spec fn road_text(road: Option<Road>) -> Seq<char> {
    match road {
        None => seq!['.'],
        Some(r) => seq![r.player.letter()],
    }
}

/// What a tile slot holds: the production number in two digits, the letter
/// of the kind, and `!` where the robber stands on the tile, else a blank.
pub open spec fn tile_text(tile: Tile, robber: bool) -> Seq<char> {
    two_digits(tile.dice as int).push(tile.kind.letter()).push(
        if robber {
            '!'
        } else {
            ' '
        },
    )
}

/// What stands in the text for the mark of slot `n` of a kind: the content
/// of the slot, or the mark itself where the board has no such slot.
pub open spec fn slot_text(game: GameView, kind: Slot, n: int, mark: Seq<char>) -> Seq<char> {
    if n < 0 || n >= kind.count() {
        mark
    } else {
        match kind {
            Slot::Building => building_text(building_on(game.buildings, n)),
            Slot::Tile => tile_text(game.tiles[n], game.robber.0 == n),
            Slot::Edge => road_text(road_on(game.roads, n)),
        }
    }
}

/// How many marks of each kind were met.
pub struct Marks {
    pub buildings: int,
    pub tiles: int,
    pub edges: int,
}

impl Marks {
    /// The marks met of one kind.
    pub open spec fn of(self, kind: Slot) -> int {
        match kind {
            Slot::Building => self.buildings,
            Slot::Tile => self.tiles,
            Slot::Edge => self.edges,
        }
    }

    /// One more mark of a kind.
    pub open spec fn and_one(self, kind: Slot) -> Marks {
        match kind {
            Slot::Building => Marks { buildings: self.buildings + 1, ..self },
            Slot::Tile => Marks { tiles: self.tiles + 1, ..self },
            Slot::Edge => Marks { edges: self.edges + 1, ..self },
        }
    }
}

/// The marks met once a template line was scanned from column `j` to its
/// end, where `met` were met before.
pub open spec fn marks_after(line: Seq<char>, j: int, met: Marks) -> Marks
    decreases line.len() - j,
{
    if j < 0 || j >= line.len() {
        met
    } else {
        match token_at(line, j) {
            None => marks_after(line, j + 1, met),
            Some(kind) => marks_after(line, j + kind.width(), met.and_one(kind)),
        }
    }
}

/// A template line from column `j` to its end, with each mark replaced by
/// the content of its slot, where `met` marks were met before.
pub open spec fn line_text(line: Seq<char>, j: int, met: Marks, game: GameView) -> Seq<char>
    decreases line.len() - j,
{
    if j < 0 || j >= line.len() {
        Seq::<char>::empty()
    } else {
        match token_at(line, j) {
            None => seq![line[j]] + line_text(line, j + 1, met, game),
            Some(kind) => slot_text(game, kind, met.of(kind), line.subrange(j, j + kind.width()))
                + line_text(line, j + kind.width(), met.and_one(kind), game),
        }
    }
}

/// The marks met in the first `n` lines of a template.
pub open spec fn marks_upto(template: Seq<Seq<char>>, n: int) -> Marks
    decreases n,
{
    if n <= 0 {
        Marks { buildings: 0, tiles: 0, edges: 0 }
    } else {
        marks_after(template[n - 1], 0, marks_upto(template, n - 1))
    }
}

/// The lines of a template, with each mark replaced by the content of its
/// slot.
pub open spec fn board_lines(template: Seq<Seq<char>>, game: GameView) -> Seq<Seq<char>> {
    Seq::new(
        template.len(),
        |i: int| line_text(template[i], 0, marks_upto(template, i), game),
    )
}

/// The line of a player's resource counts: the letter of the player, then
/// the counts of grain, wool, brick, lumber and ore, each after one blank.
pub open spec fn stock_text(letter: char, stock: ResourceCount) -> Seq<char> {
    seq![letter, ' '] + signed_decimal(stock.grain as int) + seq![' '] + signed_decimal(
        stock.wool as int,
    ) + seq![' '] + signed_decimal(stock.brick as int) + seq![' '] + signed_decimal(
        stock.lumber as int,
    ) + seq![' '] + signed_decimal(stock.ore as int)
}

/// The lines of the resource counts of White, Red and Blue.
pub open spec fn stock_rows(stocks: PlayerResourceCount) -> Seq<Seq<char>> {
    seq![
        stock_text('W', stocks.white),
        stock_text('R', stocks.red),
        stock_text('B', stocks.blue),
    ]
}

/// The lines of the text of a game: those of the template with the mark of
/// each slot of the board replaced by what the slot holds and, in the full
/// form, the three lines of resource counts after them.
pub open spec fn text_lines(template: Seq<Seq<char>>, game: GameView, form: TextForm) -> Seq<
    Seq<char>,
> {
    match form {
        TextForm::Minimal => board_lines(template, game),
        TextForm::Full => board_lines(template, game) + stock_rows(game.resources),
    }
}

/// The text of a game in the layout that the template gives.
pub open spec fn encoded(template: Seq<char>, game: GameView, form: TextForm) -> Seq<char> {
    let lines = text_lines(split_lines(template), game, form);
    join_lines(lines, lines.len() as int)
}

/// The counter holds the number of marks met, or the limit where more were
/// met.
spec fn capped(counter: usize, met: int, limit: usize) -> bool {
    0 <= met && counter == if met < limit {
        met
    } else {
        limit as int
    }
}

/// For each intersection of the board, the building that the text shows on
/// it.
fn buildings_by_place(buildings: &Vec<Building>) -> (table: Vec<Option<Building>>)
    ensures
        table.len() == INTERSECTIONS,
        forall|id: int|
            0 <= id < INTERSECTIONS ==> #[trigger] table[id] == building_on(buildings@, id),
{
    let mut table: Vec<Option<Building>> = Vec::new();
    let mut id: usize = 0;
    while id < INTERSECTIONS
        invariant
            id <= INTERSECTIONS,
            table.len() == id,
            forall|k: int| 0 <= k < id ==> #[trigger] table[k] is None,
        decreases INTERSECTIONS - id,
    {
        table.push(None);
        id += 1;
    }
    let mut k: usize = 0;
    while k < buildings.len()
        invariant
            k <= buildings.len(),
            table.len() == INTERSECTIONS,
            forall|id: int|
                0 <= id < INTERSECTIONS ==> #[trigger] table[id] == building_on(
                    buildings@.take(k as int),
                    id,
                ),
        decreases buildings.len() - k,
    {
        let building = buildings[k];
        proof {
            let next = buildings@.take(k + 1);
            assert(next.drop_last() == buildings@.take(k as int));
            assert(next.last() == building);
        }
        if building.intersection_id.0 < INTERSECTIONS {
            table.set(building.intersection_id.0, Some(building));
        }
        k += 1;
    }
    assert(buildings@.take(k as int) == buildings@);
    table
}

/// For each edge of the board, the road that the text shows on it.
fn roads_by_place(roads: &Vec<Road>) -> (table: Vec<Option<Road>>)
    ensures
        table.len() == PATHS,
        forall|id: int| 0 <= id < PATHS ==> #[trigger] table[id] == road_on(roads@, id),
{
    let mut table: Vec<Option<Road>> = Vec::new();
    let mut id: usize = 0;
    while id < PATHS
        invariant
            id <= PATHS,
            table.len() == id,
            forall|k: int| 0 <= k < id ==> #[trigger] table[k] is None,
        decreases PATHS - id,
    {
        table.push(None);
        id += 1;
    }
    let mut k: usize = 0;
    while k < roads.len()
        invariant
            k <= roads.len(),
            table.len() == PATHS,
            forall|id: int|
                0 <= id < PATHS ==> #[trigger] table[id] == road_on(roads@.take(k as int), id),
        decreases roads.len() - k,
    {
        let road = roads[k];
        proof {
            let next = roads@.take(k + 1);
            assert(next.drop_last() == roads@.take(k as int));
            assert(next.last() == road);
        }
        if road.id.0 < PATHS {
            table.set(road.id.0, Some(road));
        }
        k += 1;
    }
    assert(roads@.take(k as int) == roads@);
    table
}

/// Appends the line of a player's resource counts.
fn push_stock(out: &mut String, letter: char, stock: &ResourceCount)
    ensures
        final(out)@ == old(out)@ + stock_text(letter, *stock),
{
    out.push(letter);
    out.push(' ');
    push_signed_decimal(out, stock.grain);
    out.push(' ');
    push_signed_decimal(out, stock.wool);
    out.push(' ');
    push_signed_decimal(out, stock.brick);
    out.push(' ');
    push_signed_decimal(out, stock.lumber);
    out.push(' ');
    push_signed_decimal(out, stock.ore);
    assert(out@ == old(out)@ + stock_text(letter, *stock));
}

/// Writes a game as a text in the layout that `template` gives.
///
/// The text is the template with the mark of each slot of the board
/// replaced by what the slot holds; marks beyond the slots of the board stay
/// as they are. In the full form one line of resource counts for each of
/// White, Red and Blue follows.
///
/// Where the template has the marks of the board and the game can be
/// written, the text reads back, without fault, as what it holds of the
/// game; and what it holds of the game is written as the same text.
pub fn encode_with(template: &str, game: &Game, form: TextForm) -> (text: String)
    ensures
        text@ == encoded(template@, game@, form),
        fits_board(split_lines(template@)) && writable(game@, form) ==> decoded(
            template@,
            text@,
            form,
        ) == Ok::<GameView, Seq<char>>(shown(game@, form)),
        encoded(template@, shown(game@, form), form) == text@,
{
    proof {
        if fits_board(split_lines(template@)) && writable(game@, form) {
            lemma_text_reads_back(template@, game@, form);
        }
        lemma_shown_is_written_alike(template@, game@, form);
    }
    let template_chars = chars_of(template);
    let lines = lines_of(&template_chars);
    let ghost tl = rows(lines@);
    let ghost view = game@;
    let buildings = buildings_by_place(&game.state.buildings);
    let roads = roads_by_place(&game.state.roads);
    let mut out = String::new();
    let mut met_buildings: usize = 0;
    let mut met_tiles: usize = 0;
    let mut met_edges: usize = 0;
    let ghost mut met = Marks { buildings: 0, tiles: 0, edges: 0 };
    let mut i: usize = 0;
    while i < lines.len()
        invariant
            i <= lines.len(),
            tl == rows(lines@),
            view == game@,
            buildings.len() == INTERSECTIONS,
            roads.len() == PATHS,
            forall|id: int|
                0 <= id < INTERSECTIONS ==> #[trigger] buildings[id] == building_on(
                    view.buildings,
                    id,
                ),
            forall|id: int| 0 <= id < PATHS ==> #[trigger] roads[id] == road_on(view.roads, id),
            out@ == join_lines(board_lines(tl, view), i as int),
            marks_upto(tl, i as int) == met,
            capped(met_buildings, met.buildings, INTERSECTIONS),
            capped(met_tiles, met.tiles, TILES),
            capped(met_edges, met.edges, PATHS),
        decreases lines.len() - i,
    {
        let line = &lines[i];
        assert(tl[i as int] == line@);
        let ghost at_start = met;
        if i > 0 {
            out.push('\n');
        }
        let ghost head = out@;
        let mut j: usize = 0;
        while j < line.len()
            invariant
                j <= line.len(),
                view == game@,
                buildings.len() == INTERSECTIONS,
                roads.len() == PATHS,
                forall|id: int|
                    0 <= id < INTERSECTIONS ==> #[trigger] buildings[id] == building_on(
                        view.buildings,
                        id,
                    ),
                forall|id: int| 0 <= id < PATHS ==> #[trigger] roads[id] == road_on(view.roads, id),
                capped(met_buildings, met.buildings, INTERSECTIONS),
                capped(met_tiles, met.tiles, TILES),
                capped(met_edges, met.edges, PATHS),
                out@ + line_text(line@, j as int, met, view) == head + line_text(
                    line@,
                    0,
                    at_start,
                    view,
                ),
                marks_after(line@, j as int, met) == marks_after(line@, 0, at_start),
            decreases line.len() - j,
        {
            let ghost so_far = out@;
            let ghost rest = line_text(line@, j as int, met, view);
            match token_of(line, j) {
                None => {
                    out.push(line[j]);
                    assert(out@ == so_far + seq![line@[j as int]]);
                    assert(out@ + line_text(line@, j + 1, met, view) == so_far + rest);
                    j += 1;
                },
                Some(Slot::Building) => {
                    let ghost cell = slot_text(
                        view,
                        Slot::Building,
                        met.buildings,
                        line@.subrange(j as int, j + 2),
                    );
                    if met_buildings < INTERSECTIONS {
                        match buildings[met_buildings] {
                            None => {
                                out.push('o');
                                out.push('o');
                            },
                            Some(building) => {
                                out.push(char::from(building.player));
                                out.push(building.kind.to_char());
                            },
                        }
                        met_buildings += 1;
                    } else {
                        push_chars(&mut out, line, j, j + 2);
                    }
                    assert(out@ == so_far + cell);
                    proof {
                        met = met.and_one(Slot::Building);
                    }
                    assert(out@ + line_text(line@, j + 2, met, view) == so_far + rest);
                    j += 2;
                },
                Some(Slot::Tile) => {
                    let ghost cell = slot_text(
                        view,
                        Slot::Tile,
                        met.tiles,
                        line@.subrange(j as int, j + 4),
                    );
                    if met_tiles < TILES {
                        let tile = game.board.tiles[met_tiles];
                        push_two_digits(&mut out, tile.dice);
                        out.push(char::from(tile.kind));
                        if RobberId(met_tiles) == game.state.robber {
                            out.push('!');
                        } else {
                            out.push(' ');
                        }
                        met_tiles += 1;
                    } else {
                        push_chars(&mut out, line, j, j + 4);
                    }
                    assert(out@ == so_far + cell);
                    proof {
                        met = met.and_one(Slot::Tile);
                    }
                    assert(out@ + line_text(line@, j + 4, met, view) == so_far + rest);
                    j += 4;
                },
                Some(Slot::Edge) => {
                    let ghost cell = slot_text(
                        view,
                        Slot::Edge,
                        met.edges,
                        line@.subrange(j as int, j + 1),
                    );
                    if met_edges < PATHS {
                        match roads[met_edges] {
                            None => {
                                out.push('.');
                            },
                            Some(road) => {
                                out.push(char::from(road.player));
                            },
                        }
                        met_edges += 1;
                    } else {
                        push_chars(&mut out, line, j, j + 1);
                    }
                    assert(out@ == so_far + cell);
                    proof {
                        met = met.and_one(Slot::Edge);
                    }
                    assert(out@ + line_text(line@, j + 1, met, view) == so_far + rest);
                    j += 1;
                },
            }
        }
        i += 1;
    }
    proof {
        lemma_split_lines_some(template@);
    }
    let ghost board = board_lines(tl, view);
    let ghost all = text_lines(tl, view, form);
    if form == TextForm::Full {
        let ghost n = board.len() as int;
        proof {
            lemma_join_lines_same(board, all, n);
        }
        out.push('\n');
        push_stock(&mut out, 'W', &game.state.resources.white);
        assert(out@ == join_lines(all, n + 1));
        out.push('\n');
        push_stock(&mut out, 'R', &game.state.resources.red);
        assert(out@ == join_lines(all, n + 2));
        out.push('\n');
        push_stock(&mut out, 'B', &game.state.resources.blue);
        assert(out@ == join_lines(all, n + 3));
    }
    out
}

/// The template has the marks of the board, and no others: 54 for
/// intersections, 19 for tiles and 72 for edges.
pub open spec fn fits_board(template: Seq<Seq<char>>) -> bool {
    marks_upto(template, template.len() as int) == (Marks {
        buildings: INTERSECTIONS as int,
        tiles: TILES as int,
        edges: PATHS as int,
    })
}

/// True if the template has the marks of the board, and no others.
pub fn template_fits(template: &str) -> (fits: bool)
    ensures
        fits == fits_board(split_lines(template@)),
{
    let template_chars = chars_of(template);
    let lines = lines_of(&template_chars);
    let ghost tl = rows(lines@);
    let mut met_buildings: usize = 0;
    let mut met_tiles: usize = 0;
    let mut met_edges: usize = 0;
    let ghost mut met = Marks { buildings: 0, tiles: 0, edges: 0 };
    let mut i: usize = 0;
    while i < lines.len()
        invariant
            i <= lines.len(),
            tl == rows(lines@),
            marks_upto(tl, i as int) == met,
            capped(met_buildings, met.buildings, (INTERSECTIONS + 1) as usize),
            capped(met_tiles, met.tiles, (TILES + 1) as usize),
            capped(met_edges, met.edges, (PATHS + 1) as usize),
        decreases lines.len() - i,
    {
        let line = &lines[i];
        assert(tl[i as int] == line@);
        let ghost at_start = met;
        let mut j: usize = 0;
        while j < line.len()
            invariant
                j <= line.len(),
                capped(met_buildings, met.buildings, (INTERSECTIONS + 1) as usize),
                capped(met_tiles, met.tiles, (TILES + 1) as usize),
                capped(met_edges, met.edges, (PATHS + 1) as usize),
                marks_after(line@, j as int, met) == marks_after(line@, 0, at_start),
            decreases line.len() - j,
        {
            match token_of(line, j) {
                None => {
                    j += 1;
                },
                Some(Slot::Building) => {
                    if met_buildings <= INTERSECTIONS {
                        met_buildings += 1;
                    }
                    proof {
                        met = met.and_one(Slot::Building);
                    }
                    j += 2;
                },
                Some(Slot::Tile) => {
                    if met_tiles <= TILES {
                        met_tiles += 1;
                    }
                    proof {
                        met = met.and_one(Slot::Tile);
                    }
                    j += 4;
                },
                Some(Slot::Edge) => {
                    if met_edges <= PATHS {
                        met_edges += 1;
                    }
                    proof {
                        met = met.and_one(Slot::Edge);
                    }
                    j += 1;
                },
            }
        }
        i += 1;
    }
    met_buildings == INTERSECTIONS && met_tiles == TILES && met_edges == PATHS
}

impl vstd::std_specs::convert::TryFromSpecImpl<String> for Game {
    open spec fn obeys_try_from_spec() -> bool {
        false
    }

    open spec fn try_from_spec(board_str: String) -> Result<Self, Self::Error> {
        arbitrary()
    }
}

impl TryFrom<String> for Game {
    type Error = &'static str;

    /// Reads a game from a text in the full form and the standard layout.
    fn try_from(board_str: String) -> (r: Result<Self, Self::Error>)
        ensures
            match r {
                Ok(game) => {
                    &&& decoded(TEMPLATE@, board_str@, TextForm::Full) == Ok::<
                        GameView,
                        Seq<char>,
                    >(game@)
                    &&& game.board.is_standard()
                    &&& game.wf()
                },
                Err(reason) => decoded(TEMPLATE@, board_str@, TextForm::Full) == Err::<
                    GameView,
                    Seq<char>,
                >(reason@),
            },
    {
        decode_with(TEMPLATE, board_str.as_str(), TextForm::Full)
    }
}

impl vstd::std_specs::convert::FromSpecImpl<Game> for String {
    open spec fn obeys_from_spec() -> bool {
        false
    }

    open spec fn from_spec(game: Game) -> String {
        arbitrary()
    }
}

impl From<Game> for String {
    /// Writes a game as a text in the full form and the standard layout.
    fn from(game: Game) -> (text: String)
        ensures
            text@ == encoded(TEMPLATE@, game@, TextForm::Full),
            writable(game@, TextForm::Full) ==> decoded(TEMPLATE@, text@, TextForm::Full) == Ok::<
                GameView,
                Seq<char>,
            >(shown(game@, TextForm::Full)),
            encoded(TEMPLATE@, shown(game@, TextForm::Full), TextForm::Full) == text@,
    {
        proof {
            lemma_standard_fits();
        }
        encode_with(TEMPLATE, &game, TextForm::Full)
    }
}

} // verus!
