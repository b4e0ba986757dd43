//! What the text of a game reads back as, and that a text which was written
//! from a game is written again from what it reads back as.

use crate::game::board::{
    Building, INTERSECTIONS, IntersectionId, PATHS, PathId, Road, TILES, Tile, player_of,
};
use crate::game::encoding::{
    GameView, Marks, Slot, TextForm, board_lines, building_at, building_kind_of, building_on,
    buildings_upto, decoded, decoded_lines, empty_stock, encoded, fits_board, has_board_slots,
    is_stock_line, line_slots, line_text, marks_after, marks_upto, road_at, road_on, roads_upto,
    robber_at, robber_upto, slot_text, slots, slots_upto, stock_in, stock_lines, stock_of,
    stock_rows, stock_text, stocks_of, text_lines, tile_at, tile_kind_of, tile_text, tiles_upto,
    token_at,
};
use crate::game::resources::{PlayerResourceCount, ResourceCount};
use crate::game::text::{
    decimal, fields, is_blank, lemma_decimal_reads_back, lemma_digit_reads_back,
    lemma_fields_grow, lemma_lines_hold_no_line_feed, lemma_split_join, lemma_split_lines_some,
    no_line_feed, number, signed_decimal, split_lines, two_digits,
};
use vstd::prelude::*;

verus! {

/// Every tile slot of the game takes four columns: the board has its 19
/// tiles, and no production number is over 99.
pub open spec fn fits_cells(game: GameView) -> bool {
    &&& game.tiles.len() == TILES
    &&& forall|i: int| 0 <= i < TILES ==> (#[trigger] game.tiles[i]).dice <= 99
}

/// What stands for a mark is as wide as the mark, and holds no line feed.
pub proof fn lemma_slot_text_fits(game: GameView, kind: Slot, n: int, mark: Seq<char>)
    requires
        fits_cells(game),
        mark.len() == kind.width(),
        no_line_feed(mark),
    ensures
        slot_text(game, kind, n, mark).len() == kind.width(),
        no_line_feed(slot_text(game, kind, n, mark)),
{
    if 0 <= n < kind.count() {
        match kind {
            Slot::Building => {},
            Slot::Edge => {},
            Slot::Tile => {
                let dice = game.tiles[n].dice as int;
                lemma_two_digits(dice);
            },
        }
    }
}

/// A number under 100 in two digits: its tens, then its ones.
pub proof fn lemma_two_digits(n: int)
    requires
        0 <= n <= 99,
    ensures
        two_digits(n) == seq![
            crate::game::text::digit_char(n / 10),
            crate::game::text::digit_char(n % 10),
        ],
        no_line_feed(two_digits(n)),
{
    lemma_digit_reads_back(n / 10);
    lemma_digit_reads_back(n % 10);
    if n >= 10 {
        assert(decimal(n / 10) == seq![crate::game::text::digit_char(n / 10)]);
    }
}

/// Slot `q` of those that a line has from column `j` on stands in the line
/// and shows what it holds, where `met` marks were met before column `j`.
pub open spec fn slot_shown(
    line: Seq<char>,
    i: int,
    j: int,
    met: Marks,
    game: GameView,
    kind: Slot,
    q: int,
) -> bool {
    let place = line_slots(line, i, j, kind, line.len() as int)[q];
    &&& place.0 == i
    &&& j <= place.1
    &&& place.1 + kind.width() <= line.len()
    &&& line_text(line, j, met, game).subrange(place.1 - j, place.1 - j + kind.width())
        == slot_text(
        game,
        kind,
        met.of(kind) + q,
        line.subrange(place.1, place.1 + kind.width()),
    )
}

/// From column `j` of a template line on, the line of the text is as long
/// as the template line, holds no line feed, has one slot of a kind for each
/// mark of the kind, and shows in the columns of each mark what the slot
/// holds.
pub open spec fn line_shown(
    line: Seq<char>,
    i: int,
    j: int,
    met: Marks,
    game: GameView,
    kind: Slot,
) -> bool {
    &&& line_text(line, j, met, game).len() == line.len() - j
    &&& no_line_feed(line_text(line, j, met, game))
    &&& line_slots(line, i, j, kind, line.len() as int).len() == marks_after(line, j, met).of(kind)
        - met.of(kind)
    &&& forall|q: int|
        0 <= q < line_slots(line, i, j, kind, line.len() as int).len() ==> #[trigger] slot_shown(
            line,
            i,
            j,
            met,
            game,
            kind,
            q,
        )
}

/// A column without a mark: what holds from the next column on holds from
/// this one on.
proof fn lemma_line_shown_plain(
    line: Seq<char>,
    i: int,
    j: int,
    met: Marks,
    game: GameView,
    kind: Slot,
)
    requires
        0 <= j < line.len(),
        no_line_feed(line),
        token_at(line, j) is None,
        line_shown(line, i, j + 1, met, game, kind),
    ensures
        line_shown(line, i, j, met, game, kind),
{
    let out = line_text(line, j, met, game);
    let rest = line_text(line, j + 1, met, game);
    let found = line_slots(line, i, j, kind, line.len() as int);
    assert(out == seq![line[j]] + rest);
    assert(line[j] != '\n');
    assert(found == line_slots(line, i, j + 1, kind, line.len() as int));
    assert forall|q: int| 0 <= q < found.len() implies #[trigger] slot_shown(
        line,
        i,
        j,
        met,
        game,
        kind,
        q,
    ) by {
        assert(slot_shown(line, i, j + 1, met, game, kind, q));
        let place = found[q];
        assert(out.subrange(place.1 - j, place.1 - j + kind.width()) == rest.subrange(
            place.1 - (j + 1),
            place.1 - (j + 1) + kind.width(),
        ));
    }
}

/// A column with a mark: what holds from the column after the mark on holds
/// from this one on.
proof fn lemma_line_shown_mark(
    line: Seq<char>,
    i: int,
    j: int,
    met: Marks,
    game: GameView,
    kind: Slot,
    here: Slot,
)
    requires
        0 <= j < line.len(),
        no_line_feed(line),
        fits_cells(game),
        token_at(line, j) == Some(here),
        line_shown(line, i, j + here.width(), met.and_one(here), game, kind),
    ensures
        line_shown(line, i, j, met, game, kind),
{
    let width = here.width();
    let mark = line.subrange(j, j + width);
    let cell = slot_text(game, here, met.of(here), mark);
    let after = met.and_one(here);
    let out = line_text(line, j, met, game);
    let rest = line_text(line, j + width, after, game);
    let found = line_slots(line, i, j, kind, line.len() as int);
    let rest_found = line_slots(line, i, j + width, kind, line.len() as int);
    assert(no_line_feed(mark)) by {
        assert forall|k: int| 0 <= k < mark.len() implies #[trigger] mark[k] != '\n' by {
            assert(mark[k] == line[j + k]);
        }
    }
    lemma_slot_text_fits(game, here, met.of(here), mark);
    assert(out == cell + rest);
    if here == kind {
        assert(found == seq![(i, j)] + rest_found);
    } else {
        assert(found == rest_found);
    }
    assert forall|q: int| 0 <= q < found.len() implies #[trigger] slot_shown(
        line,
        i,
        j,
        met,
        game,
        kind,
        q,
    ) by {
        let place = found[q];
        if here == kind {
            if q == 0 {
                assert(out.subrange(0, width) == cell);
            } else {
                assert(slot_shown(line, i, j + width, after, game, kind, q - 1));
                assert(place == rest_found[q - 1]);
                assert(out.subrange(place.1 - j, place.1 - j + width) == rest.subrange(
                    place.1 - (j + width),
                    place.1 - (j + width) + width,
                ));
            }
        } else {
            assert(slot_shown(line, i, j + width, after, game, kind, q));
            assert(out.subrange(place.1 - j, place.1 - j + kind.width()) == rest.subrange(
                place.1 - (j + width),
                place.1 - (j + width) + kind.width(),
            ));
        }
    }
}

/// In a line of the text, from any column of the template line on: the line
/// is as long as the template line, holds no line feed, has one slot of a
/// kind for each mark of the kind, and shows in the columns of each mark
/// what the slot holds.
pub proof fn lemma_line_shows(
    line: Seq<char>,
    i: int,
    j: int,
    met: Marks,
    game: GameView,
    kind: Slot,
)
    requires
        0 <= j <= line.len(),
        no_line_feed(line),
        fits_cells(game),
    ensures
        line_shown(line, i, j, met, game, kind),
    decreases line.len() - j,
{
    if j < line.len() {
        match token_at(line, j) {
            None => {
                lemma_line_shows(line, i, j + 1, met, game, kind);
                lemma_line_shown_plain(line, i, j, met, game, kind);
            },
            Some(here) => {
                lemma_line_shows(line, i, j + here.width(), met.and_one(here), game, kind);
                lemma_line_shown_mark(line, i, j, met, game, kind, here);
            },
        }
    }
}

/// The text holds, in the columns of a mark of the template, what slot `k`
/// of the kind holds.
pub open spec fn shows(
    text: Seq<Seq<char>>,
    template: Seq<Seq<char>>,
    place: (int, int),
    kind: Slot,
    game: GameView,
    k: int,
) -> bool {
    &&& 0 <= place.0 < text.len()
    &&& place.0 < template.len()
    &&& 0 <= place.1
    &&& place.1 + kind.width() <= text[place.0].len()
    &&& place.1 + kind.width() <= template[place.0].len()
    &&& text[place.0].subrange(place.1, place.1 + kind.width()) == slot_text(
        game,
        kind,
        k,
        template[place.0].subrange(place.1, place.1 + kind.width()),
    )
}

/// Where the first `n` lines of a text are those of the template with the
/// marks replaced, the text has in them one slot for each mark, and slot `k`
/// of a kind shows what slot `k` holds.
pub proof fn lemma_slots_show(
    template: Seq<Seq<char>>,
    text: Seq<Seq<char>>,
    game: GameView,
    kind: Slot,
    n: int,
)
    requires
        0 <= n <= template.len(),
        n <= text.len(),
        fits_cells(game),
        forall|i: int| 0 <= i < n ==> no_line_feed(#[trigger] template[i]),
        forall|i: int|
            0 <= i < n ==> #[trigger] text[i] == line_text(
                template[i],
                0,
                marks_upto(template, i),
                game,
            ),
    ensures
        slots_upto(template, text, kind, n).len() == marks_upto(template, n).of(kind),
        forall|k: int|
            0 <= k < slots_upto(template, text, kind, n).len() ==> shows(
                text,
                template,
                #[trigger] slots_upto(template, text, kind, n)[k],
                kind,
                game,
                k,
            ),
    decreases n,
{
    if n > 0 {
        lemma_slots_show(template, text, game, kind, n - 1);
        let line = template[n - 1];
        let met = marks_upto(template, n - 1);
        lemma_line_shows(line, n - 1, 0, met, game, kind);
        assert(line_shown(line, n - 1, 0, met, game, kind));
        assert(text[n - 1] == line_text(line, 0, met, game));
        let before = slots_upto(template, text, kind, n - 1);
        let here = line_slots(line, n - 1, 0, kind, line.len() as int);
        let all = slots_upto(template, text, kind, n);
        assert(all == before + here);
        assert forall|k: int| 0 <= k < all.len() implies shows(
            text,
            template,
            #[trigger] all[k],
            kind,
            game,
            k,
        ) by {
            if k < before.len() {
                assert(all[k] == before[k]);
            } else {
                let q = k - before.len();
                let place = here[q];
                assert(all[k] == place);
                assert(slot_shown(line, n - 1, 0, met, game, kind, q));
                assert(text[n - 1].subrange(place.1 - 0, place.1 - 0 + kind.width()) == slot_text(
                    game,
                    kind,
                    met.of(kind) + q,
                    line.subrange(place.1, place.1 + kind.width()),
                ));
            }
        }
    }
}

/// The buildings that a text shows on the first `n` intersections: on each
/// the last of the list that stands there, in the order of the
/// intersections.
pub open spec fn shown_buildings(buildings: Seq<Building>, n: int) -> Seq<Building>
    decreases n,
{
    if n <= 0 {
        Seq::<Building>::empty()
    } else {
        match building_on(buildings, n - 1) {
            Some(building) => shown_buildings(buildings, n - 1).push(building),
            None => shown_buildings(buildings, n - 1),
        }
    }
}

/// The roads that a text shows on the first `n` edges: on each the last of
/// the list that lies there, in the order of the edges.
pub open spec fn shown_roads(roads: Seq<Road>, n: int) -> Seq<Road>
    decreases n,
{
    if n <= 0 {
        Seq::<Road>::empty()
    } else {
        match road_on(roads, n - 1) {
            Some(road) => shown_roads(roads, n - 1).push(road),
            None => shown_roads(roads, n - 1),
        }
    }
}

/// The building that the text shows on an intersection stands there.
pub proof fn lemma_building_on_stands(buildings: Seq<Building>, id: int)
    ensures
        building_on(buildings, id) matches Some(b) ==> b.intersection_id.0 == id,
    decreases buildings.len(),
{
    if buildings.len() > 0 && buildings.last().intersection_id.0 != id {
        lemma_building_on_stands(buildings.drop_last(), id);
    }
}

/// The road that the text shows on an edge lies there.
pub proof fn lemma_road_on_lies(roads: Seq<Road>, id: int)
    ensures
        road_on(roads, id) matches Some(r) ==> r.id.0 == id,
    decreases roads.len(),
{
    if roads.len() > 0 && roads.last().id.0 != id {
        lemma_road_on_lies(roads.drop_last(), id);
    }
}

/// Intersection slots that show the buildings of a game read back as the
/// buildings shown.
pub proof fn lemma_buildings_read_back(
    template: Seq<Seq<char>>,
    text: Seq<Seq<char>>,
    list: Seq<(int, int)>,
    game: GameView,
    n: int,
)
    requires
        0 <= n <= list.len(),
        n <= INTERSECTIONS,
        forall|k: int|
            0 <= k < n ==> shows(text, template, #[trigger] list[k], Slot::Building, game, k),
    ensures
        buildings_upto(text, list, n) == Ok::<Seq<Building>, Seq<char>>(
            shown_buildings(game.buildings, n),
        ),
    decreases n,
{
    if n > 0 {
        lemma_buildings_read_back(template, text, list, game, n - 1);
        let place = list[n - 1];
        assert(shows(text, template, place, Slot::Building, game, n - 1));
        let cell = text[place.0].subrange(place.1, place.1 + 2);
        assert(cell[0] == text[place.0][place.1]);
        assert(cell[1] == text[place.0][place.1 + 1]);
        lemma_building_on_stands(game.buildings, n - 1);
        match building_on(game.buildings, n - 1) {
            None => {
                assert(cell == seq!['o', 'o']);
            },
            Some(b) => {
                assert(cell == seq![b.player.letter(), b.kind.letter()]);
                assert(building_kind_of(b.kind.letter()) == Some(b.kind));
                assert(player_of(b.player.letter()) == Some(b.player));
                assert(b.intersection_id == IntersectionId((n - 1) as usize));
                assert(building_at(text, place, n - 1) == Ok::<Option<Building>, Seq<char>>(
                    Some(b),
                ));
            },
        }
    }
}

/// Edge slots that show the roads of a game read back as the roads shown.
pub proof fn lemma_roads_read_back(
    template: Seq<Seq<char>>,
    text: Seq<Seq<char>>,
    list: Seq<(int, int)>,
    game: GameView,
    n: int,
)
    requires
        0 <= n <= list.len(),
        n <= PATHS,
        forall|k: int| 0 <= k < n ==> shows(text, template, #[trigger] list[k], Slot::Edge, game, k),
    ensures
        roads_upto(text, list, n) == Ok::<Seq<Road>, Seq<char>>(shown_roads(game.roads, n)),
    decreases n,
{
    if n > 0 {
        lemma_roads_read_back(template, text, list, game, n - 1);
        let place = list[n - 1];
        assert(shows(text, template, place, Slot::Edge, game, n - 1));
        let cell = text[place.0].subrange(place.1, place.1 + 1);
        assert(cell[0] == text[place.0][place.1]);
        lemma_road_on_lies(game.roads, n - 1);
        match road_on(game.roads, n - 1) {
            None => {
                assert(cell == seq!['.']);
            },
            Some(r) => {
                assert(cell == seq![r.player.letter()]);
                assert(player_of(r.player.letter()) == Some(r.player));
                assert(r.id == PathId((n - 1) as usize));
                assert(road_at(text, place, n - 1) == Ok::<Option<Road>, Seq<char>>(Some(r)));
            },
        }
    }
}

/// Tile slots that show the tiles of a game read back as those tiles, and
/// the robber is read where it stands.
pub proof fn lemma_tiles_read_back(
    template: Seq<Seq<char>>,
    text: Seq<Seq<char>>,
    list: Seq<(int, int)>,
    game: GameView,
    n: int,
)
    requires
        0 <= n <= list.len(),
        n <= TILES,
        fits_cells(game),
        forall|k: int| 0 <= k < n ==> shows(text, template, #[trigger] list[k], Slot::Tile, game, k),
    ensures
        tiles_upto(text, list, n) == Ok::<Seq<Tile>, Seq<char>>(game.tiles.take(n)),
        robber_upto(text, list, n) == if game.robber.0 < n {
            Some(game.robber.0 as int)
        } else {
            None
        },
    decreases n,
{
    if n > 0 {
        lemma_tiles_read_back(template, text, list, game, n - 1);
        let place = list[n - 1];
        assert(shows(text, template, place, Slot::Tile, game, n - 1));
        let cell = text[place.0].subrange(place.1, place.1 + 4);
        assert(cell[0] == text[place.0][place.1]);
        assert(cell[1] == text[place.0][place.1 + 1]);
        assert(cell[2] == text[place.0][place.1 + 2]);
        assert(cell[3] == text[place.0][place.1 + 3]);
        let tile = game.tiles[n - 1];
        let dice = tile.dice as int;
        lemma_two_digits(dice);
        lemma_digit_reads_back(dice / 10);
        lemma_digit_reads_back(dice % 10);
        assert(cell == tile_text(tile, game.robber.0 == n - 1));
        assert(tile_kind_of(tile.kind.letter()) == Some(tile.kind));
        assert(tile_at(text, place) == Ok::<Tile, Seq<char>>(tile));
        assert(game.tiles.take(n - 1).push(tile) == game.tiles.take(n));
        assert(robber_at(text, place) == (game.robber.0 == n - 1));
    } else {
        assert(game.tiles.take(n) == Seq::<Tile>::empty());
    }
}

/// A letter that is no blank is the one field of the line that it makes.
pub proof fn lemma_letter_is_a_field(letter: char)
    requires
        !is_blank(letter),
    ensures
        fields(seq![letter]) == seq![seq![letter]],
{
    let line = seq![letter];
    let none = Seq::<char>::empty();
    assert(line.drop_last() == none);
    assert(line.last() == letter);
    assert(crate::game::text::fields_scan(none) == (Seq::<Seq<char>>::empty(), none));
    assert(none.push(letter) == line);
    assert(crate::game::text::fields_scan(line) == (Seq::<Seq<char>>::empty(), line));
    assert(Seq::<Seq<char>>::empty().push(line) == seq![line]);
}

/// A number after a blank is one more field of a line, and brings no line
/// feed into it.
pub proof fn lemma_count_is_a_field(line: Seq<char>, count: int)
    requires
        0 <= count,
        no_line_feed(line),
    ensures
        fields(line.push(' ') + signed_decimal(count)) == fields(line).push(decimal(count)),
        no_line_feed(line.push(' ') + signed_decimal(count)),
        (line.push(' ') + signed_decimal(count)).len() > line.len(),
{
    let digits = decimal(count);
    lemma_decimal_reads_back(count);
    lemma_fields_grow(line, digits);
    let longer = line.push(' ') + digits;
    assert forall|i: int| 0 <= i < longer.len() implies #[trigger] longer[i] != '\n' by {
        if i < line.len() {
            assert(longer[i] == line[i]);
        } else if i > line.len() {
            assert(longer[i] == digits[i - line.len() - 1]);
        }
    }
}

/// The fields of a line of resource counts that are not negative: the
/// letter, then the five counts in decimal digits. The line holds no line
/// feed.
pub proof fn lemma_stock_fields(letter: char, stock: ResourceCount)
    requires
        stock.non_negative(),
        !is_blank(letter),
        letter != '\n',
    ensures
        fields(stock_text(letter, stock)) == seq![
            seq![letter],
            decimal(stock.grain as int),
            decimal(stock.wool as int),
            decimal(stock.brick as int),
            decimal(stock.lumber as int),
            decimal(stock.ore as int),
        ],
        no_line_feed(stock_text(letter, stock)),
{
    let l0 = seq![letter];
    let l1 = l0.push(' ') + signed_decimal(stock.grain as int);
    let l2 = l1.push(' ') + signed_decimal(stock.wool as int);
    let l3 = l2.push(' ') + signed_decimal(stock.brick as int);
    let l4 = l3.push(' ') + signed_decimal(stock.lumber as int);
    let l5 = l4.push(' ') + signed_decimal(stock.ore as int);
    lemma_letter_is_a_field(letter);
    lemma_count_is_a_field(l0, stock.grain as int);
    lemma_count_is_a_field(l1, stock.wool as int);
    lemma_count_is_a_field(l2, stock.brick as int);
    lemma_count_is_a_field(l3, stock.lumber as int);
    lemma_count_is_a_field(l4, stock.ore as int);
    assert(stock_text(letter, stock) == l5) by {
        assert(l0.push(' ') == seq![letter, ' ']);
        assert(l1.push(' ') == l1 + seq![' ']);
        assert(l2.push(' ') == l2 + seq![' ']);
        assert(l3.push(' ') == l3 + seq![' ']);
        assert(l4.push(' ') == l4 + seq![' ']);
    }
    assert(fields(l5) == seq![
        l0,
        decimal(stock.grain as int),
        decimal(stock.wool as int),
        decimal(stock.brick as int),
        decimal(stock.lumber as int),
        decimal(stock.ore as int),
    ]);
}

/// A line of resource counts that are not negative reads back as the
/// counts; it begins with the letter and a blank and holds no line feed.
pub proof fn lemma_stock_reads_back(letter: char, stock: ResourceCount)
    requires
        stock.non_negative(),
        !is_blank(letter),
        letter != '\n',
    ensures
        stock_in(stock_text(letter, stock)) == Some(stock),
        stock_text(letter, stock).len() >= 2,
        stock_text(letter, stock)[0] == letter,
        stock_text(letter, stock)[1] == ' ',
        no_line_feed(stock_text(letter, stock)),
{
    lemma_stock_fields(letter, stock);
    lemma_decimal_reads_back(stock.grain as int);
    lemma_decimal_reads_back(stock.wool as int);
    lemma_decimal_reads_back(stock.brick as int);
    lemma_decimal_reads_back(stock.lumber as int);
    lemma_decimal_reads_back(stock.ore as int);
    let found = fields(stock_text(letter, stock));
    assert(number(found[1], i8::MAX as int) == Some(stock.grain as int));
    assert(number(found[2], i8::MAX as int) == Some(stock.wool as int));
    assert(number(found[3], i8::MAX as int) == Some(stock.brick as int));
    assert(number(found[4], i8::MAX as int) == Some(stock.lumber as int));
    assert(number(found[5], i8::MAX as int) == Some(stock.ore as int));
}

/// The three lines of resource counts, where they are the last lines of a
/// text, read back as the stocks of the players.
pub proof fn lemma_stocks_read_back(text: Seq<Seq<char>>, from: int, stocks: PlayerResourceCount)
    requires
        0 <= from,
        text.len() == from + 3,
        text[from] == stock_text('W', stocks.white),
        text[from + 1] == stock_text('R', stocks.red),
        text[from + 2] == stock_text('B', stocks.blue),
        stocks.white.non_negative(),
        stocks.red.non_negative(),
        stocks.blue.non_negative(),
    ensures
        stocks_of(text, from) == Ok::<PlayerResourceCount, Seq<char>>(stocks),
{
    lemma_stock_reads_back('W', stocks.white);
    lemma_stock_reads_back('R', stocks.red);
    lemma_stock_reads_back('B', stocks.blue);
    assert(is_stock_line(text[from], 'W') && !is_stock_line(text[from], 'R') && !is_stock_line(
        text[from],
        'B',
    ));
    assert(!is_stock_line(text[from + 1], 'W') && is_stock_line(text[from + 1], 'R')
        && !is_stock_line(text[from + 1], 'B'));
    assert(!is_stock_line(text[from + 2], 'W') && !is_stock_line(text[from + 2], 'R')
        && is_stock_line(text[from + 2], 'B'));
    let none = Seq::<int>::empty();
    assert(stock_lines(text, 'W', from, from) == none);
    assert(stock_lines(text, 'W', from, from + 1) == none.push(from));
    assert(stock_lines(text, 'W', from, from + 2) == none.push(from));
    assert(stock_lines(text, 'W', from, from + 3) == none.push(from));
    assert(stock_lines(text, 'R', from, from) == none);
    assert(stock_lines(text, 'R', from, from + 1) == none);
    assert(stock_lines(text, 'R', from, from + 2) == none.push(from + 1));
    assert(stock_lines(text, 'R', from, from + 3) == none.push(from + 1));
    assert(stock_lines(text, 'B', from, from) == none);
    assert(stock_lines(text, 'B', from, from + 1) == none);
    assert(stock_lines(text, 'B', from, from + 2) == none);
    assert(stock_lines(text, 'B', from, from + 3) == none.push(from + 2));
    assert(stock_of(text, 'W', from) == Ok::<ResourceCount, Seq<char>>(stocks.white));
    assert(stock_of(text, 'R', from) == Ok::<ResourceCount, Seq<char>>(stocks.red));
    assert(stock_of(text, 'B', from) == Ok::<ResourceCount, Seq<char>>(stocks.blue));
}

/// The game can be written so that the text holds all of it: the board has
/// its 19 tiles, no production number is over 99, the robber stands on a
/// tile and, where the stocks are written, no count is negative.
pub open spec fn writable(game: GameView, form: TextForm) -> bool {
    &&& fits_cells(game)
    &&& game.robber.0 < TILES
    &&& form is Full ==> game.resources.red.non_negative() && game.resources.blue.non_negative()
        && game.resources.white.non_negative()
}

/// What the text of a game holds of it: the tiles and the robber; on each
/// intersection and edge of the board the last building or road of the list
/// that is there, in the order of the board; and the stocks, which are empty
/// where the text does not hold them.
pub open spec fn shown(game: GameView, form: TextForm) -> GameView {
    GameView {
        tiles: game.tiles,
        buildings: shown_buildings(game.buildings, INTERSECTIONS as int),
        roads: shown_roads(game.roads, PATHS as int),
        robber: game.robber,
        resources: match form {
            TextForm::Minimal => PlayerResourceCount {
                red: empty_stock(),
                blue: empty_stock(),
                white: empty_stock(),
            },
            TextForm::Full => game.resources,
        },
    }
}

/// The text of a game that can be written, in a layout with the marks of the
/// board, is read without fault, and as what the text holds of the game.
pub proof fn lemma_text_reads_back(template: Seq<char>, game: GameView, form: TextForm)
    requires
        fits_board(split_lines(template)),
        writable(game, form),
    ensures
        decoded(template, encoded(template, game, form), form) == Ok::<GameView, Seq<char>>(
            shown(game, form),
        ),
{
    let tl = split_lines(template);
    lemma_split_lines_some(template);
    lemma_lines_hold_no_line_feed(template);
    let lines = text_lines(tl, game, form);
    let board = board_lines(tl, game);
    assert forall|i: int| 0 <= i < tl.len() implies #[trigger] lines[i] == line_text(
        tl[i],
        0,
        marks_upto(tl, i),
        game,
    ) by {
        assert(lines[i] == board[i]);
    }
    if form is Full {
        lemma_stock_reads_back('W', game.resources.white);
        lemma_stock_reads_back('R', game.resources.red);
        lemma_stock_reads_back('B', game.resources.blue);
        let from = tl.len() as int;
        assert(lines[from] == stock_rows(game.resources)[0]);
        assert(lines[from + 1] == stock_rows(game.resources)[1]);
        assert(lines[from + 2] == stock_rows(game.resources)[2]);
    }
    assert forall|i: int| 0 <= i < lines.len() implies no_line_feed(#[trigger] lines[i]) by {
        if i < tl.len() {
            lemma_line_shows(tl[i], i, 0, marks_upto(tl, i), game, Slot::Tile);
            assert(line_shown(tl[i], i, 0, marks_upto(tl, i), game, Slot::Tile));
        }
    }
    lemma_split_join(lines, lines.len() as int);
    assert(lines.take(lines.len() as int) == lines);
    assert(split_lines(encoded(template, game, form)) == lines);
    let n = tl.len() as int;
    lemma_slots_show(tl, lines, game, Slot::Building, n);
    lemma_slots_show(tl, lines, game, Slot::Tile, n);
    lemma_slots_show(tl, lines, game, Slot::Edge, n);
    assert(has_board_slots(tl, lines));
    lemma_buildings_read_back(tl, lines, slots(tl, lines, Slot::Building), game, 54);
    lemma_roads_read_back(tl, lines, slots(tl, lines, Slot::Edge), game, 72);
    lemma_tiles_read_back(tl, lines, slots(tl, lines, Slot::Tile), game, 19);
    assert(game.tiles.take(19) == game.tiles);
    if form is Full {
        lemma_stocks_read_back(lines, n, game.resources);
    }
    assert(decoded_lines(tl, lines, form) == Ok::<GameView, Seq<char>>(shown(game, form)));
}

/// On an intersection among the first `n`, the buildings shown show the
/// building that the list shows; on any other they show none.
pub proof fn lemma_shown_buildings_on(buildings: Seq<Building>, n: int, id: int)
    requires
        0 <= n,
    ensures
        building_on(shown_buildings(buildings, n), id) == if 0 <= id < n {
            building_on(buildings, id)
        } else {
            None
        },
    decreases n,
{
    if n > 0 {
        lemma_shown_buildings_on(buildings, n - 1, id);
        lemma_building_on_stands(buildings, n - 1);
        let before = shown_buildings(buildings, n - 1);
        match building_on(buildings, n - 1) {
            Some(b) => {
                assert(before.push(b).drop_last() == before);
                assert(before.push(b).last() == b);
            },
            None => {},
        }
    }
}

/// On an edge among the first `n`, the roads shown show the road that the
/// list shows; on any other they show none.
pub proof fn lemma_shown_roads_on(roads: Seq<Road>, n: int, id: int)
    requires
        0 <= n,
    ensures
        road_on(shown_roads(roads, n), id) == if 0 <= id < n {
            road_on(roads, id)
        } else {
            None
        },
    decreases n,
{
    if n > 0 {
        lemma_shown_roads_on(roads, n - 1, id);
        lemma_road_on_lies(roads, n - 1);
        let before = shown_roads(roads, n - 1);
        match road_on(roads, n - 1) {
            Some(r) => {
                assert(before.push(r).drop_last() == before);
                assert(before.push(r).last() == r);
            },
            None => {},
        }
    }
}

/// Two games whose slots hold the same are written alike, line by line.
pub proof fn lemma_line_text_alike(
    line: Seq<char>,
    j: int,
    met: Marks,
    game: GameView,
    other: GameView,
)
    requires
        forall|kind: Slot, n: int, mark: Seq<char>| #[trigger]
            slot_text(game, kind, n, mark) == slot_text(other, kind, n, mark),
    ensures
        line_text(line, j, met, game) == line_text(line, j, met, other),
    decreases line.len() - j,
{
    if 0 <= j < line.len() {
        match token_at(line, j) {
            None => {
                lemma_line_text_alike(line, j + 1, met, game, other);
            },
            Some(kind) => {
                lemma_line_text_alike(line, j + kind.width(), met.and_one(kind), game, other);
            },
        }
    }
}

/// What a text holds of a game is written as the game is.
pub proof fn lemma_shown_is_written_alike(template: Seq<char>, game: GameView, form: TextForm)
    ensures
        encoded(template, shown(game, form), form) == encoded(template, game, form),
{
    let tl = split_lines(template);
    let other = shown(game, form);
    assert forall|kind: Slot, n: int, mark: Seq<char>| #[trigger]
        slot_text(game, kind, n, mark) == slot_text(other, kind, n, mark) by {
        if 0 <= n < kind.count() {
            lemma_shown_buildings_on(game.buildings, INTERSECTIONS as int, n);
            lemma_shown_roads_on(game.roads, PATHS as int, n);
        }
    }
    assert(board_lines(tl, game) == board_lines(tl, other)) by {
        assert forall|i: int| 0 <= i < tl.len() implies board_lines(tl, game)[i] == board_lines(
            tl,
            other,
        )[i] by {
            lemma_line_text_alike(tl[i], 0, marks_upto(tl, i), game, other);
        }
    }
    assert(text_lines(tl, game, form) == text_lines(tl, other, form));
}

/// A text that was written from a game is written again from what it is
/// read as: for every game that can be written, in every layout with the
/// marks of the board, the text of the game is read without fault, and the
/// text of what was read is the same text, character by character.
pub proof fn law_round_trip(template: Seq<char>, game: GameView, form: TextForm)
    requires
        fits_board(split_lines(template)),
        writable(game, form),
    ensures
        decoded(template, encoded(template, game, form), form) is Ok,
        encoded(template, decoded(template, encoded(template, game, form), form)->Ok_0, form)
            == encoded(template, game, form),
{
    lemma_text_reads_back(template, game, form);
    lemma_shown_is_written_alike(template, game, form);
}

/// A text is refused whenever it has not the slots of the board: 54 for
/// intersections, 19 for tiles and 72 for edges.
pub proof fn law_slot_counts(template: Seq<char>, text: Seq<char>, form: TextForm)
    requires
        slots(split_lines(template), split_lines(text), Slot::Building).len() != 54 || slots(
            split_lines(template),
            split_lines(text),
            Slot::Tile,
        ).len() != 19 || slots(split_lines(template), split_lines(text), Slot::Edge).len() != 72,
    ensures
        decoded(template, text, form) is Err,
{
}

/// The building that the text shows on an intersection is one of the list.
pub proof fn lemma_building_on_is_listed(buildings: Seq<Building>, id: int)
    ensures
        building_on(buildings, id) matches Some(b) ==> buildings.contains(b),
    decreases buildings.len(),
{
    if buildings.len() > 0 {
        if buildings.last().intersection_id.0 == id {
            assert(buildings[buildings.len() - 1] == buildings.last());
        } else {
            lemma_building_on_is_listed(buildings.drop_last(), id);
            if building_on(buildings, id) is Some {
                let b = building_on(buildings, id)->Some_0;
                let k = choose|k: int|
                    0 <= k < buildings.drop_last().len() && buildings.drop_last()[k] == b;
                assert(buildings[k] == b);
            }
        }
    }
}

/// The road that the text shows on an edge is one of the list.
pub proof fn lemma_road_on_is_listed(roads: Seq<Road>, id: int)
    ensures
        road_on(roads, id) matches Some(r) ==> roads.contains(r),
    decreases roads.len(),
{
    if roads.len() > 0 {
        if roads.last().id.0 == id {
            assert(roads[roads.len() - 1] == roads.last());
        } else {
            lemma_road_on_is_listed(roads.drop_last(), id);
            if road_on(roads, id) is Some {
                let r = road_on(roads, id)->Some_0;
                let k = choose|k: int| 0 <= k < roads.drop_last().len() && roads.drop_last()[k] == r;
                assert(roads[k] == r);
            }
        }
    }
}

/// No two buildings of the list stand on one intersection.
pub open spec fn one_per_intersection(buildings: Seq<Building>) -> bool {
    forall|i: int, j: int|
        0 <= i < j < buildings.len() ==> (#[trigger] buildings[i]).intersection_id != (
        #[trigger] buildings[j]).intersection_id
}

/// No two roads of the list lie on one edge.
pub open spec fn one_per_edge(roads: Seq<Road>) -> bool {
    forall|i: int, j: int| 0 <= i < j < roads.len() ==> (#[trigger] roads[i]).id != (
    #[trigger] roads[j]).id
}

/// Where no two buildings stand on one intersection, the text shows each of
/// them where it stands.
pub proof fn lemma_building_is_shown(buildings: Seq<Building>, k: int)
    requires
        one_per_intersection(buildings),
        0 <= k < buildings.len(),
    ensures
        building_on(buildings, buildings[k].intersection_id.0 as int) == Some(buildings[k]),
    decreases buildings.len(),
{
    let last = buildings.len() - 1;
    if k < last {
        assert(buildings[k].intersection_id != buildings[last].intersection_id);
        let shorter = buildings.drop_last();
        assert(one_per_intersection(shorter)) by {
            assert forall|i: int, j: int| 0 <= i < j < shorter.len() implies (
            #[trigger] shorter[i]).intersection_id != (#[trigger] shorter[j]).intersection_id by {
                assert(shorter[i] == buildings[i]);
                assert(shorter[j] == buildings[j]);
            }
        }
        lemma_building_is_shown(shorter, k);
    }
}

/// Where no two roads lie on one edge, the text shows each of them where it
/// lies.
pub proof fn lemma_road_is_shown(roads: Seq<Road>, k: int)
    requires
        one_per_edge(roads),
        0 <= k < roads.len(),
    ensures
        road_on(roads, roads[k].id.0 as int) == Some(roads[k]),
    decreases roads.len(),
{
    let last = roads.len() - 1;
    if k < last {
        assert(roads[k].id != roads[last].id);
        let shorter = roads.drop_last();
        assert(one_per_edge(shorter)) by {
            assert forall|i: int, j: int| 0 <= i < j < shorter.len() implies (
            #[trigger] shorter[i]).id != (#[trigger] shorter[j]).id by {
                assert(shorter[i] == roads[i]);
                assert(shorter[j] == roads[j]);
            }
        }
        lemma_road_is_shown(shorter, k);
    }
}

/// The buildings shown on the first `n` intersections are those that the
/// text shows where they stand, each once.
pub proof fn lemma_shown_buildings_hold(buildings: Seq<Building>, n: int)
    requires
        0 <= n,
    ensures
        shown_buildings(buildings, n).no_duplicates(),
        forall|b: Building|
            shown_buildings(buildings, n).contains(b) <==> b.intersection_id.0 < n && building_on(
                buildings,
                b.intersection_id.0 as int,
            ) == Some(b),
    decreases n,
{
    if n > 0 {
        lemma_shown_buildings_hold(buildings, n - 1);
        lemma_building_on_stands(buildings, n - 1);
        let before = shown_buildings(buildings, n - 1);
        let all = shown_buildings(buildings, n);
        match building_on(buildings, n - 1) {
            Some(here) => {
                assert(all == before.push(here));
                assert(!before.contains(here));
                assert forall|b: Building|
                    all.contains(b) <==> b.intersection_id.0 < n && building_on(
                        buildings,
                        b.intersection_id.0 as int,
                    ) == Some(b) by {
                    if before.contains(b) {
                        let k = choose|k: int| 0 <= k < before.len() && before[k] == b;
                        assert(all[k] == b);
                    }
                    if b == here {
                        assert(all[before.len() as int] == b);
                    }
                }
            },
            None => {},
        }
    }
}

/// The roads shown on the first `n` edges are those that the text shows
/// where they lie, each once.
pub proof fn lemma_shown_roads_hold(roads: Seq<Road>, n: int)
    requires
        0 <= n,
    ensures
        shown_roads(roads, n).no_duplicates(),
        forall|r: Road|
            shown_roads(roads, n).contains(r) <==> r.id.0 < n && road_on(roads, r.id.0 as int)
                == Some(r),
    decreases n,
{
    if n > 0 {
        lemma_shown_roads_hold(roads, n - 1);
        lemma_road_on_lies(roads, n - 1);
        let before = shown_roads(roads, n - 1);
        let all = shown_roads(roads, n);
        match road_on(roads, n - 1) {
            Some(here) => {
                assert(all == before.push(here));
                assert(!before.contains(here));
                assert forall|r: Road|
                    all.contains(r) <==> r.id.0 < n && road_on(roads, r.id.0 as int) == Some(
                        r,
                    ) by {
                    if before.contains(r) {
                        let k = choose|k: int| 0 <= k < before.len() && before[k] == r;
                        assert(all[k] == r);
                    }
                    if r == here {
                        assert(all[before.len() as int] == r);
                    }
                }
            },
            None => {},
        }
    }
}

/// The state is on the board, with no two buildings on one intersection and
/// no two roads on one edge.
pub open spec fn well_placed(game: GameView) -> bool {
    &&& forall|k: int|
        0 <= k < game.buildings.len() ==> (#[trigger] game.buildings[k]).intersection_id.0
            < INTERSECTIONS
    &&& forall|k: int| 0 <= k < game.roads.len() ==> (#[trigger] game.roads[k]).id.0 < PATHS
    &&& one_per_intersection(game.buildings)
    &&& one_per_edge(game.roads)
}

/// The text of a game is read as a game of the same content: where the game
/// can be written and its state is well placed, what is read has the tiles,
/// the robber and, in the full form, the stocks of the game, and holds the
/// buildings and the roads of the game, each once.
pub proof fn law_state_reads_back(template: Seq<char>, game: GameView, form: TextForm)
    requires
        fits_board(split_lines(template)),
        writable(game, form),
        well_placed(game),
    ensures
        decoded(template, encoded(template, game, form), form) matches Ok(read) && {
            &&& read.tiles == game.tiles
            &&& read.robber == game.robber
            &&& form is Full ==> read.resources == game.resources
            &&& read.buildings.no_duplicates()
            &&& read.roads.no_duplicates()
            &&& forall|b: Building| read.buildings.contains(b) <==> game.buildings.contains(b)
            &&& forall|r: Road| read.roads.contains(r) <==> game.roads.contains(r)
        },
{
    lemma_text_reads_back(template, game, form);
    let read = shown(game, form);
    lemma_shown_buildings_hold(game.buildings, INTERSECTIONS as int);
    lemma_shown_roads_hold(game.roads, PATHS as int);
    assert forall|b: Building| read.buildings.contains(b) <==> game.buildings.contains(b) by {
        lemma_building_on_is_listed(game.buildings, b.intersection_id.0 as int);
        if game.buildings.contains(b) {
            let k = choose|k: int| 0 <= k < game.buildings.len() && game.buildings[k] == b;
            lemma_building_is_shown(game.buildings, k);
        }
    }
    assert forall|r: Road| read.roads.contains(r) <==> game.roads.contains(r) by {
        lemma_road_on_is_listed(game.roads, r.id.0 as int);
        if game.roads.contains(r) {
            let k = choose|k: int| 0 <= k < game.roads.len() && game.roads[k] == r;
            lemma_road_is_shown(game.roads, k);
        }
    }
}

} // verus!
