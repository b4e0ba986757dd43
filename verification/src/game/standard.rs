//! The standard layout has the marks of the board, so that every game that
//! can be written is read back from its text in the standard layout.

use crate::game::encoding::{
    GameView, Marks, TEMPLATE, TextForm, decoded, encoded, fits_board, marks_after, marks_upto,
};
use crate::game::round_trip::{law_round_trip, lemma_text_reads_back, shown, writable};
use crate::game::text::{join_lines, lemma_split_join, no_line_feed, split_lines};
use vstd::prelude::*;

verus! {

/// The lines of the standard layout.
pub open spec fn standard_lines() -> Seq<Seq<char>> {
    seq![
        ""@,
        "          BB * BB * BB * BB * BB * BB * BB"@,
        "          *   TTTT  *   TTTT  *   TTTT  *"@,
        "     BB * BB * BB * BB * BB * BB * BB * BB * BB"@,
        "     *   TTTT  *   TTTT  *   TTTT  *   TTTT  *"@,
        "BB * BB * BB * BB * BB * BB * BB * BB * BB * BB * BB"@,
        "*   TTTT  *   TTTT  *   TTTT  *   TTTT  *   TTTT  *"@,
        "BB * BB * BB * BB * BB * BB * BB * BB * BB * BB * BB"@,
        "     *   TTTT  *   TTTT  *   TTTT  *   TTTT  *"@,
        "     BB * BB * BB * BB * BB * BB * BB * BB * BB"@,
        "          *   TTTT  *   TTTT  *   TTTT  *"@,
        "          BB * BB * BB * BB * BB * BB * BB"@,
    ]
}

/// The standard layout is its lines, joined.
proof fn lemma_standard_joined()
    ensures
        TEMPLATE@ == join_lines(standard_lines(), 12),
{
    reveal_strlit("\n          BB * BB * BB * BB * BB * BB * BB\n          *   TTTT  *   TTTT  *   TTTT  *\n     BB * BB * BB * BB * BB * BB * BB * BB * BB\n     *   TTTT  *   TTTT  *   TTTT  *   TTTT  *\nBB * BB * BB * BB * BB * BB * BB * BB * BB * BB * BB\n*   TTTT  *   TTTT  *   TTTT  *   TTTT  *   TTTT  *\nBB * BB * BB * BB * BB * BB * BB * BB * BB * BB * BB\n     *   TTTT  *   TTTT  *   TTTT  *   TTTT  *\n     BB * BB * BB * BB * BB * BB * BB * BB * BB\n          *   TTTT  *   TTTT  *   TTTT  *\n          BB * BB * BB * BB * BB * BB * BB");
    reveal_strlit("");
    reveal_strlit("          *   TTTT  *   TTTT  *   TTTT  *");
    reveal_strlit("          BB * BB * BB * BB * BB * BB * BB");
    reveal_strlit("     *   TTTT  *   TTTT  *   TTTT  *   TTTT  *");
    reveal_strlit("     BB * BB * BB * BB * BB * BB * BB * BB * BB");
    reveal_strlit("*   TTTT  *   TTTT  *   TTTT  *   TTTT  *   TTTT  *");
    reveal_strlit("BB * BB * BB * BB * BB * BB * BB * BB * BB * BB * BB");
    reveal_with_fuel(join_lines, 13);
    assert(TEMPLATE@ =~= join_lines(standard_lines(), 12));
}

/// No line of the standard layout holds a line feed.
proof fn lemma_standard_lines_plain()
    ensures
        forall|i: int| 0 <= i < 12 ==> no_line_feed(#[trigger] standard_lines()[i]),
{
    reveal_strlit("");
    reveal_strlit("          *   TTTT  *   TTTT  *   TTTT  *");
    reveal_strlit("          BB * BB * BB * BB * BB * BB * BB");
    reveal_strlit("     *   TTTT  *   TTTT  *   TTTT  *   TTTT  *");
    reveal_strlit("     BB * BB * BB * BB * BB * BB * BB * BB * BB");
    reveal_strlit("*   TTTT  *   TTTT  *   TTTT  *   TTTT  *   TTTT  *");
    reveal_strlit("BB * BB * BB * BB * BB * BB * BB * BB * BB * BB * BB");
    assert(no_line_feed(""@));
    assert(no_line_feed("          *   TTTT  *   TTTT  *   TTTT  *"@));
    assert(no_line_feed("          BB * BB * BB * BB * BB * BB * BB"@));
    assert(no_line_feed("     *   TTTT  *   TTTT  *   TTTT  *   TTTT  *"@));
    assert(no_line_feed("     BB * BB * BB * BB * BB * BB * BB * BB * BB"@));
    assert(no_line_feed("*   TTTT  *   TTTT  *   TTTT  *   TTTT  *   TTTT  *"@));
    assert(no_line_feed("BB * BB * BB * BB * BB * BB * BB * BB * BB * BB * BB"@));
}

/// The lines of the standard layout are those of `standard_lines`.
pub proof fn lemma_standard_split()
    ensures
        split_lines(TEMPLATE@) == standard_lines(),
{
    lemma_standard_joined();
    lemma_standard_lines_plain();
    lemma_split_join(standard_lines(), 12);
    assert(standard_lines().take(12) == standard_lines());
}

/// The marks of a row of seven intersections.
proof fn lemma_row_of_seven(met: Marks)
    ensures
        marks_after("          BB * BB * BB * BB * BB * BB * BB"@, 0, met) == (Marks {
            buildings: met.buildings + 7,
            tiles: met.tiles,
            edges: met.edges + 6,
        }),
{
    reveal_strlit("          BB * BB * BB * BB * BB * BB * BB");
    reveal_with_fuel(marks_after, 36);
}

/// The marks of a row of three tiles.
proof fn lemma_row_of_three_tiles(met: Marks)
    ensures
        marks_after("          *   TTTT  *   TTTT  *   TTTT  *"@, 0, met) == (Marks {
            buildings: met.buildings,
            tiles: met.tiles + 3,
            edges: met.edges + 4,
        }),
{
    reveal_strlit("          *   TTTT  *   TTTT  *   TTTT  *");
    reveal_with_fuel(marks_after, 33);
}

/// The marks of a row of nine intersections.
proof fn lemma_row_of_nine(met: Marks)
    ensures
        marks_after("     BB * BB * BB * BB * BB * BB * BB * BB * BB"@, 0, met) == (Marks {
            buildings: met.buildings + 9,
            tiles: met.tiles,
            edges: met.edges + 8,
        }),
{
    reveal_strlit("     BB * BB * BB * BB * BB * BB * BB * BB * BB");
    reveal_with_fuel(marks_after, 39);
}

/// The marks of a row of four tiles.
proof fn lemma_row_of_four_tiles(met: Marks)
    ensures
        marks_after("     *   TTTT  *   TTTT  *   TTTT  *   TTTT  *"@, 0, met) == (Marks {
            buildings: met.buildings,
            tiles: met.tiles + 4,
            edges: met.edges + 5,
        }),
{
    reveal_strlit("     *   TTTT  *   TTTT  *   TTTT  *   TTTT  *");
    reveal_with_fuel(marks_after, 35);
}

/// The marks of a row of eleven intersections.
proof fn lemma_row_of_eleven(met: Marks)
    ensures
        marks_after("BB * BB * BB * BB * BB * BB * BB * BB * BB * BB * BB"@, 0, met) == (Marks {
            buildings: met.buildings + 11,
            tiles: met.tiles,
            edges: met.edges + 10,
        }),
{
    reveal_strlit("BB * BB * BB * BB * BB * BB * BB * BB * BB * BB * BB");
    reveal_with_fuel(marks_after, 42);
}

/// The marks of a row of five tiles.
proof fn lemma_row_of_five_tiles(met: Marks)
    ensures
        marks_after("*   TTTT  *   TTTT  *   TTTT  *   TTTT  *   TTTT  *"@, 0, met) == (Marks {
            buildings: met.buildings,
            tiles: met.tiles + 5,
            edges: met.edges + 6,
        }),
{
    reveal_strlit("*   TTTT  *   TTTT  *   TTTT  *   TTTT  *   TTTT  *");
    reveal_with_fuel(marks_after, 37);
}

/// The standard layout has the marks of the board: 54 for intersections,
/// 19 for tiles and 72 for edges.
pub proof fn lemma_standard_fits()
    ensures
        fits_board(split_lines(TEMPLATE@)),
{
    lemma_standard_split();
    let lines = standard_lines();
    reveal_strlit("");
    let m0 = Marks { buildings: 0, tiles: 0, edges: 0 };
    assert(marks_upto(lines, 0) == m0);
    assert(marks_upto(lines, 1) == m0);
    let m1 = Marks { buildings: 7, tiles: 0, edges: 6 };
    assert(marks_upto(lines, 2) == m1) by {
        lemma_row_of_seven(m0);
    }
    let m2 = Marks { buildings: 7, tiles: 3, edges: 10 };
    assert(marks_upto(lines, 3) == m2) by {
        lemma_row_of_three_tiles(m1);
    }
    let m3 = Marks { buildings: 16, tiles: 3, edges: 18 };
    assert(marks_upto(lines, 4) == m3) by {
        lemma_row_of_nine(m2);
    }
    let m4 = Marks { buildings: 16, tiles: 7, edges: 23 };
    assert(marks_upto(lines, 5) == m4) by {
        lemma_row_of_four_tiles(m3);
    }
    let m5 = Marks { buildings: 27, tiles: 7, edges: 33 };
    assert(marks_upto(lines, 6) == m5) by {
        lemma_row_of_eleven(m4);
    }
    let m6 = Marks { buildings: 27, tiles: 12, edges: 39 };
    assert(marks_upto(lines, 7) == m6) by {
        lemma_row_of_five_tiles(m5);
    }
    let m7 = Marks { buildings: 38, tiles: 12, edges: 49 };
    assert(marks_upto(lines, 8) == m7) by {
        lemma_row_of_eleven(m6);
    }
    let m8 = Marks { buildings: 38, tiles: 16, edges: 54 };
    assert(marks_upto(lines, 9) == m8) by {
        lemma_row_of_four_tiles(m7);
    }
    let m9 = Marks { buildings: 47, tiles: 16, edges: 62 };
    assert(marks_upto(lines, 10) == m9) by {
        lemma_row_of_nine(m8);
    }
    let m10 = Marks { buildings: 47, tiles: 19, edges: 66 };
    assert(marks_upto(lines, 11) == m10) by {
        lemma_row_of_three_tiles(m9);
    }
    let m11 = Marks { buildings: 54, tiles: 19, edges: 72 };
    assert(marks_upto(lines, 12) == m11) by {
        lemma_row_of_seven(m10);
    }
}

/// In the standard layout, the text of a game that can be written is read
/// without fault, and as what the text holds of the game.
pub proof fn law_standard_reads_back(game: GameView, form: TextForm)
    requires
        writable(game, form),
    ensures
        decoded(TEMPLATE@, encoded(TEMPLATE@, game, form), form) == Ok::<GameView, Seq<char>>(
            shown(game, form),
        ),
{
    lemma_standard_fits();
    lemma_text_reads_back(TEMPLATE@, game, form);
}

/// In the standard layout, a text that was written from a game is written
/// again from what it is read as, character by character.
pub proof fn law_standard_round_trip(game: GameView, form: TextForm)
    requires
        writable(game, form),
    ensures
        decoded(TEMPLATE@, encoded(TEMPLATE@, game, form), form) is Ok,
        encoded(TEMPLATE@, decoded(TEMPLATE@, encoded(TEMPLATE@, game, form), form)->Ok_0, form)
            == encoded(TEMPLATE@, game, form),
{
    lemma_standard_fits();
    law_round_trip(TEMPLATE@, game, form);
}

} // verus!
