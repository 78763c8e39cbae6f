//! What is shown of a puzzle and its board, square by square and part by part.

use vstd::prelude::*;

use crate::exporter::{has_part, lemma_part_last, lemma_part_stays};
use crate::puzzle::PuzzleModel;
use crate::render::{
    board_text, dots, error_text, format_of, length_in, list_text, padding, placement_of,
    ranks_text, report_text, squares_text, version_in, BuildFormat,
};
use crate::section::DbError;
use crate::setting::width;
use crate::text::{decimal, int_text, joined, lower, pieces};
use crate::wire::le_value;
use crate::wording::{law_decimal, law_lower, law_no_number};

verus! {

// ---------------------------------------------------------------------------
// Boards
// ---------------------------------------------------------------------------

proof fn lemma_dots(n: nat)
    ensures
        dots(n).len() == 2 * n,
        forall|j: int|
            0 <= j < dots(n).len() ==> #[trigger] dots(n)[j] == (if j % 2 == 0 {
                ' '
            } else {
                '.'
            }),
    decreases n,
{
    reveal_strlit(" .");
    if n > 0 {
        lemma_dots((n - 1) as nat);
    }
}

proof fn lemma_one_square(c: char)
    ensures
        !('0' <= c <= '9') ==> squares_text(seq![c]) == seq![' ', c],
        '0' <= c <= '9' ==> squares_text(seq![c]) == dots((c as u32 - 48) as nat),
        squares_text(seq![c]).len() == 2 * width(seq![c]),
{
    reveal_strlit(" ");
    assert(seq![c].drop_last() =~= Seq::empty());
    assert(seq![c].last() == c);
    assert(squares_text(Seq::empty()) =~= Seq::empty());
    assert(width(Seq::<char>::empty()) == 0);
    if '0' <= c <= '9' {
        lemma_dots((c as u32 - 48) as nat);
        assert(squares_text(seq![c]) =~= dots((c as u32 - 48) as nat));
    } else {
        assert(squares_text(seq![c]) =~= seq![' ', c]);
    }
}

proof fn lemma_squares_go_on(a: Seq<char>, b: Seq<char>)
    ensures
        squares_text(a + b) == squares_text(a) + squares_text(b),
    decreases b.len(),
{
    if b.len() == 0 {
        assert(a + b =~= a);
        assert(squares_text(a) + squares_text(b) =~= squares_text(a));
    } else {
        lemma_squares_go_on(a, b.drop_last());
        assert((a + b).drop_last() =~= a + b.drop_last());
        assert((a + b).last() == b.last());
    }
}

proof fn lemma_squares_width(s: Seq<char>)
    ensures
        squares_text(s).len() == 2 * width(s),
    decreases s.len(),
{
    if s.len() > 0 {
        lemma_squares_width(s.drop_last());
        lemma_one_square(s.last());
        assert(s =~= s.drop_last() + seq![s.last()]);
        lemma_squares_go_on(s.drop_last(), seq![s.last()]);
        assert(seq![s.last()].drop_last() =~= Seq::empty());
        assert(width(Seq::<char>::empty()) == 0);
    }
}

/// In the line of a rank every square has two columns: the second shows the letter that
/// stands there, or a dot for each square that a digit leaves empty.
pub proof fn law_squares_are_shown(a: Seq<char>, c: char, b: Seq<char>)
    ensures
        ({
            let shown = squares_text(a + seq![c] + b);
            let k = 2 * width(a) as int;
            &&& shown.len() == 2 * width(a + seq![c] + b)
            &&& !('0' <= c <= '9') ==> shown[k] == ' ' && shown[k + 1] == c
            &&& '0' <= c <= '9' ==> forall|j: int|
                0 <= j < c as u32 - 48 ==> #[trigger] shown.subrange(k + 2 * j, k + 2 * j + 2)
                    == seq![' ', '.']
        }),
{
    let d = seq![c];
    let shown = squares_text(a + d + b);
    let k = 2 * width(a) as int;
    lemma_squares_width(a + d + b);
    lemma_squares_width(a);
    lemma_squares_go_on(a + d, b);
    lemma_squares_go_on(a, d);
    lemma_one_square(c);
    assert(shown == squares_text(a) + squares_text(d) + squares_text(b));
    if '0' <= c <= '9' {
        let n = (c as u32 - 48) as nat;
        lemma_dots(n);
        assert forall|j: int| 0 <= j < c as u32 - 48 implies #[trigger] shown.subrange(
            k + 2 * j,
            k + 2 * j + 2,
        ) == seq![' ', '.'] by {
            assert(shown[k + 2 * j] == dots(n)[2 * j]);
            assert(shown[k + 2 * j + 1] == dots(n)[2 * j + 1]);
            assert(shown.subrange(k + 2 * j, k + 2 * j + 2) =~= seq![' ', '.']);
        }
    } else {
        assert(shown[k] == squares_text(d)[0]);
        assert(shown[k + 1] == squares_text(d)[1]);
    }
}

/// The lines of a board follow each other from the eighth rank down, each with its number
/// in front and its squares between bars.
pub proof fn law_lines_of_a_board(ranks: Seq<Seq<char>>, rank: Seq<char>)
    requires
        ranks.len() < 8,
    ensures
        ranks_text(Seq::empty()) == Seq::<char>::empty(),
        ranks_text(ranks.push(rank)) == ranks_text(ranks) + decimal((8 - ranks.len()) as nat)
            + seq![' ', '|'] + squares_text(rank) + seq![' ', '|', '\n'],
{
    reveal_strlit(" |");
    reveal_strlit(" |\n");
    let all = ranks.push(rank);
    assert(all.drop_last() =~= ranks);
    assert(all.last() == rank);
    assert(" |"@ =~= seq![' ', '|']);
    assert(" |\n"@ =~= seq![' ', '|', '\n']);
    assert(int_text(9 - all.len()) == decimal((8 - ranks.len()) as nat));
}

/// The board of a FEN has the lines of all ranks of its first field, between its rims.
pub proof fn law_board_has_all_ranks(fen: Seq<char>)
    ensures
        board_text(fen).len() == 64 + ranks_text(pieces(placement_of(fen), '/')).len(),
        board_text(fen).subrange(22, board_text(fen).len() - 42) == ranks_text(
            pieces(placement_of(fen), '/'),
        ),
{
    reveal_strlit("  +-----------------+\n");
    reveal_strlit("    a b c d e f g h\n");
    let lines = ranks_text(pieces(placement_of(fen), '/'));
    assert(board_text(fen).subrange(22, board_text(fen).len() - 42) =~= lines);
}

// ---------------------------------------------------------------------------
// Puzzles
// ---------------------------------------------------------------------------

/// A report names the identifier, the rating, all themes, the position and all moves of
/// its puzzle, and has the board if and only if it is asked for.
pub proof fn law_report(p: PuzzleModel)
    ensures
        ({
            let short = report_text(p, false);
            let long = report_text(p, true);
            let id = "Puzzle ID:  "@ + p.id + "\n"@;
            let rating = "Rating:     "@ + decimal(p.rating as nat) + "\n"@;
            let themes = "Themes:     "@ + joined(p.themes, ", "@) + "\n"@;
            let fen = "FEN:        "@ + p.fen + "\n"@;
            let moves = "Moves:      "@ + joined(p.moves, " "@) + "\n"@;
            &&& has_part(short, id) && has_part(long, id)
            &&& has_part(short, rating) && has_part(long, rating)
            &&& has_part(short, themes) && has_part(long, themes)
            &&& has_part(short, fen) && has_part(long, fen)
            &&& has_part(short, moves) && has_part(long, moves)
            &&& has_part(long, board_text(p.fen))
            &&& long.len() == short.len() + 1 + board_text(p.fen).len()
        }),
{
    reveal_strlit("\n");
    lemma_report(p, Seq::empty());
    lemma_report(p, "\n"@ + board_text(p.fen));
    let head = report_head(p);
    let bar = "==================================================\n"@;
    let board = board_text(p.fen);
    assert(report_text(p, false) == head + Seq::empty() + bar);
    assert(report_text(p, true) == head + ("\n"@ + board) + bar);
    lemma_part_last(head, "\n"@, board, Seq::empty());
    let i = head.len() as int + 1;
    assert(report_text(p, true).subrange(i, i + board.len()) =~= board);
}

/// What a report says in front of the board.
spec fn report_head(p: PuzzleModel) -> Seq<char> {
    "==================================================\n"@ + "Puzzle ID:  "@ + p.id + "\n"@
        + "Rating:     "@ + decimal(p.rating as nat) + "\n"@ + "Themes:     "@ + joined(
        p.themes,
        ", "@,
    ) + "\n"@ + "FEN:        "@ + p.fen + "\n"@ + "Moves:      "@ + joined(p.moves, " "@) + "\n"@
}

proof fn lemma_report(p: PuzzleModel, more: Seq<char>)
    ensures
        ({
            let whole = report_head(p) + more
                + "==================================================\n"@;
            &&& has_part(whole, "Puzzle ID:  "@ + p.id + "\n"@)
            &&& has_part(whole, "Rating:     "@ + decimal(p.rating as nat) + "\n"@)
            &&& has_part(whole, "Themes:     "@ + joined(p.themes, ", "@) + "\n"@)
            &&& has_part(whole, "FEN:        "@ + p.fen + "\n"@)
            &&& has_part(whole, "Moves:      "@ + joined(p.moves, " "@) + "\n"@)
        }),
{
    let bar = "==================================================\n"@;
    let n = "\n"@;
    let rating = decimal(p.rating as nat);
    let themes = joined(p.themes, ", "@);
    let moves = joined(p.moves, " "@);
    let t0 = bar;
    let t1 = t0 + "Puzzle ID:  "@ + p.id + n;
    let t2 = t1 + "Rating:     "@ + rating + n;
    let t3 = t2 + "Themes:     "@ + themes + n;
    let t4 = t3 + "FEN:        "@ + p.fen + n;
    let t5 = t4 + "Moves:      "@ + moves + n;
    assert(t5 == report_head(p));
    lemma_line(t0, "Puzzle ID:  "@, p.id, n, t5.skip(t1.len() as int), more, bar);
    assert(t1 + t5.skip(t1.len() as int) =~= t5);
    lemma_line(t1, "Rating:     "@, rating, n, t5.skip(t2.len() as int), more, bar);
    assert(t2 + t5.skip(t2.len() as int) =~= t5);
    lemma_line(t2, "Themes:     "@, themes, n, t5.skip(t3.len() as int), more, bar);
    assert(t3 + t5.skip(t3.len() as int) =~= t5);
    lemma_line(t3, "FEN:        "@, p.fen, n, t5.skip(t4.len() as int), more, bar);
    assert(t4 + t5.skip(t4.len() as int) =~= t5);
    lemma_line(t4, "Moves:      "@, moves, n, Seq::empty(), more, bar);
    assert(t5 + Seq::<char>::empty() =~= t5);
}

proof fn lemma_line(
    text: Seq<char>,
    a: Seq<char>,
    b: Seq<char>,
    c: Seq<char>,
    rest: Seq<char>,
    more: Seq<char>,
    bar: Seq<char>,
)
    ensures
        has_part(text + a + b + c + rest + more + bar, a + b + c),
{
    lemma_part_last(text, a, b, c);
    lemma_part_stays(text + a + b + c, a + b + c, rest);
    lemma_part_stays(text + a + b + c + rest, a + b + c, more);
    lemma_part_stays(text + a + b + c + rest + more, a + b + c, bar);
}

/// Whether a text is made of spaces alone.
pub open spec fn is_blank(s: Seq<char>) -> bool {
    forall|i: int| 0 <= i < s.len() ==> #[trigger] s[i] == ' '
}

/// Whether spaces fill a text up to a width; a longer text needs none.
pub open spec fn fills(s: Seq<char>, text: Seq<char>, width: int) -> bool {
    &&& is_blank(s)
    &&& text.len() <= width ==> text.len() + s.len() == width
    &&& text.len() > width ==> s.len() == 0
}

/// Whether a line is that of a puzzle with these spaces before the rating and behind the
/// themes.
pub open spec fn is_line_of(
    line: Seq<char>,
    p: PuzzleModel,
    before: Seq<char>,
    behind: Seq<char>,
) -> bool {
    &&& fills(before, decimal(p.rating as nat), 4)
    &&& fills(behind, joined(p.themes, ", "@), 35)
    &&& line == "["@ + p.id + "] Rating: "@ + before + decimal(p.rating as nat) + " | Themes: "@
        + joined(p.themes, ", "@) + behind + " | Moves: "@ + joined(p.moves, " "@)
}

/// The line of a puzzle in a list has its identifier, its rating in four columns, its
/// themes in thirty-five and all its moves.
pub proof fn law_list_line(p: PuzzleModel)
    ensures
        exists|before: Seq<char>, behind: Seq<char>| #[trigger]
            is_line_of(list_text(p), p, before, behind),
{
    let before = padding(decimal(p.rating as nat).len(), 4);
    let behind = padding(joined(p.themes, ", "@).len(), 35);
    assert(is_line_of(list_text(p), p, before, behind));
}

// ---------------------------------------------------------------------------
// Names, headers and errors
// ---------------------------------------------------------------------------

/// Whether a character is a small letter or digit, or its capital.
pub open spec fn either_case(c: char, small: char) -> bool {
    c == small || ('A' <= c <= 'Z' && c as u32 + 32 == small as u32)
}

/// Whether a text is a word of small letters and digits, in any case.
pub open spec fn spells(s: Seq<char>, small: Seq<char>) -> bool {
    &&& s.len() == small.len()
    &&& forall|i: int| 0 <= i < s.len() ==> either_case(#[trigger] s[i], small[i])
}

proof fn lemma_either_case(c: char, small: char, made: char)
    requires
        either_case(c, small),
        !('A' <= small <= 'Z'),
        'A' <= c <= 'Z' ==> made as u32 == c as u32 + 32,
        !('A' <= c <= 'Z') ==> made == c,
    ensures
        made == small,
{
}

proof fn lemma_spells(s: Seq<char>, small: Seq<char>)
    requires
        forall|i: int| 0 <= i < small.len() ==> !('A' <= #[trigger] small[i] <= 'Z'),
    ensures
        spells(s, small) <==> lower(s) == small,
{
    if spells(s, small) {
        assert forall|i: int| 0 <= i < s.len() implies #[trigger] lower(s)[i] == small[i] by {
            law_lower(s, i);
            assert(either_case(s[i], small[i]));
            assert(!('A' <= small[i] <= 'Z'));
            lemma_either_case(s[i], small[i], lower(s)[i]);
        }
        assert(lower(s).len() == s.len());
        assert(lower(s) =~= small);
    }
    if lower(s) == small {
        assert(lower(s).len() == s.len());
        assert forall|i: int| 0 <= i < s.len() implies either_case(#[trigger] s[i], small[i]) by {
            law_lower(s, i);
            assert(lower(s)[i] == small[i]);
        }
    }
}

/// The names v4 and columnar ask for blocks of columns and v3 for blocks of records, in
/// any case; every other name asks for fixed records.
pub proof fn law_formats(name: Seq<char>)
    ensures
        format_of(name) == BuildFormat::Columns <==> (spells(name, seq!['v', '4']) || spells(
            name,
            seq!['c', 'o', 'l', 'u', 'm', 'n', 'a', 'r'],
        )),
        format_of(name) == BuildFormat::Blocks <==> spells(name, seq!['v', '3']),
{
    reveal_strlit("v4");
    reveal_strlit("v3");
    reveal_strlit("columnar");
    assert("v4"@ =~= seq!['v', '4']);
    assert("v3"@ =~= seq!['v', '3']);
    assert("columnar"@ =~= seq!['c', 'o', 'l', 'u', 'm', 'n', 'a', 'r']);
    lemma_spells(name, seq!['v', '4']);
    lemma_spells(name, seq!['v', '3']);
    lemma_spells(name, seq!['c', 'o', 'l', 'u', 'm', 'n', 'a', 'r']);
}

/// The version of a file is the number behind the letters LPDB, its lowest byte first;
/// any other start is taken for the fourth version.
pub proof fn law_version_of_a_file(start: Seq<u8>)
    ensures
        start.len() >= 8 && start[0] == 76 && start[1] == 80 && start[2] == 68 && start[3] == 66
            ==> version_in(start) == start[4] + 256 * start[5] + 65536 * start[6] + 16777216
            * start[7],
        start.len() < 8 || start[0] != 76 || start[1] != 80 || start[2] != 68 || start[3] != 66
            ==> version_in(start) == 4,
{
    if start.len() >= 8 {
        let first = start.take(4);
        let m = crate::db::magic();
        if first == m {
            assert(first[0] == m[0] && first[1] == m[1] && first[2] == m[2] && first[3] == m[3]);
        }
        if start[0] == 76 && start[1] == 80 && start[2] == 68 && start[3] == 66 {
            assert(first =~= m);
            let b = start.subrange(4, 8);
            assert(le_value(b.skip(1).skip(1).skip(1).skip(1)) == 0);
            assert(le_value(b.skip(1).skip(1).skip(1)) == start[7]);
            assert(le_value(b.skip(1).skip(1)) == start[6] + 256 * le_value(
                b.skip(1).skip(1).skip(1),
            ));
            assert(le_value(b.skip(1)) == start[5] + 256 * le_value(b.skip(1).skip(1)));
            assert(le_value(b) == start[4] + 256 * le_value(b.skip(1)));
        }
    }
}

/// The length that a header gives is the number that it writes; one that writes none, or
/// one too large, gives no length.
pub proof fn law_length_in_a_header(n: nat, s: Seq<char>, i: int)
    requires
        0 <= i < s.len(),
        !('0' <= s[i] <= '9'),
        i > 0 || s[0] != '+',
    ensures
        n <= 0xFFFF_FFFF_FFFF_FFFF ==> length_in(decimal(n)) == n,
        n > 0xFFFF_FFFF_FFFF_FFFF ==> length_in(decimal(n)) == 0,
        length_in(s) == 0,
        length_in(Seq::empty()) == 0,
{
    law_decimal(n, 0xFFFF_FFFF_FFFF_FFFF);
    law_no_number(s, 0xFFFF_FFFF_FFFF_FFFF, i);
}

/// What is said of a wrong version names the version that was found and then the one that
/// was expected; what is said of a short file names the version of its header.
pub proof fn law_versions_are_named(found: u32, version: u32)
    ensures
        error_text(DbError::UnsupportedVersion(found), version) == "Unsupported LPDB version: "@
            + decimal(found as nat) + " (expected "@ + decimal(version as nat) + ")"@,
        version != 2 ==> has_part(
            error_text(DbError::TooSmall, version),
            "V"@ + decimal(version as nat) + " "@,
        ),
{
    reveal_strlit("V");
    reveal_strlit(" ");
    reveal_strlit("File too small for V");
    reveal_strlit(" header");
    let t = error_text(DbError::TooSmall, version);
    let part = "V"@ + decimal(version as nat) + " "@;
    if version != 2 {
        assert(t.subrange(19, 19 + part.len() as int) =~= part);
    }
}

} // verus!
