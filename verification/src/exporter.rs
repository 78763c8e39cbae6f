//! Puzzles as PGN games and as comma-separated lines.

use vstd::prelude::*;

use crate::fen::fen_text;
use crate::position::{
    board_fen, board_ok, law_clock_is_apart, law_position_round_trip, law_positions_stay_sound,
    read_board, san, step, step_safe, BoardModel, BoardState,
};
use crate::puzzle::{Puzzle, PuzzleModel};
use crate::text::{
    chars_of, decimal, fields, joined, lemma_fields_joined, no_white, number, parse_number,
    push_decimal, push_joined, split_fields, texts, words,
};
use crate::wording::{law_decimal, lemma_visible, visible};

verus! {

/// A position, if there is one.
pub open spec fn board_model(b: Option<BoardState>) -> Option<BoardModel> {
    match b {
        Some(b) => Some(b@),
        None => None,
    }
}

/// Whether a position, if there is one, is sound.
pub open spec fn board_wf(b: Option<BoardModel>) -> bool {
    b matches Some(m) ==> board_ok(m)
}

/// The notation of a move; without a position, the move as it is written.
pub open spec fn shown(b: Option<BoardModel>, s: Seq<char>) -> Seq<char> {
    match b {
        Some(m) => san(m, s),
        None => s,
    }
}

/// The position after a move.
pub open spec fn played(b: Option<BoardModel>, s: Seq<char>) -> Option<BoardModel> {
    match b {
        Some(m) => Some(step(m, s)),
        None => None,
    }
}

/// Whether fields say that black is to move.
pub open spec fn black_first(fs: Seq<Seq<char>>) -> bool {
    fs.len() > 1 && fs[1] == seq!['b']
}

/// The move number that fields give; 1 where they give none.
pub open spec fn first_number(fs: Seq<Seq<char>>) -> nat {
    if fs.len() > 5 {
        match number(fs[5], usize::MAX as nat) {
            Some(n) => n,
            None => 1,
        }
    } else {
        1
    }
}

/// What stands before a move: the number before a move of white, the number and
/// three dots before a first move of black.
pub open spec fn number_text(n: nat, black: bool, first: bool) -> Seq<char> {
    if !black {
        decimal(n) + ". "@
    } else if first {
        decimal(n) + "... "@
    } else {
        Seq::empty()
    }
}

/// The number of the next move.
pub open spec fn next_number(n: nat, black: bool) -> nat {
    if black {
        n + 1
    } else {
        n
    }
}

/// Moves with their numbers, each with a space behind it.
pub open spec fn line_text(
    b: Option<BoardModel>,
    moves: Seq<Seq<char>>,
    n: nat,
    black: bool,
    first: bool,
) -> Seq<char>
    decreases moves.len(),
{
    if moves.len() == 0 {
        Seq::empty()
    } else {
        number_text(n, black, first) + shown(b, moves[0]) + " "@ + line_text(
            played(b, moves[0]),
            moves.skip(1),
            next_number(n, black),
            !black,
            false,
        )
    }
}

/// Whether moves can be played and numbered.
pub open spec fn line_safe(
    b: Option<BoardModel>,
    moves: Seq<Seq<char>>,
    n: nat,
    black: bool,
) -> bool
    decreases moves.len(),
{
    moves.len() > 0 ==> {
        &&& b matches Some(m) ==> step_safe(m, moves[0])
        &&& black ==> n < usize::MAX
        &&& line_safe(played(b, moves[0]), moves.skip(1), next_number(n, black), !black)
    }
}

/// The tags of a game.
pub open spec fn tags_text(id: Seq<char>, fen: Seq<char>, rating: u16, themes: Seq<Seq<char>>) -> Seq<
    char,
> {
    "[Event \"Lichess Puzzle "@ + id + "\"]\n"@ + "[Site \"https://lichess.org/training\"]\n"@
        + "[Date \"????.??.??\"]\n"@ + "[White \"Puzzle\"]\n"@ + "[Black \"Puzzle\"]\n"@
        + "[Result \"*\"]\n"@ + "[SetUp \"1\"]\n"@ + "[FEN \""@ + fen + "\"]\n"@
        + "[PuzzleId \""@ + id + "\"]\n"@ + "[Rating \""@ + decimal(rating as nat) + "\"]\n"@ + (
    if themes.len() == 0 {
        Seq::empty()
    } else {
        "[Themes \""@ + joined(themes, " "@) + "\"]\n"@
    })
}

/// The position after the first move of a puzzle.
pub open spec fn after_setup(p: PuzzleModel) -> Option<BoardModel> {
    played(read_board(fields(p.fen)), p.moves[0])
}

/// The FEN after the first move of a puzzle; that of the puzzle where it cannot be
/// read.
pub open spec fn setup_fen(p: PuzzleModel) -> Seq<char> {
    match after_setup(p) {
        Some(m) => fen_text(board_fen(m)),
        None => p.fen,
    }
}

/// The game of a puzzle. Where the first move is left out, and there is more than
/// one, the game starts behind it and a tag names it.
pub open spec fn pgn_text(p: PuzzleModel, with_setup: bool) -> Seq<char> {
    let board = read_board(fields(p.fen));
    if !with_setup && p.moves.len() > 1 {
        let fen = setup_fen(p);
        let fs = fields(fen);
        tags_text(p.id, fen, p.rating, p.themes) + "[SetupMove \""@ + (match board {
            Some(m) => san(m, p.moves[0]),
            None => Seq::empty(),
        }) + "\"]\n"@ + "\n"@ + line_text(
            after_setup(p),
            p.moves.skip(1),
            first_number(fs),
            black_first(fs),
            true,
        ) + "*\n\n"@
    } else {
        let fs = fields(p.fen);
        tags_text(p.id, p.fen, p.rating, p.themes) + "\n"@ + line_text(
            board,
            p.moves,
            first_number(fs),
            black_first(fs),
            true,
        ) + "*\n\n"@
    }
}

/// Whether the moves of a puzzle can be played and numbered.
pub open spec fn pgn_safe(p: PuzzleModel, with_setup: bool) -> bool {
    let board = read_board(fields(p.fen));
    if !with_setup && p.moves.len() > 1 {
        let fs = fields(setup_fen(p));
        &&& board matches Some(m) ==> step_safe(m, p.moves[0])
        &&& line_safe(after_setup(p), p.moves.skip(1), first_number(fs), black_first(fs))
    } else {
        let fs = fields(p.fen);
        line_safe(board, p.moves, first_number(fs), black_first(fs))
    }
}

/// Whether the first move of a puzzle can be played.
pub open spec fn setup_safe(p: PuzzleModel) -> bool {
    p.moves.len() > 1 ==> (read_board(fields(p.fen)) matches Some(m) ==> step_safe(m, p.moves[0]))
}

/// The puzzle behind its first move; unchanged where there is no other move, or
/// where its FEN cannot be read.
pub open spec fn without_setup(p: PuzzleModel) -> PuzzleModel {
    if p.moves.len() <= 1 {
        p
    } else {
        match after_setup(p) {
            Some(m) => PuzzleModel {
                id: p.id,
                fen: fen_text(board_fen(m)),
                moves: p.moves.skip(1),
                rating: p.rating,
                themes: p.themes,
            },
            None => p,
        }
    }
}

/// The comma-separated line of a puzzle: identifier, FEN, moves, rating, themes. A
/// FEN with a comma stands in quotation marks, as the themes do.
pub open spec fn csv_text(p: PuzzleModel) -> Seq<char> {
    p.id + ","@ + (if p.fen.contains(',') {
        "\""@ + p.fen + "\""@
    } else {
        p.fen
    }) + ","@ + joined(p.moves, " "@) + ","@ + decimal(p.rating as nat) + ",\""@ + joined(
        p.themes,
        " "@,
    ) + "\"\n"@
}

/// The side and the number of the first move of a FEN.
fn start_of_line(fen: &str) -> (r: (bool, usize))
    ensures
        r.0 == black_first(fields(fen@)),
        r.1 == first_number(fields(fen@)),
{
    let chars = chars_of(fen);
    let parts = split_fields(chars.as_slice());
    let ghost fs = fields(fen@);
    assert(words(parts@).len() == parts@.len());
    let black = if parts.len() > 1 {
        assert(fs[1] == parts@[1]@);
        let is_b = parts[1].len() == 1 && parts[1][0] == 'b';
        assert(is_b == (fs[1] == seq!['b'])) by {
            if is_b {
                assert(fs[1] =~= seq!['b']);
            }
        }
        is_b
    } else {
        false
    };
    let n: usize = if parts.len() > 5 {
        assert(fs[5] == parts@[5]@);
        match parse_number(parts[5].as_slice(), usize::MAX as u64) {
            Some(n) => n as usize,
            None => 1,
        }
    } else {
        1
    };
    (black, n)
}

/// Appends the number before a move.
fn push_number(out: &mut String, n: usize, black: bool, first: bool)
    ensures
        final(out)@ == old(out)@ + number_text(n as nat, black, first),
{
    if !black {
        push_decimal(out, n as u64);
        out.append(". ");
    } else if first {
        push_decimal(out, n as u64);
        out.append("... ");
    }
    assert(out@ =~= old(out)@ + number_text(n as nat, black, first));
}

/// Appends the moves from one on, with their numbers.
fn push_line(
    out: &mut String,
    board: Option<BoardState>,
    moves: &Vec<String>,
    from: usize,
    number: usize,
    black_to_move: bool,
)
    requires
        board_wf(board_model(board)),
        from <= moves@.len(),
        line_safe(
            board_model(board),
            texts(moves@).skip(from as int),
            number as nat,
            black_to_move,
        ),
    ensures
        final(out)@ == old(out)@ + line_text(
            board_model(board),
            texts(moves@).skip(from as int),
            number as nat,
            black_to_move,
            true,
        ),
{
    let ghost all = texts(moves@);
    let ghost whole = old(out)@ + line_text(
        board_model(board),
        all.skip(from as int),
        number as nat,
        black_to_move,
        true,
    );
    let mut b = board;
    let mut n: usize = number;
    let mut black = black_to_move;
    let mut i: usize = from;
    while i < moves.len()
        invariant
            all == texts(moves@),
            from <= i <= moves@.len(),
            board_wf(board_model(b)),
            line_safe(board_model(b), all.skip(i as int), n as nat, black),
            whole == out@ + line_text(
                board_model(b),
                all.skip(i as int),
                n as nat,
                black,
                i == from,
            ),
        decreases moves@.len() - i,
    {
        let ghost rest = all.skip(i as int);
        let ghost at = board_model(b);
        let ghost said = out@;
        assert(rest[0] == moves@[i as int]@);
        assert(rest.skip(1) =~= all.skip(i + 1));
        push_number(out, n, black, i == from);
        let (text, next) = play(b, moves[i].as_str());
        b = next;
        out.append(text.as_str());
        out.append(" ");
        proof {
            let tail = line_text(
                board_model(b),
                all.skip(i + 1),
                next_number(n as nat, black),
                !black,
                false,
            );
            assert(said + (number_text(n as nat, black, i == from) + shown(at, rest[0]) + " "@
                + tail) =~= out@ + tail);
        }
        if black {
            n = n + 1;
        }
        black = !black;
        i = i + 1;
    }
    assert(all.skip(i as int) =~= Seq::empty());
    assert(out@ =~= whole);
}

/// Plays a move, if there is a position, and gives its notation.
fn play(board: Option<BoardState>, uci: &str) -> (r: (String, Option<BoardState>))
    requires
        board_wf(board_model(board)),
        board_model(board) matches Some(m) ==> step_safe(m, uci@),
    ensures
        r.0@ == shown(board_model(board), uci@),
        board_model(r.1) == played(board_model(board), uci@),
        board_wf(board_model(r.1)),
{
    match board {
        Some(b) => {
            let mut next = b;
            let text = next.uci_to_san_and_apply(uci);
            (text, Some(next))
        },
        None => (uci.to_string(), None),
    }
}

/// Appends the tags of a game.
fn push_tags(out: &mut String, puzzle: &Puzzle, fen: &str)
    requires
        old(out)@.len() == 0,
    ensures
        final(out)@ == tags_text(puzzle@.id, fen@, puzzle@.rating, puzzle@.themes),
{
    out.append("[Event \"Lichess Puzzle ");
    assert(out@ =~= "[Event \"Lichess Puzzle "@);
    out.append(puzzle.id.as_str());
    out.append("\"]\n");
    out.append("[Site \"https://lichess.org/training\"]\n");
    out.append("[Date \"????.??.??\"]\n");
    out.append("[White \"Puzzle\"]\n");
    out.append("[Black \"Puzzle\"]\n");
    out.append("[Result \"*\"]\n");
    out.append("[SetUp \"1\"]\n");
    out.append("[FEN \"");
    out.append(fen);
    out.append("\"]\n");
    out.append("[PuzzleId \"");
    out.append(puzzle.id.as_str());
    out.append("\"]\n");
    out.append("[Rating \"");
    push_decimal(out, puzzle.rating as u64);
    out.append("\"]\n");
    let ghost head = out@;
    if puzzle.themes.len() > 0 {
        out.append("[Themes \"");
        push_joined(out, &puzzle.themes, " ");
        out.append("\"]\n");
        assert(out@ =~= head + ("[Themes \""@ + joined(puzzle@.themes, " "@) + "\"]\n"@));
    } else {
        assert(out@ =~= head + Seq::<char>::empty());
    }
}

/// The writer of puzzles.
pub struct Exporter;

impl Exporter {
    /// The PGN game of a puzzle, with its first move.
    pub fn puzzle_to_pgn(puzzle: &Puzzle) -> (r: String)
        requires
            pgn_safe(puzzle@, true),
        ensures
            r@ == pgn_text(puzzle@, true),
    {
        Self::puzzle_to_pgn_with_options(puzzle, true)
    }

    /// The PGN game of a puzzle. Without the setup move, the first move is made on
    /// the board and the game starts behind it.
    pub fn puzzle_to_pgn_with_options(puzzle: &Puzzle, include_setup_move: bool) -> (r: String)
        requires
            pgn_safe(puzzle@, include_setup_move),
        ensures
            r@ == pgn_text(puzzle@, include_setup_move),
    {
        let ghost p = puzzle@;
        let board = BoardState::from_fen(puzzle.fen.as_str());
        assert(board_model(board) == read_board(fields(p.fen)));
        let mut out = String::new();
        if !include_setup_move && puzzle.moves.len() > 1 {
            assert(p.moves[0] == puzzle.moves@[0]@);
            let known = board.is_some();
            let (text, next) = play(board, puzzle.moves[0].as_str());
            let fen = match &next {
                Some(b) => b.to_fen(),
                None => puzzle.fen.clone(),
            };
            assert(fen@ == setup_fen(p));
            push_tags(&mut out, puzzle, fen.as_str());
            out.append("[SetupMove \"");
            let ghost head = out@;
            if known {
                out.append(text.as_str());
            }
            proof {
                let named = match read_board(fields(p.fen)) {
                    Some(m) => san(m, p.moves[0]),
                    None => Seq::empty(),
                };
                assert(out@ =~= head + named);
            }
            out.append("\"]\n");
            out.append("\n");
            let (black, n): (bool, usize) = start_of_line(fen.as_str());
            push_line(&mut out, next, &puzzle.moves, 1, n, black);
            out.append("*\n\n");
            return out;
        }
        push_tags(&mut out, puzzle, puzzle.fen.as_str());
        out.append("\n");
        let (black, n): (bool, usize) = start_of_line(puzzle.fen.as_str());
        assert(p.moves.skip(0) =~= p.moves);
        push_line(&mut out, board, &puzzle.moves, 0, n, black);
        out.append("*\n\n");
        out
    }

    /// The puzzle behind its first move.
    pub fn puzzle_without_setup_move(puzzle: &Puzzle) -> (r: Puzzle)
        requires
            setup_safe(puzzle@),
        ensures
            r@ == without_setup(puzzle@),
    {
        let ghost p = puzzle@;
        if puzzle.moves.len() <= 1 {
            return puzzle.clone();
        }
        let mut board = match BoardState::from_fen(puzzle.fen.as_str()) {
            Some(b) => b,
            None => {
                return puzzle.clone();
            },
        };
        assert(p.moves[0] == puzzle.moves@[0]@);
        let _san = board.uci_to_san_and_apply(puzzle.moves[0].as_str());
        let mut r = puzzle.clone();
        r.fen = board.to_fen();
        let ghost before = texts(r.moves@);
        assert(before.len() == r.moves@.len() && before == p.moves);
        let _first = r.moves.remove(0);
        assert(texts(r.moves@) =~= before.skip(1));
        assert(r@ =~= without_setup(p));
        r
    }

    /// The comma-separated line of a puzzle: `PuzzleId,FEN,Moves,Rating,Themes`.
    pub fn puzzle_to_csv_line(puzzle: &Puzzle) -> (r: String)
        ensures
            r@ == csv_text(puzzle@),
    {
        let ghost p = puzzle@;
        let mut out = String::new();
        out.append(puzzle.id.as_str());
        assert(out@ =~= p.id);
        out.append(",");
        let ghost head = out@;
        let chars = chars_of(puzzle.fen.as_str());
        if has_comma(chars.as_slice()) {
            out.append("\"");
            out.append(puzzle.fen.as_str());
            out.append("\"");
            assert(out@ =~= head + ("\""@ + p.fen + "\""@));
        } else {
            out.append(puzzle.fen.as_str());
        }
        out.append(",");
        push_joined(&mut out, &puzzle.moves, " ");
        out.append(",");
        push_decimal(&mut out, puzzle.rating as u64);
        out.append(",\"");
        push_joined(&mut out, &puzzle.themes, " ");
        out.append("\"\n");
        out
    }

    /// The first line of a comma-separated file.
    pub fn csv_header() -> (r: &'static str)
        ensures
            r@ == "PuzzleId,FEN,Moves,Rating,Themes\n"@,
    {
        "PuzzleId,FEN,Moves,Rating,Themes\n"
    }

    /// Whether the moves of a puzzle can be played and numbered, as a game of the
    /// puzzle asks.
    pub fn can_write_pgn(puzzle: &Puzzle, include_setup_move: bool) -> (r: bool)
        ensures
            r == pgn_safe(puzzle@, include_setup_move),
    {
        let ghost p = puzzle@;
        let board = BoardState::from_fen(puzzle.fen.as_str());
        assert(board_model(board) == read_board(fields(p.fen)));
        if !include_setup_move && puzzle.moves.len() > 1 {
            assert(p.moves[0] == puzzle.moves@[0]@);
            if let Some(b) = &board {
                if !b.can_play(puzzle.moves[0].as_str()) {
                    return false;
                }
            }
            let (_text, next) = play(board, puzzle.moves[0].as_str());
            let fen = match &next {
                Some(b) => b.to_fen(),
                None => puzzle.fen.clone(),
            };
            assert(fen@ == setup_fen(p));
            let (black, n): (bool, usize) = start_of_line(fen.as_str());
            return line_can_be_played(next, &puzzle.moves, 1, n, black);
        }
        let (black, n): (bool, usize) = start_of_line(puzzle.fen.as_str());
        assert(p.moves.skip(0) =~= p.moves);
        line_can_be_played(board, &puzzle.moves, 0, n, black)
    }

    /// Whether the first move of a puzzle can be played.
    pub fn can_drop_setup(puzzle: &Puzzle) -> (r: bool)
        ensures
            r == setup_safe(puzzle@),
    {
        if puzzle.moves.len() <= 1 {
            return true;
        }
        assert(puzzle@.moves[0] == puzzle.moves@[0]@);
        match BoardState::from_fen(puzzle.fen.as_str()) {
            Some(b) => b.can_play(puzzle.moves[0].as_str()),
            None => true,
        }
    }
}

fn has_comma(s: &[char]) -> (r: bool)
    ensures
        r == s@.contains(','),
{
    for i in 0..s.len()
        invariant
            forall|j: int| 0 <= j < i ==> #[trigger] s@[j] != ',',
    {
        if s[i] == ',' {
            assert(s@[i as int] == ',');
            return true;
        }
    }
    false
}

/// Whether the moves from one on can be played and numbered.
fn line_can_be_played(
    board: Option<BoardState>,
    moves: &Vec<String>,
    from: usize,
    number: usize,
    black_to_move: bool,
) -> (r: bool)
    requires
        board_wf(board_model(board)),
        from <= moves@.len(),
    ensures
        r == line_safe(
            board_model(board),
            texts(moves@).skip(from as int),
            number as nat,
            black_to_move,
        ),
{
    let ghost all = texts(moves@);
    let ghost whole = line_safe(
        board_model(board),
        all.skip(from as int),
        number as nat,
        black_to_move,
    );
    let ghost start = board_model(board);
    let mut b = board;
    let mut n: usize = number;
    let mut black = black_to_move;
    let mut i: usize = from;
    while i < moves.len()
        invariant
            all == texts(moves@),
            from <= i <= moves@.len(),
            board_wf(board_model(b)),
            start == board_model(board),
            whole == line_safe(start, all.skip(from as int), number as nat, black_to_move),
            whole == line_safe(board_model(b), all.skip(i as int), n as nat, black),
        decreases moves@.len() - i,
    {
        let ghost rest = all.skip(i as int);
        assert(rest[0] == moves@[i as int]@);
        assert(rest.skip(1) =~= all.skip(i + 1));
        if let Some(x) = &b {
            if !x.can_play(moves[i].as_str()) {
                return false;
            }
        }
        if black && n == usize::MAX {
            return false;
        }
        let (_text, next) = play(b, moves[i].as_str());
        b = next;
        if black {
            n = n + 1;
        }
        black = !black;
        i = i + 1;
    }
    assert(all.skip(i as int) =~= Seq::empty());
    true
}

/// The moves of a game: what stands between the tags and the end.
pub open spec fn game_text(p: PuzzleModel) -> Seq<char> {
    let fs = fields(p.fen);
    "\n"@ + line_text(read_board(fs), p.moves, first_number(fs), black_first(fs), true) + "*\n\n"@
}

/// Leaving the first move out writes the game of the puzzle behind its first move,
/// with a tag that names the move.
#[verifier::rlimit(40)]
pub proof fn law_setup_left_out(p: PuzzleModel)
    requires
        p.moves.len() > 1,
        read_board(fields(p.fen)) is Some,
        step_safe(read_board(fields(p.fen))->0, p.moves[0]),
    ensures
        ({
            let q = without_setup(p);
            let tags = tags_text(q.id, q.fen, q.rating, q.themes);
            &&& pgn_text(q, true) == tags + game_text(q)
            &&& pgn_text(p, false) == tags + ("[SetupMove \""@ + san(
                read_board(fields(p.fen))->0,
                p.moves[0],
            ) + "\"]\n"@) + game_text(q)
        }),
{
    let m = read_board(fields(p.fen))->0;
    let next = step(m, p.moves[0]);
    law_positions_stay_sound(fields(p.fen), m, p.moves[0]);
    law_position_round_trip(next);
    let q = without_setup(p);
    let tags = tags_text(q.id, q.fen, q.rating, q.themes);
    let fs = fields(q.fen);
    let back = read_board(fs)->0;
    lemma_same_line(next, back.halfmove, q.moves, first_number(fs), black_first(fs), true);
    assert(read_board(fs) == Some(BoardModel { halfmove: back.halfmove, ..next }));
    let line = line_text(Some(next), q.moves, first_number(fs), black_first(fs), true);
    assert(tags + "\n"@ + line + "*\n\n"@ =~= tags + game_text(q));
    let sign = "[SetupMove \""@ + san(m, p.moves[0]) + "\"]\n"@;
    assert(tags + "[SetupMove \""@ + san(m, p.moves[0]) + "\"]\n"@ =~= tags + sign);
    assert(tags + sign + "\n"@ + line + "*\n\n"@ =~= tags + sign + game_text(q));
}

/// The halfmove clock has no part in the text of a line.
proof fn lemma_same_line(
    m: BoardModel,
    half: nat,
    moves: Seq<Seq<char>>,
    n: nat,
    black: bool,
    first: bool,
)
    ensures
        line_text(Some(BoardModel { halfmove: half, ..m }), moves, n, black, first) == line_text(
            Some(m),
            moves,
            n,
            black,
            first,
        ),
    decreases moves.len(),
{
    if moves.len() > 0 {
        let other = BoardModel { halfmove: half, ..m };
        law_clock_is_apart(m, half, moves[0]);
        lemma_same_line(
            step(m, moves[0]),
            step(other, moves[0]).halfmove,
            moves.skip(1),
            next_number(n, black),
            !black,
            false,
        );
    }
}

/// A puzzle behind its first move has one move less, and the same identifier,
/// rating and themes; its position is that after the move. A halfmove clock that has
/// run above 255 is read as zero.
pub proof fn law_without_setup(p: PuzzleModel)
    requires
        p.moves.len() > 1,
        read_board(fields(p.fen)) is Some,
        step_safe(read_board(fields(p.fen))->0, p.moves[0]),
    ensures
        without_setup(p).moves == p.moves.skip(1),
        without_setup(p).id == p.id,
        without_setup(p).rating == p.rating,
        without_setup(p).themes == p.themes,
        ({
            let next = step(read_board(fields(p.fen))->0, p.moves[0]);
            read_board(fields(without_setup(p).fen)) == Some(
                BoardModel {
                    halfmove: if next.halfmove <= 255 {
                        next.halfmove
                    } else {
                        0
                    },
                    ..next
                },
            )
        }),
{
    let m = read_board(fields(p.fen))->0;
    law_positions_stay_sound(fields(p.fen), m, p.moves[0]);
    law_position_round_trip(step(m, p.moves[0]));
}

// ---------------------------------------------------------------------------
// Reading back what was written
// ---------------------------------------------------------------------------

/// The fields of a comma-separated line, read on from `field`: a comma ends a field,
/// and quotation marks go around text in which it does not.
pub open spec fn read_csv(s: Seq<char>, field: Seq<char>, quoted: bool) -> Seq<Seq<char>>
    decreases s.len(),
{
    if s.len() == 0 {
        seq![field]
    } else if s[0] == '"' {
        read_csv(s.skip(1), field, !quoted)
    } else if s[0] == ',' && !quoted {
        seq![field] + read_csv(s.skip(1), Seq::empty(), false)
    } else {
        read_csv(s.skip(1), field.push(s[0]), quoted)
    }
}

/// Whether a text has neither commas nor quotation marks.
pub open spec fn is_plain(s: Seq<char>) -> bool {
    !s.contains(',') && !s.contains('"')
}

/// Words that can stand one after the other: visible characters, at least one each.
pub open spec fn are_words(ws: Seq<Seq<char>>) -> bool {
    forall|i: int| 0 <= i < ws.len() ==> (#[trigger] ws[i]).len() > 0 && visible(ws[i])
}

/// The line of a puzzle, read back, gives its identifier, its FEN, all its moves, its
/// rating and all its themes, and nothing else.
pub proof fn law_csv_line_is_read_back(p: PuzzleModel)
    requires
        is_plain(p.id),
        !p.fen.contains('"'),
        are_words(p.moves),
        are_words(p.themes),
        forall|i: int| 0 <= i < p.moves.len() ==> is_plain(#[trigger] p.moves[i]),
        forall|i: int| 0 <= i < p.themes.len() ==> !(#[trigger] p.themes[i]).contains('"'),
    ensures
        csv_text(p).len() > 0,
        csv_text(p).last() == '\n',
        ({
            let fs = read_csv(csv_text(p).drop_last(), Seq::empty(), false);
            &&& fs.len() == 5
            &&& fs[0] == p.id
            &&& fs[1] == p.fen
            &&& fields(fs[2]) == p.moves
            &&& number(fs[3], 65535) == Some(p.rating as nat)
            &&& fields(fs[4]) == p.themes
        }),
{
    reveal_strlit(" ");
    assert(" "@ =~= seq![' ']);
    let moves = joined(p.moves, seq![' ']);
    let themes = joined(p.themes, seq![' ']);
    let rating = decimal(p.rating as nat);
    lemma_joined_without(p.moves, ',');
    lemma_joined_without(p.moves, '"');
    lemma_joined_without(p.themes, '"');
    law_decimal(p.rating as nat, 65535);
    assert(is_plain(rating)) by {
        assert forall|i: int| 0 <= i < rating.len() implies #[trigger] rating[i] != ',' && rating[i]
            != '"' by {}
    }
    lemma_csv_shape(p);
    let line = csv_line(p.id, p.fen, moves, rating, themes);
    assert(line.push('\n').drop_last() =~= line);
    lemma_line_is_read(p.id, p.fen, moves, rating, themes);
    lemma_words(p.moves);
    lemma_words(p.themes);
}

/// The line of five fields.
spec fn csv_line(
    id: Seq<char>,
    fen: Seq<char>,
    moves: Seq<char>,
    rating: Seq<char>,
    themes: Seq<char>,
) -> Seq<char> {
    let comma = seq![','];
    let mark = seq!['"'];
    let quoted = if fen.contains(',') {
        mark + fen + mark
    } else {
        fen
    };
    id + (comma + (quoted + (comma + (moves + (comma + (rating + (comma + (mark + themes
        + mark))))))))
}

proof fn lemma_csv_shape(p: PuzzleModel)
    ensures
        csv_text(p) == csv_line(
            p.id,
            p.fen,
            joined(p.moves, seq![' ']),
            decimal(p.rating as nat),
            joined(p.themes, seq![' ']),
        ).push('\n'),
{
    reveal_strlit(",");
    reveal_strlit("\"");
    reveal_strlit(" ");
    reveal_strlit(",\"");
    reveal_strlit("\"\n");
    assert(" "@ =~= seq![' ']);
    assert(","@ =~= seq![',']);
    assert("\""@ =~= seq!['"']);
    assert(",\""@ =~= seq![','] + seq!['"']);
    assert("\"\n"@ =~= seq!['"'].push('\n'));
    let a = p.id;
    let b = if p.fen.contains(',') {
        seq!['"'] + p.fen + seq!['"']
    } else {
        p.fen
    };
    let c = joined(p.moves, seq![' ']);
    let d = decimal(p.rating as nat);
    let e = joined(p.themes, seq![' ']);
    lemma_same_line_text(a, b, c, d, e);
}

/// The same parts, put together from the left and from the right.
proof fn lemma_same_line_text(a: Seq<char>, b: Seq<char>, c: Seq<char>, d: Seq<char>, e: Seq<char>)
    ensures
        a + seq![','] + b + seq![','] + c + seq![','] + d + (seq![','] + seq!['"']) + e
            + seq!['"'].push('\n') == (a + (seq![','] + (b + (seq![','] + (c + (seq![','] + (d + (
        seq![','] + (seq!['"'] + e + seq!['"']))))))))).push('\n'),
{
    let comma = seq![','];
    let mark = seq!['"'];
    let left = a + comma + b + comma + c + comma + d + (comma + mark) + e + mark.push('\n');
    let t = comma + (mark + e + mark);
    let u = comma + (d + t);
    let v = comma + (c + u);
    let w = comma + (b + v);
    assert((comma + mark) + e + mark.push('\n') =~= t.push('\n'));
    assert(left =~= a + comma + b + comma + c + comma + d + t.push('\n'));
    assert(left =~= a + comma + b + comma + c + u.push('\n'));
    assert(left =~= a + comma + b + v.push('\n'));
    assert(left =~= a + w.push('\n'));
    assert(left =~= (a + w).push('\n'));
}

proof fn lemma_line_is_read(
    id: Seq<char>,
    fen: Seq<char>,
    moves: Seq<char>,
    rating: Seq<char>,
    themes: Seq<char>,
)
    requires
        is_plain(id),
        !fen.contains('"'),
        is_plain(moves),
        is_plain(rating),
        !themes.contains('"'),
    ensures
        read_csv(csv_line(id, fen, moves, rating, themes), Seq::empty(), false) == seq![
            id,
            fen,
            moves,
            rating,
            themes,
        ],
{
    let none = Seq::<char>::empty();
    let comma = seq![','];
    let mark = seq!['"'];
    let l4 = mark + themes + mark;
    let l3 = rating + (comma + l4);
    let l2 = moves + (comma + l3);
    let quoted = if fen.contains(',') {
        mark + fen + mark
    } else {
        fen
    };
    let l1 = quoted + (comma + l2);
    lemma_read_quoted(none, themes, none);
    assert(l4 =~= mark + themes + mark + none);
    assert(none + themes =~= themes);
    assert(read_csv(none, themes, false) == seq![themes]);
    lemma_read_field(rating, l4);
    lemma_read_field(moves, l3);
    assert(read_csv(l2, none, false) =~= seq![moves, rating, themes]);
    if fen.contains(',') {
        lemma_read_quoted(none, fen, comma + l2);
        assert(l1 =~= mark + fen + mark + (comma + l2));
        assert(none + fen =~= fen);
        assert((comma + l2).skip(1) =~= l2);
        assert(read_csv(comma + l2, fen, false) == seq![fen] + read_csv(l2, none, false));
    } else {
        lemma_read_field(fen, l2);
    }
    assert(read_csv(l1, none, false) =~= seq![fen, moves, rating, themes]);
    lemma_read_field(id, l1);
    assert(read_csv(id + (comma + l1), none, false) =~= seq![id, fen, moves, rating, themes]);
}

proof fn lemma_words(ws: Seq<Seq<char>>)
    requires
        are_words(ws),
    ensures
        fields(joined(ws, seq![' '])) == ws,
{
    assert forall|i: int| 0 <= i < ws.len() implies (#[trigger] ws[i]).len() > 0 && no_white(
        ws[i],
    ) by {
        lemma_visible(ws[i]);
    }
    lemma_fields_joined(ws);
}

proof fn lemma_joined_without(parts: Seq<Seq<char>>, c: char)
    requires
        c != ' ',
        forall|i: int| 0 <= i < parts.len() ==> !(#[trigger] parts[i]).contains(c),
    ensures
        !joined(parts, seq![' ']).contains(c),
    decreases parts.len(),
{
    let t = joined(parts, seq![' ']);
    if parts.len() == 1 {
        assert(!parts[0].contains(c));
    } else if parts.len() > 1 {
        let rest = parts.skip(1);
        assert forall|i: int| 0 <= i < rest.len() implies !(#[trigger] rest[i]).contains(c) by {
            assert(rest[i] == parts[i + 1]);
        }
        lemma_joined_without(rest, c);
        let tail = joined(rest, seq![' ']);
        if t.contains(c) {
            let i = choose|i: int| 0 <= i < t.len() && t[i] == c;
            let n = parts[0].len();
            if i < n {
                assert(parts[0][i] == c);
            } else if i > n {
                assert(tail[i - n - 1] == c);
            }
        }
    }
}

/// Text without commas and quotation marks goes on with a field; in quotation marks
/// commas do too.
proof fn lemma_read_on(w: Seq<char>, field: Seq<char>, quoted: bool, rest: Seq<char>)
    requires
        !w.contains('"'),
        quoted || !w.contains(','),
    ensures
        read_csv(w + rest, field, quoted) == read_csv(rest, field + w, quoted),
    decreases w.len(),
{
    if w.len() == 0 {
        assert(w + rest =~= rest);
        assert(field + w =~= field);
    } else {
        let s = w + rest;
        let more = w.skip(1);
        assert(s[0] == w[0]);
        assert(s.skip(1) =~= more + rest);
        assert(w[0] != '"' && (quoted || w[0] != ','));
        assert(!more.contains('"')) by {
            if more.contains('"') {
                let i = choose|i: int| 0 <= i < more.len() && more[i] == '"';
                assert(w[i + 1] == '"');
            }
        }
        assert(quoted || !more.contains(',')) by {
            if more.contains(',') {
                let i = choose|i: int| 0 <= i < more.len() && more[i] == ',';
                assert(w[i + 1] == ',');
            }
        }
        lemma_read_on(more, field.push(w[0]), quoted, rest);
        assert(field.push(w[0]) + more =~= field + w);
    }
}

/// A field without commas and quotation marks ends at the comma behind it.
proof fn lemma_read_field(w: Seq<char>, rest: Seq<char>)
    requires
        is_plain(w),
    ensures
        read_csv(w + (seq![','] + rest), Seq::empty(), false) == seq![w] + read_csv(
            rest,
            Seq::empty(),
            false,
        ),
{
    let none = Seq::<char>::empty();
    let tail = seq![','] + rest;
    lemma_read_on(w, none, false, tail);
    assert(none + w =~= w);
    assert(tail.skip(1) =~= rest);
}

/// What stands in quotation marks goes on with a field, commas too.
proof fn lemma_read_quoted(field: Seq<char>, w: Seq<char>, rest: Seq<char>)
    requires
        !w.contains('"'),
    ensures
        read_csv(seq!['"'] + w + seq!['"'] + rest, field, false) == read_csv(
            rest,
            field + w,
            false,
        ),
{
    let mark = seq!['"'];
    let s = mark + w + mark + rest;
    let tail = mark + rest;
    assert(s.skip(1) =~= w + tail);
    lemma_read_on(w, field, true, tail);
    assert(tail.skip(1) =~= rest);
}

// ---------------------------------------------------------------------------
// The text of a game
// ---------------------------------------------------------------------------

/// The position after moves; none where there is none to start from.
pub open spec fn position_after(b: Option<BoardModel>, moves: Seq<Seq<char>>) -> Option<BoardModel>
    decreases moves.len(),
{
    if moves.len() == 0 {
        b
    } else {
        match position_after(b, moves.drop_last()) {
            Some(m) => Some(step(m, moves.last())),
            None => None,
        }
    }
}

/// What stands before the move behind `k` others, where the first has a number and a
/// side: a move of white has its number and a dot, a move of black only where it is the
/// first, with three dots.
pub open spec fn mark_before(k: nat, n: nat, black: bool) -> Seq<char> {
    let of_black = if black {
        k % 2 == 0
    } else {
        k % 2 == 1
    };
    if !of_black {
        decimal(
            n + (if black {
                (k + 1) / 2
            } else {
                k / 2
            }),
        ) + seq!['.', ' ']
    } else if k == 0 {
        decimal(n) + seq!['.', '.', '.', ' ']
    } else {
        Seq::empty()
    }
}

/// One more move adds its number, where it has one, its notation in the position after
/// all the others, and a space. Without a position the move stands as it is.
pub proof fn law_line_grows(
    b: Option<BoardModel>,
    moves: Seq<Seq<char>>,
    last: Seq<char>,
    n: nat,
    black: bool,
)
    ensures
        line_text(b, moves.push(last), n, black, true) == line_text(b, moves, n, black, true)
            + mark_before(moves.len(), n, black) + (match position_after(b, moves) {
            Some(m) => san(m, last),
            None => last,
        }) + seq![' '],
        line_text(b, Seq::empty(), n, black, true) == Seq::<char>::empty(),
{
    lemma_line_grows(b, moves, last, n, black, true);
}

proof fn lemma_line_grows(
    b: Option<BoardModel>,
    moves: Seq<Seq<char>>,
    last: Seq<char>,
    n: nat,
    black: bool,
    first: bool,
)
    ensures
        line_text(b, moves.push(last), n, black, first) == line_text(b, moves, n, black, first) + (
        if moves.len() == 0 && !first && black {
            Seq::empty()
        } else {
            mark_before(moves.len(), n, black)
        }) + shown(position_after(b, moves), last) + seq![' '],
    decreases moves.len(),
{
    reveal_strlit(" ");
    reveal_strlit(". ");
    reveal_strlit("... ");
    assert(" "@ =~= seq![' ']);
    assert(". "@ =~= seq!['.', ' ']);
    assert("... "@ =~= seq!['.', '.', '.', ' ']);
    let all = moves.push(last);
    if moves.len() == 0 {
        assert(all.skip(1) =~= Seq::empty());
        assert(all[0] == last);
        let rest = line_text(played(b, last), all.skip(1), next_number(n, black), !black, false);
        assert(rest =~= Seq::empty());
        assert(line_text(b, moves, n, black, first) =~= Seq::empty());
        let front = number_text(n, black, first) + shown(b, last) + " "@;
        assert(front + rest =~= front);
        assert(Seq::<char>::empty() + number_text(n, black, first) =~= number_text(
            n,
            black,
            first,
        ));
    } else {
        let rest = moves.skip(1);
        let next = played(b, moves[0]);
        assert(all.skip(1) =~= rest.push(last));
        assert(all[0] == moves[0]);
        lemma_line_grows(next, rest, last, next_number(n, black), !black, false);
        lemma_after_first(b, moves);
        let front = number_text(n, black, first) + shown(b, moves[0]) + " "@;
        let middle = line_text(next, rest, next_number(n, black), !black, false);
        let k = moves.len();
        let mark = if rest.len() == 0 && !black {
            Seq::empty()
        } else {
            mark_before(rest.len(), next_number(n, black), !black)
        };
        lemma_mark(k, n, black);
        let tail = shown(position_after(b, moves), last);
        assert(front + (middle + mark + tail + seq![' ']) =~= front + middle + mark + tail + seq![
            ' ',
        ]);
    }
}

/// The mark of a move, counted from the first move and from the second.
proof fn lemma_mark(k: nat, n: nat, black: bool)
    requires
        k > 0,
    ensures
        (if k == 1 && !black {
            Seq::empty()
        } else {
            mark_before((k - 1) as nat, next_number(n, black), !black)
        }) == mark_before(k, n, black),
{
}

proof fn lemma_after_first(b: Option<BoardModel>, moves: Seq<Seq<char>>)
    requires
        moves.len() > 0,
    ensures
        position_after(played(b, moves[0]), moves.skip(1)) == position_after(b, moves),
    decreases moves.len(),
{
    let rest = moves.skip(1);
    if rest.len() == 0 {
        assert(moves.drop_last() =~= Seq::empty());
        assert(moves.last() == moves[0]);
    } else {
        let init = moves.drop_last();
        lemma_after_first(b, init);
        assert(init.skip(1) =~= rest.drop_last());
        assert(init[0] == moves[0]);
        assert(rest.last() == moves.last());
    }
}

/// Whether a text has a part.
pub open spec fn has_part(text: Seq<char>, part: Seq<char>) -> bool {
    exists|i: int|
        0 <= i && i + part.len() <= text.len() && #[trigger] text.subrange(i, i + part.len())
            == part
}

/// A part that was written stays when more is written behind it.
pub proof fn lemma_part_stays(text: Seq<char>, part: Seq<char>, more: Seq<char>)
    requires
        has_part(text, part),
    ensures
        has_part(text + more, part),
{
    let i = choose|i: int|
        0 <= i && i + part.len() <= text.len() && #[trigger] text.subrange(i, i + part.len())
            == part;
    assert((text + more).subrange(i, i + part.len()) =~= part);
}

/// What is written last is a part.
pub proof fn lemma_part_last(text: Seq<char>, a: Seq<char>, b: Seq<char>, c: Seq<char>)
    ensures
        has_part(text + a + b + c, a + b + c),
{
    let whole = text + a + b + c;
    let part = a + b + c;
    let i = text.len() as int;
    assert(whole.subrange(i, i + part.len()) =~= part);
}

/// The tags of a game name the identifier, the position, the rating and the themes of
/// its puzzle.
pub proof fn law_tags(p: PuzzleModel, with_setup: bool)
    ensures
        ({
            let text = pgn_text(p, with_setup);
            let fen = if with_setup || p.moves.len() <= 1 {
                p.fen
            } else {
                without_setup(p).fen
            };
            &&& has_part(text, "[Event \"Lichess Puzzle "@ + p.id + "\"]\n"@)
            &&& has_part(text, common_tags())
            &&& has_part(text, "[FEN \""@ + fen + "\"]\n"@)
            &&& has_part(text, "[PuzzleId \""@ + p.id + "\"]\n"@)
            &&& has_part(text, "[Rating \""@ + decimal(p.rating as nat) + "\"]\n"@)
            &&& p.themes.len() > 0 ==> has_part(
                text,
                "[Themes \""@ + joined(p.themes, " "@) + "\"]\n"@,
            )
        }),
{
    let fen = if with_setup || p.moves.len() <= 1 {
        p.fen
    } else {
        without_setup(p).fen
    };
    lemma_tags(p.id, fen, p.rating, p.themes);
    let tags = tags_text(p.id, fen, p.rating, p.themes);
    let text = pgn_text(p, with_setup);
    lemma_starts_with_tags(p, with_setup, tags);
    let more = text.skip(tags.len() as int);
    assert(text =~= tags + more);
    lemma_part_stays(tags, "[Event \"Lichess Puzzle "@ + p.id + "\"]\n"@, more);
    lemma_part_stays(tags, common_tags(), more);
    lemma_part_stays(tags, "[FEN \""@ + fen + "\"]\n"@, more);
    lemma_part_stays(tags, "[PuzzleId \""@ + p.id + "\"]\n"@, more);
    lemma_part_stays(tags, "[Rating \""@ + decimal(p.rating as nat) + "\"]\n"@, more);
    if p.themes.len() > 0 {
        lemma_part_stays(tags, "[Themes \""@ + joined(p.themes, " "@) + "\"]\n"@, more);
    }
}

proof fn lemma_starts_with_tags(p: PuzzleModel, with_setup: bool, tags: Seq<char>)
    requires
        tags == tags_text(
            p.id,
            if with_setup || p.moves.len() <= 1 {
                p.fen
            } else {
                without_setup(p).fen
            },
            p.rating,
            p.themes,
        ),
    ensures
        tags.len() <= pgn_text(p, with_setup).len(),
        pgn_text(p, with_setup).take(tags.len() as int) == tags,
{
    let text = pgn_text(p, with_setup);
    assert(text.take(tags.len() as int) =~= tags);
}

proof fn lemma_tags(id: Seq<char>, fen: Seq<char>, rating: u16, themes: Seq<Seq<char>>)
    ensures
        ({
            let text = tags_text(id, fen, rating, themes);
            &&& has_part(text, "[Event \"Lichess Puzzle "@ + id + "\"]\n"@)
            &&& has_part(text, common_tags())
            &&& has_part(text, "[FEN \""@ + fen + "\"]\n"@)
            &&& has_part(text, "[PuzzleId \""@ + id + "\"]\n"@)
            &&& has_part(text, "[Rating \""@ + decimal(rating as nat) + "\"]\n"@)
            &&& themes.len() > 0 ==> has_part(
                text,
                "[Themes \""@ + joined(themes, " "@) + "\"]\n"@,
            )
        }),
{
    let end = "\"]\n"@;
    let event = "[Event \"Lichess Puzzle "@ + id + end;
    let position = "[FEN \""@ + fen + end;
    let name = "[PuzzleId \""@ + id + end;
    let stars = "[Rating \""@ + decimal(rating as nat) + end;
    let none = Seq::<char>::empty();
    lemma_part_last(none, "[Event \"Lichess Puzzle "@, id, end);
    assert(none + "[Event \"Lichess Puzzle "@ + id + end =~= event);
    let t1 = event + "[Site \"https://lichess.org/training\"]\n"@;
    let t2 = t1 + "[Date \"????.??.??\"]\n"@;
    let t3 = t2 + "[White \"Puzzle\"]\n"@;
    let t4 = t3 + "[Black \"Puzzle\"]\n"@;
    let t5 = t4 + "[Result \"*\"]\n"@;
    let t6 = t5 + "[SetUp \"1\"]\n"@;
    let t7 = t6 + "[FEN \""@ + fen + end;
    let t8 = t7 + "[PuzzleId \""@ + id + end;
    let t9 = t8 + "[Rating \""@ + decimal(rating as nat) + end;
    let common = common_tags();
    assert(t6 =~= event + common);
    lemma_part_stays(event, event, common);
    lemma_part_last(event, common, none, none);
    assert(event + common + none + none =~= t6);
    assert(common + none + none =~= common);
    lemma_tag_behind(t6, event, "[FEN \""@, fen, end);
    lemma_tag_behind(t6, common, "[FEN \""@, fen, end);
    lemma_part_last(t6, "[FEN \""@, fen, end);
    lemma_tag_behind(t7, event, "[PuzzleId \""@, id, end);
    lemma_tag_behind(t7, common, "[PuzzleId \""@, id, end);
    lemma_tag_behind(t7, position, "[PuzzleId \""@, id, end);
    lemma_part_last(t7, "[PuzzleId \""@, id, end);
    lemma_tag_behind(t8, event, "[Rating \""@, decimal(rating as nat), end);
    lemma_tag_behind(t8, common, "[Rating \""@, decimal(rating as nat), end);
    lemma_tag_behind(t8, position, "[Rating \""@, decimal(rating as nat), end);
    lemma_tag_behind(t8, name, "[Rating \""@, decimal(rating as nat), end);
    lemma_part_last(t8, "[Rating \""@, decimal(rating as nat), end);
    let list = joined(themes, " "@);
    let last = if themes.len() == 0 {
        none
    } else {
        "[Themes \""@ + list + end
    };
    assert(tags_text(id, fen, rating, themes) == t9 + last);
    lemma_part_stays(t9, event, last);
    lemma_part_stays(t9, common, last);
    lemma_part_stays(t9, position, last);
    lemma_part_stays(t9, name, last);
    lemma_part_stays(t9, stars, last);
    if themes.len() > 0 {
        lemma_part_last(t9, "[Themes \""@, list, end);
        assert(t9 + "[Themes \""@ + list + end =~= t9 + last);
    }
}

/// A part that was written stays when a tag is written behind it.
proof fn lemma_tag_behind(
    text: Seq<char>,
    part: Seq<char>,
    a: Seq<char>,
    b: Seq<char>,
    c: Seq<char>,
)
    requires
        has_part(text, part),
    ensures
        has_part(text + a + b + c, part),
{
    lemma_part_stays(text, part, a);
    lemma_part_stays(text + a, part, b);
    lemma_part_stays(text + a + b, part, c);
}

/// The tags that are the same in every game.
pub open spec fn common_tags() -> Seq<char> {
    "[Site \"https://lichess.org/training\"]\n"@ + "[Date \"????.??.??\"]\n"@
        + "[White \"Puzzle\"]\n"@ + "[Black \"Puzzle\"]\n"@ + "[Result \"*\"]\n"@
        + "[SetUp \"1\"]\n"@
}

/// The game of a puzzle is its tags, an empty line, all its moves numbered from its
/// FEN, and a star.
pub proof fn law_game_is_numbered_from_the_fen(p: PuzzleModel, n: nat)
    requires
        fields(p.fen).len() == 6,
        fields(p.fen)[5] == decimal(n),
        n <= usize::MAX,
    ensures
        ({
            let black = fields(p.fen)[1] == seq!['b'];
            let line = line_text(read_board(fields(p.fen)), p.moves, n, black, true);
            let text = pgn_text(p, true);
            let game = seq!['\n'] + line + seq!['*', '\n', '\n'];
            &&& game.len() <= text.len()
            &&& text.skip(text.len() - game.len()) == game
        }),
{
    reveal_strlit("\n");
    reveal_strlit("*\n\n");
    law_decimal(n, usize::MAX as nat);
    let black = fields(p.fen)[1] == seq!['b'];
    let line = line_text(read_board(fields(p.fen)), p.moves, n, black, true);
    let text = pgn_text(p, true);
    let game = seq!['\n'] + line + seq!['*', '\n', '\n'];
    assert("\n"@ =~= seq!['\n']);
    assert("*\n\n"@ =~= seq!['*', '\n', '\n']);
    assert(text.skip(text.len() - game.len()) =~= game);
}

/// A puzzle with at most one move, or whose FEN cannot be read, has no setup move to
/// leave out: it stays as it is.
pub proof fn law_no_setup(p: PuzzleModel)
    requires
        p.moves.len() <= 1 || read_board(fields(p.fen)) is None,
    ensures
        without_setup(p) == p,
{
}

/// Whether a text ends with another.
pub open spec fn closes_with(text: Seq<char>, end: Seq<char>) -> bool {
    end.len() <= text.len() && text.skip(text.len() - end.len()) == end
}

/// The moves of a game from a position on, between an empty line and a star.
pub open spec fn game_from(m: BoardModel, moves: Seq<Seq<char>>) -> Seq<char> {
    seq!['\n'] + line_text(Some(m), moves, m.fullmove, m.black, true) + seq!['*', '\n', '\n']
}

proof fn lemma_side_and_number(fs: Seq<Seq<char>>)
    requires
        read_board(fs) is Some,
    ensures
        first_number(fs) == read_board(fs)->0.fullmove,
        black_first(fs) == read_board(fs)->0.black,
{
    if fs.len() <= 5 {
        law_decimal(1, usize::MAX as nat);
        assert(decimal(1) =~= seq!['1']);
    }
    assert('w' != 'b');
    if fs.len() <= 1 {
        assert(seq!['w'][0] != seq!['b'][0]);
    }
}

/// A game has all the moves of its puzzle from the position of its FEN on, with the side
/// and the number of that. One without the setup move names that move in a tag, in the
/// notation of the position before it, and has all other moves from the position behind
/// it on.
pub proof fn law_games_have_all_moves(p: PuzzleModel)
    requires
        read_board(fields(p.fen)) is Some,
    ensures
        ({
            let m = read_board(fields(p.fen))->0;
            let next = step(m, p.moves[0]);
            &&& closes_with(pgn_text(p, true), game_from(m, p.moves))
            &&& p.moves.len() > 1 && step_safe(m, p.moves[0]) ==> {
                &&& closes_with(pgn_text(p, false), game_from(next, p.moves.skip(1)))
                &&& has_part(
                    pgn_text(p, false),
                    "[SetupMove \""@ + san(m, p.moves[0]) + "\"]\n"@,
                )
            }
            &&& p.moves.len() <= 1 ==> pgn_text(p, false) == pgn_text(p, true)
        }),
{
    let m = read_board(fields(p.fen))->0;
    lemma_side_and_number(fields(p.fen));
    lemma_game_closes(
        tags_text(p.id, p.fen, p.rating, p.themes),
        line_text(Some(m), p.moves, m.fullmove, m.black, true),
    );
    if p.moves.len() > 1 && step_safe(m, p.moves[0]) {
        let next = step(m, p.moves[0]);
        law_without_setup(p);
        let fen = setup_fen(p);
        assert(fen == without_setup(p).fen);
        lemma_side_and_number(fields(fen));
        let head = tags_text(p.id, fen, p.rating, p.themes);
        let note = san(m, p.moves[0]);
        let line = line_text(Some(next), p.moves.skip(1), next.fullmove, next.black, true);
        lemma_game_closes(head + "[SetupMove \""@ + note + "\"]\n"@, line);
        lemma_part_last(head, "[SetupMove \""@, note, "\"]\n"@);
        let tag = "[SetupMove \""@ + note + "\"]\n"@;
        let t = head + "[SetupMove \""@ + note + "\"]\n"@;
        lemma_part_stays(t, tag, "\n"@);
        lemma_part_stays(t + "\n"@, tag, line);
        lemma_part_stays(t + "\n"@ + line, tag, "*\n\n"@);
    }
}

proof fn lemma_game_closes(head: Seq<char>, line: Seq<char>)
    ensures
        closes_with(
            head + "\n"@ + line + "*\n\n"@,
            seq!['\n'] + line + seq!['*', '\n', '\n'],
        ),
{
    reveal_strlit("\n");
    reveal_strlit("*\n\n");
    assert("\n"@ =~= seq!['\n']);
    assert("*\n\n"@ =~= seq!['*', '\n', '\n']);
    let text = head + "\n"@ + line + "*\n\n"@;
    let end = seq!['\n'] + line + seq!['*', '\n', '\n'];
    assert(text.skip(text.len() - end.len()) =~= end);
}

/// Whether a position can go on for so many moves: its numbers do not run over, and its
/// en-passant square, if any, is on neither edge.
pub open spec fn can_go_on(m: BoardModel, n: nat) -> bool {
    &&& m.halfmove + n <= usize::MAX
    &&& m.fullmove + n <= usize::MAX
    &&& m.ep matches Some(e) ==> 8 <= e < 56
}

/// Moves from a position that can go on for all of them can be played and numbered, and
/// so can any moves without a position.
pub proof fn law_lines_that_can_be_played(
    b: Option<BoardModel>,
    moves: Seq<Seq<char>>,
    n: nat,
    black: bool,
)
    requires
        n + moves.len() <= usize::MAX,
        b matches Some(m) ==> can_go_on(m, moves.len()),
    ensures
        line_safe(b, moves, n, black),
    decreases moves.len(),
{
    if moves.len() > 0 {
        law_lines_that_can_be_played(
            played(b, moves[0]),
            moves.skip(1),
            next_number(n, black),
            !black,
        );
    }
}

} // verus!
