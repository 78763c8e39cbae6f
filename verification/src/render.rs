//! What the command line shows and understands.

use vstd::prelude::*;

use crate::db::{is_magic, magic, number_at, take_four};
use crate::puzzle::{Puzzle, PuzzleModel};
use crate::section::DbError;
use crate::text::{
    chars_of, decimal, digit_value, fields, int_text, is_digit, joined, lower, number, parse_number,
    pieces, push_decimal, push_joined, same_chars, split_fields, split_on, to_lower, words,
};
use crate::wire::{lemma_spans, take};

verus! {

// ---------------------------------------------------------------------------
// Boards and puzzles
// ---------------------------------------------------------------------------

/// A dot for each of some empty squares.
pub open spec fn dots(n: nat) -> Seq<char>
    decreases n,
{
    if n == 0 {
        Seq::empty()
    } else {
        dots((n - 1) as nat) + " ."@
    }
}

/// The squares of a rank: dots for a digit, any other character as it is.
pub open spec fn squares_text(rank: Seq<char>) -> Seq<char>
    decreases rank.len(),
{
    if rank.len() == 0 {
        Seq::empty()
    } else {
        let c = rank.last();
        squares_text(rank.drop_last()) + (if is_digit(c) {
            dots(digit_value(c))
        } else {
            " "@.push(c)
        })
    }
}

/// The lines of ranks; the first rank is the eighth.
pub open spec fn ranks_text(ranks: Seq<Seq<char>>) -> Seq<char>
    decreases ranks.len(),
{
    if ranks.len() == 0 {
        Seq::empty()
    } else {
        ranks_text(ranks.drop_last()) + int_text(9 - ranks.len()) + " |"@ + squares_text(
            ranks.last(),
        ) + " |\n"@
    }
}

/// The placement field of a FEN; empty where there is none.
pub open spec fn placement_of(fen: Seq<char>) -> Seq<char> {
    if fields(fen).len() > 0 {
        fields(fen)[0]
    } else {
        Seq::empty()
    }
}

/// The board of a FEN.
pub open spec fn board_text(fen: Seq<char>) -> Seq<char> {
    "  +-----------------+\n"@ + ranks_text(pieces(placement_of(fen), '/'))
        + "  +-----------------+\n"@ + "    a b c d e f g h\n"@
}

/// A puzzle, with its board where that is asked for.
pub open spec fn report_text(p: PuzzleModel, show_board: bool) -> Seq<char> {
    "==================================================\n"@ + "Puzzle ID:  "@ + p.id + "\n"@
        + "Rating:     "@ + decimal(p.rating as nat) + "\n"@ + "Themes:     "@ + joined(
        p.themes,
        ", "@,
    ) + "\n"@ + "FEN:        "@ + p.fen + "\n"@ + "Moves:      "@ + joined(p.moves, " "@) + "\n"@ + (
    if show_board {
        "\n"@ + board_text(p.fen)
    } else {
        Seq::empty()
    }) + "==================================================\n"@
}

/// So many spaces.
pub open spec fn spaces(n: nat) -> Seq<char> {
    Seq::new(n, |i: int| ' ')
}

/// The spaces that a text of a length lacks to a width.
pub open spec fn padding(len: nat, width: nat) -> Seq<char> {
    if len < width {
        spaces((width - len) as nat)
    } else {
        Seq::empty()
    }
}

/// The line of a puzzle in a list: the rating right in four columns, the themes
/// left in thirty-five.
pub open spec fn list_text(p: PuzzleModel) -> Seq<char> {
    let rating = decimal(p.rating as nat);
    let themes = joined(p.themes, ", "@);
    "["@ + p.id + "] Rating: "@ + padding(rating.len(), 4) + rating + " | Themes: "@ + themes
        + padding(themes.len(), 35) + " | Moves: "@ + joined(p.moves, " "@)
}

fn push_dots(out: &mut String, n: u8)
    ensures
        final(out)@ == old(out)@ + dots(n as nat),
{
    assert(out@ =~= old(out)@ + dots(0));
    for i in 0..n
        invariant
            out@ == old(out)@ + dots(i as nat),
    {
        out.append(" .");
        assert(out@ =~= old(out)@ + dots((i + 1) as nat));
    }
}

fn push_squares(out: &mut String, rank: &[char])
    ensures
        final(out)@ == old(out)@ + squares_text(rank@),
{
    assert(out@ =~= old(out)@ + squares_text(rank@.take(0)));
    for i in 0..rank.len()
        invariant
            out@ == old(out)@ + squares_text(rank@.take(i as int)),
    {
        let c = rank[i];
        assert(rank@.take(i + 1).drop_last() =~= rank@.take(i as int));
        assert(rank@.take(i + 1).last() == c);
        if '0' <= c && c <= '9' {
            push_dots(out, (c as u8) - ('0' as u8));
        } else {
            out.append(" ");
            out.push(c);
        }
        assert(out@ =~= old(out)@ + squares_text(rank@.take(i + 1)));
    }
    assert(rank@.take(rank@.len() as int) =~= rank@);
}

/// Appends eight less a number of ranks.
fn push_rank_number(out: &mut String, before: usize)
    ensures
        final(out)@ == old(out)@ + int_text(8 - before),
{
    if before <= 8 {
        push_decimal(out, (8 - before) as u64);
    } else {
        out.append("-");
        push_decimal(out, (before - 8) as u64);
    }
    assert(out@ =~= old(out)@ + int_text(8 - before));
}

fn push_board(out: &mut String, fen: &str)
    ensures
        final(out)@ == old(out)@ + board_text(fen@),
{
    let ghost start = out@;
    let chars = chars_of(fen);
    let parts = split_fields(chars.as_slice());
    assert(words(parts@).len() == parts@.len());
    let none: Vec<char> = Vec::new();
    assert(none@ =~= Seq::empty());
    let placement: &Vec<char> = if parts.len() > 0 {
        assert(fields(fen@)[0] == parts@[0]@);
        &parts[0]
    } else {
        &none
    };
    assert(placement@ == placement_of(fen@));
    let ranks = split_on(placement.as_slice(), '/');
    let ghost all = words(ranks@);
    let mut body = String::new();
    assert(body@ =~= ranks_text(all.take(0)));
    for i in 0..ranks.len()
        invariant
            all == words(ranks@),
            body@ == ranks_text(all.take(i as int)),
    {
        assert(all.take(i + 1).drop_last() =~= all.take(i as int));
        assert(all.take(i + 1).last() == ranks@[i as int]@);
        push_rank_number(&mut body, i);
        body.append(" |");
        push_squares(&mut body, ranks[i].as_slice());
        body.append(" |\n");
    }
    assert(all.take(ranks@.len() as int) =~= all);
    out.append("  +-----------------+\n");
    out.append(body.as_str());
    out.append("  +-----------------+\n");
    out.append("    a b c d e f g h\n");
    assert(out@ =~= start + board_text(fen@));
}

/// The board of a FEN, rank by rank.
pub fn ascii_board(fen: &str) -> (r: String)
    ensures
        r@ == board_text(fen@),
{
    let mut out = String::new();
    push_board(&mut out, fen);
    assert(out@ =~= board_text(fen@));
    out
}

/// A puzzle, with its board where that is asked for.
pub fn puzzle_report(p: &Puzzle, show_board: bool) -> (r: String)
    ensures
        r@ == report_text(p@, show_board),
{
    let mut out = String::new();
    out.append("==================================================\n");
    assert(out@ =~= "==================================================\n"@);
    out.append("Puzzle ID:  ");
    out.append(p.id.as_str());
    out.append("\n");
    out.append("Rating:     ");
    push_decimal(&mut out, p.rating as u64);
    out.append("\n");
    out.append("Themes:     ");
    push_joined(&mut out, &p.themes, ", ");
    out.append("\n");
    out.append("FEN:        ");
    out.append(p.fen.as_str());
    out.append("\n");
    out.append("Moves:      ");
    push_joined(&mut out, &p.moves, " ");
    out.append("\n");
    let ghost head = out@;
    if show_board {
        out.append("\n");
        push_board(&mut out, p.fen.as_str());
        assert(out@ =~= head + ("\n"@ + board_text(p@.fen)));
    } else {
        assert(out@ =~= head + Seq::<char>::empty());
    }
    out.append("==================================================\n");
    out
}

fn push_padding(out: &mut String, len: usize, width: usize)
    ensures
        final(out)@ == old(out)@ + padding(len as nat, width as nat),
{
    if len < width {
        let n: usize = width - len;
        assert(out@ =~= old(out)@ + spaces(0));
        for i in 0..n
            invariant
                out@ == old(out)@ + spaces(i as nat),
        {
            out.push(' ');
            assert(out@ =~= old(out)@ + spaces((i + 1) as nat));
        }
    } else {
        assert(out@ =~= old(out)@ + padding(len as nat, width as nat));
    }
}

/// The line of a puzzle in a list.
pub fn list_line(p: &Puzzle) -> (r: String)
    ensures
        r@ == list_text(p@),
{
    let mut rating = String::new();
    push_decimal(&mut rating, p.rating as u64);
    assert(rating@ =~= decimal(p.rating as nat));
    let rating_chars = chars_of(rating.as_str());
    let mut themes = String::new();
    push_joined(&mut themes, &p.themes, ", ");
    assert(themes@ =~= joined(p@.themes, ", "@));
    let theme_chars = chars_of(themes.as_str());
    let mut out = String::new();
    out.append("[");
    assert(out@ =~= "["@);
    out.append(p.id.as_str());
    out.append("] Rating: ");
    push_padding(&mut out, rating_chars.len(), 4);
    out.append(rating.as_str());
    out.append(" | Themes: ");
    out.append(themes.as_str());
    push_padding(&mut out, theme_chars.len(), 35);
    out.append(" | Moves: ");
    push_joined(&mut out, &p.moves, " ");
    out
}

// ---------------------------------------------------------------------------
// Formats
// ---------------------------------------------------------------------------

/// The number behind the magic bytes at the start of a file, or 4 where they are missing.
pub open spec fn version_in(start: Seq<u8>) -> nat {
    if start.len() >= 8 && start.take(4) == magic() {
        number_at(start, 4, 4)
    } else {
        4
    }
}

/// The format version of a file that starts with these bytes: the number behind
/// the magic bytes, or 4 where they are missing.
pub fn detect_db_version(start: &[u8]) -> (r: u32)
    ensures
        r == (if start@.len() >= 8 && start@.take(4) == magic() {
            number_at(start@, 4, 4) as u32
        } else {
            4
        }),
        r == version_in(start@),
{
    if start.len() < 8 {
        return 4;
    }
    let first = take_four(start, 0);
    assert(start@.take(4) =~= start@.subrange(0, 4));
    if !is_magic(&first) {
        return 4;
    }
    proof {
        lemma_spans();
    }
    take(start, 4, 4) as u32
}

/// The formats that can be built.
#[derive(Debug, Clone, Copy, PartialEq, Eq)]
pub enum BuildFormat {
    /// Blocks of columns.
    Columns,
    /// Blocks of records.
    Blocks,
    /// Fixed records.
    Records,
}

/// The format that a name asks for, whatever the case of its letters: fixed
/// records where the name is another.
pub open spec fn format_of(name: Seq<char>) -> BuildFormat {
    if lower(name) == "v4"@ || lower(name) == "columnar"@ {
        BuildFormat::Columns
    } else if lower(name) == "v3"@ {
        BuildFormat::Blocks
    } else {
        BuildFormat::Records
    }
}

fn is_text(s: &[char], t: &str) -> (r: bool)
    ensures
        r == (s@ == t@),
{
    let chars = chars_of(t);
    same_chars(s, chars.as_slice())
}

/// The format that a name asks for.
pub fn build_format(name: &str) -> (r: BuildFormat)
    ensures
        r == format_of(name@),
{
    let chars = chars_of(name);
    let small = to_lower(chars.as_slice());
    if is_text(small.as_slice(), "v4") || is_text(small.as_slice(), "columnar") {
        BuildFormat::Columns
    } else if is_text(small.as_slice(), "v3") {
        BuildFormat::Blocks
    } else {
        BuildFormat::Records
    }
}

/// The length that a header of a reply gives; 0 where it gives none.
pub open spec fn length_in(value: Seq<char>) -> nat {
    match number(value, 0xFFFF_FFFF_FFFF_FFFF) {
        Some(n) => n,
        None => 0,
    }
}

/// The length that a header of a reply gives; 0 where it gives none.
pub fn content_length(value: &str) -> (r: u64)
    ensures
        r == (match number(value@, 0xFFFF_FFFF_FFFF_FFFF) {
            Some(n) => n,
            None => 0,
        }),
        r == length_in(value@),
{
    let chars = chars_of(value);
    match parse_number(chars.as_slice(), 0xFFFF_FFFF_FFFF_FFFF) {
        Some(n) => n,
        None => 0,
    }
}

// ---------------------------------------------------------------------------
// Errors
// ---------------------------------------------------------------------------

/// What is said of an error in a file of a format version.
pub open spec fn error_text(e: DbError, version: u32) -> Seq<char> {
    match e {
        DbError::TooSmall => if version == 2 {
            "File too small for LPDB header"@
        } else {
            "File too small for V"@ + decimal(version as nat) + " header"@
        },
        DbError::BadMagic => if version == 2 {
            "Invalid LPDB magic header"@
        } else {
            "Invalid LPDB magic"@
        },
        DbError::UnsupportedVersion(v) => "Unsupported LPDB version: "@ + decimal(v as nat)
            + " (expected "@ + decimal(version as nat) + ")"@,
        DbError::ThemeDictionaryTooLong => "Theme dictionary section exceeds file size"@,
        DbError::RecordsTooLong => "Records section exceeds file size"@,
        DbError::MovePoolTooLong => "Move pool section exceeds file size"@,
        DbError::BlockIndexTooLong => "Block index section exceeds file size"@,
        DbError::BlockOutOfBounds => "Block index out of bounds"@,
        DbError::BlockTooLong => "Block exceeds file size"@,
        DbError::BadFrame => "Block cannot be decompressed"@,
        DbError::SizeMismatch => "Decompressed size mismatch"@,
        DbError::UnexpectedEnd => "Block ends too early"@,
        DbError::RecordsOverflow => "Block records overflow"@,
        DbError::MovesOverflow => "Block moves overflow"@,
    }
}

/// What is said of an error in a file of a format version.
pub fn error_message(e: DbError, version: u32) -> (r: String)
    ensures
        r@ == error_text(e, version),
{
    let mut out = String::new();
    match e {
        DbError::TooSmall => {
            if version == 2 {
                out.append("File too small for LPDB header");
            } else {
                out.append("File too small for V");
                push_decimal(&mut out, version as u64);
                out.append(" header");
            }
        },
        DbError::BadMagic => {
            if version == 2 {
                out.append("Invalid LPDB magic header");
            } else {
                out.append("Invalid LPDB magic");
            }
        },
        DbError::UnsupportedVersion(v) => {
            out.append("Unsupported LPDB version: ");
            push_decimal(&mut out, v as u64);
            out.append(" (expected ");
            push_decimal(&mut out, version as u64);
            out.append(")");
        },
        DbError::ThemeDictionaryTooLong => out.append("Theme dictionary section exceeds file size"),
        DbError::RecordsTooLong => out.append("Records section exceeds file size"),
        DbError::MovePoolTooLong => out.append("Move pool section exceeds file size"),
        DbError::BlockIndexTooLong => out.append("Block index section exceeds file size"),
        DbError::BlockOutOfBounds => out.append("Block index out of bounds"),
        DbError::BlockTooLong => out.append("Block exceeds file size"),
        DbError::BadFrame => out.append("Block cannot be decompressed"),
        DbError::SizeMismatch => out.append("Decompressed size mismatch"),
        DbError::UnexpectedEnd => out.append("Block ends too early"),
        DbError::RecordsOverflow => out.append("Block records overflow"),
        DbError::MovesOverflow => out.append("Block moves overflow"),
    }
    assert(out@ =~= error_text(e, version));
    out
}

} // verus!
