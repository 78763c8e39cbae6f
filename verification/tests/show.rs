use lipuzzles::puzzle::Puzzle;
use lipuzzles::render::{
    ascii_board, build_format, content_length, detect_db_version, error_message, list_line, puzzle_report,
    BuildFormat,
};
use lipuzzles::section::DbError;

fn puzzle() -> Puzzle {
    Puzzle {
        id: "00abc".to_string(),
        fen: "4k3/8/8/8/8/8/4P3/4K3 w - - 0 1".to_string(),
        moves: vec!["e2e4".to_string(), "e8e7".to_string()],
        rating: 950,
        themes: vec!["endgame".to_string(), "short".to_string()],
    }
}

const BOARD: &str = "  +-----------------+\n\
8 | . . . . k . . . |\n\
7 | . . . . . . . . |\n\
6 | . . . . . . . . |\n\
5 | . . . . . . . . |\n\
4 | . . . . . . . . |\n\
3 | . . . . . . . . |\n\
2 | . . . . P . . . |\n\
1 | . . . . K . . . |\n  \
+-----------------+\n    a b c d e f g h\n";

#[test]
fn a_board_in_characters() {
    assert_eq!(ascii_board(&puzzle().fen), BOARD);
    assert_eq!(
        ascii_board(""),
        "  +-----------------+\n8 | |\n  +-----------------+\n    a b c d e f g h\n"
    );
    assert!(ascii_board("/////////x").contains("\n-1 | x |\n"));
}

#[test]
fn the_report_of_a_puzzle() {
    let rule = "==================================================\n";
    let body = "Puzzle ID:  00abc\nRating:     950\nThemes:     endgame, short\n\
        FEN:        4k3/8/8/8/8/8/4P3/4K3 w - - 0 1\nMoves:      e2e4 e8e7\n";
    assert_eq!(puzzle_report(&puzzle(), false), format!("{}{}{}", rule, body, rule));
    assert_eq!(puzzle_report(&puzzle(), true), format!("{}{}\n{}{}", rule, body, BOARD, rule));
}

#[test]
fn the_line_of_a_puzzle() {
    let p = puzzle();
    let expected = format!(
        "[{}] Rating: {:4} | Themes: {:<35} | Moves: {}",
        p.id,
        p.rating,
        p.themes.join(", "),
        p.moves.join(" ")
    );
    assert_eq!(list_line(&p), expected);
    assert_eq!(
        list_line(&p),
        "[00abc] Rating:  950 | Themes: endgame, short                      | Moves: e2e4 e8e7"
    );
    let mut q = puzzle();
    q.rating = 12345;
    q.themes = vec!["x".repeat(40)];
    assert!(list_line(&q).starts_with("[00abc] Rating: 12345 | Themes: "));
    assert!(list_line(&q).ends_with("xx | Moves: e2e4 e8e7"));
}

#[test]
fn versions_and_formats() {
    assert_eq!(detect_db_version(b"LPDB\x02\0\0\0"), 2);
    assert_eq!(detect_db_version(b"LPDB\x03\x01\0\0rest"), 259);
    assert_eq!(detect_db_version(b"LPDB\x03\0\0"), 4);
    assert_eq!(detect_db_version(b"XPDB\x03\0\0\0"), 4);
    assert_eq!(detect_db_version(&[]), 4);
    assert!(matches!(build_format("V4"), BuildFormat::Columns));
    assert!(matches!(build_format("Columnar"), BuildFormat::Columns));
    assert!(matches!(build_format("v3"), BuildFormat::Blocks));
    assert!(matches!(build_format("v2"), BuildFormat::Records));
    assert!(matches!(build_format("anything"), BuildFormat::Records));
    assert_eq!(content_length("123456"), 123456);
    assert_eq!(content_length("+5"), 5);
    assert_eq!(content_length(" 5"), 0);
    assert_eq!(content_length("18446744073709551616"), 0);
}

#[test]
fn what_is_said_of_errors() {
    assert_eq!(error_message(DbError::TooSmall, 2), "File too small for LPDB header");
    assert_eq!(error_message(DbError::TooSmall, 4), "File too small for V4 header");
    assert_eq!(error_message(DbError::BadMagic, 2), "Invalid LPDB magic header");
    assert_eq!(error_message(DbError::BadMagic, 3), "Invalid LPDB magic");
    assert_eq!(
        error_message(DbError::UnsupportedVersion(9), 4),
        "Unsupported LPDB version: 9 (expected 4)"
    );
    assert_eq!(
        error_message(DbError::ThemeDictionaryTooLong, 2),
        "Theme dictionary section exceeds file size"
    );
    assert_eq!(error_message(DbError::RecordsTooLong, 2), "Records section exceeds file size");
    assert_eq!(error_message(DbError::MovePoolTooLong, 2), "Move pool section exceeds file size");
    assert_eq!(error_message(DbError::BlockOutOfBounds, 4), "Block index out of bounds");
    assert_eq!(error_message(DbError::SizeMismatch, 4), "Decompressed size mismatch");
    assert_eq!(error_message(DbError::RecordsOverflow, 3), "Block records overflow");
    assert_eq!(error_message(DbError::MovesOverflow, 3), "Block moves overflow");
}
