use lipuzzles::columnar_builder::ColumnarBuilderOptions;
use lipuzzles::ingest::{
    csv_row, process_rows, rating_of_column, CsvIntake, RawPuzzleRow, RowFilter,
};
use lipuzzles::sql::{count_query, filtered_count_query, filtered_select_query, select_query};
use lipuzzles::theme::{ThemeMask, THEME_NAMES};

const START: &str = "rnbqkbnr/pppppppp/8/8/8/8/PPPPPPPP/RNBQKBNR w KQkq - 0 1";

fn record(rating: &str, popularity: &str, plays: &str) -> Vec<String> {
    [
        "00008", START, "e2e4 e7e5", rating, "75", popularity, plays, "fork", "https://example.org", "",
    ]
    .iter()
    .map(|s| s.to_string())
    .collect()
}

fn open_filter() -> RowFilter {
    RowFilter { min_rating: None, max_rating: None, min_popularity: None, min_plays: None }
}

#[test]
fn fields_of_a_row() {
    let row = csv_row(&open_filter(), &record("1234", "90", "100")).unwrap();
    assert_eq!((row.id.as_str(), row.fen.as_str()), ("00008", START));
    assert_eq!((row.moves.as_str(), row.rating, row.themes.as_str()), ("e2e4 e7e5", 1234, "fork"));
    assert_eq!(csv_row(&open_filter(), &record("x", "", "")).unwrap().rating, 1500);
    assert_eq!(csv_row(&open_filter(), &record("70000", "", "")).unwrap().rating, 1500);
    let mut short = record("1234", "90", "100");
    short.truncate(7);
    assert!(csv_row(&open_filter(), &short).is_none());
}

#[test]
fn rows_that_a_filter_takes() {
    let mut f = open_filter();
    f.min_rating = Some(1000);
    f.max_rating = Some(2000);
    let taken = |f: &RowFilter, r: &str, p: &str, n: &str| csv_row(f, &record(r, p, n)).is_some();
    assert!(taken(&f, "1000", "0", "0"));
    assert!(taken(&f, "2000", "0", "0"));
    assert!(!taken(&f, "999", "0", "0"));
    assert!(!taken(&f, "2001", "0", "0"));
    f.min_popularity = Some(-5);
    assert!(taken(&f, "1500", "-5", "0"));
    assert!(!taken(&f, "1500", "-6", "0"));
    assert!(taken(&f, "1500", "not a number", "0"));
    assert!(taken(&f, "1500", "200", "0"));
    f.min_plays = Some(50);
    assert!(taken(&f, "1500", "0", "50"));
    assert!(!taken(&f, "1500", "0", "49"));
    assert!(!taken(&f, "1500", "0", "-"));
    let opts = ColumnarBuilderOptions {
        min_rating: Some(7),
        max_rating: Some(8),
        min_popularity: Some(9),
        min_plays: Some(10),
        ..Default::default()
    };
    let g = opts.filter();
    assert_eq!((g.min_rating, g.max_rating), (Some(7), Some(8)));
    assert_eq!((g.min_popularity, g.min_plays), (Some(9), Some(10)));
}

#[test]
fn ratings_of_an_integer_column() {
    assert_eq!(rating_of_column(1500), 1500);
    assert_eq!(rating_of_column(65536), 0);
    assert_eq!(rating_of_column(-1), 65535);
    assert_eq!(rating_of_column(i64::MIN), 0);
    assert_eq!(rating_of_column(i64::MAX), 65535);
}

/// How many records are offered, and the ratings of those that are taken.
fn offered(limit: Option<usize>, ratings: &[&str]) -> (usize, Vec<u16>) {
    let mut f = open_filter();
    f.min_rating = Some(1000);
    let mut intake = CsvIntake::new(f, limit);
    let mut read = 0;
    for r in ratings {
        read += 1;
        if intake.take(&record(r, "0", "0")) {
            break;
        }
    }
    assert_eq!(intake.count, intake.rows.len());
    (read, intake.rows.iter().map(|row| row.rating).collect())
}

#[test]
fn where_reading_stops() {
    let ratings = ["900", "1000", "999", "1001", "1002", "5"];
    assert_eq!(offered(None, &ratings), (6, vec![1000, 1001, 1002]));
    assert_eq!(offered(Some(9), &ratings), (6, vec![1000, 1001, 1002]));
    assert_eq!(offered(Some(3), &ratings), (5, vec![1000, 1001, 1002]));
    assert_eq!(offered(Some(2), &ratings), (4, vec![1000, 1001]));
    assert_eq!(offered(Some(1), &ratings), (2, vec![1000]));
    assert_eq!(offered(Some(0), &ratings), (2, vec![1000]));
    assert_eq!(offered(Some(0), &["1"]), (1, vec![]));
}

#[test]
fn rows_are_handed_on_in_parts() {
    let mut intake = CsvIntake::new(open_filter(), Some(3));
    assert!(!intake.take(&record("1000", "0", "0")));
    let mut broken = record("1001", "0", "0");
    broken[1] = "no board".to_string();
    assert!(!intake.take(&broken));
    let first = intake.drain();
    assert_eq!((first.len(), intake.rows.len(), intake.count), (2, 0, 2));
    assert!(intake.take(&record("1002", "0", "0")));
    let second = intake.drain();
    assert_eq!((second.len(), intake.count), (1, 3));
    let mut items = process_rows(first);
    items.extend(process_rows(second));
    let ratings: Vec<u16> = items.iter().map(|item| item.rating).collect();
    assert_eq!(ratings, vec![1000, 1002]);
    assert!(process_rows(Vec::new()).is_empty());
}

#[test]
fn texts_of_the_queries() {
    assert_eq!(count_query(None), "SELECT COUNT(*) FROM puzzles");
    assert_eq!(count_query(Some(20)), "SELECT COUNT(*) FROM (SELECT 1 FROM puzzles LIMIT 20)");
    assert_eq!(select_query(None), "SELECT PuzzleId, FEN, Moves, Rating, Themes FROM puzzles");
    assert_eq!(select_query(Some(7)), "SELECT PuzzleId, FEN, Moves, Rating, Themes FROM puzzles LIMIT 7");
    let mut f = open_filter();
    assert_eq!(filtered_count_query(&f, None), "SELECT COUNT(*) FROM (SELECT 1 FROM puzzles  )");
    f.max_rating = Some(2);
    assert_eq!(
        filtered_select_query(&f, None),
        "SELECT PuzzleId, FEN, Moves, Rating, Themes FROM puzzles WHERE Rating <= 2 "
    );
    f.min_rating = Some(1);
    assert_eq!(
        filtered_count_query(&f, Some(3)),
        "SELECT COUNT(*) FROM (SELECT 1 FROM puzzles WHERE Rating >= 1 AND Rating <= 2 LIMIT 3)"
    );
    f.max_rating = None;
    f.min_popularity = Some(-5);
    f.min_plays = Some(4_000_000_000);
    assert_eq!(
        filtered_select_query(&f, Some(9)),
        "SELECT PuzzleId, FEN, Moves, Rating, Themes FROM puzzles \
        WHERE Rating >= 1 AND Popularity >= -5 AND NbPlays >= 4000000000 LIMIT 9"
    );
}

#[test]
fn rows_become_items() {
    let row = |fen: &str, themes: &str| RawPuzzleRow {
        id: "00008".to_string(),
        fen: fen.to_string(),
        moves: "e2e4 e7e8q".to_string(),
        rating: 1500,
        themes: themes.to_string(),
    };
    let item = row(START, "fork pin").process().unwrap();
    assert_eq!(item.theme_mask, ThemeMask::from_names(&["fork", "pin"]));
    assert_eq!(item.moves.len(), 2);
    assert_eq!(item.moves[1].to_uci(), "e7e8q");
    assert_eq!(item.compact_board.occupied, 0xFFFF_0000_0000_FFFF);
    assert_eq!((item.id.as_str(), item.rating), ("00008", 1500));
    assert_eq!((item.fen_fullmove, item.more_pieces.len()), (1, 0));
    let late = row("4k3/8/8/8/8/8/8/4K3 b - - 3 40", "fork").process().unwrap();
    assert_eq!((late.fen_halfmove, late.fen_fullmove), (3, 40));
    let numbered = row(START, "1 3").process().unwrap();
    assert_eq!(numbered.theme_mask, ThemeMask::from_1based_ids(&[1, 3]));
    let mixed = row(START, "mateIn2 short").process().unwrap();
    assert_eq!(mixed.theme_mask, ThemeMask::new(2112));
    assert_eq!(mixed.theme_mask.to_theme_names(), vec!["short", "mateIn2"]);
    let partly = row(START, "3 fork").process().unwrap();
    assert_eq!(partly.theme_mask, ThemeMask::from_1based_ids(&[3]));
    let both = row(START, "mateIn2 3 fork7").process().unwrap();
    assert_eq!(both.theme_mask, ThemeMask::from_1based_ids(&[3]));
    let unknown = row(START, "unknown MATEIN2").process().unwrap();
    assert_eq!(unknown.theme_mask, ThemeMask::from_names(&["mateIn2"]));
    let beyond = row(START, "1 70000 2").process().unwrap();
    assert_eq!(beyond.theme_mask, ThemeMask::from_1based_ids(&[1, 2]));
    assert!(row(START, " ").process().unwrap().theme_mask.is_empty());
    for name in THEME_NAMES {
        let item = row(START, name).process().unwrap();
        assert_eq!(item.theme_mask.to_theme_names(), vec![name]);
    }
    assert!(row("", "fork").process().is_none());
    assert!(row("9k/8/8/8/8/8/8/8 x - - 0 1", "fork").process().is_none());
}
