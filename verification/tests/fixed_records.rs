use lipuzzles::board::CompactBoard;
use lipuzzles::builder::DbBuilder;
use lipuzzles::db::{DbHeader, PuzzleDatabase, LPDB_MAGIC};
use lipuzzles::fen::PackedFen;
use lipuzzles::ingest::{ParsedItem, RawPuzzleRow};
use lipuzzles::puzzle::QueryCriteria;
use lipuzzles::record::PuzzleRecord;
use lipuzzles::section::DbError;
use lipuzzles::theme::ThemeMask;

fn row(id: &str, fen: &str, moves: &str, rating: u16, themes: &str) -> ParsedItem {
    RawPuzzleRow {
        id: id.to_string(),
        fen: fen.to_string(),
        moves: moves.to_string(),
        rating,
        themes: themes.to_string(),
    }
    .process()
    .unwrap()
}

fn sample() -> Vec<ParsedItem> {
    vec![
        row("00008", "r6k/pp2r2p/4Rp1Q/3p4/8/1N1P2R1/PqP2bPP/7K b - - 0 24", "f2g3 e6e7", 1800, "crushing fork"),
        row("0000D", "5rk1/1p3ppp/pq3b2/8/8/1P1Q1N2/P4PPP/3R2K1 w - - 2 27", "d3d6 f8d8 d6d8", 1500, "advantage endgame"),
        row("000Pw", "8/4R3/1p2P3/p4r2/P6p/1P3Pk1/4K3/8 w - - 1 64", "e7f7", 2100, "crushing fork"),
    ]
}

fn built() -> Vec<u8> {
    match DbBuilder::finalize_database(sample()) {
        Ok((file, _)) => file,
        Err(_) => panic!("the sample cannot be built"),
    }
}

#[test]
fn record_fields_are_packed() {
    let packed = PackedFen::encode("4k3/8/8/8/8/8/8/4K3 b - - 5 9").unwrap();
    let board = CompactBoard::from_board_nibbles(&packed.board);
    let r = PuzzleRecord::new("00010", &board, 1500, 77, 123456, 7, packed.state, packed.halfmove);
    assert_eq!(r.id_base62, 62);
    assert_eq!(r.move_packed, 123456 + 7 * (1 << 26));
    assert_eq!(r.theme_rating_packed, 77 + 1500 * (1 << 20));
    assert_eq!(r.fen_packed, 1 + 5 * 65536);
    assert_eq!((r.rating(), r.theme_id(), r.move_offset(), r.move_count()), (1500, 77, 123456, 7));
    assert_eq!((r.fen_state(), r.fen_halfmove()), (1, 5));
    assert_eq!(r.id_string(), "00010");
    assert_eq!(r.fen_string(), "4k3/8/8/8/8/8/8/4K3 b - - 5 1");
    assert_eq!(r.compact_board(), board);
    let wide = PuzzleRecord::new("00010", &board, 5000, 1 << 20, 1 << 26, 64, 0, 0);
    assert_eq!((wide.rating(), wide.theme_id(), wide.move_offset(), wide.move_count()), (904, 0, 0, 0));
}

#[test]
fn record_bytes_come_back() {
    let board = CompactBoard { occupied: 0x0102030405060708, pieces: [9; 16] };
    let r = PuzzleRecord::new("abcDE", &board, 1500, 3, 4, 5, 6, 7);
    let mut bytes = vec![0xFFu8];
    r.write(&mut bytes);
    assert_eq!(bytes.len(), 41);
    assert_eq!(bytes[1], 8);
    assert_eq!(bytes[8], 1);
    assert_eq!(PuzzleRecord::read(&bytes, 1), r);
}

#[test]
fn themes_and_moves_of_a_record() {
    let board = CompactBoard::empty();
    let r = PuzzleRecord::new("00000", &board, 0, 1, 1, 2, 0, 0);
    let dict = [ThemeMask::new(1), ThemeMask::new(6)];
    assert!(r.has_themes_all(ThemeMask::new(2), &dict));
    assert!(!r.has_themes_all(ThemeMask::new(3), &dict));
    assert!(r.has_themes_any(ThemeMask::new(3), &dict));
    assert!(!r.has_themes_any(ThemeMask::new(1), &dict));
    assert!(!r.has_themes_all(ThemeMask::new(0), &dict[..1]));
    assert!(!r.has_themes_any(ThemeMask::new(6), &dict[..1]));
    let pool = lipuzzles::moves::encode_moves("e2e4 e7e5 g1f3");
    assert_eq!(r.get_moves(&pool), &pool[1..3]);
    assert!(r.get_moves(&pool[..2]).is_empty());
}

#[test]
fn puzzles_come_back_from_the_file() {
    let file = built();
    let db = PuzzleDatabase::open(&file).unwrap();
    assert_eq!(db.len(), 3);
    assert!(!db.is_empty());
    assert_eq!((db.header().min_rating, db.header().max_rating), (1500, 2100));
    assert_eq!(db.theme_dict().len(), 2);
    assert_eq!(db.move_pool().len(), 6);
    let p = db.get(1).unwrap();
    assert_eq!(p.id, "00008");
    assert_eq!(p.fen, "r6k/pp2r2p/4Rp1Q/3p4/8/1N1P2R1/PqP2bPP/7K b - - 0 1");
    assert_eq!(p.moves, vec!["f2g3", "e6e7"]);
    assert_eq!(p.rating, 1800);
    assert_eq!(p.themes, vec!["crushing", "fork"]);
    assert!(db.get(3).is_none());
    assert_eq!(db.find_by_id(" 000Pw ").unwrap().rating, 2100);
    assert!(db.find_by_id("zzzzz").is_none());
    assert!(db.find_by_id("").is_none());
    assert!(db.find_by_id("8").is_none());
    assert!(db.find_by_id("00008x").is_none());
}

#[test]
fn identifiers_are_looked_up_as_texts() {
    let fen = "4k3/8/8/8/8/8/8/4K3 w - - 0 1";
    let items = vec![row("abc", fen, "e1e2", 1500, "fork"), row("00001", fen, "e1e2", 1600, "fork")];
    let file = match DbBuilder::finalize_database(items) {
        Ok((file, _)) => file,
        Err(_) => panic!(),
    };
    let db = PuzzleDatabase::open(&file).unwrap();
    let kept = db.get(0).unwrap().id;
    assert_eq!(kept, db.records()[0].id_string());
    assert_eq!(db.find_by_id(&kept).unwrap().rating, 1500);
    assert!(db.find_by_id("abc").is_none());
    assert!(db.find_by_id("1").is_none());
    assert_eq!(db.find_by_id("00001").unwrap().rating, 1600);
}

#[test]
fn sections_stand_where_the_header_says() {
    let file = built();
    assert_eq!(file.len(), 64 + 2 * 16 + 3 * 40 + 6 * 2);
    let h = DbHeader::read(&file);
    assert_eq!((h.magic, &h.magic), (LPDB_MAGIC, b"LPDB"));
    assert_eq!(h.version, 2);
    assert_eq!((h.theme_dict_offset, h.records_offset, h.move_pool_offset), (64, 96, 216));
    assert_eq!((h.theme_dict_count, h.puzzle_count, h.move_pool_count), (2, 3, 6));
    let mut again = Vec::new();
    h.write(&mut again);
    assert_eq!(again, file[..64]);
    let (_, stats) = match DbBuilder::finalize_database(sample()) {
        Ok(x) => x,
        Err(_) => panic!(),
    };
    assert_eq!(stats.total_puzzles, 3);
    assert_eq!(stats.total_moves, 6);
    assert_eq!(stats.unique_themes, 2);
    assert_eq!(stats.total_bytes_written, file.len() as u64);
    assert_eq!((stats.min_rating, stats.max_rating), (1500, 2100));
}

#[test]
fn an_empty_database() {
    let (file, stats) = match DbBuilder::finalize_database(Vec::new()) {
        Ok(x) => x,
        Err(_) => panic!(),
    };
    assert_eq!(file.len(), 64);
    assert_eq!((stats.min_rating, stats.max_rating), (0, 0));
    let db = PuzzleDatabase::open(&file).unwrap();
    assert!(db.is_empty());
    assert!(db.rating_range(0, 4000).is_empty());
    assert!(db.random_puzzle(&QueryCriteria::default(), &mut rand::thread_rng()).is_none());
}

#[test]
fn every_fault_of_a_file() {
    let good = built();
    assert_eq!(PuzzleDatabase::open(&good[..63]).err(), Some(DbError::TooSmall));
    let mut f = good.clone();
    f[0] = 0;
    assert_eq!(PuzzleDatabase::open(&f).err(), Some(DbError::BadMagic));
    let mut f = good.clone();
    f[4] = 9;
    assert_eq!(PuzzleDatabase::open(&f).err(), Some(DbError::UnsupportedVersion(9)));
    let mut f = good.clone();
    f[51] = 0xFF;
    assert_eq!(PuzzleDatabase::open(&f).err(), Some(DbError::ThemeDictionaryTooLong));
    let mut f = good.clone();
    f[15] = 0xFF;
    assert_eq!(PuzzleDatabase::open(&f).err(), Some(DbError::RecordsTooLong));
    assert_eq!(PuzzleDatabase::open(&good[..good.len() - 1]).err(), Some(DbError::MovePoolTooLong));
}

#[test]
fn ratings_and_filters() {
    let file = built();
    let db = PuzzleDatabase::open(&file).unwrap();
    let ratings: Vec<u16> = db.records().iter().map(|r| r.rating()).collect();
    assert_eq!(ratings, vec![1500, 1800, 2100]);
    let found: Vec<u16> = db.rating_range(1800, 2100).iter().map(|r| r.rating()).collect();
    assert_eq!(found, vec![1800, 2100]);
    assert!(db.rating_range(1801, 2099).is_empty());
    assert!(db.rating_range(2000, 1000).is_empty());
    let mut c = QueryCriteria::default();
    assert_eq!(db.filter(&c).len(), 3);
    c.required_themes = Some(ThemeMask::from_csv("fork,crushing"));
    assert_eq!(db.filter(&c).len(), 2);
    c.min_rating = Some(2000);
    assert_eq!(db.filter(&c).len(), 1);
    assert_eq!(db.random_puzzle(&c, &mut rand::thread_rng()).unwrap().id, "000Pw");
    c.any_themes = Some(ThemeMask::from_names(&["endgame"]));
    assert!(db.filter(&c).is_empty());
    assert!(db.random_puzzle(&c, &mut rand::thread_rng()).is_none());
    let mut low = QueryCriteria::default();
    low.max_rating = Some(1500);
    assert_eq!(db.filter(&low).len(), 1);
    let mut without = QueryCriteria::default();
    without.excluded_themes = Some(ThemeMask::from_csv("crushing,opening"));
    let left: Vec<u16> = db.filter(&without).iter().map(|r| r.rating()).collect();
    assert_eq!(left, vec![1500]);
    without.excluded_themes = Some(ThemeMask::from_csv("opening"));
    assert_eq!(db.filter(&without).len(), 3);
}
