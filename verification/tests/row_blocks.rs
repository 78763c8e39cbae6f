use lipuzzles::block_builder::{encode_block, BlockDbBuilder};
use lipuzzles::block_db::{BlockCompressedDb, BlockPuzzleRecord, DecompressedBlock};
use lipuzzles::dict::ThemeDict;
use lipuzzles::frame::{compress, decompress};
use lipuzzles::ingest::{ParsedItem, RawPuzzleRow};
use lipuzzles::puzzle::QueryCriteria;
use lipuzzles::section::DbError;
use lipuzzles::theme::ThemeMask;

const FEN: &str = "4k3/8/8/8/8/8/8/4K2R w K - 3 40";

fn row(id: &str, moves: &str, rating: u16, themes: &str) -> ParsedItem {
    RawPuzzleRow {
        id: id.to_string(),
        fen: FEN.to_string(),
        moves: moves.to_string(),
        rating,
        themes: themes.to_string(),
    }
    .process()
    .unwrap()
}

fn many(n: usize) -> Vec<ParsedItem> {
    let mut v = Vec::new();
    for i in 0..n {
        let id = lipuzzles::id::decode_base62_id(i as u32);
        let themes = if i % 3 == 0 { "fork" } else { "pin long" };
        v.push(row(&id, "e1e2 e8e7", 3000 - i as u16, themes));
    }
    v
}

fn built(n: usize) -> Vec<u8> {
    match BlockDbBuilder::finalize_database(many(n)) {
        Ok((file, _)) => file,
        Err(_) => panic!(),
    }
}

#[test]
fn frames_hold_their_content() {
    let data = vec![7u8; 5000];
    let frame = compress(&data, 3).unwrap();
    assert!(frame.len() < 100);
    assert_eq!(decompress(&frame), Some(data));
    assert_eq!(decompress(&[1, 2, 3, 4, 5, 6, 7, 8]), None);
}

#[test]
fn the_content_of_a_block_of_records() {
    let items = vec![row("00010", "e1e2 e8e7", 1500, "fork"), row("00011", "e1d1", 1501, "pin")];
    let dict = ThemeDict::build(&items).unwrap();
    assert_eq!(dict.masks, vec![ThemeMask::from_names(&["fork"]), ThemeMask::from_names(&["pin"])]);
    let data = encode_block(&items, &dict);
    assert_eq!(data.len(), 8 + 2 * 40 + 3 * 2 + 2 + 2 * 2);
    assert_eq!(data[data.len() - 6..], [0, 0, 40, 0, 40, 0]);
    assert_eq!(data[..8], [2, 0, 0, 0, 3, 0, 0, 0]);
    let block = match DecompressedBlock::decode_from_bytes(5, &data) {
        Ok(b) => b,
        Err(_) => panic!(),
    };
    assert_eq!(block.block_idx, 5);
    assert_eq!(block.records.len(), 2);
    let r: BlockPuzzleRecord = block.records[1];
    assert_eq!((r.id_base62, r.theme_id, r.move_local_offset, r.move_count), (63, 1, 2, 1));
    assert_eq!((r.fen_halfmove, r.fen_state, r.rating), (3, 2, 1501));
    assert_eq!(r.id_string(), "00011");
    assert_eq!(r.fen_string(), "4k3/8/8/8/8/8/8/4K2R w K - 3 1");
    assert_eq!(r.get_moves(&block.moves), &block.moves[2..3]);
    assert!(r.get_moves(&block.moves[..2]).is_empty());
    assert_eq!(r.compact_board().occupied, items[1].compact_board.occupied);
    let p = block.puzzle(1, &dict.masks).unwrap();
    assert_eq!((p.id.as_str(), p.moves.len(), p.rating), ("00011", 1, 1501));
    assert_eq!(p.themes, vec!["pin"]);
    assert_eq!(p.fen, FEN);
    assert!(block.puzzle(2, &dict.masks).is_none());
}

#[test]
fn identifiers_of_any_form_come_back_from_row_blocks() {
    let long = "y".repeat(300);
    let ids = ["00010", "puzzle-7", "", "x\u{e9}", "00011", long.as_str()];
    let items: Vec<ParsedItem> = ids.iter().map(|id| row(id, "e1e2", 1500, "fork")).collect();
    let dict = ThemeDict::build(&items).unwrap();
    let data = encode_block(&items, &dict);
    let decode = |d: &[u8]| match DecompressedBlock::decode_from_bytes(0, d) {
        Ok(b) => b,
        Err(_) => panic!(),
    };
    let block = decode(&data);
    let raw: Vec<u32> = block.records.iter().map(|r| r.id_base62).collect();
    assert_eq!(raw, vec![62, 0x8000_0000, 0x8000_0001, 0x8000_0002, 63, 0x8000_0003]);
    for (i, id) in ids.iter().enumerate() {
        let p = block.puzzle(i, &dict.masks).unwrap();
        assert_eq!(p.id, if i == 5 { &long[..255] } else { id });
        assert_eq!(p.fen, FEN);
    }
    let bare = 8 + 6 * 40 + 6 * 2;
    for n in [bare, bare + 1, bare + 9] {
        let block = decode(&data[..n]);
        assert!(block.overflow_ids.is_empty());
        assert_eq!(block.fen_fullmoves, vec![1; 6]);
        assert_eq!(block.puzzle(0, &dict.masks).unwrap().id, "00010");
        let odd = block.puzzle(1, &dict.masks).unwrap();
        assert_eq!(odd.id, block.records[1].id_string());
        assert_eq!(odd.fen, "4k3/8/8/8/8/8/8/4K2R w K - 3 1");
    }
    let mut db_items = many(600);
    db_items.push(row("my own puzzle", "e1e2", 3500, "fork"));
    let file = match BlockDbBuilder::finalize_database(db_items) {
        Ok((file, _)) => file,
        Err(_) => panic!(),
    };
    let mut db = BlockCompressedDb::open(&file).unwrap();
    let p = db.get(600).unwrap();
    assert_eq!((p.id.as_str(), p.fen.as_str()), ("my own puzzle", FEN));
}

#[test]
fn every_fault_of_a_block_of_records() {
    let err = |d: &[u8]| DecompressedBlock::decode_from_bytes(0, d).err();
    assert_eq!(err(&[0; 7]), Some(DbError::UnexpectedEnd));
    assert_eq!(err(&[1, 0, 0, 0, 0, 0, 0, 0]), Some(DbError::RecordsOverflow));
    assert_eq!(err(&[0, 0, 0, 0, 1, 0, 0, 0]), Some(DbError::MovesOverflow));
    assert_eq!(err(&[0; 8]), None);
}

#[test]
fn puzzles_come_back_from_row_blocks() {
    let file = built(1100);
    let mut db = BlockCompressedDb::open(&file).unwrap();
    assert_eq!(db.len(), 1100);
    assert!(!db.is_empty());
    assert_eq!((db.header().block_count, db.header().block_size), (3, 512));
    assert_eq!((db.header().min_rating, db.header().max_rating), (1901, 3000));
    assert_eq!(db.theme_dict().len(), 2);
    for i in [0usize, 511, 512, 1099, 3, 1024] {
        let p = db.get(i).unwrap();
        assert_eq!(p.rating, 1901 + i as u16);
        assert_eq!(p.id, lipuzzles::id::decode_base62_id(1099 - i as u32));
        assert_eq!(p.moves, vec!["e1e2", "e8e7"]);
        let fork = (1099 - i) % 3 == 0;
        assert_eq!(p.themes, if fork { vec!["fork"] } else { vec!["long", "pin"] });
    }
    assert!(db.get(1100).is_none());
    assert_eq!(db.get_block(3).err(), Some(DbError::BlockOutOfBounds));
    assert_eq!(db.get_block(2).ok().map(|b| b.records.len()), Some(76));
}

#[test]
fn queries_on_row_blocks() {
    let file = built(1100);
    let db = BlockCompressedDb::open(&file).unwrap();
    let mut c = QueryCriteria::default();
    assert_eq!(db.query_puzzles(&c, 5000).len(), 1100);
    assert_eq!(db.query_puzzles(&c, 10).len(), 10);
    assert!(db.query_puzzles(&c, 0).is_empty());
    c.min_rating = Some(2400);
    c.max_rating = Some(2430);
    assert_eq!(db.query_puzzles(&c, 5000).len(), 31);
    c.required_themes = Some(ThemeMask::from_names(&["fork"]));
    let forks = db.query_puzzles(&c, 5000);
    assert_eq!(forks.len(), 11);
    assert!(forks.iter().all(|p| p.themes == vec!["fork"]));
    let p = db.random_puzzle(&c, &mut rand::thread_rng()).unwrap();
    assert!(p.rating >= 2400 && p.rating <= 2430 && p.themes == vec!["fork"]);
    let (block, places) = match db.first_match(&c, &vec![2, 0, 1]) {
        Some(x) => x,
        None => panic!(),
    };
    assert_eq!(block.block_idx, 0);
    let ratings: Vec<u16> = places.iter().map(|i| block.records[*i].rating).collect();
    assert!(!ratings.is_empty() && ratings.iter().all(|r| *r >= 2400));
    assert!(db.first_match(&c, &vec![2, 2]).is_none());
    c.excluded_themes = Some(ThemeMask::from_names(&["fork"]));
    assert!(db.query_puzzles(&c, 5000).is_empty());
    assert!(db.random_puzzle(&c, &mut rand::thread_rng()).is_none());
    c.max_rating = Some(100);
    assert!(db.query_puzzles(&c, 5000).is_empty());
    assert!(db.random_puzzle(&c, &mut rand::thread_rng()).is_none());
}

#[test]
fn every_fault_of_a_row_file() {
    let good = built(3);
    let open = |f: &[u8]| BlockCompressedDb::open(f).err();
    assert_eq!(open(&good[..10]), Some(DbError::TooSmall));
    let mut f = good.clone();
    f[1] = 0;
    assert_eq!(open(&f), Some(DbError::BadMagic));
    let mut f = good.clone();
    f[4] = 2;
    assert_eq!(open(&f), Some(DbError::UnsupportedVersion(2)));
    let mut f = good.clone();
    f[43] = 0xFF;
    assert_eq!(open(&f), Some(DbError::ThemeDictionaryTooLong));
    let mut f = good.clone();
    f[19] = 0xFF;
    assert_eq!(open(&f), Some(DbError::BlockIndexTooLong));
    let block_at = 64 + 16 * 2;
    let mut f = good.clone();
    f[block_at + 8] = 0xFF;
    f[block_at + 9] = 0xFF;
    assert_eq!(BlockCompressedDb::open(&f).unwrap().get_block(0).err(), Some(DbError::BlockTooLong));
    let mut f = good.clone();
    f[block_at + 24] ^= 0xFF;
    assert_eq!(BlockCompressedDb::open(&f).unwrap().get_block(0).err(), Some(DbError::BadFrame));
    let mut f = good.clone();
    f[block_at + 12] ^= 0x01;
    let mut db = BlockCompressedDb::open(&f).unwrap();
    assert_eq!(db.get_block(0).err(), Some(DbError::SizeMismatch));
    assert!(db.get(0).is_none());
    let mut f = good.clone();
    f[20] = 0;
    f[21] = 0;
    assert!(BlockCompressedDb::open(&f).unwrap().get(0).is_none());
}

#[test]
fn what_a_row_build_says() {
    let (file, stats) = match BlockDbBuilder::finalize_database(many(600)) {
        Ok(x) => x,
        Err(_) => panic!(),
    };
    assert_eq!((stats.total_puzzles, stats.total_blocks), (600, 2));
    assert_eq!(stats.uncompressed_size, 2 * 8 + 600 * 40 + 1200 * 2 + 2 * 2 + 600 * 2);
    assert_eq!(stats.compressed_size, file.len() as u64);
    assert_eq!((stats.min_rating, stats.max_rating), (2401, 3000));
}
