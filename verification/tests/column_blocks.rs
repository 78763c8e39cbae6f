use lipuzzles::columnar_builder::{encode_block, ColumnarBuilderOptions, ColumnarDbBuilder};
use lipuzzles::columnar_db::{BlockLruCache, ColumnarDb, DecompressedColumnarBlock};
use lipuzzles::dict::ThemeDict;
use lipuzzles::ingest::{ParsedItem, RawPuzzleRow};
use lipuzzles::puzzle::QueryCriteria;
use lipuzzles::section::DbError;
use lipuzzles::theme::ThemeMask;

const KINGS: &str = "4k3/8/8/8/8/8/8/4K3 b - - 3 40";

fn row(id: &str, fen: &str, moves: &str, rating: u16, themes: &str) -> ParsedItem {
    RawPuzzleRow {
        id: id.to_string(),
        fen: fen.to_string(),
        moves: moves.to_string(),
        rating,
        themes: themes.to_string(),
    }
    .process()
    .unwrap()
}

fn many(n: usize) -> Vec<ParsedItem> {
    let mut v = Vec::new();
    for i in 0..n {
        let id = if i % 10 == 0 { format!("puzzle-{}", i) } else { lipuzzles::id::decode_base62_id(i as u32) };
        let themes = if i % 3 == 0 { "fork" } else { "pin long" };
        v.push(row(&id, KINGS, "e8e7 e1e2 e7e8q", 1000 + i as u16, themes));
    }
    v
}

fn options(block_size: usize) -> ColumnarBuilderOptions {
    ColumnarBuilderOptions { block_size, compression_level: 5, ..Default::default() }
}

fn built(n: usize, block_size: usize) -> Vec<u8> {
    match ColumnarDbBuilder::finalize_database(many(n), &options(block_size)) {
        Ok((file, _)) => file,
        Err(_) => panic!(),
    }
}

#[test]
fn the_content_of_a_block_of_columns() {
    let items = vec![
        row("00010", KINGS, "e8e7", 1500, "fork"),
        row("x\u{e9}", KINGS, "e1e2 e7e8q", 1498, "pin"),
    ];
    let dict = ThemeDict::build(&items).unwrap();
    let (data, odd) = encode_block(&items, &dict);
    assert!(odd);
    let expected: Vec<u8> = vec![
        2, 0, 0, 0, // puzzles
        62, 0, 0, 0, 0, 0, 0, 0x80, // identifiers
        0xDC, 0x05, 0xFE, 0xFF, // ratings: 1500, then two less
        0, 0, 0, 0, 1, 0, 0, 0, // theme ids
        1, 0, 3, 1, 0, 3, // states and halfmove clocks
        0x10, 0, 0, 0, 0, 0, 0, 0x10, 0x10, 0, 0, 0, 0, 0, 0, 0x10, // occupancies
        1, 1, 0xC6, 0xC6, // pieces
        1, 2, // numbers of moves
        0x3C, 0x0D, 0x04, 0x03, 0x34, 0x1F, // moves
        1, 0, 3, 0x78, 0xC3, 0xA9, // one identifier as a text
        40, 0, 40, 0, // fullmove numbers
    ];
    assert_eq!(data, expected);
    let block = match DecompressedColumnarBlock::decode_from_bytes(7, &data) {
        Ok(b) => b,
        Err(_) => panic!(),
    };
    assert_eq!((block.block_idx, block.puzzle_count), (7, 2));
    assert_eq!(block.ratings, vec![1500, 1498]);
    assert_eq!(block.overflow_ids, vec!["x\u{e9}"]);
    let p = block.get_puzzle(1, &dict.masks).unwrap();
    assert_eq!(p.id, "x\u{e9}");
    assert_eq!(p.fen, KINGS);
    assert_eq!(p.moves, vec!["e1e2", "e7e8q"]);
    assert_eq!((p.rating, p.themes), (1498, vec!["pin".to_string()]));
    assert!(block.get_puzzle(2, &dict.masks).is_none());
    assert_eq!(block.get_puzzle(0, &[]).unwrap().themes.len(), 0);
}

#[test]
fn short_contents_of_columns() {
    let items = vec![row("odd id", KINGS, "e8e7", 1500, "fork")];
    let dict = ThemeDict::build(&items).unwrap();
    let (data, _) = encode_block(&items, &dict);
    let tail = 2 + 1 + 6 + 2;
    for n in 0..data.len() {
        let r = DecompressedColumnarBlock::decode_from_bytes(0, &data[..n]);
        let without = n == data.len() - tail || n == data.len() - tail + 1;
        let first_move = n == data.len() - 2 || n == data.len() - 1;
        assert_eq!(r.is_ok(), without || first_move, "{}", n);
        if let Ok(b) = &r {
            assert_eq!(b.fen_fullmoves, vec![1]);
        }
        if let Err(e) = r {
            assert_eq!(e, DbError::UnexpectedEnd);
        }
    }
    let none = match DecompressedColumnarBlock::decode_from_bytes(0, &[0, 0, 0, 0]) {
        Ok(b) => b,
        Err(_) => panic!(),
    };
    assert_eq!(none.puzzle_count, 0);
    let cut = match DecompressedColumnarBlock::decode_from_bytes(0, &data[..data.len() - tail]) {
        Ok(b) => b,
        Err(_) => panic!(),
    };
    assert_eq!(cut.get_puzzle(0, &dict.masks).unwrap().id, "");
}

#[test]
fn bytes_that_are_no_text_are_replaced() {
    let items = vec![row("abcdef", KINGS, "", 1500, "fork")];
    let dict = ThemeDict::build(&items).unwrap();
    let (mut data, _) = encode_block(&items, &dict);
    let at = data.len() - 3;
    data[at] = 0xFF;
    let block = match DecompressedColumnarBlock::decode_from_bytes(0, &data) {
        Ok(b) => b,
        Err(_) => panic!(),
    };
    assert_eq!(block.overflow_ids, vec!["abcde\u{fffd}"]);
}

#[test]
fn long_identifiers_are_cut() {
    let long: String = "x".repeat(300);
    let items = vec![row(&long, KINGS, "", 1500, "fork")];
    let dict = ThemeDict::build(&items).unwrap();
    let (data, _) = encode_block(&items, &dict);
    let block = match DecompressedColumnarBlock::decode_from_bytes(0, &data) {
        Ok(b) => b,
        Err(_) => panic!(),
    };
    assert_eq!(block.get_puzzle(0, &dict.masks).unwrap().id, "x".repeat(255));
}

#[test]
fn boards_with_any_number_of_pieces_come_back() {
    let fens = [
        "8/8/8/8/8/8/8/8 w - - 0 1",
        "rnbqkbnr/pppppppp/8/8/8/8/PPPPPPPP/RNBQKBNR w KQkq - 0 1",
        "pppppppp/pppppppp/pppppppp/pppppppp/p6K/8/8/8 w - - 0 7",
        "rnbqkbnr/pppppppp/pppppppp/8/N7/PPPPPPPP/PPPPPPPP/RNBQKBNR b KQkq - 12 34",
        "rnbqkbnr/pppppppp/pppppppp/pppppppp/PPPPPPPP/PPPPPPPP/PPPPPPPP/RNBQKBNR w - - 0 65535",
    ];
    let items: Vec<ParsedItem> = fens.iter().map(|fen| row("00000", fen, "", 1, "")).collect();
    let bytes: Vec<usize> = items.iter().map(|item| item.more_pieces.len()).collect();
    assert_eq!(bytes, vec![0, 0, 1, 9, 16]);
    let dict = ThemeDict::build(&items).unwrap();
    let (data, _) = encode_block(&items, &dict);
    let block = match DecompressedColumnarBlock::decode_from_bytes(0, &data) {
        Ok(b) => b,
        Err(_) => panic!(),
    };
    let lens: Vec<usize> = block.piece_streams.iter().map(|s| s.len()).collect();
    assert_eq!(lens, vec![0, 16, 17, 25, 32]);
    for (i, fen) in fens.iter().enumerate() {
        assert_eq!(&block.get_puzzle(i, &dict.masks).unwrap().fen, fen);
    }
}

#[test]
fn first_moves_are_not_written() {
    let items = vec![row("00010", "4k3/8/8/8/8/8/8/4K3 b - - 3 1", "", 1500, "fork")];
    let dict = ThemeDict::build(&items).unwrap();
    let (data, odd) = encode_block(&items, &dict);
    assert!(!odd);
    assert_eq!(data.len(), 4 + 22 + 1 + 1);
    let items = vec![row("00010", "4k3/8/8/8/8/8/8/4K3 b - - 3 0", "", 1500, "fork")];
    let (data, _) = encode_block(&items, &dict);
    assert_eq!(data[data.len() - 4..], [0, 0, 0, 0]);
    let block = match DecompressedColumnarBlock::decode_from_bytes(0, &data) {
        Ok(b) => b,
        Err(_) => panic!(),
    };
    assert_eq!(block.get_puzzle(0, &dict.masks).unwrap().fen, "4k3/8/8/8/8/8/8/4K3 b - - 3 0");
}

#[test]
fn puzzles_come_back_from_columns() {
    let file = built(500, 64);
    let mut db = ColumnarDb::open(&file).unwrap();
    assert_eq!(db.len(), 500);
    assert!(!db.is_empty());
    assert_eq!((db.header().block_count, db.header().block_size), (8, 64));
    assert_eq!(db.header().compression_level, 5);
    assert_eq!((db.header().min_rating, db.header().max_rating), (1000, 1499));
    assert_eq!(db.block_index().len(), 8);
    assert_eq!((db.block_index()[7].puzzle_count, db.block_index()[7].min_rating), (52, 1448));
    assert_eq!(db.block_index()[0].flags, 1);
    for _ in 0..2 {
        for i in 0..500usize {
            let p = db.get(i).unwrap();
            assert_eq!(p.rating, 1000 + i as u16);
            if i % 10 == 0 {
                assert_eq!(p.id, format!("puzzle-{}", i));
            } else {
                assert_eq!(p.id, lipuzzles::id::decode_base62_id(i as u32));
            }
            assert_eq!(p.fen, KINGS);
            assert_eq!(p.moves, vec!["e8e7", "e1e2", "e7e8q"]);
            assert_eq!(p.themes, if i % 3 == 0 { vec!["fork"] } else { vec!["long", "pin"] });
        }
    }
    assert!(db.get(500).is_none());
    assert_eq!(db.find_by_id(" puzzle-490 ").unwrap().rating, 1490);
    assert_eq!(db.find_by_id("00001").unwrap().rating, 1001);
    assert!(db.find_by_id("nothing").is_none());
    assert_eq!(db.get_by_id("00001").unwrap().rating, 1001);
    assert!(db.get_by_id("nothing").is_none());
    assert_eq!(db.get_block(8).err(), Some(DbError::BlockOutOfBounds));
    assert_eq!(db.get_block(7).ok().map(|b| b.puzzle_count), Some(52));
}

#[test]
fn queries_on_columns() {
    let file = built(500, 64);
    let db = ColumnarDb::open(&file).unwrap();
    let mut c = QueryCriteria::default();
    assert_eq!(db.query_puzzles(&c, 5000).len(), 500);
    assert_eq!(db.query_puzzles(&c, 70).len(), 70);
    assert!(db.query_puzzles(&c, 0).is_empty());
    c.min_rating = Some(1100);
    c.max_rating = Some(1200);
    assert_eq!(db.query_puzzles(&c, 5000).len(), 101);
    c.any_themes = Some(ThemeMask::from_csv("fork,mate"));
    let forks = db.query_puzzles(&c, 5000);
    assert_eq!(forks.len(), 33);
    assert_eq!(forks[0].rating, 1102);
    let p = db.random_puzzle(&c, &mut rand::thread_rng()).unwrap();
    assert!(p.rating >= 1100 && p.rating <= 1200 && p.themes == vec!["fork"]);
    c.excluded_themes = Some(ThemeMask::from_csv("fork"));
    assert!(db.query_puzzles(&c, 5000).is_empty());
    assert!(db.random_puzzle(&c, &mut rand::thread_rng()).is_none());
    c.min_rating = Some(1300);
    assert!(db.query_puzzles(&c, 5000).is_empty());
    assert!(db.random_puzzle(&c, &mut rand::thread_rng()).is_none());
    let block = match db.get_block(0) {
        Ok(b) => b,
        Err(_) => panic!(),
    };
    let mut forks_only = QueryCriteria::default();
    forks_only.required_themes = Some(ThemeMask::from_csv("fork"));
    match db.first_match(&forks_only, &vec![9, 3, 0]) {
        Some((block, places)) => assert_eq!((block.block_idx, places[0]), (3, 0)),
        None => panic!(),
    }
    let mut high = QueryCriteria::default();
    high.min_rating = Some(1499);
    assert!(db.first_match(&high, &vec![0, 1, 6, 8]).is_none());
    assert!(db.first_match(&high, &vec![]).is_none());
    match db.first_match(&high, &vec![0, 7]) {
        Some((block, places)) => assert_eq!((block.block_idx, places), (7, vec![51])),
        None => panic!(),
    }
    let places = db.matching_in_block(&block, &forks_only);
    assert_eq!(places, (0..64).filter(|i| i % 3 == 0).collect::<Vec<usize>>());
}

#[test]
fn every_fault_of_a_column_file() {
    let good = built(3, 2048);
    let open = |f: &[u8]| ColumnarDb::open(f).err();
    assert_eq!(open(&[]), Some(DbError::TooSmall));
    let mut f = good.clone();
    f[3] = 0;
    assert_eq!(open(&f), Some(DbError::BadMagic));
    let mut f = good.clone();
    f[4] = 3;
    assert_eq!(open(&f), Some(DbError::UnsupportedVersion(3)));
    let mut f = good.clone();
    f[39] = 0xFF;
    assert_eq!(open(&f), Some(DbError::ThemeDictionaryTooLong));
    let mut f = good.clone();
    f[31] = 0xFF;
    assert_eq!(open(&f), Some(DbError::BlockIndexTooLong));
    let block_at = 64 + 16 * 2;
    let mut f = good.clone();
    f[block_at + 7] = 0xFF;
    assert_eq!(ColumnarDb::open(&f).unwrap().get_block(0).err(), Some(DbError::BlockTooLong));
    let mut f = good.clone();
    f[block_at + 24] ^= 0xFF;
    let mut db = ColumnarDb::open(&f).unwrap();
    assert_eq!(db.get_block(0).err(), Some(DbError::BadFrame));
    assert!(db.get(0).is_none());
    assert!(db.find_by_id("00001").is_none());
    let mut f = good.clone();
    f[block_at + 12] ^= 0x01;
    assert_eq!(ColumnarDb::open(&f).unwrap().get_block(0).err(), Some(DbError::SizeMismatch));
}

#[test]
fn the_cache_keeps_what_was_used_last() {
    let mut cache = BlockLruCache::new(2);
    let block = |i: usize| match DecompressedColumnarBlock::decode_from_bytes(i, &[0, 0, 0, 0]) {
        Ok(b) => b,
        Err(_) => panic!(),
    };
    assert!(cache.get(1).is_none());
    cache.insert(block(1));
    cache.insert(block(2));
    assert_eq!(cache.get(1).map(|b| b.block_idx), Some(1));
    cache.insert(block(3));
    assert!(cache.get(2).is_none());
    let kept: Vec<usize> = cache.entries.iter().map(|b| b.block_idx).collect();
    assert_eq!(kept, vec![3, 1]);
}

#[test]
fn what_a_column_build_says() {
    let (file, stats) = match ColumnarDbBuilder::finalize_database(many(100), &options(30)) {
        Ok(x) => x,
        Err(_) => panic!(),
    };
    assert_eq!((stats.total_puzzles, stats.total_blocks), (100, 4));
    assert_eq!(stats.compressed_size, file.len() as u64);
    let ids: usize = (0..10).map(|i| 1 + format!("puzzle-{}", i * 10).len()).sum();
    assert_eq!(stats.uncompressed_size as usize, 4 * 4 + 100 * 32 + 4 * 2 + ids);
    assert_eq!((stats.min_rating, stats.max_rating), (1000, 1099));
    let d = ColumnarBuilderOptions::default();
    assert_eq!((d.block_size, d.compression_level, d.limit), (2048, 19, None));
    let negative = ColumnarBuilderOptions { compression_level: -3, ..options(30) };
    let (file, _) = match ColumnarDbBuilder::finalize_database(many(5), &negative) {
        Ok(x) => x,
        Err(_) => panic!(),
    };
    assert_eq!(ColumnarDb::open(&file).unwrap().header().compression_level, 253);
}
