//! The builder of databases with fixed records (format 2).

use vstd::prelude::*;

use crate::db::{
    fault, header_bytes, magic, number_at, ratings, record_puzzle, records_at, DbHeader, LPDB_MAGIC,
    LPDB_VERSION,
};
use crate::dict::{dict_of, item_masks, lemma_distinct, lemma_place, place_of, ThemeDict};
use crate::id::{id_number, id_text, law_id_round_trip, lemma_id_number_bound, standard_id};
use crate::ingest::{
    item_position, item_puzzle, item_ratings, models, sort_by_rating, BuildError, ItemModel,
    ParsedItem,
};
use crate::moves::PackedMove;
use crate::record::{lemma_record_fields, pool_moves, record_bytes, PuzzleRecord};
use crate::section::{
    lemma_masks_back, lemma_moves_back, mask_values, masks_at, move_values, moves_at, rising,
    write_masks, write_moves,
};
use crate::theme::ThemeMask;
use crate::wire::{le, le_all, lemma_le, lemma_spans, slot};

verus! {

/// What a build did.
pub struct BuilderStats {
    pub total_puzzles: usize,
    pub total_moves: usize,
    pub unique_themes: usize,
    pub total_bytes_written: u64,
    pub min_rating: u16,
    pub max_rating: u16,
}

/// The moves of puzzles one after the other.
pub open spec fn pool_of(items: Seq<ItemModel>) -> Seq<PackedMove>
    decreases items.len(),
{
    if items.len() == 0 {
        Seq::empty()
    } else {
        pool_of(items.drop_last()) + items.last().moves
    }
}

/// The 40 bytes of a puzzle whose moves start at an offset and whose mask has a
/// place in the dictionary.
#[verifier::opaque]
pub open spec fn item_row(m: ItemModel, place: nat, offset: nat) -> Seq<u8> {
    le(m.occupied as nat, 8) + m.pieces + le(id_number(m.id), 4) + le(
        offset % 67108864 + (m.moves.len() % 64) * 67108864,
        4,
    ) + le(place % 1048576 + (m.rating as nat % 4096) * 1048576, 4) + le(
        m.state as nat + m.halfmove as nat * 65536,
        4,
    )
}

/// The rows of puzzles.
pub open spec fn item_rows(items: Seq<ItemModel>, dict: Seq<ThemeMask>) -> Seq<u8>
    decreases items.len(),
{
    if items.len() == 0 {
        Seq::empty()
    } else {
        let init = items.drop_last();
        let m = items.last();
        item_rows(init, dict) + item_row(m, place_of(dict, m.mask), pool_of(init).len())
    }
}

/// The lowest and the highest rating of puzzles that rise by rating: those of the
/// first and the last; 0 where there are none.
pub open spec fn first_rating(items: Seq<ItemModel>) -> u16 {
    if items.len() == 0 {
        0
    } else {
        items[0].rating
    }
}

/// The rating of the last puzzle; 0 where there are none.
pub open spec fn last_rating(items: Seq<ItemModel>) -> u16 {
    if items.len() == 0 {
        0
    } else {
        items.last().rating
    }
}

/// The header of a file: the theme dictionary behind the header, then the
/// records, then the move pool.
pub open spec fn file_header(n: nat, themes: nat, moves: nat, min: nat, max: nat) -> Seq<u8> {
    magic() + le(2, 4) + le(n, 8) + le(64 + themes * 16, 8) + le(moves, 8) + le(
        64 + themes * 16 + n * 40,
        8,
    ) + le(64, 8) + le(themes, 4) + le(min, 2) + le(max, 2) + seq![0u8, 0, 0, 0, 0, 0, 0, 0]
}

/// The file of puzzles in this order.
#[verifier::opaque]
pub open spec fn file_of(items: Seq<ItemModel>) -> Seq<u8> {
    let dict = dict_of(items);
    file_header(
        items.len(),
        dict.len(),
        pool_of(items).len(),
        first_rating(items) as nat,
        last_rating(items) as nat,
    ) + le_all(mask_values(dict), 16) + item_rows(items, dict) + le_all(
        move_values(pool_of(items)),
        2,
    )
}

/// What a build of these puzzles did.
pub open spec fn stats_of(items: Seq<ItemModel>, size: nat, s: BuilderStats) -> bool {
    &&& s.total_puzzles == items.len()
    &&& s.total_moves == pool_of(items).len()
    &&& s.unique_themes == dict_of(items).len()
    &&& s.total_bytes_written == size
    &&& s.min_rating == first_rating(items)
    &&& s.max_rating == last_rating(items)
}

/// Where the move pool of a file starts.
pub open spec fn pool_from(n: nat, themes: nat) -> nat {
    64 + themes * 16 + n * 40
}

/// What a build of puzzles in this order gives.
pub open spec fn is_build(
    items: Seq<ItemModel>,
    r: Result<(Vec<u8>, BuilderStats), BuildError>,
) -> bool {
    if dict_of(items).len() > 0xFFFF_FFFF {
        r matches Err(e) && e == BuildError::TooManyThemes
    } else if pool_from(items.len(), dict_of(items).len()) > 0xFFFF_FFFF_FFFF_FFFF {
        r matches Err(e) && e == BuildError::TooLarge
    } else {
        r matches Ok((file, stats)) && file@ == file_of(items) && stats_of(
            items,
            file@.len(),
            stats,
        )
    }
}

/// The same puzzles, so that none is before one with a lower rating.
pub open spec fn sorted_from(sorted: Seq<ItemModel>, items: Seq<ItemModel>) -> bool {
    &&& sorted.to_multiset() == items.to_multiset()
    &&& rising(item_ratings(sorted))
}

/// The rating of the first puzzle; 0 where there are none.
pub fn rating_of_first(items: &Vec<ParsedItem>) -> (r: u16)
    ensures
        r == first_rating(models(items@)),
{
    if items.len() == 0 {
        0
    } else {
        items[0].rating
    }
}

/// The rating of the last puzzle; 0 where there are none.
pub fn rating_of_last(items: &Vec<ParsedItem>) -> (r: u16)
    ensures
        r == last_rating(models(items@)),
{
    if items.len() == 0 {
        0
    } else {
        items[items.len() - 1].rating
    }
}

proof fn lemma_remainders(offset: nat, count: nat)
    ensures
        (offset % 0x1_0000_0000) % 67108864 == offset % 67108864,
        (count % 256) % 64 == count % 64,
{
}

/// The bytes of a record whose words are those of a puzzle are its row.
proof fn lemma_row(r: PuzzleRecord, m: ItemModel, place: nat, offset: nat)
    requires
        r.board_occupied == m.occupied,
        r.board_pieces@ == m.pieces,
        r.id_base62 == id_number(m.id),
        r.move_packed == offset % 67108864 + (m.moves.len() % 64) * 67108864,
        r.theme_rating_packed == place % 1048576 + (m.rating as nat % 4096) * 1048576,
        r.fen_packed == m.state as nat + m.halfmove as nat * 65536,
    ensures
        record_bytes(r) == item_row(m, place, offset),
{
    reveal(item_row);
}

/// Appends the row of a puzzle.
fn push_record(rows: &mut Vec<u8>, item: &ParsedItem, theme_id: u32, offset: usize)
    ensures
        final(rows)@ == old(rows)@ + item_row(item@, theme_id as nat, offset as nat),
{
    let short_offset: u32 = (offset as u64 % 0x1_0000_0000) as u32;
    let count: u8 = (item.moves.len() % 256) as u8;
    let record = PuzzleRecord::new(
        item.id.as_str(),
        &item.compact_board,
        item.rating,
        theme_id,
        short_offset,
        count,
        item.fen_state,
        item.fen_halfmove,
    );
    proof {
        lemma_remainders(offset as nat, item.moves@.len());
        lemma_row(record, item@, theme_id as nat, offset as nat);
    }
    record.write(rows);
}

/// The builder of databases with fixed records.
pub struct DbBuilder;

impl DbBuilder {
    /// The file of puzzles, and what it holds; the puzzles are sorted by rating
    /// first.
    pub fn finalize_database(items: Vec<ParsedItem>) -> (r: Result<
        (Vec<u8>, BuilderStats),
        BuildError,
    >)
        ensures
            exists|its: Seq<ItemModel>| #[trigger]
                sorted_from(its, models(items@)) && is_build(its, r),
    {
        let mut sorted = items;
        sort_by_rating(&mut sorted);
        assert(sorted_from(models(sorted@), models(items@)));
        Self::write_database(&sorted)
    }

    /// The file of puzzles in this order, and what it holds.
    pub fn write_database(items: &Vec<ParsedItem>) -> (r: Result<
        (Vec<u8>, BuilderStats),
        BuildError,
    >)
        ensures
            is_build(models(items@), r),
    {
        let ghost its = models(items@);
        let min_rating: u16 = rating_of_first(items);
        let max_rating: u16 = rating_of_last(items);
        let dict = match ThemeDict::build(items) {
            Some(d) => d,
            None => {
                return Err(BuildError::TooManyThemes);
            },
        };
        let themes: u64 = dict.masks.len() as u64;
        let n: u64 = items.len() as u64;
        if n > (0xFFFF_FFFF_FFFF_FFFF - 64 - themes * 16) / 40 {
            return Err(BuildError::TooLarge);
        }
        let mut rows: Vec<u8> = Vec::new();
        let mut pool: Vec<PackedMove> = Vec::new();
        assert(its.take(0) =~= Seq::empty());
        for i in 0..items.len()
            invariant
                its == models(items@),
                dict.wf(),
                dict.masks@ == dict_of(its),
                rows@ == item_rows(its.take(i as int), dict.masks@),
                pool@ == pool_of(its.take(i as int)),
        {
            let item = &items[i];
            let ghost init = its.take(i as int);
            proof {
                assert(its.take(i + 1).drop_last() =~= init);
                assert(its.take(i + 1).last() == item@);
                lemma_distinct(item_masks(its));
                assert(item_masks(its)[i as int] == item.theme_mask.0);
                assert(dict.masks@.contains(item.theme_mask));
            }
            let theme_id: u32 = dict.place(item.theme_mask);
            push_record(&mut rows, item, theme_id, pool.len());
            pool.extend_from_slice(item.moves.as_slice());
            assert(pool@ =~= pool_of(its.take(i + 1)));
        }
        assert(its.take(items@.len() as int) =~= its);
        let header = DbHeader {
            magic: LPDB_MAGIC,
            version: LPDB_VERSION,
            puzzle_count: n,
            records_offset: 64 + themes * 16,
            move_pool_count: pool.len() as u64,
            move_pool_offset: 64 + themes * 16 + n * 40,
            theme_dict_offset: 64,
            theme_dict_count: themes as u32,
            min_rating,
            max_rating,
            reserved: [0u8; 8],
        };
        proof {
            assert(header.magic@ =~= magic());
            assert(header.reserved@ =~= seq![0u8, 0, 0, 0, 0, 0, 0, 0]);
            assert(header_bytes(header) =~= file_header(
                its.len(),
                dict.masks@.len(),
                pool@.len(),
                min_rating as nat,
                max_rating as nat,
            ));
        }
        proof {
            reveal(file_of);
        }
        let mut file: Vec<u8> = Vec::new();
        header.write(&mut file);
        assert(file@ =~= header_bytes(header));
        write_masks(&mut file, dict.masks.as_slice());
        file.extend_from_slice(rows.as_slice());
        write_moves(&mut file, pool.as_slice());
        assert(file@ == file_of(its));
        let stats = BuilderStats {
            total_puzzles: items.len(),
            total_moves: pool.len(),
            unique_themes: dict.masks.len(),
            total_bytes_written: file.len() as u64,
            min_rating,
            max_rating,
        };
        Ok((file, stats))
    }
}

// ---------------------------------------------------------------------------
// What is read of what was written
// ---------------------------------------------------------------------------

/// The numbers that stand in a header.
proof fn lemma_header(n: nat, themes: nat, moves: nat, min: nat, max: nat, rest: Seq<u8>)
    requires
        pool_from(n, themes) <= 0xFFFF_FFFF_FFFF_FFFF,
        themes <= 0xFFFF_FFFF,
        moves < 0x1_0000_0000_0000_0000,
        min <= 65535,
        max <= 65535,
    ensures
        file_header(n, themes, moves, min, max).len() == 64,
        ({
            let data = file_header(n, themes, moves, min, max) + rest;
            &&& data.take(4) == magic()
            &&& number_at(data, 4, 4) == 2
            &&& number_at(data, 8, 8) == n
            &&& number_at(data, 16, 8) == 64 + themes * 16
            &&& number_at(data, 24, 8) == moves
            &&& number_at(data, 32, 8) == 64 + themes * 16 + n * 40
            &&& number_at(data, 40, 8) == 64
            &&& number_at(data, 48, 4) == themes
            &&& number_at(data, 52, 2) == min
            &&& number_at(data, 54, 2) == max
        }),
{
    lemma_spans();
    let h = file_header(n, themes, moves, min, max);
    let data = h + rest;
    lemma_le(2, 4);
    lemma_le(n, 8);
    lemma_le(64 + themes * 16, 8);
    lemma_le(moves, 8);
    lemma_le(64 + themes * 16 + n * 40, 8);
    lemma_le(64, 8);
    lemma_le(themes, 4);
    lemma_le(min, 2);
    lemma_le(max, 2);
    assert(h.len() == 64);
    assert(data.take(4) =~= magic());
    assert(data.subrange(4, 8) =~= le(2, 4));
    assert(data.subrange(8, 16) =~= le(n, 8));
    assert(data.subrange(16, 24) =~= le(64 + themes * 16, 8));
    assert(data.subrange(24, 32) =~= le(moves, 8));
    assert(data.subrange(32, 40) =~= le(64 + themes * 16 + n * 40, 8));
    assert(data.subrange(40, 48) =~= le(64, 8));
    assert(data.subrange(48, 52) =~= le(themes, 4));
    assert(data.subrange(52, 54) =~= le(min, 2));
    assert(data.subrange(54, 56) =~= le(max, 2));
}

/// Every row stands at its place.
proof fn lemma_rows(items: Seq<ItemModel>, dict: Seq<ThemeMask>)
    requires
        forall|i: int| 0 <= i < items.len() ==> (#[trigger] items[i]).pieces.len() == 16,
    ensures
        item_rows(items, dict).len() == items.len() * 40,
        forall|i: int|
            0 <= i < items.len() ==> #[trigger] slot(item_rows(items, dict), 0, 40, i) == item_row(
                items[i],
                place_of(dict, items[i].mask),
                pool_of(items.take(i)).len(),
            ),
    decreases items.len(),
{
    if items.len() > 0 {
        let init = items.drop_last();
        let m = items.last();
        assert forall|i: int| 0 <= i < init.len() implies (#[trigger] init[i]).pieces.len() == 16 by {
            assert(init[i] == items[i]);
        }
        lemma_rows(init, dict);
        let row = item_row(m, place_of(dict, m.mask), pool_of(init).len());
        lemma_row_len(m, place_of(dict, m.mask), pool_of(init).len());
        let all = item_rows(items, dict);
        assert forall|i: int| 0 <= i < items.len() implies #[trigger] slot(all, 0, 40, i)
            == item_row(items[i], place_of(dict, items[i].mask), pool_of(items.take(i)).len()) by {
            if i < init.len() {
                assert(slot(all, 0, 40, i) =~= slot(item_rows(init, dict), 0, 40, i));
                assert(items.take(i) =~= init.take(i));
            } else {
                assert(slot(all, 0, 40, i) =~= row);
                assert(items.take(i) =~= init);
            }
        }
    }
}

proof fn lemma_row_len(m: ItemModel, place: nat, offset: nat)
    requires
        m.pieces.len() == 16,
    ensures
        item_row(m, place, offset).len() == 40,
{
    reveal(item_row);
    lemma_le(m.occupied as nat, 8);
    lemma_le(id_number(m.id), 4);
    lemma_le(offset % 67108864 + (m.moves.len() % 64) * 67108864, 4);
    lemma_le(place % 1048576 + (m.rating as nat % 4096) * 1048576, 4);
    lemma_le(m.state as nat + m.halfmove as nat * 65536, 4);
}

/// A file that was built from puzzles opens without a fault, and its sections are
/// what was written: the theme dictionary, the rows and the move pool.
pub proof fn law_file_opens(items: Seq<ItemModel>)
    requires
        file_holds(items),
    ensures
        fault(file_of(items)) is None,
        number_at(file_of(items), 8, 8) == items.len(),
        number_at(file_of(items), 52, 2) == first_rating(items),
        number_at(file_of(items), 54, 2) == last_rating(items),
        masks_at(
            file_of(items),
            number_at(file_of(items), 40, 8) as int,
            number_at(file_of(items), 48, 4),
        ) == dict_of(items),
        moves_at(
            file_of(items),
            number_at(file_of(items), 32, 8) as int,
            number_at(file_of(items), 24, 8),
        ) == pool_of(items),
        forall|i: int|
            0 <= i < items.len() ==> #[trigger] slot(
                file_of(items),
                number_at(file_of(items), 16, 8) as int,
                40,
                i,
            ) == item_row(
                items[i],
                place_of(dict_of(items), items[i].mask),
                pool_of(items.take(i)).len(),
            ),
{
    reveal(file_of);
    let dict = dict_of(items);
    let pool = pool_of(items);
    let n = items.len();
    lemma_distinct(item_masks(items));
    let h = file_header(
        n,
        dict.len(),
        pool.len(),
        first_rating(items) as nat,
        last_rating(items) as nat,
    );
    let d = le_all(mask_values(dict), 16);
    let r = item_rows(items, dict);
    let p = le_all(move_values(pool), 2);
    let file = file_of(items);
    assert(file =~= h + (d + r + p));
    lemma_header(
        n,
        dict.len(),
        pool.len(),
        first_rating(items) as nat,
        last_rating(items) as nat,
        d + r + p,
    );
    assert(file =~= h + d + (r + p));
    lemma_masks_back(h, dict, r + p);
    lemma_rows(items, dict);
    assert(file =~= (h + d + r) + p + Seq::<u8>::empty());
    lemma_moves_back(h + d + r, pool, Seq::empty());
    let at = 64 + dict.len() * 16;
    assert forall|i: int| 0 <= i < n implies #[trigger] slot(file, at as int, 40, i) == item_row(
        items[i],
        place_of(dict, items[i].mask),
        pool_of(items.take(i)).len(),
    ) by {
        assert(slot(file, at as int, 40, i) =~= slot(r, 0, 40, i));
    }
}

/// The moves of a puzzle stand in the pool behind those of the puzzles before it.
pub proof fn lemma_pool(items: Seq<ItemModel>, i: int)
    requires
        0 <= i < items.len(),
    ensures
        pool_of(items.take(i)).len() + items[i].moves.len() <= pool_of(items).len(),
        pool_moves(pool_of(items), pool_of(items.take(i)).len(), items[i].moves.len())
            == items[i].moves,
    decreases items.len(),
{
    let init = items.drop_last();
    if i < init.len() {
        lemma_pool(init, i);
        assert(init.take(i) =~= items.take(i));
        let a = pool_of(items.take(i)).len() as int;
        let b = a + items[i].moves.len();
        assert(pool_of(items).subrange(a, b) =~= pool_of(init).subrange(a, b));
    } else {
        assert(items.take(i) =~= init);
        let a = pool_of(init).len() as int;
        assert(pool_of(items).subrange(a, pool_of(items).len() as int) =~= items[i].moves);
    }
}

/// Puzzles that a file can hold.
pub open spec fn file_holds(items: Seq<ItemModel>) -> bool {
    &&& dict_of(items).len() <= 0xFFFF_FFFF
    &&& pool_from(items.len(), dict_of(items).len()) <= 0xFFFF_FFFF_FFFF_FFFF
    &&& pool_of(items).len() < 0x1_0000_0000_0000_0000
    &&& forall|i: int| 0 <= i < items.len() ==> (#[trigger] items[i]).pieces.len() == 16
}

/// Whether the record of a puzzle can hold it: the place of its themes in the
/// dictionary is below 2^20, its rating below 4096, it has at most 32 pieces and
/// fewer than 64 moves, and these start below 2^26 in the move pool.
pub open spec fn record_holds(items: Seq<ItemModel>, i: int) -> bool {
    &&& items[i].more.len() == 0
    &&& place_of(dict_of(items), items[i].mask) < 1048576
    &&& items[i].rating < 4096
    &&& items[i].moves.len() < 64
    &&& items[i].moves.len() > 0 ==> pool_of(items.take(i)).len() < 67108864
}

/// A database that was opened from the file of puzzles hands a puzzle that its
/// record can hold out as it was: its position with fullmove number one, moves,
/// rating and themes, and its identifier where that is one of five letters and
/// digits.
pub proof fn law_puzzles_come_back(
    items: Seq<ItemModel>,
    records: Seq<PuzzleRecord>,
    i: int,
)
    requires
        file_holds(items),
        records.len() == items.len(),
        records_at(records, file_of(items), number_at(file_of(items), 16, 8) as int),
        0 <= i < items.len(),
        record_holds(items, i),
    ensures
        ({
            let p = record_puzzle(records[i], pool_of(items), dict_of(items));
            let q = item_puzzle(ItemModel { fullmove: 1, ..items[i] });
            &&& p.fen == q.fen
            &&& p.moves == q.moves
            &&& p.rating == q.rating
            &&& p.themes == q.themes
            &&& records[i].id_base62 == id_number(items[i].id)
            &&& p.id == id_text(id_number(items[i].id))
            &&& standard_id(items[i].id) ==> p == q
        }),
{
    let place = place_of(dict_of(items), items[i].mask);
    let offset = pool_of(items.take(i)).len();
    lemma_row_at(items, records, i);
    lemma_pool(items, i);
    assert(item_masks(items)[i] == items[i].mask);
    lemma_place(item_masks(items), i);
    lemma_puzzle_back(items[i], place, offset, records[i], pool_of(items), dict_of(items));
}

/// The bytes of a record of a file are the row of its puzzle.
proof fn lemma_row_at(items: Seq<ItemModel>, records: Seq<PuzzleRecord>, i: int)
    requires
        file_holds(items),
        records.len() == items.len(),
        records_at(records, file_of(items), number_at(file_of(items), 16, 8) as int),
        0 <= i < items.len(),
    ensures
        record_bytes(records[i]) == item_row(
            items[i],
            place_of(dict_of(items), items[i].mask),
            pool_of(items.take(i)).len(),
        ),
{
    law_file_opens(items);
}

/// The records of a file of puzzles that rise by rating rise too, so that queries on
/// a rating range find all that lies in it.
pub proof fn law_records_rise(items: Seq<ItemModel>, rows: Seq<PuzzleRecord>)
    requires
        file_holds(items),
        rising(item_ratings(items)),
        forall|i: int| 0 <= i < items.len() ==> (#[trigger] items[i]).rating < 4096,
        rows.len() == items.len(),
        records_at(rows, file_of(items), number_at(file_of(items), 16, 8) as int),
    ensures
        rising(ratings(rows)),
{
    let keys = ratings(rows);
    assert forall|i: int| 0 <= i < items.len() implies #[trigger] keys[i] == item_ratings(items)[i] by {
        let place = place_of(dict_of(items), items[i].mask);
        lemma_row_at(items, rows, i);
        lemma_lone_row(items[i], place, pool_of(items.take(i)).len(), rows[i]);
        assert(keys[i] == rows[i].rating_of());
    }
}

/// The record of a row gives the puzzle of the row.
proof fn lemma_puzzle_back(
    m: ItemModel,
    place: nat,
    offset: nat,
    r: PuzzleRecord,
    pool: Seq<PackedMove>,
    dict: Seq<ThemeMask>,
)
    requires
        m.pieces.len() == 16,
        m.more.len() == 0,
        m.rating < 4096,
        m.moves.len() < 64,
        place < dict.len(),
        place < 1048576,
        dict[place as int].0 == m.mask,
        offset + m.moves.len() <= pool.len(),
        m.moves.len() > 0 ==> offset < 67108864,
        pool_moves(pool, offset, m.moves.len()) == m.moves,
        record_bytes(r) == item_row(m, place, offset),
    ensures
        ({
            let p = record_puzzle(r, pool, dict);
            let q = item_puzzle(ItemModel { fullmove: 1, ..m });
            &&& p.fen == q.fen
            &&& p.moves == q.moves
            &&& p.rating == q.rating
            &&& p.themes == q.themes
            &&& r.id_base62 == id_number(m.id)
            &&& p.id == id_text(id_number(m.id))
            &&& standard_id(m.id) ==> p == q
        }),
{
    lemma_id_number_bound(m.id);
    lemma_lone_row(m, place, offset, r);
    assert(m.pieces + m.more =~= m.pieces);
    assert(item_position(ItemModel { fullmove: 1, ..m }) =~= r.position());
    if m.moves.len() == 0 {
        assert(pool_moves(pool, r.offset_of(), r.count_of()) =~= m.moves);
    }
    if standard_id(m.id) {
        law_id_round_trip(m.id);
    }
}

/// The record of a row.
proof fn lemma_lone_row(m: ItemModel, place: nat, offset: nat, r: PuzzleRecord)
    requires
        m.pieces.len() == 16,
        record_bytes(r) == item_row(m, place, offset),
    ensures
        r.board_occupied == m.occupied,
        r.board_pieces@ == m.pieces,
        r.id_base62 == id_number(m.id),
        r.offset_of() == offset % 67108864,
        r.count_of() == m.moves.len() % 64,
        r.theme_of() == place % 1048576,
        r.rating_of() == m.rating % 4096,
        r.state_of() == m.state,
        r.halfmove_of() == m.halfmove,
{
    reveal(item_row);
    lemma_spans();
    lemma_id_number_bound(m.id);
    let moves = offset % 67108864 + (m.moves.len() % 64) * 67108864;
    let themes = place % 1048576 + (m.rating as nat % 4096) * 1048576;
    let fen = m.state as nat + m.halfmove as nat * 65536;
    lemma_le(m.occupied as nat, 8);
    lemma_le(id_number(m.id), 4);
    lemma_le(moves, 4);
    lemma_le(themes, 4);
    lemma_le(fen, 4);
    lemma_record_fields(r);
    let b = item_row(m, place, offset);
    assert(b.subrange(0, 8) =~= le(m.occupied as nat, 8));
    assert(b.subrange(8, 24) =~= m.pieces);
    assert(b.subrange(24, 28) =~= le(id_number(m.id), 4));
    assert(b.subrange(28, 32) =~= le(moves, 4));
    assert(b.subrange(32, 36) =~= le(themes, 4));
    assert(b.subrange(36, 40) =~= le(fen, 4));
}

} // verus!
