//! Rows of puzzle sources and what is kept of them.

use rayon::slice::ParallelSliceMut;
use vstd::prelude::*;

use crate::board::{
    codes_of, filled, first_codes, lemma_codes_of, lemma_spread_pieces, mask_of, more_codes,
    more_pieces, pieces_of, spread, CompactBoard,
};
use crate::fen::{fen_text, read_fen, FenModel, PackedFen};
use crate::moves::{
    encode_moves, law_text_line_round_trip, moves_of, small_uci, uci_texts, PackedMove,
};
use crate::puzzle::PuzzleModel;
use crate::section::rising;
use crate::text::{
    chars_of, decimal, digit_in, fields, has_digit, int_text, is_digit, joined,
    lemma_decimal_number, lemma_fields_joined, no_white, number, parse_number, parse_whole,
    split_fields, texts, whole, words,
};
use crate::theme::{
    field_numbers, in_mask, law_mask_round_trip, law_names_text, lemma_names_are_known,
    lemma_no_theme, lemma_same_names, lists_number, marks_names, marks_numbers, mask_names,
    theme_of, ThemeMask,
};
use crate::wording::{law_decimal, law_whole};

verus! {

/// A row of a puzzle source.
pub struct RawPuzzleRow {
    pub id: String,
    pub fen: String,
    pub moves: String,
    pub rating: u16,
    pub themes: String,
}

/// What a row says.
#[verifier::ext_equal]
pub struct RowText {
    pub id: Seq<char>,
    pub fen: Seq<char>,
    pub moves: Seq<char>,
    pub rating: u16,
    pub themes: Seq<char>,
}

impl View for RawPuzzleRow {
    type V = RowText;

    open spec fn view(&self) -> RowText {
        RowText {
            id: self.id@,
            fen: self.fen@,
            moves: self.moves@,
            rating: self.rating,
            themes: self.themes@,
        }
    }
}

/// The rows of a list.
pub open spec fn row_texts(rows: Seq<RawPuzzleRow>) -> Seq<RowText> {
    Seq::new(rows.len(), |i: int| rows[i]@)
}

/// A puzzle that was read from a row.
pub struct ParsedItem {
    pub id: String,
    pub compact_board: CompactBoard,
    /// The pieces behind the 32nd, two to a byte; none on an ordinary board.
    pub more_pieces: Vec<u8>,
    pub rating: u16,
    pub theme_mask: ThemeMask,
    pub fen_state: u16,
    pub fen_halfmove: u8,
    pub fen_fullmove: u16,
    pub moves: Vec<PackedMove>,
}

/// Why no database can be built.
#[derive(Debug, Clone, Copy, PartialEq, Eq)]
pub enum BuildError {
    /// There are more theme masks than 32 bits count.
    TooManyThemes,
    /// There are more blocks than 32 bits count.
    TooManyBlocks,
    /// A block could not be compressed.
    Compression,
    /// The file would be larger than 64 bits count.
    TooLarge,
}

/// What a parsed puzzle says.
#[verifier::ext_equal]
pub struct ItemModel {
    pub id: Seq<char>,
    pub occupied: u64,
    pub pieces: Seq<u8>,
    pub more: Seq<u8>,
    pub rating: u16,
    pub mask: u128,
    pub state: u16,
    pub halfmove: u8,
    pub fullmove: u16,
    pub moves: Seq<PackedMove>,
}

impl View for ParsedItem {
    type V = ItemModel;

    open spec fn view(&self) -> ItemModel {
        ItemModel {
            id: self.id@,
            occupied: self.compact_board.occupied,
            pieces: self.compact_board.pieces@,
            more: self.more_pieces@,
            rating: self.rating,
            mask: self.theme_mask.0,
            state: self.fen_state,
            halfmove: self.fen_halfmove,
            fullmove: self.fen_fullmove,
            moves: self.moves@,
        }
    }
}

/// The parsed puzzles of a list.
pub open spec fn models(items: Seq<ParsedItem>) -> Seq<ItemModel> {
    Seq::new(items.len(), |i: int| items[i]@)
}

/// The ratings of parsed puzzles.
pub open spec fn item_ratings(items: Seq<ItemModel>) -> Seq<nat> {
    items.map_values(|m: ItemModel| m.rating as nat)
}

/// The position of a parsed puzzle.
pub open spec fn item_position(m: ItemModel) -> FenModel {
    FenModel {
        cells: spread(m.occupied, codes_of(m.pieces + m.more)),
        state: m.state as nat,
        halfmove: m.halfmove as nat,
        fullmove: m.fullmove as nat,
    }
}

/// The puzzle that a parsed puzzle is.
pub open spec fn item_puzzle(m: ItemModel) -> PuzzleModel {
    PuzzleModel {
        id: m.id,
        fen: fen_text(item_position(m)),
        moves: uci_texts(m.moves),
        rating: m.rating,
        themes: mask_names(m.mask),
    }
}

/// Whether a digit stands in one of the fields that is not the name of a theme.
pub open spec fn gives_numbers(fs: Seq<Seq<char>>) -> bool {
    exists|i: int| 0 <= i < fs.len() && is_number_field(#[trigger] fs[i])
}

/// A field with a digit, other than a name such as `mateIn2`.
pub open spec fn is_number_field(f: Seq<char>) -> bool {
    digit_in(f) && theme_of(f) is None
}

/// The themes of a row: theme numbers where one of its fields has a digit that is
/// not part of a theme's name, else theme names.
pub open spec fn row_marks(mask: u128, themes: Seq<char>) -> bool {
    if gives_numbers(fields(themes)) {
        marks_numbers(mask, field_numbers(fields(themes)))
    } else {
        marks_names(mask, fields(themes))
    }
}

/// What is kept of a row whose FEN says `m`.
pub open spec fn row_item(
    id: Seq<char>,
    m: FenModel,
    moves: Seq<char>,
    rating: u16,
    themes: Seq<char>,
    item: ItemModel,
) -> bool {
    &&& item.id == id
    &&& mask_of(item.occupied, m.cells)
    &&& codes_of(item.pieces) == first_codes(pieces_of(m.cells))
    &&& item.more.len() == (more_codes(pieces_of(m.cells)).len() + 1) / 2
    &&& codes_of(item.more) == filled(more_codes(pieces_of(m.cells)), 2 * item.more.len())
    &&& item.rating == rating
    &&& row_marks(item.mask, themes)
    &&& item.state == m.state
    &&& item.halfmove == m.halfmove
    &&& item.fullmove == m.fullmove
    &&& item.moves == moves_of(fields(moves))
}

fn holds_numbers(s: &str) -> (r: bool)
    ensures
        r == gives_numbers(fields(s@)),
{
    let chars = chars_of(s);
    let parts = split_fields(chars.as_slice());
    assert(words(parts@).len() == parts@.len());
    for i in 0..parts.len()
        invariant
            words(parts@) == fields(s@),
            fields(s@).len() == parts@.len(),
            forall|j: int| 0 <= j < i ==> !is_number_field(#[trigger] fields(s@)[j]),
    {
        assert(fields(s@)[i as int] == parts@[i as int]@);
        let part = parts[i].as_slice();
        if has_digit(part) && ThemeMask::bit_of_chars(part).is_none() {
            assert(is_number_field(fields(s@)[i as int]));
            return true;
        }
    }
    false
}

impl RawPuzzleRow {
    /// The puzzle of the row; none where its FEN cannot be read.
    pub fn process(self) -> (r: Option<ParsedItem>)
        ensures
            match read_fen(fields(self.fen@)) {
                Ok(m) => r matches Some(item) && row_item(
                    self.id@,
                    m,
                    self.moves@,
                    self.rating,
                    self.themes@,
                    item@,
                ),
                Err(_) => r is None,
            },
    {
        let packed = match PackedFen::encode(self.fen.as_str()) {
            Ok(p) => p,
            Err(_) => {
                return None;
            },
        };
        let compact_board = CompactBoard::from_board_nibbles(&packed.board);
        let more = more_pieces(&packed.board);
        let moves = encode_moves(self.moves.as_str());
        let theme_mask = if holds_numbers(self.themes.as_str()) {
            ThemeMask::from_sqlite_ids_str(self.themes.as_str())
        } else {
            ThemeMask::from_csv_themes_str(self.themes.as_str())
        };
        Some(
            ParsedItem {
                id: self.id,
                compact_board,
                more_pieces: more,
                rating: self.rating,
                theme_mask,
                fen_state: packed.state,
                fen_halfmove: packed.halfmove,
                fen_fullmove: packed.fullmove,
                moves,
            },
        )
    }
}

/// Calls rayon's `par_sort_unstable_by_key` with the rating as the key: the same
/// puzzles, so that none is before one with a lower rating. Which of two with the
/// same rating comes first is left open.
#[verifier::external_body]
pub(crate) fn sort_by_rating(items: &mut Vec<ParsedItem>)
    ensures
        models(final(items)@).to_multiset() == models(old(items)@).to_multiset(),
        rising(item_ratings(models(final(items)@))),
{
    items.par_sort_unstable_by_key(|item| item.rating)
}

/// The position of a row is kept whole.
pub proof fn law_row_position(
    id: Seq<char>,
    m: FenModel,
    moves: Seq<char>,
    rating: u16,
    themes: Seq<char>,
    item: ItemModel,
)
    requires
        m.cells.len() == 64,
        row_item(id, m, moves, rating, themes, item),
    ensures
        item_position(item) == m,
{
    let list = pieces_of(m.cells);
    let n = 32 + 2 * item.more.len();
    assert(codes_of(item.pieces).len() == 32);
    lemma_codes_of(item.pieces, item.more);
    assert(codes_of(item.pieces) + codes_of(item.more) =~= filled(list, n));
    lemma_spread_pieces(item.occupied, m.cells, n);
    assert(item_position(item) =~= m);
}

/// A row comes out as the puzzle that it names: with the same identifier and
/// rating, the position, the moves letter by letter and the themes.
pub proof fn law_row_kept(
    id: Seq<char>,
    m: FenModel,
    line: Seq<Seq<char>>,
    rating: u16,
    mask: u128,
    item: ItemModel,
)
    requires
        m.cells.len() == 64,
        forall|i: int| 0 <= i < line.len() ==> small_uci(#[trigger] line[i]),
        row_item(
            id,
            m,
            joined(line, seq![' ']),
            rating,
            joined(mask_names(mask), seq![' ']),
            item,
        ),
    ensures
        item_puzzle(item) == (PuzzleModel {
            id,
            fen: fen_text(m),
            moves: line,
            rating,
            themes: mask_names(mask),
        }),
{
    law_row_position(
        id,
        m,
        joined(line, seq![' ']),
        rating,
        joined(mask_names(mask), seq![' ']),
        item,
    );
    law_text_line_round_trip(line);
    law_names_text(mask);
    lemma_names_are_known(mask);
    law_mask_round_trip(mask, item.mask);
    lemma_same_names(mask, item.mask, 73);
}

// ---------------------------------------------------------------------------
// Rows from tables
// ---------------------------------------------------------------------------

/// The lowest 16 bits of a number.
pub open spec fn low_bits(v: i64) -> int {
    v as int % 65536
}

/// The rating in a database column: its lowest 16 bits.
pub fn rating_of_column(v: i64) -> (r: u16)
    ensures
        r == v as int % 65536,
        r == low_bits(v),
{
    if v >= 0 {
        (v % 65536) as u16
    } else {
        let k: i64 = -(v + 1);
        let rest: i64 = k % 65536;
        assert(v as int % 65536 == 65535 - rest);
        (65535 - rest) as u16
    }
}

/// What the fields of a comma-separated row give: the identifier, the FEN, the
/// moves, the rating and the themes.
pub open spec fn csv_text(record: Seq<Seq<char>>) -> RowText {
    RowText {
        id: record[0],
        fen: record[1],
        moves: record[2],
        rating: csv_rating(record) as u16,
        themes: record[7],
    }
}

/// The rating of a comma-separated row; 1500 where it is no 16-bit number.
pub open spec fn csv_rating(record: Seq<Seq<char>>) -> nat {
    match number(record[3], 65535) {
        Some(n) => n,
        None => 1500,
    }
}

/// The popularity of a comma-separated row; 0 where it is no 8-bit number.
pub open spec fn csv_popularity(record: Seq<Seq<char>>) -> int {
    match whole(record[5], 128, 127) {
        Some(n) => n,
        None => 0,
    }
}

/// The number of plays of a comma-separated row; 0 where it is no 32-bit number.
pub open spec fn csv_plays(record: Seq<Seq<char>>) -> nat {
    match number(record[6], 0xFFFF_FFFF) {
        Some(n) => n,
        None => 0,
    }
}

/// What a row must have to be taken; what is `None` is not asked.
#[derive(Debug, Clone, Copy)]
pub struct RowFilter {
    pub min_rating: Option<u16>,
    pub max_rating: Option<u16>,
    pub min_popularity: Option<i8>,
    pub min_plays: Option<u32>,
}

/// Whether a comma-separated row is taken: it has at least eight fields, and a
/// rating, a popularity and a number of plays as the filter asks.
pub open spec fn row_taken(f: RowFilter, record: Seq<Seq<char>>) -> bool {
    &&& record.len() >= 8
    &&& match f.min_rating {
        Some(m) => csv_rating(record) >= m,
        None => true,
    }
    &&& match f.max_rating {
        Some(m) => csv_rating(record) <= m,
        None => true,
    }
    &&& match f.min_popularity {
        Some(m) => csv_popularity(record) >= m,
        None => true,
    }
    &&& match f.min_plays {
        Some(m) => csv_plays(record) >= m,
        None => true,
    }
}

/// The row of the fields of a comma-separated row, if the filter takes it.
pub fn csv_row(filter: &RowFilter, record: &Vec<String>) -> (r: Option<RawPuzzleRow>)
    ensures
        match r {
            Some(row) => row_taken(*filter, texts(record@)) && row@ == csv_text(texts(record@)),
            None => !row_taken(*filter, texts(record@)),
        },
{
    let ghost rec = texts(record@);
    if record.len() < 8 {
        return None;
    }
    let rating_chars = chars_of(record[3].as_str());
    assert(rec[3] == record@[3]@ && rec[5] == record@[5]@ && rec[6] == record@[6]@);
    let rating: u16 = match parse_number(rating_chars.as_slice(), 65535) {
        Some(n) => n as u16,
        None => 1500,
    };
    if let Some(min) = filter.min_rating {
        if rating < min {
            return None;
        }
    }
    if let Some(max) = filter.max_rating {
        if rating > max {
            return None;
        }
    }
    if let Some(min) = filter.min_popularity {
        let pop_chars = chars_of(record[5].as_str());
        let pop: i64 = match parse_whole(pop_chars.as_slice(), 128, 127) {
            Some(n) => n,
            None => 0,
        };
        if pop < min as i64 {
            return None;
        }
    }
    if let Some(min) = filter.min_plays {
        let play_chars = chars_of(record[6].as_str());
        let plays: u64 = match parse_number(play_chars.as_slice(), 0xFFFF_FFFF) {
            Some(n) => n,
            None => 0,
        };
        if plays < min as u64 {
            return None;
        }
    }
    Some(
        RawPuzzleRow {
            id: record[0].clone(),
            fen: record[1].clone(),
            moves: record[2].clone(),
            rating,
            themes: record[7].clone(),
        },
    )
}

/// Whether as many rows as a limit asks for were taken.
pub open spec fn is_enough(count: nat, limit: Option<usize>) -> bool {
    limit is Some && count >= limit->0
}

/// The taking in of comma-separated rows: what a row must have, after how many taken
/// rows no further one is read, how many were taken, and those of them that were
/// not handed on yet.
pub struct CsvIntake {
    pub filter: RowFilter,
    pub limit: Option<usize>,
    pub count: usize,
    pub rows: Vec<RawPuzzleRow>,
}

/// What an intake holds.
#[verifier::ext_equal]
pub struct IntakeModel {
    pub filter: RowFilter,
    pub limit: Option<usize>,
    pub count: nat,
    pub rows: Seq<RowText>,
}

impl View for CsvIntake {
    type V = IntakeModel;

    open spec fn view(&self) -> IntakeModel {
        IntakeModel {
            filter: self.filter,
            limit: self.limit,
            count: self.count as nat,
            rows: row_texts(self.rows@),
        }
    }
}

/// What an intake holds after a record, and whether reading stops there. The limit
/// is looked at when a row was taken, so that one row is taken under a limit of
/// zero too.
pub open spec fn intake_step(
    was: IntakeModel,
    record: Seq<Seq<char>>,
    now: IntakeModel,
    stop: bool,
) -> bool {
    if row_taken(was.filter, record) {
        &&& now == (IntakeModel {
            count: was.count + 1,
            rows: was.rows.push(csv_text(record)),
            ..was
        })
        &&& stop == is_enough(now.count, was.limit)
    } else {
        now == was && !stop
    }
}

impl CsvIntake {
    /// The intake before the first record.
    pub fn new(filter: RowFilter, limit: Option<usize>) -> (r: Self)
        ensures
            r@ == (IntakeModel { filter, limit, count: 0, rows: Seq::empty() }),
    {
        let r = CsvIntake { filter, limit, count: 0, rows: Vec::new() };
        assert(r@ =~= (IntakeModel { filter, limit, count: 0, rows: Seq::empty() }));
        r
    }

    /// Takes a record if the filter does, and tells whether reading stops there.
    pub fn take(&mut self, record: &Vec<String>) -> (stop: bool)
        requires
            old(self).count < usize::MAX,
        ensures
            intake_step(old(self)@, texts(record@), final(self)@, stop),
    {
        let ghost was = self@;
        match csv_row(&self.filter, record) {
            Some(row) => {
                self.rows.push(row);
                self.count = self.count + 1;
                assert(self@.rows =~= was.rows.push(csv_text(texts(record@))));
                match self.limit {
                    Some(lim) => self.count >= lim,
                    None => false,
                }
            },
            None => false,
        }
    }

    /// Hands on the rows that were taken since the last call.
    pub fn drain(&mut self) -> (r: Vec<RawPuzzleRow>)
        ensures
            row_texts(r@) == old(self)@.rows,
            final(self)@ == (IntakeModel { rows: Seq::empty(), ..old(self)@ }),
    {
        let mut rows: Vec<RawPuzzleRow> = Vec::new();
        std::mem::swap(&mut rows, &mut self.rows);
        assert(self@.rows =~= Seq::empty());
        rows
    }
}

/// The rows of the records that a filter takes.
pub open spec fn picked(f: RowFilter, records: Seq<Seq<Seq<char>>>) -> Seq<RowText>
    decreases records.len(),
{
    if records.len() == 0 {
        Seq::empty()
    } else if row_taken(f, records.last()) {
        picked(f, records.drop_last()).push(csv_text(records.last()))
    } else {
        picked(f, records.drop_last())
    }
}

/// Rows up to a limit: as many as it says, one under a limit of zero.
pub open spec fn within(rows: Seq<RowText>, limit: Option<usize>) -> Seq<RowText> {
    match limit {
        Some(n) => {
            let most: int = if n == 0 {
                1
            } else {
                n as int
            };
            if rows.len() <= most {
                rows
            } else {
                rows.take(most)
            }
        },
        None => rows,
    }
}

/// Records that are offered one after the other until reading stops, at `n`, leave
/// the rows that the filter takes, in their order and up to the limit.
pub proof fn law_intake(
    states: Seq<IntakeModel>,
    records: Seq<Seq<Seq<char>>>,
    stops: Seq<bool>,
    n: nat,
)
    requires
        n <= records.len(),
        states.len() == n + 1,
        stops.len() == n,
        states[0].count == 0,
        states[0].rows.len() == 0,
        forall|i: int|
            0 <= i < n ==> #[trigger] intake_step(states[i], records[i], states[i + 1], stops[i]),
        forall|i: int| 0 <= i < n - 1 ==> !#[trigger] stops[i],
        n == records.len() || (n > 0 && stops[n - 1]),
    ensures
        states[n as int].rows == within(picked(states[0].filter, records), states[0].limit),
        states[n as int].count == states[n as int].rows.len(),
{
    let f = states[0].filter;
    let limit = states[0].limit;
    lemma_intake(states, records, stops, n);
    assert(records.take(records.len() as int) =~= records);
    lemma_picked(f, records, n);
    let now = picked(f, records.take(n as int));
    let all = picked(f, records);
    if n > 0 && stops[n - 1] {
        assert(intake_step(states[n - 1], records[n - 1], states[n - 1 + 1], stops[n - 1]));
        lemma_intake(states, records, stops, (n - 1) as nat);
        assert(all.take(now.len() as int) =~= now);
    }
}

/// The rows of the first records are the first of the rows.
proof fn lemma_picked(f: RowFilter, records: Seq<Seq<Seq<char>>>, n: nat)
    requires
        n <= records.len(),
    ensures
        picked(f, records.take(n as int)).len() <= picked(f, records).len(),
        picked(f, records.take(n as int)) == picked(f, records).take(
            picked(f, records.take(n as int)).len() as int,
        ),
    decreases records.len(),
{
    let part = picked(f, records.take(n as int));
    let all = picked(f, records);
    if n == records.len() {
        assert(records.take(n as int) =~= records);
    } else {
        let init = records.drop_last();
        lemma_picked(f, init, n);
        assert(init.take(n as int) =~= records.take(n as int));
    }
    assert(part =~= all.take(part.len() as int));
}

proof fn lemma_intake(
    states: Seq<IntakeModel>,
    records: Seq<Seq<Seq<char>>>,
    stops: Seq<bool>,
    n: nat,
)
    requires
        n <= records.len(),
        states.len() > n,
        stops.len() >= n,
        states[0].count == 0,
        states[0].rows.len() == 0,
        forall|i: int|
            0 <= i < n ==> #[trigger] intake_step(states[i], records[i], states[i + 1], stops[i]),
        forall|i: int| 0 <= i < n - 1 ==> !#[trigger] stops[i],
    ensures
        states[n as int].filter == states[0].filter,
        states[n as int].limit == states[0].limit,
        states[n as int].rows == picked(states[0].filter, records.take(n as int)),
        states[n as int].count == states[n as int].rows.len(),
        n == 0 || !stops[n - 1] ==> states[n as int].count == 0 || !is_enough(
            states[n as int].count,
            states[0].limit,
        ),
    decreases n,
{
    let f = states[0].filter;
    if n == 0 {
        assert(records.take(0) =~= Seq::empty());
        assert(states[0].rows =~= Seq::empty());
    } else {
        let m = (n - 1) as nat;
        lemma_intake(states, records, stops, m);
        assert(intake_step(states[n - 1], records[n - 1], states[n - 1 + 1], stops[n - 1]));
        let part = records.take(n as int);
        assert(part.drop_last() =~= records.take(m as int));
        assert(part.last() == records[n - 1]);
        if m > 0 {
            assert(!stops[m - 1]);
        }
    }
}

// ---------------------------------------------------------------------------
// Puzzles of rows
// ---------------------------------------------------------------------------

/// The rows whose FEN can be read.
pub open spec fn readable(rows: Seq<RowText>) -> Seq<RowText>
    decreases rows.len(),
{
    if rows.len() == 0 {
        Seq::empty()
    } else if read_fen(fields(rows.last().fen)) is Ok {
        readable(rows.drop_last()).push(rows.last())
    } else {
        readable(rows.drop_last())
    }
}

/// What is kept of a row whose FEN can be read.
pub open spec fn is_item_of(row: RowText, item: ItemModel) -> bool {
    row_item(row.id, read_fen(fields(row.fen))->Ok_0, row.moves, row.rating, row.themes, item)
}

/// The puzzles of rows, one for each whose FEN can be read, in their order.
pub open spec fn are_items_of(rows: Seq<RowText>, items: Seq<ItemModel>) -> bool {
    &&& items.len() == readable(rows).len()
    &&& forall|i: int| 0 <= i < items.len() ==> is_item_of(readable(rows)[i], #[trigger] items[i])
}

/// The puzzles of rows; rows whose FEN cannot be read are left out.
pub fn process_rows(rows: Vec<RawPuzzleRow>) -> (r: Vec<ParsedItem>)
    ensures
        are_items_of(row_texts(rows@), models(r@)),
{
    let ghost all = row_texts(rows@);
    let mut out: Vec<ParsedItem> = Vec::new();
    let ghost mut done: int = 0;
    assert(all.take(0) =~= Seq::empty());
    for row in it: rows
        invariant
            all == row_texts(it.seq()),
            done == it.index(),
            are_items_of(all.take(done), models(out@)),
    {
        let ghost before = models(out@);
        proof {
            assert(all[done] == row@);
            assert(all.take(done + 1).drop_last() =~= all.take(done));
            assert(all.take(done + 1).last() == row@);
        }
        let found = row.process();
        if let Some(item) = found {
            out.push(item);
            assert(models(out@) =~= before.push(item@));
            assert(is_item_of(row@, item@));
        }
        proof {
            assert forall|i: int| 0 <= i < models(out@).len() implies is_item_of(
                readable(all.take(done + 1))[i],
                #[trigger] models(out@)[i],
            ) by {
                if i < before.len() {
                    assert(is_item_of(readable(all.take(done))[i], before[i]));
                }
            }
            done = done + 1;
        }
    }
    assert(all.take(done) =~= all);
    out
}

/// Rows that are worked on in parts give the puzzles of all the rows, in their
/// order.
pub proof fn law_parts(
    a: Seq<RowText>,
    b: Seq<RowText>,
    of_a: Seq<ItemModel>,
    of_b: Seq<ItemModel>,
)
    requires
        are_items_of(a, of_a),
        are_items_of(b, of_b),
    ensures
        are_items_of(a + b, of_a + of_b),
{
    lemma_readable(a, b);
    let all = of_a + of_b;
    assert forall|i: int| 0 <= i < all.len() implies is_item_of(
        readable(a + b)[i],
        #[trigger] all[i],
    ) by {
        if i < of_a.len() {
            assert(is_item_of(readable(a)[i], of_a[i]));
        } else {
            assert(is_item_of(readable(b)[i - of_a.len()], of_b[i - of_a.len()]));
        }
    }
}

proof fn lemma_readable(a: Seq<RowText>, b: Seq<RowText>)
    ensures
        readable(a + b) == readable(a) + readable(b),
    decreases b.len(),
{
    if b.len() == 0 {
        assert(a + b =~= a);
        assert(readable(a) + readable(b) =~= readable(a));
    } else {
        lemma_readable(a, b.drop_last());
        assert((a + b).drop_last() =~= a + b.drop_last());
        assert((a + b).last() == b.last());
        assert(readable(a + b) =~= readable(a) + readable(b));
    }
}

// ---------------------------------------------------------------------------
// What a filter asks
// ---------------------------------------------------------------------------

/// Each bound of a filter counts by itself: a row with a rating, a popularity and a
/// number of plays is taken if and only if none of the bounds that are given leaves it
/// out. With a highest rating, every row that is taken has at most that.
pub proof fn law_every_bound_counts(
    f: RowFilter,
    record: Seq<Seq<char>>,
    rating: nat,
    popularity: int,
    plays: nat,
)
    requires
        record.len() >= 8,
        record[3] == decimal(rating),
        rating <= 65535,
        record[5] == int_text(popularity),
        -128 <= popularity <= 127,
        record[6] == decimal(plays),
        plays <= 0xFFFF_FFFF,
    ensures
        row_taken(f, record) <==> {
            &&& f.min_rating matches Some(min) ==> rating >= min
            &&& f.max_rating matches Some(max) ==> rating <= max
            &&& f.min_popularity matches Some(min) ==> popularity >= min
            &&& f.min_plays matches Some(min) ==> plays >= min
        },
{
    law_decimal(rating, 65535);
    law_whole(popularity, 128, 127);
    law_decimal(plays, 0xFFFF_FFFF);
}

/// A record with fewer than eight fields is never taken. A field that is no number
/// counts as 1500 for the rating, and as nothing for the popularity and the plays.
pub proof fn law_fields_that_are_no_numbers(f: RowFilter, record: Seq<Seq<char>>)
    ensures
        record.len() < 8 ==> !row_taken(f, record),
        row_taken(f, record) && number(record[3], 65535) is None ==> {
            &&& f.min_rating matches Some(min) ==> min <= 1500
            &&& f.max_rating matches Some(max) ==> 1500 <= max
            &&& csv_text(record).rating == 1500
        },
        row_taken(f, record) && whole(record[5], 128, 127) is None ==> (f.min_popularity matches
            Some(min) ==> min <= 0),
        row_taken(f, record) && number(record[6], 0xFFFF_FFFF) is None ==> (f.min_plays matches
            Some(min) ==> min == 0),
{
}

/// A filter without bounds takes every record of eight fields or more, and a bound that
/// is dropped leaves no row out that was taken.
pub proof fn law_fewer_bounds(f: RowFilter, g: RowFilter, record: Seq<Seq<char>>)
    requires
        g.min_rating is None || g.min_rating == f.min_rating,
        g.max_rating is None || g.max_rating == f.max_rating,
        g.min_popularity is None || g.min_popularity == f.min_popularity,
        g.min_plays is None || g.min_plays == f.min_plays,
    ensures
        row_taken(f, record) ==> row_taken(g, record),
        g.min_rating is None && g.max_rating is None && g.min_popularity is None
            && g.min_plays is None && record.len() >= 8 ==> row_taken(g, record),
{
}

/// A row has the identifier, the FEN and the moves of the first three fields, the
/// rating of the fourth and the themes of the eighth.
pub proof fn law_columns_of_a_record(record: Seq<Seq<char>>, rating: nat)
    requires
        record.len() >= 8,
        record[3] == decimal(rating),
        rating <= 65535,
    ensures
        csv_text(record) == (RowText {
            id: record[0],
            fen: record[1],
            moves: record[2],
            rating: rating as u16,
            themes: record[7],
        }),
{
    law_decimal(rating, 65535);
}

/// A row gives one puzzle where its FEN can be read, else none.
pub proof fn law_one_row(row: RowText, items: Seq<ItemModel>)
    requires
        are_items_of(seq![row], items),
    ensures
        match read_fen(fields(row.fen)) {
            Ok(m) => items.len() == 1 && items[0].id == row.id && items[0].rating == row.rating
                && items[0].state == m.state && items[0].halfmove == m.halfmove
                && items[0].fullmove == m.fullmove,
            Err(_) => items.len() == 0,
        },
{
    let rows = seq![row];
    assert(rows.drop_last() =~= Seq::empty());
    assert(readable(rows.drop_last()) =~= Seq::empty());
    assert(rows.last() == row);
    if items.len() > 0 {
        assert(is_item_of(readable(rows)[0], items[0]));
    }
}

/// A row that lists numbers of themes, counted from one, has those themes and no
/// others.
pub proof fn law_row_of_numbers(mask: u128, ids: Seq<u16>, b: int)
    requires
        ids.len() > 0,
        row_marks(mask, joined(id_texts(ids), seq![' '])),
        0 <= b < 128,
    ensures
        (mask >> (b as u128)) & 1 == 1 <==> exists|k: int|
            0 <= k < ids.len() && #[trigger] ids[k] == b + 1,
{
    let ws = id_texts(ids);
    assert forall|i: int| 0 <= i < ws.len() implies (#[trigger] ws[i]).len() > 0 && no_white(
        ws[i],
    ) by {
        law_decimal(ids[i] as nat, 65535);
        lemma_decimal_number(ids[i] as nat, 65535);
    }
    lemma_fields_joined(ws);
    law_decimal(ids[0] as nat, 65535);
    assert(ws[0] == decimal(ids[0] as nat));
    assert(is_digit(ws[0][0]));
    lemma_no_theme(ws[0]);
    assert(is_number_field(ws[0]));
    lemma_numbers_of(ids);
    assert(in_mask(mask, b) == lists_number(field_numbers(ws), b));
}

/// Numbers as texts.
pub open spec fn id_texts(ids: Seq<u16>) -> Seq<Seq<char>> {
    ids.map_values(|n: u16| decimal(n as nat))
}

proof fn lemma_numbers_of(ids: Seq<u16>)
    ensures
        field_numbers(id_texts(ids)) == ids,
    decreases ids.len(),
{
    let ws = id_texts(ids);
    if ids.len() == 0 {
        assert(field_numbers(ws) =~= ids);
    } else {
        lemma_numbers_of(ids.drop_last());
        assert(ws.drop_last() =~= id_texts(ids.drop_last()));
        law_decimal(ids.last() as nat, 65535);
        assert(field_numbers(ws) =~= ids);
    }
}

/// Rows up to a limit are the first of all rows: all of them without a limit or where
/// they are few enough, else as many as it says; but one under a limit of zero.
pub proof fn law_rows_up_to_a_limit(rows: Seq<RowText>, limit: usize, i: int)
    ensures
        within(rows, None) == rows,
        within(rows, Some(limit)).len() <= rows.len(),
        0 <= i < within(rows, Some(limit)).len() ==> within(rows, Some(limit))[i] == rows[i],
        rows.len() <= limit ==> within(rows, Some(limit)) == rows,
        0 < limit < rows.len() ==> within(rows, Some(limit)).len() == limit,
        limit == 0 && rows.len() > 0 ==> within(rows, Some(limit)).len() == 1,
{
}

/// Of the records those are kept, in their order, that the filter takes.
pub proof fn law_records_are_picked(
    f: RowFilter,
    records: Seq<Seq<Seq<char>>>,
    record: Seq<Seq<char>>,
)
    ensures
        picked(f, Seq::empty()) == Seq::<RowText>::empty(),
        row_taken(f, record) ==> picked(f, records.push(record)) == picked(f, records).push(
            csv_text(record),
        ),
        !row_taken(f, record) ==> picked(f, records.push(record)) == picked(f, records),
{
    assert(records.push(record).drop_last() =~= records);
    assert(records.push(record).last() == record);
}

/// A record that is offered adds its row where the filter takes it, and changes nothing
/// else; reading stops once there are as many rows as the limit says, never without one.
pub proof fn law_record_is_offered(
    was: IntakeModel,
    record: Seq<Seq<char>>,
    now: IntakeModel,
    stop: bool,
)
    requires
        intake_step(was, record, now, stop),
    ensures
        now.filter == was.filter,
        now.limit == was.limit,
        row_taken(was.filter, record) ==> now.rows == was.rows.push(csv_text(record)) && now.count
            == was.count + 1,
        !row_taken(was.filter, record) ==> now.rows == was.rows && now.count == was.count && !stop,
        was.limit is None ==> !stop,
        row_taken(was.filter, record) && was.limit is Some ==> (stop <==> was.count + 1
            >= was.limit->0),
{
}

/// Whether a field has a digit and is not the name of a theme.
pub open spec fn has_stray_digit(f: Seq<char>) -> bool {
    &&& exists|i: int| 0 <= i < f.len() && '0' <= #[trigger] f[i] <= '9'
    &&& theme_of(f) is None
}

/// A row has the themes whose numbers, counted from one, are among its fields where one
/// of these has a digit that no name of a theme explains; else those that its fields
/// name. Fields that are neither do not count.
pub proof fn law_themes_of_a_row(mask: u128, themes: Seq<char>, b: int)
    requires
        row_marks(mask, themes),
        0 <= b < 128,
    ensures
        ({
            let fs = fields(themes);
            let numbers = exists|i: int| 0 <= i < fs.len() && has_stray_digit(#[trigger] fs[i]);
            &&& numbers ==> ((mask >> (b as u128)) & 1 == 1 <==> exists|i: int|
                0 <= i < fs.len() && number(#[trigger] fs[i], 65535) == Some((b + 1) as nat))
            &&& !numbers ==> ((mask >> (b as u128)) & 1 == 1 <==> exists|i: int|
                0 <= i < fs.len() && theme_of(#[trigger] fs[i]) == Some(b as nat))
        }),
{
    let fs = fields(themes);
    assert(in_mask(mask, b) <==> (mask >> (b as u128)) & 1 == 1);
    assert forall|i: int| 0 <= i < fs.len() implies has_stray_digit(fs[i]) == is_number_field(
        #[trigger] fs[i],
    ) by {
        lemma_stray_digit(fs[i]);
    }
    if gives_numbers(fs) {
        let i = choose|i: int| 0 <= i < fs.len() && is_number_field(#[trigger] fs[i]);
        assert(has_stray_digit(fs[i]));
        lemma_numbers_in_fields(fs, b);
    }
}

proof fn lemma_stray_digit(f: Seq<char>)
    ensures
        has_stray_digit(f) == is_number_field(f),
{
    if digit_in(f) {
        let i = choose|i: int| 0 <= i < f.len() && crate::text::is_digit(#[trigger] f[i]);
        assert('0' <= f[i] <= '9');
    }
    if has_stray_digit(f) {
        let i = choose|i: int| 0 <= i < f.len() && '0' <= #[trigger] f[i] <= '9';
        assert(crate::text::is_digit(f[i]));
    }
}

proof fn lemma_numbers_in_fields(fs: Seq<Seq<char>>, b: int)
    requires
        0 <= b < 128,
    ensures
        crate::theme::lists_number(field_numbers(fs), b) <==> exists|i: int|
            0 <= i < fs.len() && number(#[trigger] fs[i], 65535) == Some((b + 1) as nat),
    decreases fs.len(),
{
    if fs.len() > 0 {
        let init = fs.drop_last();
        let was = field_numbers(init);
        let now = field_numbers(fs);
        lemma_numbers_in_fields(init, b);
        if crate::theme::lists_number(now, b) {
            let k = choose|k: int| 0 <= k < now.len() && #[trigger] now[k] == b + 1;
            if k < was.len() {
                assert(was[k] == b + 1);
                let i = choose|i: int|
                    0 <= i < init.len() && number(#[trigger] init[i], 65535) == Some(
                        (b + 1) as nat,
                    );
                assert(fs[i] == init[i]);
            } else {
                assert(number(fs[fs.len() - 1], 65535) == Some((b + 1) as nat));
            }
        }
        if exists|i: int|
            0 <= i < fs.len() && number(#[trigger] fs[i], 65535) == Some((b + 1) as nat) {
            let i = choose|i: int|
                0 <= i < fs.len() && number(#[trigger] fs[i], 65535) == Some((b + 1) as nat);
            if i < init.len() {
                assert(init[i] == fs[i]);
                let k = choose|k: int| 0 <= k < was.len() && #[trigger] was[k] == b + 1;
                assert(now[k] == was[k]);
            } else {
                assert(now[was.len() as int] == b + 1);
            }
        }
    }
}

/// A rating in a database column is kept where it fits in sixteen bits; any other loses
/// what is above them.
pub proof fn law_rating_in_a_column(v: i64)
    ensures
        0 <= low_bits(v) <= 65535,
        0 <= v <= 65535 ==> low_bits(v) == v,
        exists|k: int| v == low_bits(v) + #[trigger] (65536 * k),
{
    let k = v as int / 65536;
    assert(v == low_bits(v) + 65536 * k);
}

} // verus!
