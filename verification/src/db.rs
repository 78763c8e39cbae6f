//! The reader and query engine of databases with fixed records (format 2).
//!
//! The file is a header, the theme dictionary, the records and the move pool.

use vstd::prelude::*;

use crate::chance::pick;
use crate::id::id_text;
use crate::moves::{uci_strings, PackedMove};
use crate::puzzle::{puzzle_of, theme_strings, Puzzle, PuzzleModel, QueryCriteria};
use crate::record::{pool_moves, record_bytes, PuzzleRecord};
use crate::section::{
    inside, is_cut, masks_at, moves_at, parted, read_masks, read_moves, rising, start_of, DbError,
};
use crate::text::{chars_of, same_chars, trim, trimmed};
use crate::theme::{mask_all, mask_any, ThemeMask};
use crate::wire::{le, le_value, lemma_le_of_value, lemma_spans, put, slot, take};

verus! {

/// The format version of these databases.
pub const LPDB_VERSION: u32 = 2;

/// The first four bytes of every file.
pub const LPDB_MAGIC: [u8; 4] = [76, 80, 68, 66];

/// The first bytes of every database: `LPDB`.
pub open spec fn magic() -> Seq<u8> {
    seq![76u8, 80u8, 68u8, 66u8]
}

/// The header of a database with fixed records.
#[derive(Debug, Clone, Copy)]
pub struct DbHeader {
    pub magic: [u8; 4],
    pub version: u32,
    pub puzzle_count: u64,
    pub records_offset: u64,
    pub move_pool_count: u64,
    pub move_pool_offset: u64,
    pub theme_dict_offset: u64,
    pub theme_dict_count: u32,
    pub min_rating: u16,
    pub max_rating: u16,
    pub reserved: [u8; 8],
}

/// The 64 bytes of a header.
pub open spec fn header_bytes(h: DbHeader) -> Seq<u8> {
    h.magic@ + le(h.version as nat, 4) + le(h.puzzle_count as nat, 8) + le(
        h.records_offset as nat,
        8,
    ) + le(h.move_pool_count as nat, 8) + le(h.move_pool_offset as nat, 8) + le(
        h.theme_dict_offset as nat,
        8,
    ) + le(h.theme_dict_count as nat, 4) + le(h.min_rating as nat, 2) + le(h.max_rating as nat, 2)
        + h.reserved@
}

/// The number in the `n` bytes at a position.
pub open spec fn number_at(data: Seq<u8>, pos: int, n: int) -> nat {
    le_value(data.subrange(pos, pos + n))
}

/// The four bytes at a position.
pub fn take_four(data: &[u8], pos: usize) -> (r: [u8; 4])
    requires
        pos + 4 <= data.len(),
    ensures
        r@ == data@.subrange(pos as int, pos + 4),
{
    let r: [u8; 4] = [data[pos], data[pos + 1], data[pos + 2], data[pos + 3]];
    assert(r@ =~= data@.subrange(pos as int, pos + 4));
    r
}

/// Whether four bytes are the magic bytes.
pub fn is_magic(m: &[u8; 4]) -> (r: bool)
    ensures
        r == (m@ == magic()),
{
    proof {
        if m@[0] == 76 && m@[1] == 80 && m@[2] == 68 && m@[3] == 66 {
            assert(m@ =~= magic());
        }
    }
    m[0] == 76 && m[1] == 80 && m[2] == 68 && m[3] == 66
}

impl DbHeader {
    /// Appends the bytes of the header.
    pub fn write(&self, out: &mut Vec<u8>)
        ensures
            final(out)@ == old(out)@ + header_bytes(*self),
    {
        for i in 0..4usize
            invariant
                out@ == old(out)@ + self.magic@.take(i as int),
        {
            out.push(self.magic[i]);
            assert(out@ =~= old(out)@ + self.magic@.take(i + 1));
        }
        assert(self.magic@.take(4) =~= self.magic@);
        put(out, self.version as u128, 4);
        put(out, self.puzzle_count as u128, 8);
        put(out, self.records_offset as u128, 8);
        put(out, self.move_pool_count as u128, 8);
        put(out, self.move_pool_offset as u128, 8);
        put(out, self.theme_dict_offset as u128, 8);
        put(out, self.theme_dict_count as u128, 4);
        put(out, self.min_rating as u128, 2);
        put(out, self.max_rating as u128, 2);
        let ghost before = out@;
        for i in 0..8usize
            invariant
                out@ == before + self.reserved@.take(i as int),
        {
            out.push(self.reserved[i]);
            assert(out@ =~= before + self.reserved@.take(i + 1));
        }
        assert(self.reserved@.take(8) =~= self.reserved@);
        assert(out@ =~= old(out)@ + header_bytes(*self));
    }

    /// The header whose bytes are the first 64 of a file.
    pub fn read(data: &[u8]) -> (r: Self)
        requires
            data.len() >= 64,
        ensures
            header_bytes(r) == data@.take(64),
            r.magic@ == data@.take(4),
            r.version == number_at(data@, 4, 4),
            r.puzzle_count == number_at(data@, 8, 8),
            r.records_offset == number_at(data@, 16, 8),
            r.move_pool_count == number_at(data@, 24, 8),
            r.move_pool_offset == number_at(data@, 32, 8),
            r.theme_dict_offset == number_at(data@, 40, 8),
            r.theme_dict_count == number_at(data@, 48, 4),
            r.min_rating == number_at(data@, 52, 2),
            r.max_rating == number_at(data@, 54, 2),
    {
        proof {
            lemma_spans();
        }
        let mut reserved: [u8; 8] = [0u8; 8];
        for i in 0..8usize
            invariant
                data.len() >= 64,
                forall|j: int| 0 <= j < i ==> #[trigger] reserved@[j] == data@[56 + j],
        {
            reserved[i] = data[56 + i];
        }
        assert(reserved@ =~= data@.subrange(56, 64));
        let r = DbHeader {
            magic: take_four(data, 0),
            version: take(data, 4, 4) as u32,
            puzzle_count: take(data, 8, 8) as u64,
            records_offset: take(data, 16, 8) as u64,
            move_pool_count: take(data, 24, 8) as u64,
            move_pool_offset: take(data, 32, 8) as u64,
            theme_dict_offset: take(data, 40, 8) as u64,
            theme_dict_count: take(data, 48, 4) as u32,
            min_rating: take(data, 52, 2) as u16,
            max_rating: take(data, 54, 2) as u16,
            reserved,
        };
        proof {
            lemma_le_of_value(data@.subrange(4, 8));
            lemma_le_of_value(data@.subrange(8, 16));
            lemma_le_of_value(data@.subrange(16, 24));
            lemma_le_of_value(data@.subrange(24, 32));
            lemma_le_of_value(data@.subrange(32, 40));
            lemma_le_of_value(data@.subrange(40, 48));
            lemma_le_of_value(data@.subrange(48, 52));
            lemma_le_of_value(data@.subrange(52, 54));
            lemma_le_of_value(data@.subrange(54, 56));
            assert(r.magic@ =~= data@.take(4));
            assert(header_bytes(r) =~= data@.take(64));
        }
        r
    }
}

/// The first thing that is wrong with the bytes of a database, if any: the
/// checks are made in this order.
pub open spec fn fault(data: Seq<u8>) -> Option<DbError> {
    let size = data.len();
    if size < 64 {
        Some(DbError::TooSmall)
    } else if data.take(4) != magic() {
        Some(DbError::BadMagic)
    } else if number_at(data, 4, 4) != 2 {
        Some(DbError::UnsupportedVersion(number_at(data, 4, 4) as u32))
    } else if !inside(size, number_at(data, 40, 8), number_at(data, 48, 4), 16) {
        Some(DbError::ThemeDictionaryTooLong)
    } else if !inside(size, number_at(data, 16, 8), number_at(data, 8, 8), 40) {
        Some(DbError::RecordsTooLong)
    } else if !inside(size, number_at(data, 32, 8), number_at(data, 24, 8), 2) {
        Some(DbError::MovePoolTooLong)
    } else {
        None
    }
}

/// Whether records are those that stand from a position on.
pub open spec fn records_at(records: Seq<PuzzleRecord>, data: Seq<u8>, pos: int) -> bool {
    forall|i: int|
        0 <= i < records.len() ==> #[trigger] record_bytes(records[i]) == slot(data, pos, 40, i)
}

/// A database with fixed records.
pub struct PuzzleDatabase {
    header: DbHeader,
    records: Vec<PuzzleRecord>,
    move_pool: Vec<PackedMove>,
    theme_dict: Vec<ThemeMask>,
}

/// The ratings of records.
pub open spec fn ratings(records: Seq<PuzzleRecord>) -> Seq<nat> {
    records.map_values(|r: PuzzleRecord| r.rating_of())
}

/// The run `a..b` of the records of a rating range: where the records rise by
/// rating it is all that lie in the range.
pub open spec fn is_window(
    records: Seq<PuzzleRecord>,
    min_rating: nat,
    max_rating: nat,
    a: int,
    b: int,
) -> bool {
    &&& 0 <= a <= b <= records.len()
    &&& min_rating > max_rating ==> a == b
    &&& rising(ratings(records)) ==> forall|i: int|
        0 <= i < records.len() ==> ((a <= i < b) <==> min_rating <= (
        #[trigger] ratings(records)[i]) <= max_rating)
}

/// The run of the records that the ratings of a query leave.
pub open spec fn is_query_window(
    records: Seq<PuzzleRecord>,
    c: QueryCriteria,
    a: int,
    b: int,
) -> bool {
    match (c.min_rating, c.max_rating) {
        (None, None) => a == 0 && b == records.len(),
        (min, max) => is_window(
            records,
            match min {
                Some(m) => m as nat,
                None => 0,
            },
            match max {
                Some(m) => m as nat,
                None => 65535,
            },
            a,
            b,
        ),
    }
}

/// Whether a record has the required themes of a query, one of the wanted themes
/// and none of the excluded ones.
pub open spec fn record_matches(c: QueryCriteria, dict: Seq<ThemeMask>, r: PuzzleRecord) -> bool {
    let known = r.theme_of() < dict.len();
    let mask = dict[r.theme_of() as int].0;
    &&& match c.required_themes {
        Some(t) => known && mask_all(mask, t.0),
        None => true,
    }
    &&& match c.any_themes {
        Some(t) => known && mask_any(mask, t.0),
        None => true,
    }
    &&& match c.excluded_themes {
        Some(t) => !(known && mask_any(mask, t.0)),
        None => true,
    }
}

/// The records of a list that match a query.
pub open spec fn matching(c: QueryCriteria, dict: Seq<ThemeMask>, rs: Seq<PuzzleRecord>) -> Seq<
    PuzzleRecord,
>
    decreases rs.len(),
{
    if rs.len() == 0 {
        Seq::empty()
    } else if record_matches(c, dict, rs.last()) {
        matching(c, dict, rs.drop_last()).push(rs.last())
    } else {
        matching(c, dict, rs.drop_last())
    }
}

/// The first record from `i` on that has an identifier.
pub open spec fn first_with(records: Seq<PuzzleRecord>, id: Seq<char>, i: nat) -> Option<nat>
    decreases records.len() - i,
{
    if i >= records.len() {
        None
    } else if id_text(records[i as int].id_base62 as nat) == id {
        Some(i)
    } else {
        first_with(records, id, i + 1)
    }
}

/// The puzzle of a record.
pub open spec fn record_puzzle(
    r: PuzzleRecord,
    pool: Seq<PackedMove>,
    dict: Seq<ThemeMask>,
) -> PuzzleModel {
    puzzle_of(
        id_text(r.id_base62 as nat),
        r.position(),
        pool_moves(pool, r.offset_of(), r.count_of()),
        r.rating_of() as u16,
        r.theme_of(),
        dict,
    )
}

impl PuzzleDatabase {
    /// The header.
    pub closed spec fn head(&self) -> DbHeader {
        self.header
    }

    /// The records.
    pub closed spec fn list(&self) -> Seq<PuzzleRecord> {
        self.records@
    }

    /// The moves of all puzzles.
    pub closed spec fn pool(&self) -> Seq<PackedMove> {
        self.move_pool@
    }

    /// The theme dictionary.
    pub closed spec fn dict(&self) -> Seq<ThemeMask> {
        self.theme_dict@
    }

    /// Opens the bytes of a file.
    pub fn open(data: &[u8]) -> (r: Result<Self, DbError>)
        ensures
            match r {
                Ok(db) => {
                    &&& fault(data@) is None
                    &&& header_bytes(db.head()) == data@.take(64)
                    &&& db.dict() == masks_at(
                        data@,
                        number_at(data@, 40, 8) as int,
                        number_at(data@, 48, 4),
                    )
                    &&& db.list().len() == number_at(data@, 8, 8)
                    &&& records_at(db.list(), data@, number_at(data@, 16, 8) as int)
                    &&& db.pool() == moves_at(
                        data@,
                        number_at(data@, 32, 8) as int,
                        number_at(data@, 24, 8),
                    )
                },
                Err(e) => fault(data@) == Some(e),
            },
    {
        if data.len() < 64 {
            return Err(DbError::TooSmall);
        }
        let header = DbHeader::read(data);
        if !is_magic(&header.magic) {
            return Err(DbError::BadMagic);
        }
        if header.version != LPDB_VERSION {
            return Err(DbError::UnsupportedVersion(header.version));
        }
        let dict_start: usize = match start_of(
            data.len(),
            header.theme_dict_offset,
            header.theme_dict_count as u64,
            16,
        ) {
            Some(p) => p,
            None => {
                return Err(DbError::ThemeDictionaryTooLong);
            },
        };
        let records_start: usize = match start_of(
            data.len(),
            header.records_offset,
            header.puzzle_count,
            40,
        ) {
            Some(p) => p,
            None => {
                return Err(DbError::RecordsTooLong);
            },
        };
        let pool_start: usize = match start_of(
            data.len(),
            header.move_pool_offset,
            header.move_pool_count,
            2,
        ) {
            Some(p) => p,
            None => {
                return Err(DbError::MovePoolTooLong);
            },
        };
        let theme_dict = read_masks(data, dict_start, header.theme_dict_count as usize);
        let count: usize = header.puzzle_count as usize;
        let mut records: Vec<PuzzleRecord> = Vec::new();
        for i in 0..count
            invariant
                records_start + count * 40 <= data.len(),
                records@.len() == i,
                records_at(records@, data@, records_start as int),
        {
            let r = PuzzleRecord::read(data, records_start + i * 40);
            let ghost before = records@;
            records.push(r);
            assert forall|j: int| 0 <= j < records@.len() implies #[trigger] record_bytes(
                records@[j],
            ) == slot(data@, records_start as int, 40, j) by {
                if j < i {
                    assert(record_bytes(before[j]) == slot(data@, records_start as int, 40, j));
                }
            }
        }
        let move_pool = read_moves(data, pool_start, header.move_pool_count as usize);
        Ok(PuzzleDatabase { header, records, move_pool, theme_dict })
    }

    /// The header.
    pub fn header(&self) -> (r: &DbHeader)
        ensures
            *r == self.head(),
    {
        &self.header
    }

    /// The number of puzzles.
    pub fn len(&self) -> (r: usize)
        ensures
            r == self.list().len(),
    {
        self.records.len()
    }

    /// Whether there are no puzzles.
    pub fn is_empty(&self) -> (r: bool)
        ensures
            r == (self.list().len() == 0),
    {
        self.records.len() == 0
    }

    /// The records.
    pub fn records(&self) -> (r: &[PuzzleRecord])
        ensures
            r@ == self.list(),
    {
        self.records.as_slice()
    }

    /// The moves of all puzzles.
    pub fn move_pool(&self) -> (r: &[PackedMove])
        ensures
            r@ == self.pool(),
    {
        self.move_pool.as_slice()
    }

    /// The theme dictionary.
    pub fn theme_dict(&self) -> (r: &[ThemeMask])
        ensures
            r@ == self.dict(),
    {
        self.theme_dict.as_slice()
    }

    /// The puzzle of a record.
    pub fn decode(&self, record: &PuzzleRecord) -> (r: Puzzle)
        ensures
            r@ == record_puzzle(*record, self.pool(), self.dict()),
    {
        let moves = uci_strings(record.get_moves(self.move_pool.as_slice()));
        let themes = theme_strings(record.theme_id(), self.theme_dict.as_slice());
        let p = Puzzle {
            id: record.id_string(),
            fen: record.fen_string(),
            moves,
            rating: record.rating(),
            themes,
        };
        assert(p@ =~= record_puzzle(*record, self.pool(), self.dict()));
        p
    }

    /// The puzzle of an index.
    pub fn get(&self, index: usize) -> (r: Option<Puzzle>)
        ensures
            match r {
                Some(p) => index < self.list().len() && p@ == record_puzzle(
                    self.list()[index as int],
                    self.pool(),
                    self.dict(),
                ),
                None => index >= self.list().len(),
            },
    {
        if index < self.records.len() {
            Some(self.decode(&self.records[index]))
        } else {
            None
        }
    }

    /// The first puzzle with an identifier, such as `00008`; spaces around it do
    /// not count.
    pub fn find_by_id(&self, id_str: &str) -> (r: Option<Puzzle>)
        ensures
            match first_with(self.list(), trimmed(id_str@), 0) {
                Some(i) => r matches Some(p) && p@ == record_puzzle(
                    self.list()[i as int],
                    self.pool(),
                    self.dict(),
                ) && p@.id == trimmed(id_str@),
                None => r is None,
            },
            r is None <==> forall|i: int|
                0 <= i < self.list().len() ==> id_text(
                    (#[trigger] self.list()[i]).id_base62 as nat,
                ) != trimmed(id_str@),
    {
        let chars = chars_of(id_str);
        let bare = trim(chars.as_slice());
        let ghost id = trimmed(id_str@);
        proof {
            lemma_first_with(self.list(), id, 0);
        }
        let mut i: usize = 0;
        while i < self.records.len()
            invariant
                i <= self.records@.len(),
                bare@ == id,
                id == trimmed(id_str@),
                first_with(self.list(), id, 0) == first_with(self.list(), id, i as nat),
            decreases self.records@.len() - i,
        {
            let found_str = self.records[i].id_string();
            let found = chars_of(found_str.as_str());
            if same_chars(found.as_slice(), bare.as_slice()) {
                assert(id_text(self.list()[i as int].id_base62 as nat) == id);
                return self.get(i);
            }
            i = i + 1;
        }
        None
    }

    /// Where the records with a rating below a bound end.
    fn cut(&self, bound: u32) -> (r: usize)
        ensures
            is_cut(ratings(self.list()), bound as nat, r as int),
    {
        let ghost vals = ratings(self.list());
        let mut lo: usize = 0;
        let mut hi: usize = self.records.len();
        while lo < hi
            invariant
                vals == ratings(self.list()),
                lo <= hi <= self.records@.len(),
                parted(vals, bound as nat) ==> forall|i: int|
                    0 <= i < lo ==> #[trigger] vals[i] < bound,
                parted(vals, bound as nat) ==> forall|i: int|
                    hi <= i < vals.len() ==> #[trigger] vals[i] >= bound,
            decreases hi - lo,
        {
            let mid: usize = lo + (hi - lo) / 2;
            assert(vals[mid as int] == self.records@[mid as int].rating_of());
            if (self.records[mid].rating() as u32) < bound {
                lo = mid + 1;
            } else {
                hi = mid;
            }
        }
        lo
    }

    /// The records with a rating in a range, its ends included. The records are
    /// taken to rise by rating.
    pub fn rating_range(&self, min_rating: u16, max_rating: u16) -> (r: &[PuzzleRecord])
        ensures
            exists|a: int, b: int|
                #[trigger] is_window(self.list(), min_rating as nat, max_rating as nat, a, b) && r@
                    == self.list().subrange(a, b),
    {
        let all = self.records.as_slice();
        let ghost list = self.list();
        if self.records.len() == 0 || min_rating > max_rating {
            let none = vstd::slice::slice_subrange(all, 0, 0);
            assert(is_window(list, min_rating as nat, max_rating as nat, 0, 0));
            return none;
        }
        let start: usize = self.cut(min_rating as u32);
        let end: usize = self.cut(max_rating as u32 + 1);
        proof {
            if rising(ratings(list)) {
                assert(parted(ratings(list), min_rating as nat));
                assert(parted(ratings(list), (max_rating + 1) as nat));
            }
        }
        if start < self.records.len() && start <= end {
            let run = vstd::slice::slice_subrange(all, start, end);
            assert(is_window(list, min_rating as nat, max_rating as nat, start as int, end as int));
            run
        } else {
            let none = vstd::slice::slice_subrange(all, 0, 0);
            assert(is_window(list, min_rating as nat, max_rating as nat, 0, 0));
            none
        }
    }

    /// The records that match a query.
    pub fn filter(&self, criteria: &QueryCriteria) -> (r: Vec<PuzzleRecord>)
        ensures
            exists|a: int, b: int|
                #[trigger] is_query_window(self.list(), *criteria, a, b) && r@ == matching(
                    *criteria,
                    self.dict(),
                    self.list().subrange(a, b),
                ),
    {
        let ghost list = self.list();
        let base: &[PuzzleRecord] = match (criteria.min_rating, criteria.max_rating) {
            (Some(min), Some(max)) => self.rating_range(min, max),
            (Some(min), None) => self.rating_range(min, 65535),
            (None, Some(max)) => self.rating_range(0, max),
            (None, None) => {
                assert(list.subrange(0, list.len() as int) =~= list);
                assert(is_query_window(list, *criteria, 0, list.len() as int));
                self.records.as_slice()
            },
        };
        let ghost (a, b) = choose|a: int, b: int|
            #[trigger] is_query_window(list, *criteria, a, b) && base@ == list.subrange(a, b);
        proof {
            if !(criteria.min_rating is None && criteria.max_rating is None) {
                let min = match criteria.min_rating {
                    Some(m) => m as nat,
                    None => 0,
                };
                let max = match criteria.max_rating {
                    Some(m) => m as nat,
                    None => 65535,
                };
                let (x, y) = choose|x: int, y: int|
                    #[trigger] is_window(list, min, max, x, y) && base@ == list.subrange(x, y);
                assert(is_query_window(list, *criteria, x, y));
            }
        }
        assert(is_query_window(list, *criteria, a, b) && base@ == list.subrange(a, b));
        let mut out: Vec<PuzzleRecord> = Vec::new();
        for i in 0..base.len()
            invariant
                out@ == matching(*criteria, self.dict(), base@.take(i as int)),
        {
            assert(base@.take(i + 1).drop_last() =~= base@.take(i as int));
            let r = base[i];
            if self.takes(criteria, &r) {
                out.push(r);
            }
        }
        assert(base@.take(base@.len() as int) =~= base@);
        out
    }

    /// Whether a record has the themes of a query.
    fn takes(&self, criteria: &QueryCriteria, record: &PuzzleRecord) -> (r: bool)
        ensures
            r == record_matches(*criteria, self.dict(), *record),
    {
        if let Some(req) = criteria.required_themes {
            if !record.has_themes_all(req, self.theme_dict.as_slice()) {
                return false;
            }
        }
        if let Some(any) = criteria.any_themes {
            if !record.has_themes_any(any, self.theme_dict.as_slice()) {
                return false;
            }
        }
        if let Some(excl) = criteria.excluded_themes {
            if record.has_themes_any(excl, self.theme_dict.as_slice()) {
                return false;
            }
        }
        true
    }

    /// A random one of the puzzles that match a query; none only where none
    /// matches.
    pub fn random_puzzle(
        &self,
        criteria: &QueryCriteria,
        rng: &mut rand::rngs::ThreadRng,
    ) -> (r: Option<Puzzle>)
        ensures
            exists|a: int, b: int|
                {
                    let found = matching(*criteria, self.dict(), self.list().subrange(a, b));
                    &&& #[trigger] is_query_window(self.list(), *criteria, a, b)
                    &&& match r {
                        Some(p) => exists|k: int|
                            0 <= k < found.len() && p@ == record_puzzle(
                                #[trigger] found[k],
                                self.pool(),
                                self.dict(),
                            ),
                        None => found.len() == 0,
                    }
                },
    {
        let found = self.filter(criteria);
        let ghost (a, b) = choose|a: int, b: int|
            #[trigger] is_query_window(self.list(), *criteria, a, b) && found@ == matching(
                *criteria,
                self.dict(),
                self.list().subrange(a, b),
            );
        if found.len() == 0 {
            assert(is_query_window(self.list(), *criteria, a, b));
            return None;
        }
        let k: usize = pick(rng, found.len());
        let p = self.decode(&found[k]);
        assert(is_query_window(self.list(), *criteria, a, b));
        assert(p@ == record_puzzle(found@[k as int], self.pool(), self.dict()));
        Some(p)
    }
}

// ---------------------------------------------------------------------------
// Laws
// ---------------------------------------------------------------------------

/// Whether a record lies in the rating range of a query and has its themes.
pub open spec fn is_asked(c: QueryCriteria, dict: Seq<ThemeMask>, r: PuzzleRecord) -> bool {
    &&& c.min_rating matches Some(m) ==> m <= r.rating_of()
    &&& c.max_rating matches Some(m) ==> r.rating_of() <= m
    &&& record_matches(c, dict, r)
}

/// The records of a list that a query asks for.
pub open spec fn asked(c: QueryCriteria, dict: Seq<ThemeMask>, rs: Seq<PuzzleRecord>) -> Seq<
    PuzzleRecord,
>
    decreases rs.len(),
{
    if rs.len() == 0 {
        Seq::empty()
    } else if is_asked(c, dict, rs.last()) {
        asked(c, dict, rs.drop_last()).push(rs.last())
    } else {
        asked(c, dict, rs.drop_last())
    }
}

/// Where the records rise by rating, a query finds all the records that it asks for
/// and no others, in their order.
pub proof fn law_filter_is_exact(
    records: Seq<PuzzleRecord>,
    dict: Seq<ThemeMask>,
    c: QueryCriteria,
    a: int,
    b: int,
)
    requires
        rising(ratings(records)),
        is_query_window(records, c, a, b),
    ensures
        matching(c, dict, records.subrange(a, b)) == asked(c, dict, records),
{
    lemma_asked(records, dict, c, a, b, records.len());
    assert(records.take(records.len() as int) =~= records);
}

proof fn lemma_asked(
    records: Seq<PuzzleRecord>,
    dict: Seq<ThemeMask>,
    c: QueryCriteria,
    a: int,
    b: int,
    n: nat,
)
    requires
        rising(ratings(records)),
        is_query_window(records, c, a, b),
        n <= records.len(),
    ensures
        asked(c, dict, records.take(n as int)) == matching(
            c,
            dict,
            if n <= a {
                Seq::empty()
            } else if n <= b {
                records.subrange(a, n as int)
            } else {
                records.subrange(a, b)
            },
        ),
    decreases n,
{
    if n > 0 {
        lemma_asked(records, dict, c, a, b, (n - 1) as nat);
        let part = records.take(n as int);
        let r = records[n - 1];
        assert(part.drop_last() =~= records.take(n - 1));
        assert(part.last() == r);
        assert(ratings(records)[n - 1] == r.rating_of());
        assert(r.rating_of() <= 65535);
        if a < n <= b {
            let run = records.subrange(a, n as int);
            assert(run.drop_last() =~= records.subrange(a, n - 1));
            assert(run.last() == r);
            if n - 1 == a {
                assert(run.drop_last() =~= Seq::empty());
            }
        } else if n > b && n - 1 <= b {
            if b <= a {
                assert(records.subrange(a, b) =~= Seq::empty());
            }
        }
    }
}

/// A lookup by an identifier finds the first puzzle with that identifier, and fails
/// only where there is none.
pub proof fn law_found_by_id(
    records: Seq<PuzzleRecord>,
    pool: Seq<PackedMove>,
    dict: Seq<ThemeMask>,
    id: Seq<char>,
)
    ensures
        match first_with(records, id, 0) {
            Some(i) => i < records.len() && record_puzzle(records[i as int], pool, dict).id == id
                && forall|k: int|
                0 <= k < i ==> record_puzzle(#[trigger] records[k], pool, dict).id != id,
            None => forall|i: int|
                0 <= i < records.len() ==> record_puzzle(#[trigger] records[i], pool, dict).id != id,
        },
{
    lemma_first_with(records, id, 0);
}

proof fn lemma_first_with(records: Seq<PuzzleRecord>, id: Seq<char>, i: nat)
    ensures
        match first_with(records, id, i) {
            Some(k) => i <= k < records.len() && id_text(records[k as int].id_base62 as nat) == id
                && forall|j: int|
                i <= j < k ==> id_text((#[trigger] records[j]).id_base62 as nat) != id,
            None => forall|k: int|
                i <= k < records.len() ==> id_text((#[trigger] records[k]).id_base62 as nat) != id,
        },
    decreases records.len() - i,
{
    if i < records.len() {
        lemma_first_with(records, id, i + 1);
    }
}

} // verus!
