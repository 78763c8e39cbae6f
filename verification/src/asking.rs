//! What the answers of queries are, told from the ratings and the themes of puzzles.

use vstd::prelude::*;

use crate::block_file::{is_block_range, BlockEntry};
use crate::db::{asked, is_asked, is_query_window, is_window, law_filter_is_exact, matching, ratings};
use crate::puzzle::{themes_match, PuzzleModel, QueryCriteria};
use crate::query::{
    at_most, block_hits, hit, hit_places, hits, index_is_true, is_answer, is_hit, is_random_answer,
    is_somewhere, law_answer_is_sound, law_random_is_sound, law_range_is_complete,
    lemma_hit_places, query_of, Query, QueryRow,
};
use crate::record::PuzzleRecord;
use crate::section::rising;
use crate::theme::{
    in_mask, law_names_of_a_mask, lemma_none, mask_all, mask_any, mask_names, names_upto,
    theme_name, ThemeMask,
};

verus! {

/// Whether a mask has a theme.
pub open spec fn has_theme(mask: u128, b: int) -> bool {
    0 <= b < 128 && (mask >> (b as u128)) & 1 == 1
}

/// Whether a mask has every theme that is required, one of those of which one is
/// wanted, and none that is excluded.
pub open spec fn themes_are_wanted(c: QueryCriteria, mask: u128) -> bool {
    &&& c.required_themes matches Some(t) ==> forall|b: int| #[trigger]
        has_theme(t.0, b) ==> has_theme(mask, b)
    &&& c.any_themes matches Some(t) ==> exists|b: int| #[trigger]
        has_theme(t.0, b) && has_theme(mask, b)
    &&& c.excluded_themes matches Some(t) ==> forall|b: int| #[trigger]
        has_theme(t.0, b) ==> !has_theme(mask, b)
}

/// Whether a rating is asked for: each bound that is given counts by itself.
pub open spec fn rating_is_wanted(c: QueryCriteria, rating: u16) -> bool {
    &&& c.min_rating matches Some(min) ==> min <= rating
    &&& c.max_rating matches Some(max) ==> rating <= max
}

/// Whether a puzzle of a database is asked for. The ratings of the database lie
/// between `low` and `high`.
pub open spec fn is_wanted(
    c: QueryCriteria,
    low: u16,
    high: u16,
    dict: Seq<ThemeMask>,
    row: QueryRow,
) -> bool {
    &&& rating_is_wanted(c, row.rating)
    &&& c.min_rating is None ==> low <= row.rating
    &&& c.max_rating is None ==> row.rating <= high
    &&& themes_are_wanted(
        c,
        if row.theme_id < dict.len() {
            dict[row.theme_id as int].0
        } else {
            0
        },
    )
}

/// A query takes the puzzles that are asked for: those in the rating range that have
/// every required theme, one of the wanted ones and none of the excluded ones.
pub proof fn law_query_takes_what_is_wanted(
    c: QueryCriteria,
    low: u16,
    high: u16,
    dict: Seq<ThemeMask>,
    row: QueryRow,
)
    ensures
        hit(query_of(c, low, high, dict), row) == is_wanted(c, low, high, dict, row),
{
    let mask = if row.theme_id < dict.len() {
        dict[row.theme_id as int].0
    } else {
        0
    };
    lemma_themes_wanted(c, mask);
}

/// Masks match criteria theme by theme.
pub proof fn lemma_themes_wanted(c: QueryCriteria, mask: u128)
    ensures
        themes_match(c, mask) == themes_are_wanted(c, mask),
{
    if let Some(t) = c.required_themes {
        lemma_mask_bits(mask, t.0);
    }
    if let Some(t) = c.any_themes {
        lemma_mask_bits(mask, t.0);
    }
    if let Some(t) = c.excluded_themes {
        lemma_mask_bits(mask, t.0);
    }
}

/// A mask holds all themes of another if it has each of them, and some if it has one.
pub proof fn lemma_mask_bits(mask: u128, other: u128)
    ensures
        mask_all(mask, other) == (forall|b: int| #[trigger]
            has_theme(other, b) ==> has_theme(mask, b)),
        mask_any(mask, other) == (exists|b: int| #[trigger]
            has_theme(other, b) && has_theme(mask, b)),
{
    assert forall|b: int| 0 <= b < 128 implies #[trigger] in_mask(other, b) == has_theme(other, b)
        && in_mask(mask, b) == has_theme(mask, b) by {}
    assert forall|b: int| #[trigger] has_theme(other, b) implies in_mask(other, b) by {}
    if mask_any(mask, other) {
        let b = choose|b: int|
            0 <= b < 128 && #[trigger] in_mask(mask, b) && in_mask(other, b);
        assert(has_theme(other, b) && has_theme(mask, b));
    }
    if exists|b: int| #[trigger] has_theme(other, b) && has_theme(mask, b) {
        let b = choose|b: int| #[trigger] has_theme(other, b) && has_theme(mask, b);
        assert(in_mask(mask, b) && in_mask(other, b));
    }
    if forall|b: int| #[trigger] has_theme(other, b) ==> has_theme(mask, b) {
        assert forall|b: int| 0 <= b < 128 && #[trigger] in_mask(other, b) implies in_mask(
            mask,
            b,
        ) by {
            assert(has_theme(other, b));
        }
    }
}

// ---------------------------------------------------------------------------
// Which puzzles an answer has
// ---------------------------------------------------------------------------

/// Whether a place, a block and a row of it, comes before another.
pub open spec fn comes_before(a: (int, int), b: (int, int)) -> bool {
    a.0 < b.0 || (a.0 == b.0 && a.1 < b.1)
}

/// Whether the puzzle at a place is asked for.
pub open spec fn wanted_at(
    c: QueryCriteria,
    low: u16,
    high: u16,
    dict: Seq<ThemeMask>,
    blocks: Seq<Option<Seq<QueryRow>>>,
    place: (int, int),
) -> bool {
    &&& 0 <= place.0 < blocks.len()
    &&& blocks[place.0] matches Some(rows)
    &&& 0 <= place.1 < rows.len()
    &&& is_wanted(c, low, high, dict, rows[place.1])
}

/// Whether puzzles stand at places of blocks, in the order of the file.
pub open spec fn stand_in_order(
    blocks: Seq<Option<Seq<QueryRow>>>,
    places: Seq<(int, int)>,
    found: Seq<PuzzleModel>,
) -> bool {
    &&& places.len() == found.len()
    &&& forall|j: int|
        0 <= j < places.len() ==> found[j] == blocks[(#[trigger] places[j]).0]->0[places[j].1].puzzle
    &&& forall|i: int, j: int|
        0 <= i < j < places.len() ==> comes_before(#[trigger] places[i], #[trigger] places[j])
}

/// An answer has the puzzles that are asked for, the first of them in the order of the
/// file: none that is not asked for, none twice, no more than the limit, and where one
/// that is asked for is missing, the limit was reached before it.
pub proof fn law_answer_is_what_was_asked(
    c: QueryCriteria,
    low: u16,
    high: u16,
    dict: Seq<ThemeMask>,
    entries: Seq<BlockEntry>,
    blocks: Seq<Option<Seq<QueryRow>>>,
    limit: nat,
    found: Seq<PuzzleModel>,
)
    requires
        index_is_true(entries, blocks),
        is_answer(query_of(c, low, high, dict), entries, blocks, limit, found),
    ensures
        found.len() <= limit,
        exists|places: Seq<(int, int)>|
            {
                &&& #[trigger] stand_in_order(blocks, places, found)
                &&& forall|j: int|
                    0 <= j < places.len() ==> wanted_at(
                        c,
                        low,
                        high,
                        dict,
                        blocks,
                        #[trigger] places[j],
                    )
                &&& forall|place: (int, int)| #[trigger]
                    wanted_at(c, low, high, dict, blocks, place) ==> places.contains(place) || (
                    found.len() == limit && forall|j: int|
                        0 <= j < places.len() ==> comes_before(#[trigger] places[j], place))
            },
{
    let q = query_of(c, low, high, dict);
    if q.min > q.max {
        let places = Seq::<(int, int)>::empty();
        assert(stand_in_order(blocks, places, found));
        assert forall|place: (int, int)| !#[trigger] wanted_at(
            c,
            low,
            high,
            dict,
            blocks,
            place,
        ) by {}
    } else {
        let (start, end) = choose|start: int, end: int|
            #[trigger] is_block_range(entries, q.min, q.max, start, end) && found == at_most(
                block_hits(q, blocks, start, end),
                limit,
            );
        let all = block_hits(q, blocks, start, end);
        let every = block_places(q, blocks, start, end);
        lemma_block_places(q, blocks, start, end);
        let places = every.take(found.len() as int);
        assert forall|j: int| 0 <= j < places.len() implies found[j] == blocks[(
        #[trigger] places[j]).0]->0[places[j].1].puzzle by {
            assert(places[j] == every[j]);
            assert(found[j] == all[j]);
        }
        assert forall|i: int, j: int| 0 <= i < j < places.len() implies comes_before(
            #[trigger] places[i],
            #[trigger] places[j],
        ) by {
            assert(comes_before(every[i], every[j]));
        }
        assert(stand_in_order(blocks, places, found));
        assert forall|j: int| 0 <= j < places.len() implies wanted_at(
            c,
            low,
            high,
            dict,
            blocks,
            #[trigger] places[j],
        ) by {
            let place = every[j];
            assert(is_hit(q, blocks, place.0, place.1, all[j]));
            law_query_takes_what_is_wanted(c, low, high, dict, blocks[place.0]->0[place.1]);
        }
        assert forall|place: (int, int)| #[trigger]
            wanted_at(c, low, high, dict, blocks, place) implies places.contains(place) || (
        found.len() == limit && forall|j: int|
            0 <= j < places.len() ==> comes_before(#[trigger] places[j], place)) by {
            let row = blocks[place.0]->0[place.1];
            law_query_takes_what_is_wanted(c, low, high, dict, row);
            assert(is_hit(q, blocks, place.0, place.1, row.puzzle));
            law_range_is_complete(
                q,
                entries,
                blocks,
                start,
                end,
                place.0,
                place.1,
                row.puzzle,
            );
            lemma_every_place(q, blocks, start, end, place);
            let k = choose|k: int| 0 <= k < every.len() && every[k] == place;
            if k < places.len() {
                assert(places[k] == place);
            } else {
                assert forall|j: int| 0 <= j < places.len() implies comes_before(
                    #[trigger] places[j],
                    place,
                ) by {
                    assert(comes_before(every[j], every[k]));
                }
            }
        }
    }
}

/// The places of the puzzles that a query takes from the blocks `start..end`.
spec fn block_places(
    q: Query,
    blocks: Seq<Option<Seq<QueryRow>>>,
    start: int,
    end: int,
) -> Seq<(int, int)>
    decreases end - start,
{
    if end <= start {
        Seq::empty()
    } else {
        block_places(q, blocks, start, end - 1) + (match blocks[end - 1] {
            Some(rows) => hit_places(q, rows).map_values(|k: int| (end - 1, k)),
            None => Seq::empty(),
        })
    }
}

proof fn lemma_hits_at(q: Query, rows: Seq<QueryRow>)
    ensures
        hits(q, rows).len() == hit_places(q, rows).len(),
        forall|j: int|
            0 <= j < hits(q, rows).len() ==> {
                let k = #[trigger] hit_places(q, rows)[j];
                0 <= k < rows.len() && hit(q, rows[k]) && rows[k].puzzle == hits(q, rows)[j]
            },
        forall|i: int, j: int|
            0 <= i < j < hit_places(q, rows).len() ==> #[trigger] hit_places(q, rows)[i]
                < #[trigger] hit_places(q, rows)[j],
        forall|k: int|
            0 <= k < rows.len() && #[trigger] hit(q, rows[k]) ==> hit_places(q, rows).contains(k),
    decreases rows.len(),
{
    lemma_hit_places(q, rows);
    if rows.len() > 0 {
        let init = rows.drop_last();
        lemma_hits_at(q, init);
        let places = hit_places(q, rows);
        let before = hit_places(q, init);
        assert forall|j: int| 0 <= j < places.len() implies {
            let k = #[trigger] places[j];
            0 <= k < rows.len() && hit(q, rows[k]) && rows[k].puzzle == hits(q, rows)[j]
        } by {
            if j < before.len() {
                assert(before[j] == places[j]);
            }
        }
        assert forall|i: int, j: int| 0 <= i < j < places.len() implies #[trigger] places[i]
            < #[trigger] places[j] by {
            assert(places[i] == before[i]);
            if j < before.len() {
                assert(places[j] == before[j]);
            }
        }
    }
}

proof fn lemma_block_places(
    q: Query,
    blocks: Seq<Option<Seq<QueryRow>>>,
    start: int,
    end: int,
)
    requires
        0 <= start,
        end <= blocks.len(),
    ensures
        ({
            let places = block_places(q, blocks, start, end);
            let found = block_hits(q, blocks, start, end);
            &&& places.len() == found.len()
            &&& forall|j: int|
                0 <= j < places.len() ==> start <= (#[trigger] places[j]).0 < end && is_hit(
                    q,
                    blocks,
                    places[j].0,
                    places[j].1,
                    found[j],
                )
            &&& forall|i: int, j: int|
                0 <= i < j < places.len() ==> comes_before(
                    #[trigger] places[i],
                    #[trigger] places[j],
                )
        }),
    decreases end - start,
{
    if end > start {
        lemma_block_places(q, blocks, start, end - 1);
        let before = block_places(q, blocks, start, end - 1);
        let hits_before = block_hits(q, blocks, start, end - 1);
        let places = block_places(q, blocks, start, end);
        let found = block_hits(q, blocks, start, end);
        if let Some(rows) = blocks[end - 1] {
            lemma_hits_at(q, rows);
            let own = hit_places(q, rows);
            assert forall|j: int| 0 <= j < places.len() implies start <= (#[trigger] places[j]).0
                < end && is_hit(q, blocks, places[j].0, places[j].1, found[j]) by {
                if j < before.len() {
                    assert(places[j] == before[j] && found[j] == hits_before[j]);
                } else {
                    let k = own[j - before.len()];
                    assert(places[j] == (end - 1, k));
                    assert(found[j] == hits(q, rows)[j - before.len()]);
                }
            }
            assert forall|i: int, j: int| 0 <= i < j < places.len() implies comes_before(
                #[trigger] places[i],
                #[trigger] places[j],
            ) by {
                if j < before.len() {
                    assert(comes_before(before[i], before[j]));
                } else if i < before.len() {
                    assert(places[i] == before[i]);
                    assert(places[j] == (end - 1, own[j - before.len()]));
                } else {
                    assert(places[i] == (end - 1, own[i - before.len()]));
                    assert(places[j] == (end - 1, own[j - before.len()]));
                    assert(own[i - before.len()] < own[j - before.len()]);
                }
            }
        } else {
            assert(places =~= before);
            assert(found =~= hits_before);
        }
    }
}

proof fn lemma_every_place(
    q: Query,
    blocks: Seq<Option<Seq<QueryRow>>>,
    start: int,
    end: int,
    place: (int, int),
)
    requires
        0 <= start <= place.0 < end <= blocks.len(),
        blocks[place.0] is Some,
        0 <= place.1 < blocks[place.0]->0.len(),
        hit(q, blocks[place.0]->0[place.1]),
    ensures
        block_places(q, blocks, start, end).contains(place),
    decreases end - start,
{
    let before = block_places(q, blocks, start, end - 1);
    let places = block_places(q, blocks, start, end);
    if place.0 < end - 1 {
        lemma_every_place(q, blocks, start, end - 1, place);
        let k = choose|k: int| 0 <= k < before.len() && before[k] == place;
        assert(places[k] == place);
    } else {
        let rows = blocks[end - 1]->0;
        lemma_hits_at(q, rows);
        let own = hit_places(q, rows);
        assert(hit(q, rows[place.1]));
        let j = choose|j: int| 0 <= j < own.len() && own[j] == place.1;
        assert(places[before.len() + j] == place);
    }
}

/// A random puzzle is one that is asked for.
pub proof fn law_random_puzzle_was_asked_for(
    c: QueryCriteria,
    low: u16,
    high: u16,
    dict: Seq<ThemeMask>,
    entries: Seq<BlockEntry>,
    blocks: Seq<Option<Seq<QueryRow>>>,
    tries: nat,
    found: Option<PuzzleModel>,
)
    requires
        is_random_answer(query_of(c, low, high, dict), entries, blocks, tries, found),
    ensures
        found matches Some(p) ==> exists|place: (int, int)|
            {
                &&& #[trigger] wanted_at(c, low, high, dict, blocks, place)
                &&& blocks[place.0]->0[place.1].puzzle == p
            },
        (forall|place: (int, int)| !#[trigger] wanted_at(c, low, high, dict, blocks, place))
            ==> found is None,
{
    let q = query_of(c, low, high, dict);
    law_random_is_sound(q, entries, blocks, tries, found);
    if let Some(p) = found {
        let (i, k) = choose|i: int, k: int| #[trigger] is_hit(q, blocks, i, k, p);
        law_query_takes_what_is_wanted(c, low, high, dict, blocks[i]->0[k]);
        assert(wanted_at(c, low, high, dict, blocks, (i, k)));
    }
}

// ---------------------------------------------------------------------------
// Answers by what the puzzles say
// ---------------------------------------------------------------------------

/// Whether a mask has no themes but those that have names.
pub open spec fn all_named(mask: u128) -> bool {
    forall|b: int| #[trigger] has_theme(mask, b) ==> b < 73
}

/// Whether a puzzle is asked for by its own rating and the names of its themes: it has
/// each required theme, one of the wanted ones and none of the excluded ones.
pub open spec fn puzzle_is_wanted(c: QueryCriteria, p: PuzzleModel) -> bool {
    &&& rating_is_wanted(c, p.rating)
    &&& c.required_themes matches Some(t) ==> forall|b: int|
        0 <= b < 73 && has_theme(t.0, b) ==> p.themes.contains(#[trigger] theme_name(b))
    &&& c.any_themes matches Some(t) ==> all_named(t.0) ==> exists|b: int|
        0 <= b < 73 && has_theme(t.0, b) && p.themes.contains(#[trigger] theme_name(b))
    &&& c.excluded_themes matches Some(t) ==> forall|b: int|
        0 <= b < 73 && has_theme(t.0, b) ==> !p.themes.contains(#[trigger] theme_name(b))
}

/// Whether the puzzles of rows have the ratings of the rows and the themes of the
/// dictionary.
pub open spec fn rows_are_true(
    blocks: Seq<Option<Seq<QueryRow>>>,
    dict: Seq<ThemeMask>,
) -> bool {
    forall|i: int, k: int|
        #![trigger blocks[i]->0[k]]
        0 <= i < blocks.len() && blocks[i] is Some && 0 <= k < blocks[i]->0.len() ==> {
            let row = blocks[i]->0[k];
            &&& row.puzzle.rating == row.rating
            &&& row.puzzle.themes == (if row.theme_id < dict.len() {
                mask_names(dict[row.theme_id as int].0)
            } else {
                Seq::empty()
            })
        }
}

/// A puzzle with the names of a mask is asked for where the mask is.
proof fn lemma_puzzle_wanted(c: QueryCriteria, mask: u128, p: PuzzleModel)
    requires
        rating_is_wanted(c, p.rating),
        themes_are_wanted(c, mask),
        p.themes == mask_names(mask),
    ensures
        puzzle_is_wanted(c, p),
{
    if let Some(t) = c.required_themes {
        assert forall|b: int| 0 <= b < 73 && has_theme(t.0, b) implies p.themes.contains(
            #[trigger] theme_name(b),
        ) by {
            law_names_of_a_mask(mask, b);
            assert(has_theme(mask, b));
        }
    }
    if let Some(t) = c.any_themes {
        if all_named(t.0) {
            let b = choose|b: int| #[trigger] has_theme(t.0, b) && has_theme(mask, b);
            law_names_of_a_mask(mask, b);
            assert(p.themes.contains(theme_name(b)));
        }
    }
    if let Some(t) = c.excluded_themes {
        assert forall|b: int| 0 <= b < 73 && has_theme(t.0, b) implies !p.themes.contains(
            #[trigger] theme_name(b),
        ) by {
            law_names_of_a_mask(mask, b);
            assert(!has_theme(mask, b));
        }
    }
}

/// The empty mask has no names.
proof fn lemma_no_names()
    ensures
        mask_names(0) == Seq::<Seq<char>>::empty(),
{
    assert forall|b: int| 0 <= b < 73 implies !#[trigger] in_mask(0, b) by {
        lemma_none(b);
    }
    lemma_no_names_upto(73);
}

proof fn lemma_no_names_upto(n: nat)
    requires
        n <= 73,
        forall|b: int| 0 <= b < 73 ==> !#[trigger] in_mask(0, b),
    ensures
        names_upto(0, n) == Seq::<Seq<char>>::empty(),
    decreases n,
{
    if n > 0 {
        lemma_no_names_upto((n - 1) as nat);
        assert(!in_mask(0, n - 1));
    }
}

proof fn lemma_wanted_at(
    c: QueryCriteria,
    low: u16,
    high: u16,
    dict: Seq<ThemeMask>,
    blocks: Seq<Option<Seq<QueryRow>>>,
    i: int,
    k: int,
    p: PuzzleModel,
)
    requires
        rows_are_true(blocks, dict),
        is_hit(query_of(c, low, high, dict), blocks, i, k, p),
    ensures
        puzzle_is_wanted(c, p),
{
    let row = blocks[i]->0[k];
    law_query_takes_what_is_wanted(c, low, high, dict, row);
    let mask = if row.theme_id < dict.len() {
        dict[row.theme_id as int].0
    } else {
        0
    };
    lemma_no_names();
    lemma_puzzle_wanted(c, mask, p);
}

/// Every puzzle that a query on a database of columns or of row blocks finds has a
/// rating in the range that was asked for, each of the required themes, one of the
/// wanted themes and none of the excluded ones; and so has a random one.
pub proof fn law_found_puzzles_are_wanted(
    c: QueryCriteria,
    low: u16,
    high: u16,
    data: Seq<u8>,
    dict: Seq<ThemeMask>,
    entries: Seq<BlockEntry>,
    limit: nat,
    found: Seq<PuzzleModel>,
    drawn: Option<PuzzleModel>,
)
    ensures
        ({
            let q = query_of(c, low, high, dict);
            let columns = crate::columnar_db::query_blocks(data, entries, dict);
            let rows = crate::block_db::query_blocks(data, entries, dict);
            &&& is_answer(q, entries, columns, limit, found) || is_answer(
                q,
                entries,
                rows,
                limit,
                found,
            ) ==> found.len() <= limit && forall|j: int|
                0 <= j < found.len() ==> puzzle_is_wanted(c, #[trigger] found[j])
            &&& is_random_answer(q, entries, columns, limit, drawn) || is_random_answer(
                q,
                entries,
                rows,
                limit,
                drawn,
            ) ==> (drawn matches Some(p) ==> puzzle_is_wanted(c, p))
        }),
{
    let columns = crate::columnar_db::query_blocks(data, entries, dict);
    let rows = crate::block_db::query_blocks(data, entries, dict);
    assert(rows_are_true(columns, dict));
    assert(rows_are_true(rows, dict));
    lemma_found_wanted(c, low, high, dict, entries, columns, limit, found, drawn);
    lemma_found_wanted(c, low, high, dict, entries, rows, limit, found, drawn);
}

proof fn lemma_found_wanted(
    c: QueryCriteria,
    low: u16,
    high: u16,
    dict: Seq<ThemeMask>,
    entries: Seq<BlockEntry>,
    blocks: Seq<Option<Seq<QueryRow>>>,
    limit: nat,
    found: Seq<PuzzleModel>,
    drawn: Option<PuzzleModel>,
)
    requires
        entries.len() == blocks.len(),
        rows_are_true(blocks, dict),
    ensures
        is_answer(query_of(c, low, high, dict), entries, blocks, limit, found) ==> found.len()
            <= limit && forall|j: int|
            0 <= j < found.len() ==> puzzle_is_wanted(c, #[trigger] found[j]),
        is_random_answer(query_of(c, low, high, dict), entries, blocks, limit, drawn) ==> (
        drawn matches Some(p) ==> puzzle_is_wanted(c, p)),
{
    let q = query_of(c, low, high, dict);
    if is_answer(q, entries, blocks, limit, found) {
        law_answer_is_sound(q, entries, blocks, limit, found);
        assert forall|j: int| 0 <= j < found.len() implies puzzle_is_wanted(
            c,
            #[trigger] found[j],
        ) by {
            assert(is_somewhere(q, blocks, found[j]));
            let (i, k) = choose|i: int, k: int| #[trigger] is_hit(q, blocks, i, k, found[j]);
            lemma_wanted_at(c, low, high, dict, blocks, i, k, found[j]);
        }
    }
    if is_random_answer(q, entries, blocks, limit, drawn) {
        law_random_is_sound(q, entries, blocks, limit, drawn);
        if let Some(p) = drawn {
            let (i, k) = choose|i: int, k: int| #[trigger] is_hit(q, blocks, i, k, p);
            lemma_wanted_at(c, low, high, dict, blocks, i, k, p);
        }
    }
}

// ---------------------------------------------------------------------------
// Fixed records
// ---------------------------------------------------------------------------

/// The rating of a record: its highest twelve bits of the word of themes and rating.
pub open spec fn record_rating(r: PuzzleRecord) -> int {
    r.theme_rating_packed as int / 1048576
}

/// Whether a record is asked for.
pub open spec fn record_is_wanted(c: QueryCriteria, dict: Seq<ThemeMask>, r: PuzzleRecord) -> bool {
    let t = r.theme_rating_packed as int % 1048576;
    &&& c.min_rating matches Some(min) ==> min <= record_rating(r)
    &&& c.max_rating matches Some(max) ==> record_rating(r) <= max
    &&& if t < dict.len() {
        themes_are_wanted(c, dict[t].0)
    } else {
        c.required_themes is None && c.any_themes is None
    }
}

/// The records of a database whose ratings rise are found by a rating range if and only
/// if they lie in it, both ends included.
pub proof fn law_rating_range(
    records: Seq<PuzzleRecord>,
    min: nat,
    max: nat,
    a: int,
    b: int,
    i: int,
)
    requires
        rising(ratings(records)),
        is_window(records, min, max, a, b),
        0 <= i < records.len(),
    ensures
        a <= i < b <==> min <= record_rating(records[i]) <= max,
{
    assert(ratings(records)[i] == records[i].rating_of());
}

/// A filter on a database whose ratings rise finds the records that are asked for, all
/// of them and in their order, and no others.
pub proof fn law_filter_finds_what_is_wanted(
    records: Seq<PuzzleRecord>,
    dict: Seq<ThemeMask>,
    c: QueryCriteria,
    a: int,
    b: int,
)
    requires
        rising(ratings(records)),
        is_query_window(records, c, a, b),
    ensures
        matching(c, dict, records.subrange(a, b)) == records.filter(
            |r: PuzzleRecord| record_is_wanted(c, dict, r),
        ),
{
    law_filter_is_exact(records, dict, c, a, b);
    lemma_asked_filter(records, dict, c);
}

proof fn lemma_asked_filter(records: Seq<PuzzleRecord>, dict: Seq<ThemeMask>, c: QueryCriteria)
    ensures
        asked(c, dict, records) == records.filter(
            |r: PuzzleRecord| record_is_wanted(c, dict, r),
        ),
    decreases records.len(),
{
    reveal(Seq::filter);
    if records.len() > 0 {
        lemma_asked_filter(records.drop_last(), dict, c);
        let r = records.last();
        lemma_record_wanted(c, dict, r);
    }
}

proof fn lemma_record_wanted(c: QueryCriteria, dict: Seq<ThemeMask>, r: PuzzleRecord)
    ensures
        is_asked(c, dict, r) == record_is_wanted(c, dict, r),
{
    let t = r.theme_rating_packed as int % 1048576;
    if t < dict.len() {
        lemma_themes_wanted(c, dict[t].0);
    }
}

} // verus!
