//! What a query finds in the blocks of a database.

use vstd::prelude::*;

use crate::block_file::{is_block_range, max_keys, min_keys, BlockEntry};
use crate::puzzle::{dict_mask, themes_match, PuzzleModel, QueryCriteria};
use crate::section::{parted, rising};
use crate::theme::ThemeMask;

verus! {

/// What a query looks at in a puzzle of a block, and the puzzle.
#[verifier::ext_equal]
pub struct QueryRow {
    pub rating: u16,
    pub theme_id: u32,
    pub puzzle: PuzzleModel,
}

/// A query with its rating range, on a theme dictionary.
pub struct Query {
    pub criteria: QueryCriteria,
    pub min: u16,
    pub max: u16,
    pub dict: Seq<ThemeMask>,
}

/// The query of criteria; a rating that is not asked for is that of the header.
pub open spec fn query_of(c: QueryCriteria, min: u16, max: u16, dict: Seq<ThemeMask>) -> Query {
    Query {
        criteria: c,
        min: match c.min_rating {
            Some(m) => m,
            None => min,
        },
        max: match c.max_rating {
            Some(m) => m,
            None => max,
        },
        dict,
    }
}

/// Whether a query takes a puzzle.
pub open spec fn hit(q: Query, row: QueryRow) -> bool {
    q.min <= row.rating <= q.max && themes_match(
        q.criteria,
        dict_mask(row.theme_id as nat, q.dict),
    )
}

/// The places of the puzzles that a query takes.
pub open spec fn hit_places(q: Query, rows: Seq<QueryRow>) -> Seq<int>
    decreases rows.len(),
{
    if rows.len() == 0 {
        Seq::empty()
    } else if hit(q, rows.last()) {
        hit_places(q, rows.drop_last()).push(rows.len() - 1)
    } else {
        hit_places(q, rows.drop_last())
    }
}

/// The puzzles that a query takes.
pub open spec fn hits(q: Query, rows: Seq<QueryRow>) -> Seq<PuzzleModel>
    decreases rows.len(),
{
    if rows.len() == 0 {
        Seq::empty()
    } else if hit(q, rows.last()) {
        hits(q, rows.drop_last()).push(rows.last().puzzle)
    } else {
        hits(q, rows.drop_last())
    }
}

/// The puzzles that a query takes from the blocks `start..end`; a block that
/// cannot be read has none.
pub open spec fn block_hits(
    q: Query,
    blocks: Seq<Option<Seq<QueryRow>>>,
    start: int,
    end: int,
) -> Seq<PuzzleModel>
    decreases end - start,
{
    if end <= start {
        Seq::empty()
    } else {
        block_hits(q, blocks, start, end - 1) + (match blocks[end - 1] {
            Some(rows) => hits(q, rows),
            None => Seq::empty(),
        })
    }
}

/// The first puzzles of a list, at most `limit`.
pub open spec fn at_most(found: Seq<PuzzleModel>, limit: nat) -> Seq<PuzzleModel> {
    if found.len() <= limit {
        found
    } else {
        found.take(limit as int)
    }
}

/// The first puzzles, at most `limit`, that a query takes from the blocks of its
/// rating range.
pub open spec fn is_answer(
    q: Query,
    entries: Seq<BlockEntry>,
    blocks: Seq<Option<Seq<QueryRow>>>,
    limit: nat,
    found: Seq<PuzzleModel>,
) -> bool {
    if q.min > q.max {
        found.len() == 0
    } else {
        exists|start: int, end: int|
            #[trigger] is_block_range(entries, q.min, q.max, start, end) && found == at_most(
                block_hits(q, blocks, start, end),
                limit,
            )
    }
}

/// Whether a block has a puzzle that a query takes.
pub open spec fn has_hit(q: Query, blocks: Seq<Option<Seq<QueryRow>>>, i: int) -> bool {
    0 <= i < blocks.len() && blocks[i] is Some && hit_places(q, blocks[i]->0).len() > 0
}

/// The first of some drawn blocks, from one on, that has a puzzle that a query takes.
pub open spec fn first_drawn(
    q: Query,
    blocks: Seq<Option<Seq<QueryRow>>>,
    drawn: Seq<usize>,
    d: nat,
) -> Option<nat>
    decreases drawn.len() - d,
{
    if d >= drawn.len() {
        None
    } else if has_hit(q, blocks, drawn[d as int] as int) {
        Some(d)
    } else {
        first_drawn(q, blocks, drawn, d + 1)
    }
}

/// Whether so many blocks of a run were drawn.
pub open spec fn are_drawn(drawn: Seq<usize>, start: int, end: int, tries: nat) -> bool {
    &&& drawn.len() == tries
    &&& forall|d: int| 0 <= d < drawn.len() ==> start <= #[trigger] drawn[d] < end
}

/// What drawn blocks give: a puzzle that the query takes of the first of them that has
/// one, and none where none of them has.
pub open spec fn answers_draws(
    q: Query,
    blocks: Seq<Option<Seq<QueryRow>>>,
    drawn: Seq<usize>,
    found: Option<PuzzleModel>,
) -> bool {
    match first_drawn(q, blocks, drawn, 0) {
        Some(d) => found matches Some(p) && hit_in(q, blocks, drawn[d as int] as int, p),
        None => found is None,
    }
}

/// A random puzzle that a query takes: what so many blocks that are drawn from the
/// rating range give. There is none where the range has no blocks.
pub open spec fn is_random_answer(
    q: Query,
    entries: Seq<BlockEntry>,
    blocks: Seq<Option<Seq<QueryRow>>>,
    tries: nat,
    found: Option<PuzzleModel>,
) -> bool {
    if q.min > q.max {
        found is None
    } else {
        exists|start: int, end: int|
            #[trigger] is_block_range(entries, q.min, q.max, start, end) && is_range_answer(
                q,
                blocks,
                start,
                end,
                tries,
                found,
            )
    }
}

/// What so many blocks that are drawn from a run give.
pub open spec fn is_range_answer(
    q: Query,
    blocks: Seq<Option<Seq<QueryRow>>>,
    start: int,
    end: int,
    tries: nat,
    found: Option<PuzzleModel>,
) -> bool {
    if start >= end {
        found is None
    } else {
        exists|drawn: Seq<usize>| #[trigger]
            are_drawn(drawn, start, end, tries) && answers_draws(q, blocks, drawn, found)
    }
}

/// Whether a puzzle is one that a query takes, at a place of a block.
pub open spec fn is_hit(
    q: Query,
    blocks: Seq<Option<Seq<QueryRow>>>,
    i: int,
    k: int,
    p: PuzzleModel,
) -> bool {
    &&& 0 <= i < blocks.len()
    &&& blocks[i] matches Some(rows)
    &&& 0 <= k < rows.len()
    &&& hit(q, rows[k])
    &&& rows[k].puzzle == p
}

/// Whether a puzzle is one that a query takes, in a block.
pub open spec fn hit_in(
    q: Query,
    blocks: Seq<Option<Seq<QueryRow>>>,
    i: int,
    p: PuzzleModel,
) -> bool {
    exists|k: int| #[trigger] is_hit(q, blocks, i, k, p)
}

/// Whether a puzzle is one that a query takes, in some block.
pub open spec fn is_somewhere(
    q: Query,
    blocks: Seq<Option<Seq<QueryRow>>>,
    p: PuzzleModel,
) -> bool {
    exists|i: int, k: int| #[trigger] is_hit(q, blocks, i, k, p)
}

/// The first drawn block with a hit has one, and those before it have none.
pub proof fn lemma_first_drawn(
    q: Query,
    blocks: Seq<Option<Seq<QueryRow>>>,
    drawn: Seq<usize>,
    d: nat,
)
    ensures
        match first_drawn(q, blocks, drawn, d) {
            Some(k) => d <= k < drawn.len() && has_hit(q, blocks, drawn[k as int] as int) && (
            forall|j: int|
                d <= j < k ==> !has_hit(q, blocks, #[trigger] drawn[j] as int)),
            None => forall|j: int|
                d <= j < drawn.len() ==> !has_hit(q, blocks, #[trigger] drawn[j] as int),
        },
    decreases drawn.len() - d,
{
    if d < drawn.len() {
        lemma_first_drawn(q, blocks, drawn, d + 1);
    }
}

/// The places are those of the puzzles that the query takes.
pub proof fn lemma_hit_places(q: Query, rows: Seq<QueryRow>)
    ensures
        forall|j: int|
            0 <= j < hit_places(q, rows).len() ==> 0 <= #[trigger] hit_places(q, rows)[j]
                < rows.len() && hit(q, rows[hit_places(q, rows)[j]]),
        hits(q, rows).len() == hit_places(q, rows).len(),
        forall|k: int|
            0 <= k < rows.len() && #[trigger] hit(q, rows[k]) ==> hit_places(q, rows).contains(k),
    decreases rows.len(),
{
    if rows.len() > 0 {
        let init = rows.drop_last();
        lemma_hit_places(q, init);
        let places = hit_places(q, rows);
        let before = hit_places(q, init);
        assert forall|j: int| 0 <= j < places.len() implies 0 <= #[trigger] places[j] < rows.len()
            && hit(q, rows[places[j]]) by {
            if j < before.len() {
                assert(0 <= before[j] < init.len() && hit(q, init[before[j]]));
            }
        }
        assert forall|k: int| 0 <= k < rows.len() && #[trigger] hit(q, rows[k]) implies places.contains(
            k,
        ) by {
            if k < init.len() {
                assert(hit(q, init[k]));
                let j = choose|j: int| 0 <= j < before.len() && before[j] == k;
                assert(places[j] == k);
            } else {
                assert(places[places.len() - 1] == k);
            }
        }
    }
}

/// The puzzles of a part of the rows come first.
pub proof fn lemma_hits_prefix(q: Query, rows: Seq<QueryRow>, n: int)
    requires
        0 <= n <= rows.len(),
    ensures
        hits(q, rows.take(n)).len() <= hits(q, rows).len(),
        hits(q, rows.take(n)) == hits(q, rows).take(hits(q, rows.take(n)).len() as int),
    decreases rows.len(),
{
    if n < rows.len() {
        let init = rows.drop_last();
        lemma_hits_prefix(q, init, n);
        assert(init.take(n) =~= rows.take(n));
        assert(hits(q, rows.take(n)) =~= hits(q, rows).take(hits(q, rows.take(n)).len() as int));
    } else {
        assert(rows.take(n) =~= rows);
        assert(hits(q, rows.take(n)) =~= hits(q, rows).take(hits(q, rows.take(n)).len() as int));
    }
}

/// The puzzles of the first blocks, and of a part of the next one, come first.
pub proof fn lemma_block_hits_prefix(
    q: Query,
    blocks: Seq<Option<Seq<QueryRow>>>,
    start: int,
    i: int,
    end: int,
    n: int,
)
    requires
        start <= i < end,
        blocks[i] matches Some(rows) ==> 0 <= n <= rows.len(),
        blocks[i] is None ==> n == 0,
    ensures
        ({
            let part = block_hits(q, blocks, start, i) + (match blocks[i] {
                Some(rows) => hits(q, rows.take(n)),
                None => Seq::empty(),
            });
            let all = block_hits(q, blocks, start, end);
            part.len() <= all.len() && part == all.take(part.len() as int)
        }),
    decreases end - i,
{
    let part = block_hits(q, blocks, start, i) + (match blocks[i] {
        Some(rows) => hits(q, rows.take(n)),
        None => Seq::empty(),
    });
    let all = block_hits(q, blocks, start, end);
    if i == end - 1 {
        match blocks[i] {
            Some(rows) => {
                lemma_hits_prefix(q, rows, n);
                assert(part =~= all.take(part.len() as int));
            },
            None => {
                assert(part =~= all.take(part.len() as int));
            },
        }
    } else {
        lemma_block_hits_prefix(q, blocks, start, i, end - 1, n);
        let less = block_hits(q, blocks, start, end - 1);
        assert(part =~= all.take(part.len() as int));
    }
}

/// Every puzzle that a query finds in a run of blocks is one that it takes, from
/// one of these blocks.
pub proof fn lemma_block_hits_sound(
    q: Query,
    blocks: Seq<Option<Seq<QueryRow>>>,
    start: int,
    end: int,
    j: int,
) -> (r: (int, int))
    requires
        0 <= j < block_hits(q, blocks, start, end).len(),
        0 <= start,
        end <= blocks.len(),
    ensures
        start <= r.0 < end,
        is_hit(q, blocks, r.0, r.1, block_hits(q, blocks, start, end)[j]),
    decreases end - start,
{
    let before = block_hits(q, blocks, start, end - 1);
    if j < before.len() {
        lemma_block_hits_sound(q, blocks, start, end - 1, j)
    } else {
        let rows = blocks[end - 1]->0;
        let k = lemma_hits_sound(q, rows, j - before.len());
        (end - 1, k)
    }
}

proof fn lemma_hits_sound(q: Query, rows: Seq<QueryRow>, j: int) -> (k: int)
    requires
        0 <= j < hits(q, rows).len(),
    ensures
        0 <= k < rows.len(),
        hit(q, rows[k]),
        rows[k].puzzle == hits(q, rows)[j],
    decreases rows.len(),
{
    let init = rows.drop_last();
    if j < hits(q, init).len() {
        lemma_hits_sound(q, init, j)
    } else {
        rows.len() - 1
    }
}

/// Whatever a query answers, it is at most as many puzzles as the limit says, and
/// each is in the rating range and has the themes that were asked for.
pub proof fn law_answer_is_sound(
    q: Query,
    entries: Seq<BlockEntry>,
    blocks: Seq<Option<Seq<QueryRow>>>,
    limit: nat,
    found: Seq<PuzzleModel>,
)
    requires
        entries.len() == blocks.len(),
        is_answer(q, entries, blocks, limit, found),
    ensures
        found.len() <= limit,
        forall|j: int|
            0 <= j < found.len() ==> is_somewhere(q, blocks, #[trigger] found[j]),
{
    if q.min <= q.max {
        let (start, end) = choose|start: int, end: int|
            #[trigger] is_block_range(entries, q.min, q.max, start, end) && found == at_most(
                block_hits(q, blocks, start, end),
                limit,
            );
        let all = block_hits(q, blocks, start, end);
        assert forall|j: int| 0 <= j < found.len() implies is_somewhere(
            q,
            blocks,
            #[trigger] found[j],
        ) by {
            assert(found[j] == all[j]);
            let (i, k) = lemma_block_hits_sound(q, blocks, start, end, j);
            assert(is_hit(q, blocks, i, k, found[j]));
        }
    }
}

/// Whether the entries of blocks tell the truth: they rise, and the ratings of
/// every block lie between those of its entry.
pub open spec fn index_is_true(
    entries: Seq<BlockEntry>,
    blocks: Seq<Option<Seq<QueryRow>>>,
) -> bool {
    &&& entries.len() == blocks.len()
    &&& rising(max_keys(entries))
    &&& rising(min_keys(entries))
    &&& forall|i: int, k: int|
        #![trigger blocks[i]->0[k]]
        0 <= i < blocks.len() && blocks[i] is Some && 0 <= k < blocks[i]->0.len()
            ==> entries[i].min_rating <= blocks[i]->0[k].rating <= entries[i].max_rating
}

/// Where the block index tells the truth, the puzzles that a query takes are all in
/// the blocks of its rating range.
pub proof fn law_range_is_complete(
    q: Query,
    entries: Seq<BlockEntry>,
    blocks: Seq<Option<Seq<QueryRow>>>,
    start: int,
    end: int,
    i: int,
    k: int,
    p: PuzzleModel,
)
    requires
        index_is_true(entries, blocks),
        is_block_range(entries, q.min, q.max, start, end),
        is_hit(q, blocks, i, k, p),
    ensures
        start <= i < end,
        block_hits(q, blocks, start, end).contains(p),
{
    let e = entries[i];
    assert(e.min_rating <= blocks[i]->0[k].rating <= e.max_rating);
    assert(max_keys(entries)[i] == e.max_rating);
    assert(min_keys(entries)[i] == e.min_rating);
    assert(parted(max_keys(entries), q.min as nat));
    assert(parted(min_keys(entries), (q.max + 1) as nat));
    lemma_block_hits_complete(q, blocks, start, end, i, k, p);
}

/// Where the block index tells the truth, a query whose answer is shorter than its
/// limit has found every puzzle that it takes.
pub proof fn law_answer_is_complete(
    q: Query,
    entries: Seq<BlockEntry>,
    blocks: Seq<Option<Seq<QueryRow>>>,
    limit: nat,
    found: Seq<PuzzleModel>,
    p: PuzzleModel,
)
    requires
        index_is_true(entries, blocks),
        is_answer(q, entries, blocks, limit, found),
        found.len() < limit,
        is_somewhere(q, blocks, p),
    ensures
        found.contains(p),
{
    let (i, k) = choose|i: int, k: int| #[trigger] is_hit(q, blocks, i, k, p);
    let (start, end) = choose|start: int, end: int|
        #[trigger] is_block_range(entries, q.min, q.max, start, end) && found == at_most(
            block_hits(q, blocks, start, end),
            limit,
        );
    law_range_is_complete(q, entries, blocks, start, end, i, k, p);
}

/// A random puzzle is one that the query takes, so there is none where the query takes
/// none. There is one where every block of the rating range has a puzzle for the
/// query, and at least one is drawn.
pub proof fn law_random_is_sound(
    q: Query,
    entries: Seq<BlockEntry>,
    blocks: Seq<Option<Seq<QueryRow>>>,
    tries: nat,
    found: Option<PuzzleModel>,
)
    requires
        is_random_answer(q, entries, blocks, tries, found),
    ensures
        found matches Some(p) ==> is_somewhere(q, blocks, p),
        (forall|p: PuzzleModel| !#[trigger] is_somewhere(q, blocks, p)) ==> found is None,
        q.min <= q.max && tries > 0 && found is None ==> exists|start: int, end: int|
            #[trigger] is_block_range(entries, q.min, q.max, start, end) && (start >= end
                || exists|i: int| start <= i < end && !#[trigger] has_hit(q, blocks, i)),
{
    if q.min <= q.max {
        let (start, end) = choose|start: int, end: int|
            #[trigger] is_block_range(entries, q.min, q.max, start, end) && is_range_answer(
                q,
                blocks,
                start,
                end,
                tries,
                found,
            );
        if start < end {
            let drawn = choose|drawn: Seq<usize>| #[trigger]
                are_drawn(drawn, start, end, tries) && answers_draws(q, blocks, drawn, found);
            lemma_first_drawn(q, blocks, drawn, 0);
            if let Some(p) = found {
                let d = first_drawn(q, blocks, drawn, 0)->0;
                let i = drawn[d as int] as int;
                let k = choose|k: int| #[trigger] is_hit(q, blocks, i, k, p);
                assert(is_hit(q, blocks, i, k, p));
                assert(is_somewhere(q, blocks, p));
            } else if tries > 0 {
                assert(!has_hit(q, blocks, drawn[0] as int));
            }
        }
    }
}

/// Blocks that are drawn give no puzzle if and only if none of them has one for the
/// query.
pub proof fn law_draws_are_tried(
    q: Query,
    blocks: Seq<Option<Seq<QueryRow>>>,
    drawn: Seq<usize>,
    found: Option<PuzzleModel>,
)
    requires
        answers_draws(q, blocks, drawn, found),
    ensures
        found is None <==> forall|d: int|
            0 <= d < drawn.len() ==> !has_hit(q, blocks, #[trigger] drawn[d] as int),
{
    lemma_first_drawn(q, blocks, drawn, 0);
}

proof fn lemma_block_hits_complete(
    q: Query,
    blocks: Seq<Option<Seq<QueryRow>>>,
    start: int,
    end: int,
    i: int,
    k: int,
    p: PuzzleModel,
)
    requires
        start <= i < end,
        is_hit(q, blocks, i, k, p),
    ensures
        block_hits(q, blocks, start, end).contains(p),
    decreases end - start,
{
    let before = block_hits(q, blocks, start, end - 1);
    let all = block_hits(q, blocks, start, end);
    if i < end - 1 {
        lemma_block_hits_complete(q, blocks, start, end - 1, i, k, p);
        let j = choose|j: int| 0 <= j < before.len() && before[j] == p;
        assert(all[j] == p);
    } else {
        let rows = blocks[i]->0;
        lemma_hits_complete(q, rows, k);
        let j = choose|j: int| 0 <= j < hits(q, rows).len() && hits(q, rows)[j] == p;
        assert(all[before.len() + j] == p);
    }
}

proof fn lemma_hits_complete(q: Query, rows: Seq<QueryRow>, k: int)
    requires
        0 <= k < rows.len(),
        hit(q, rows[k]),
    ensures
        hits(q, rows).contains(rows[k].puzzle),
    decreases rows.len(),
{
    let init = rows.drop_last();
    if k < init.len() {
        lemma_hits_complete(q, init, k);
        let j = choose|j: int| 0 <= j < hits(q, init).len() && hits(q, init)[j] == rows[k].puzzle;
        assert(hits(q, rows)[j] == rows[k].puzzle);
    } else {
        assert(hits(q, rows)[hits(q, rows).len() - 1] == rows[k].puzzle);
    }
}

} // verus!
