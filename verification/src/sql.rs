//! The queries on the puzzle table of an SQLite database.

use vstd::prelude::*;

use crate::ingest::RowFilter;
use crate::text::{decimal, int_text, joined, push_decimal, push_int, push_joined, texts};

verus! {

/// The text of the query that counts the puzzles, of at most a limit.
pub open spec fn count_text(limit: Option<usize>) -> Seq<char> {
    match limit {
        Some(n) => "SELECT COUNT(*) FROM (SELECT 1 FROM puzzles LIMIT "@ + decimal(n as nat) + ")"@,
        None => "SELECT COUNT(*) FROM puzzles"@,
    }
}

/// The query that counts the puzzles, of at most a limit.
pub fn count_query(limit: Option<usize>) -> (r: String)
    ensures
        r@ == count_text(limit),
{
    let mut out = String::new();
    match limit {
        Some(n) => {
            out.append("SELECT COUNT(*) FROM (SELECT 1 FROM puzzles LIMIT ");
            push_decimal(&mut out, n as u64);
            out.append(")");
        },
        None => {
            out.append("SELECT COUNT(*) FROM puzzles");
        },
    }
    assert(out@ =~= count_text(limit));
    out
}

/// The text of the query for the puzzles, of at most a limit.
pub open spec fn select_text(limit: Option<usize>) -> Seq<char> {
    match limit {
        Some(n) => "SELECT PuzzleId, FEN, Moves, Rating, Themes FROM puzzles LIMIT "@ + decimal(
            n as nat,
        ),
        None => "SELECT PuzzleId, FEN, Moves, Rating, Themes FROM puzzles"@,
    }
}

/// The query for the puzzles, of at most a limit.
pub fn select_query(limit: Option<usize>) -> (r: String)
    ensures
        r@ == select_text(limit),
{
    let mut out = String::new();
    match limit {
        Some(n) => {
            out.append("SELECT PuzzleId, FEN, Moves, Rating, Themes FROM puzzles LIMIT ");
            push_decimal(&mut out, n as u64);
        },
        None => {
            out.append("SELECT PuzzleId, FEN, Moves, Rating, Themes FROM puzzles");
        },
    }
    assert(out@ =~= select_text(limit));
    out
}

/// The condition on a column, if there is a bound.
pub open spec fn condition(start: Seq<char>, bound: Option<int>) -> Seq<Seq<char>> {
    match bound {
        Some(n) => seq![start + int_text(n)],
        None => Seq::empty(),
    }
}

/// A bound of a filter as a whole number.
pub open spec fn bound_of(min: Option<u16>) -> Option<int> {
    match min {
        Some(n) => Some(n as int),
        None => None,
    }
}

/// The conditions of a filter: on the rating, the popularity and the number of
/// plays.
pub open spec fn conditions(f: RowFilter) -> Seq<Seq<char>> {
    condition("Rating >= "@, bound_of(f.min_rating)) + condition(
        "Rating <= "@,
        bound_of(f.max_rating),
    ) + condition(
        "Popularity >= "@,
        match f.min_popularity {
            Some(n) => Some(n as int),
            None => None,
        },
    ) + condition(
        "NbPlays >= "@,
        match f.min_plays {
            Some(n) => Some(n as int),
            None => None,
        },
    )
}

/// The conditions of a filter as a clause; nothing where none is set.
pub open spec fn where_text(f: RowFilter) -> Seq<char> {
    if conditions(f).len() == 0 {
        Seq::empty()
    } else {
        "WHERE "@ + joined(conditions(f), " AND "@)
    }
}

/// The text of the query that counts the puzzles that a filter takes, of at most a
/// limit.
pub open spec fn filtered_count_text(f: RowFilter, limit: Option<usize>) -> Seq<char> {
    "SELECT COUNT(*) FROM (SELECT 1 FROM puzzles "@ + where_text(f) + " "@ + limit_text(limit)
        + ")"@
}

/// The text of the query for the puzzles that a filter takes, of at most a limit.
pub open spec fn filtered_select_text(f: RowFilter, limit: Option<usize>) -> Seq<char> {
    "SELECT PuzzleId, FEN, Moves, Rating, Themes FROM puzzles "@ + where_text(f) + " "@
        + limit_text(limit)
}

/// The clause of a limit; nothing where none is set.
pub open spec fn limit_text(limit: Option<usize>) -> Seq<char> {
    match limit {
        Some(n) => "LIMIT "@ + decimal(n as nat),
        None => Seq::empty(),
    }
}

/// Appends the condition on a column to a list.
fn push_condition(list: &mut Vec<String>, start: &str, bound: Option<i64>)
    ensures
        texts(final(list)@) == texts(old(list)@) + condition(
            start@,
            match bound {
                Some(n) => Some(n as int),
                None => None,
            },
        ),
{
    if let Some(n) = bound {
        let mut text = String::new();
        text.append(start);
        push_int(&mut text, n);
        assert(text@ =~= start@ + int_text(n as int));
        list.push(text);
        assert(texts(list@) =~= texts(old(list)@) + condition(start@, Some(n as int)));
    } else {
        assert(texts(list@) =~= texts(old(list)@) + condition(start@, None));
    }
}

fn wide16(v: Option<u16>) -> (r: Option<i64>)
    ensures
        match r {
            Some(n) => bound_of(v) == Some(n as int),
            None => v is None,
        },
{
    match v {
        Some(n) => Some(n as i64),
        None => None,
    }
}

fn push_where(out: &mut String, f: &RowFilter)
    ensures
        final(out)@ == old(out)@ + where_text(*f),
{
    let mut list: Vec<String> = Vec::new();
    push_condition(&mut list, "Rating >= ", wide16(f.min_rating));
    push_condition(&mut list, "Rating <= ", wide16(f.max_rating));
    push_condition(
        &mut list,
        "Popularity >= ",
        match f.min_popularity {
            Some(n) => Some(n as i64),
            None => None,
        },
    );
    push_condition(
        &mut list,
        "NbPlays >= ",
        match f.min_plays {
            Some(n) => Some(n as i64),
            None => None,
        },
    );
    assert(texts(list@) =~= conditions(*f));
    assert(texts(list@).len() == list@.len());
    if list.len() > 0 {
        out.append("WHERE ");
        push_joined(out, &list, " AND ");
    }
    assert(out@ =~= old(out)@ + where_text(*f));
}

fn push_limit(out: &mut String, limit: Option<usize>)
    ensures
        final(out)@ == old(out)@ + limit_text(limit),
{
    if let Some(n) = limit {
        out.append("LIMIT ");
        push_decimal(out, n as u64);
    }
    assert(out@ =~= old(out)@ + limit_text(limit));
}

/// The query that counts the puzzles that a filter takes, of at most a limit.
pub fn filtered_count_query(filter: &RowFilter, limit: Option<usize>) -> (r: String)
    ensures
        r@ == "SELECT COUNT(*) FROM (SELECT 1 FROM puzzles "@ + where_text(*filter) + " "@
            + limit_text(limit) + ")"@,
        r@ == filtered_count_text(*filter, limit),
{
    let mut out = String::new();
    out.append("SELECT COUNT(*) FROM (SELECT 1 FROM puzzles ");
    assert(out@ =~= "SELECT COUNT(*) FROM (SELECT 1 FROM puzzles "@);
    push_where(&mut out, filter);
    out.append(" ");
    push_limit(&mut out, limit);
    out.append(")");
    out
}

/// The query for the puzzles that a filter takes, of at most a limit.
pub fn filtered_select_query(filter: &RowFilter, limit: Option<usize>) -> (r: String)
    ensures
        r@ == "SELECT PuzzleId, FEN, Moves, Rating, Themes FROM puzzles "@ + where_text(*filter)
            + " "@ + limit_text(limit),
        r@ == filtered_select_text(*filter, limit),
{
    let mut out = String::new();
    out.append("SELECT PuzzleId, FEN, Moves, Rating, Themes FROM puzzles ");
    assert(out@ =~= "SELECT PuzzleId, FEN, Moves, Rating, Themes FROM puzzles "@);
    push_where(&mut out, filter);
    out.append(" ");
    push_limit(&mut out, limit);
    out
}

// ---------------------------------------------------------------------------
// Laws
// ---------------------------------------------------------------------------

/// One where there is a bound, else zero.
pub open spec fn one_if(bound: bool) -> nat {
    if bound {
        1
    } else {
        0
    }
}

/// Whether a list of conditions is that of a filter: each bound that is given is there,
/// whatever the others are, and nothing else is.
pub open spec fn asks_all_bounds(f: RowFilter, list: Seq<Seq<char>>) -> bool {
    &&& f.min_rating matches Some(n) ==> list.contains("Rating >= "@ + decimal(n as nat))
    &&& f.max_rating matches Some(n) ==> list.contains("Rating <= "@ + decimal(n as nat))
    &&& f.min_popularity matches Some(n) ==> list.contains("Popularity >= "@ + int_text(n as int))
    &&& f.min_plays matches Some(n) ==> list.contains("NbPlays >= "@ + decimal(n as nat))
    &&& list.len() == one_if(f.min_rating is Some) + one_if(f.max_rating is Some) + one_if(
        f.min_popularity is Some,
    ) + one_if(f.min_plays is Some)
}

/// Whether a text is a query with conditions that are joined by `AND`, behind what it
/// starts with and before what it ends with; without conditions there is no clause.
pub open spec fn is_query_of(
    text: Seq<char>,
    start: Seq<char>,
    list: Seq<Seq<char>>,
    end: Seq<char>,
) -> bool {
    if list.len() == 0 {
        text == start + end
    } else {
        text == start + "WHERE "@ + joined(list, " AND "@) + end
    }
}

/// The queries of a filter ask for every bound that is given and for no other, and take
/// at most as many puzzles as the limit says.
pub proof fn law_queries_ask_all_bounds(f: RowFilter, limit: Option<usize>)
    ensures
        ({
            let end = match limit {
                Some(n) => " "@ + "LIMIT "@ + decimal(n as nat),
                None => " "@,
            };
            exists|list: Seq<Seq<char>>|
                {
                    &&& #[trigger] asks_all_bounds(f, list)
                    &&& is_query_of(
                        filtered_select_text(f, limit),
                        "SELECT PuzzleId, FEN, Moves, Rating, Themes FROM puzzles "@,
                        list,
                        end,
                    )
                    &&& is_query_of(
                        filtered_count_text(f, limit),
                        "SELECT COUNT(*) FROM (SELECT 1 FROM puzzles "@,
                        list,
                        end + ")"@,
                    )
                }
        }),
{
    lemma_conditions(f);
    lemma_filtered_texts(f, limit);
}

proof fn lemma_conditions(f: RowFilter)
    ensures
        asks_all_bounds(f, conditions(f)),
{
    let list = conditions(f);
    let c1 = condition("Rating >= "@, bound_of(f.min_rating));
    let c2 = condition("Rating <= "@, bound_of(f.max_rating));
    let c3 = condition(
        "Popularity >= "@,
        match f.min_popularity {
            Some(n) => Some(n as int),
            None => None,
        },
    );
    let c4 = condition(
        "NbPlays >= "@,
        match f.min_plays {
            Some(n) => Some(n as int),
            None => None,
        },
    );
    assert(list == c1 + c2 + c3 + c4);
    if let Some(n) = f.min_rating {
        assert(list[0] == "Rating >= "@ + decimal(n as nat));
    }
    if let Some(n) = f.max_rating {
        assert(list[c1.len() as int] == "Rating <= "@ + decimal(n as nat));
    }
    if let Some(n) = f.min_popularity {
        assert(list[(c1 + c2).len() as int] == "Popularity >= "@ + int_text(n as int));
    }
    if let Some(n) = f.min_plays {
        assert(list[(c1 + c2 + c3).len() as int] == "NbPlays >= "@ + decimal(n as nat));
    }
}

proof fn lemma_filtered_texts(f: RowFilter, limit: Option<usize>)
    ensures
        ({
            let end = match limit {
                Some(n) => " "@ + "LIMIT "@ + decimal(n as nat),
                None => " "@,
            };
            &&& is_query_of(
                filtered_select_text(f, limit),
                "SELECT PuzzleId, FEN, Moves, Rating, Themes FROM puzzles "@,
                conditions(f),
                end,
            )
            &&& is_query_of(
                filtered_count_text(f, limit),
                "SELECT COUNT(*) FROM (SELECT 1 FROM puzzles "@,
                conditions(f),
                end + ")"@,
            )
        }),
{
    let end = match limit {
        Some(n) => " "@ + "LIMIT "@ + decimal(n as nat),
        None => " "@,
    };
    let select = "SELECT PuzzleId, FEN, Moves, Rating, Themes FROM puzzles "@;
    let count = "SELECT COUNT(*) FROM (SELECT 1 FROM puzzles "@;
    let gap = " "@;
    let l = limit_text(limit);
    let close = ")"@;
    assert(gap + l =~= end);
    if conditions(f).len() == 0 {
        lemma_regroup(select, Seq::empty(), Seq::empty(), gap, l, close);
        lemma_regroup(count, Seq::empty(), Seq::empty(), gap, l, close);
    } else {
        let w = "WHERE "@;
        let j = joined(conditions(f), " AND "@);
        lemma_regroup(select, w, j, gap, l, close);
        lemma_regroup(count, w, j, gap, l, close);
    }
}

proof fn lemma_regroup(
    a: Seq<char>,
    b: Seq<char>,
    c: Seq<char>,
    d: Seq<char>,
    e: Seq<char>,
    f: Seq<char>,
)
    ensures
        a + (b + c) + d + e == a + b + c + (d + e),
        a + (b + c) + d + e + f == a + b + c + (d + e + f),
        b.len() == 0 && c.len() == 0 ==> a + b + d + e == a + (d + e) && a + b + d + e + f == a + (d
            + e + f),
{
    assert(a + (b + c) + d + e =~= a + b + c + (d + e));
    assert(a + (b + c) + d + e + f =~= a + b + c + (d + e + f));
    if b.len() == 0 && c.len() == 0 {
        assert(a + b + d + e =~= a + (d + e));
        assert(a + b + d + e + f =~= a + (d + e + f));
    }
}

/// Without a filter all puzzles are asked for, or as many as the limit says.
pub proof fn law_queries_without_filter(limit: Option<usize>)
    ensures
        match limit {
            Some(n) => select_text(limit) == select_text(None) + " LIMIT "@ + decimal(n as nat)
                && count_text(limit) == "SELECT COUNT(*) FROM (SELECT 1 FROM puzzles"@
                + " LIMIT "@ + decimal(n as nat) + ")"@,
            None => select_text(limit)
                == "SELECT PuzzleId, FEN, Moves, Rating, Themes FROM puzzles"@ && count_text(limit)
                == "SELECT COUNT(*) FROM puzzles"@,
        },
{
    reveal_strlit("SELECT PuzzleId, FEN, Moves, Rating, Themes FROM puzzles");
    reveal_strlit("SELECT PuzzleId, FEN, Moves, Rating, Themes FROM puzzles LIMIT ");
    reveal_strlit(" LIMIT ");
    reveal_strlit("SELECT COUNT(*) FROM (SELECT 1 FROM puzzles LIMIT ");
    reveal_strlit("SELECT COUNT(*) FROM (SELECT 1 FROM puzzles");
    if let Some(n) = limit {
        assert("SELECT PuzzleId, FEN, Moves, Rating, Themes FROM puzzles LIMIT "@
            =~= "SELECT PuzzleId, FEN, Moves, Rating, Themes FROM puzzles"@ + " LIMIT "@);
        assert("SELECT COUNT(*) FROM (SELECT 1 FROM puzzles LIMIT "@
            =~= "SELECT COUNT(*) FROM (SELECT 1 FROM puzzles"@ + " LIMIT "@);
        assert(select_text(limit) =~= select_text(None) + " LIMIT "@ + decimal(n as nat));
    }
}

} // verus!
