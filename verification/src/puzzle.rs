//! Decoded puzzles and what is asked of them.

use vstd::prelude::*;

use crate::fen::{fen_text, FenModel};
use crate::moves::{uci_texts, PackedMove};
use crate::text::texts;
use crate::theme::{mask_all, mask_any, mask_names, strs, ThemeMask};

verus! {

/// A puzzle as it is handed out.
#[derive(Debug, PartialEq, Eq)]
pub struct Puzzle {
    pub id: String,
    pub fen: String,
    pub moves: Vec<String>,
    pub rating: u16,
    pub themes: Vec<String>,
}

/// What a puzzle says.
#[verifier::ext_equal]
pub struct PuzzleModel {
    pub id: Seq<char>,
    pub fen: Seq<char>,
    pub moves: Seq<Seq<char>>,
    pub rating: u16,
    pub themes: Seq<Seq<char>>,
}

impl View for Puzzle {
    type V = PuzzleModel;

    open spec fn view(&self) -> PuzzleModel {
        PuzzleModel {
            id: self.id@,
            fen: self.fen@,
            moves: texts(self.moves@),
            rating: self.rating,
            themes: texts(self.themes@),
        }
    }
}

/// A copy of texts.
fn copy_strings(v: &Vec<String>) -> (r: Vec<String>)
    ensures
        texts(r@) == texts(v@),
{
    let mut out: Vec<String> = Vec::new();
    for i in 0..v.len()
        invariant
            texts(out@) == texts(v@).take(i as int),
    {
        let ghost before = texts(out@);
        let s = v[i].clone();
        out.push(s);
        assert(texts(out@) =~= before.push(s@));
        assert(texts(v@).take(i + 1) =~= before.push(s@));
    }
    assert(texts(v@).take(v@.len() as int) =~= texts(v@));
    out
}

impl Clone for Puzzle {
    fn clone(&self) -> (r: Self)
        ensures
            r@ == self@,
    {
        let r = Puzzle {
            id: self.id.clone(),
            fen: self.fen.clone(),
            moves: copy_strings(&self.moves),
            rating: self.rating,
            themes: copy_strings(&self.themes),
        };
        assert(r@ =~= self@);
        r
    }
}

/// The puzzles of a list.
pub open spec fn puzzle_models(v: Seq<Puzzle>) -> Seq<PuzzleModel> {
    Seq::new(v.len(), |i: int| v[i]@)
}

/// The puzzle that was found, if any.
pub open spec fn found_model(p: Option<Puzzle>) -> Option<PuzzleModel> {
    match p {
        Some(p) => Some(p@),
        None => None,
    }
}

/// The puzzle of an identifier, a position, a line of moves, a rating and the
/// entry of a theme dictionary; without an entry it has no themes.
pub open spec fn puzzle_of(
    id: Seq<char>,
    position: FenModel,
    moves: Seq<PackedMove>,
    rating: u16,
    theme_id: nat,
    dict: Seq<ThemeMask>,
) -> PuzzleModel {
    PuzzleModel {
        id,
        fen: fen_text(position),
        moves: uci_texts(moves),
        rating,
        themes: if theme_id < dict.len() {
            mask_names(dict[theme_id as int].0)
        } else {
            Seq::empty()
        },
    }
}

/// The names of the themes of a dictionary entry; none without an entry.
pub fn theme_strings(theme_id: u32, dict: &[ThemeMask]) -> (r: Vec<String>)
    ensures
        texts(r@) == (if (theme_id as nat) < dict@.len() {
            mask_names(dict@[theme_id as int].0)
        } else {
            Seq::empty()
        }),
{
    let mut out: Vec<String> = Vec::new();
    let i: usize = theme_id as usize;
    if i < dict.len() {
        let names = dict[i].to_theme_names();
        for k in 0..names.len()
            invariant
                texts(out@) == strs(names@).take(k as int),
        {
            let ghost before = texts(out@);
            let name = names[k].to_string();
            out.push(name);
            assert(texts(out@) =~= before.push(name@));
            assert(strs(names@).take(k + 1) =~= before.push(name@));
        }
        assert(strs(names@).take(names@.len() as int) =~= strs(names@));
    }
    assert(texts(out@) =~= (if (theme_id as nat) < dict@.len() {
        mask_names(dict@[theme_id as int].0)
    } else {
        Seq::empty()
    }));
    out
}

/// What a query asks for; what is `None` is not asked.
#[derive(Debug, Clone, Copy)]
pub struct QueryCriteria {
    pub min_rating: Option<u16>,
    pub max_rating: Option<u16>,
    pub required_themes: Option<ThemeMask>,
    pub any_themes: Option<ThemeMask>,
    pub excluded_themes: Option<ThemeMask>,
}

impl Default for QueryCriteria {
    /// The query that asks for nothing.
    fn default() -> (r: Self)
        ensures
            r.min_rating is None,
            r.max_rating is None,
            r.required_themes is None,
            r.any_themes is None,
            r.excluded_themes is None,
    {
        QueryCriteria {
            min_rating: None,
            max_rating: None,
            required_themes: None,
            any_themes: None,
            excluded_themes: None,
        }
    }
}

/// A mask that has all the required themes, one of the wanted themes and none of
/// the excluded ones.
pub open spec fn themes_match(c: QueryCriteria, mask: u128) -> bool {
    &&& match c.required_themes {
        Some(t) => mask_all(mask, t.0),
        None => true,
    }
    &&& match c.any_themes {
        Some(t) => mask_any(mask, t.0),
        None => true,
    }
    &&& match c.excluded_themes {
        Some(t) => !mask_any(mask, t.0),
        None => true,
    }
}

/// The mask of a dictionary entry; the empty one without an entry.
pub open spec fn dict_mask(theme_id: nat, dict: Seq<ThemeMask>) -> u128 {
    if theme_id < dict.len() {
        dict[theme_id as int].0
    } else {
        0
    }
}

impl QueryCriteria {
    /// Whether the themes of a dictionary entry are asked for.
    pub fn takes_themes(&self, theme_id: u32, dict: &[ThemeMask]) -> (r: bool)
        ensures
            r == themes_match(*self, dict_mask(theme_id as nat, dict@)),
    {
        let i: usize = theme_id as usize;
        let mask = if i < dict.len() {
            dict[i]
        } else {
            ThemeMask::empty()
        };
        if let Some(req) = self.required_themes {
            if !mask.contains_all(req) {
                return false;
            }
        }
        if let Some(any) = self.any_themes {
            if !mask.contains_any(any) {
                return false;
            }
        }
        if let Some(excl) = self.excluded_themes {
            if mask.contains_any(excl) {
                return false;
            }
        }
        true
    }
}

} // verus!
