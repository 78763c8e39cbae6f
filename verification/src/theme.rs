//! Theme bitmask representation and registry for puzzle themes.
//!
//! A theme is a bit of a 128-bit mask, so that any combination of themes is one
//! integer.

use vstd::prelude::*;

use crate::text::{
    chars_of, fields, joined, lemma_fields_joined, lemma_trimmed_word, lower, no_white, number,
    parse_number, pieces, same_chars, split_fields, split_on, to_lower, trim, trimmed, words,
};

verus! {

/// A set of themes.
#[derive(Debug, Clone, Copy, PartialEq, Eq, PartialOrd, Ord, Hash, Default)]
pub struct ThemeMask(pub u128);

/// The names of the themes, each at the index of its bit.
pub const THEME_NAMES: [&'static str; 73] = [
    "crushing",
    "hangingPiece",
    "long",
    "middlegame",
    "advantage",
    "endgame",
    "short",
    "rookEndgame",
    "fork",
    "pawnEndgame",
    "mate",
    "mateIn2",
    "operaMate",
    "master",
    "interference",
    "kingsideAttack",
    "veryLong",
    "zugzwang",
    "exposedKing",
    "skewer",
    "mateIn1",
    "oneMove",
    "opening",
    "pin",
    "quietMove",
    "backRankMate",
    "discoveredAttack",
    "sacrifice",
    "bishopEndgame",
    "bodenMate",
    "deflection",
    "morphysMate",
    "smotheredMate",
    "advancedPawn",
    "attraction",
    "promotion",
    "mateIn3",
    "masterVsMaster",
    "superGM",
    "queensideAttack",
    "knightEndgame",
    "cornerMate",
    "defensiveMove",
    "queenEndgame",
    "attackingF2F7",
    "queenRookEndgame",
    "clearance",
    "intermezzo",
    "equality",
    "enPassant",
    "pillsburysMate",
    "trappedPiece",
    "hookMate",
    "discoveredCheck",
    "xRayAttack",
    "capturingDefender",
    "swallowstailMate",
    "doubleBishopMate",
    "doubleCheck",
    "arabianMate",
    "mateIn4",
    "epauletteMate",
    "vukovicMate",
    "dovetailMate",
    "triangleMate",
    "balestraMate",
    "collinearMove",
    "killBoxMate",
    "anastasiaMate",
    "blindSwineMate",
    "castling",
    "mateIn5",
    "underPromotion",
];

/// The name of a theme.
pub open spec fn theme_name(i: int) -> Seq<char> {
    THEME_NAMES@[i]@
}

/// Whether a bit is in a mask.
pub open spec fn in_mask(mask: u128, bit: int) -> bool {
    (mask >> (bit as u128)) & 1 == 1
}

/// The first theme from `n` on that has a name with these small letters.
pub open spec fn theme_from(small: Seq<char>, n: nat) -> Option<nat>
    decreases 73 - n,
{
    if n >= 73 {
        None
    } else if lower(theme_name(n as int)) == small {
        Some(n)
    } else {
        theme_from(small, n + 1)
    }
}

/// The theme that a text names: spaces around it and the case of ASCII letters
/// do not count.
pub open spec fn theme_of(name: Seq<char>) -> Option<nat> {
    theme_from(lower(trimmed(name)), 0)
}

/// A mask that holds exactly the themes that a list of texts names.
pub open spec fn marks_names(mask: u128, names: Seq<Seq<char>>) -> bool {
    forall|b: int| 0 <= b < 128 ==> #[trigger] in_mask(mask, b) == names_theme(names, b)
}

/// Whether one of the texts names a theme.
pub open spec fn names_theme(names: Seq<Seq<char>>, b: int) -> bool {
    exists|k: int| 0 <= k < names.len() && #[trigger] theme_of(names[k]) == Some(b as nat)
}

/// A mask that holds exactly the themes whose numbers, counted from one, are in a
/// list.
pub open spec fn marks_numbers(mask: u128, ids: Seq<u16>) -> bool {
    forall|b: int| 0 <= b < 128 ==> #[trigger] in_mask(mask, b) == lists_number(ids, b)
}

/// Whether a list holds the number of a theme, counted from one.
pub open spec fn lists_number(ids: Seq<u16>, b: int) -> bool {
    exists|k: int| 0 <= k < ids.len() && #[trigger] ids[k] == b + 1
}

/// The numbers that the fields of a text give; what is no 16-bit number gives
/// none.
pub open spec fn field_numbers(fs: Seq<Seq<char>>) -> Seq<u16>
    decreases fs.len(),
{
    if fs.len() == 0 {
        Seq::empty()
    } else {
        let init = field_numbers(fs.drop_last());
        match number(fs.last(), 65535) {
            Some(n) => init.push(n as u16),
            None => init,
        }
    }
}

/// The names of the themes of a mask, of the first `n` themes.
pub open spec fn names_upto(mask: u128, n: nat) -> Seq<Seq<char>>
    decreases n,
{
    if n == 0 {
        Seq::empty()
    } else if in_mask(mask, n - 1) {
        names_upto(mask, (n - 1) as nat).push(theme_name(n - 1))
    } else {
        names_upto(mask, (n - 1) as nat)
    }
}

/// The names of the themes of a mask.
pub open spec fn mask_names(mask: u128) -> Seq<Seq<char>> {
    names_upto(mask, 73)
}

/// The texts of a list.
pub open spec fn strs(v: Seq<&str>) -> Seq<Seq<char>> {
    Seq::new(v.len(), |i: int| v[i]@)
}

proof fn lemma_set(mask: u128, i: u128, j: u128)
    by (bit_vector)
    requires
        i < 128,
        j < 128,
    ensures
        ((mask | (1u128 << i)) >> j) & 1 == 1 <==> (((mask >> j) & 1 == 1) || i == j),
{
}

proof fn lemma_test(mask: u128, i: u128)
    by (bit_vector)
    requires
        i < 128,
    ensures
        (mask & (1u128 << i)) != 0 <==> (mask >> i) & 1 == 1,
{
}

proof fn lemma_and(a: u128, b: u128, j: u128)
    by (bit_vector)
    requires
        j < 128,
    ensures
        ((a & b) >> j) & 1 == 1 <==> ((a >> j) & 1 == 1 && (b >> j) & 1 == 1),
{
}

/// No theme is in the empty mask.
pub proof fn lemma_none(j: int)
    requires
        0 <= j < 128,
    ensures
        !in_mask(0, j),
{
    let i = j as u128;
    assert((0u128 >> i) & 1 != 1) by (bit_vector)
        requires
            i < 128,
    ;
}

#[verifier::rlimit(40)]
proof fn lemma_shift_step(x: u128, n: u128)
    by (bit_vector)
    requires
        n < 127,
    ensures
        x >> n == (((x >> ((n + 1) as u128)) << 1u128) | ((x >> n) & 1)),
{
}

proof fn lemma_top(x: u128)
    by (bit_vector)
    ensures
        (x >> 127u128) == (x >> 127u128) & 1,
        x >> 0u128 == x,
{
}

proof fn lemma_one_bit(x: u128)
    by (bit_vector)
    ensures
        x & 1 == 0 || x & 1 == 1,
{
}

proof fn lemma_same_above(x: u128, y: u128, n: u128)
    requires
        n < 128,
        forall|b: int| 0 <= b < 128 ==> #[trigger] in_mask(x, b) == in_mask(y, b),
    ensures
        x >> n == y >> n,
    decreases 128 - n,
{
    lemma_one_bit(x >> n);
    lemma_one_bit(y >> n);
    assert(in_mask(x, n as int) == in_mask(y, n as int));
    if n == 127 {
        lemma_top(x);
        lemma_top(y);
    } else {
        lemma_same_above(x, y, (n + 1) as u128);
        lemma_shift_step(x, n);
        lemma_shift_step(y, n);
    }
}

/// Masks that hold the same themes are the same.
pub proof fn lemma_same_themes(x: u128, y: u128)
    requires
        forall|b: int| 0 <= b < 128 ==> #[trigger] in_mask(x, b) == in_mask(y, b),
    ensures
        x == y,
{
    lemma_same_above(x, y, 0);
    lemma_top(x);
    lemma_top(y);
}

/// What `theme_from` finds.
pub proof fn lemma_theme_from(small: Seq<char>, n: nat)
    requires
        n <= 73,
    ensures
        match theme_from(small, n) {
            Some(k) => n <= k < 73 && lower(theme_name(k as int)) == small && (forall|j: int|
                n <= j < k ==> lower(#[trigger] theme_name(j)) != small),
            None => forall|j: int| n <= j < 73 ==> lower(#[trigger] theme_name(j)) != small,
        },
    decreases 73 - n,
{
    if n < 73 {
        lemma_theme_from(small, n + 1);
    }
}

impl ThemeMask {
    /// The mask without themes.
    pub fn empty() -> (r: Self)
        ensures
            r.0 == 0,
    {
        ThemeMask(0)
    }

    /// A mask of its bits.
    pub fn new(raw: u128) -> (r: Self)
        ensures
            r.0 == raw,
    {
        ThemeMask(raw)
    }

    /// Whether the mask holds no theme.
    pub fn is_empty(&self) -> (r: bool)
        ensures
            r == (self.0 == 0),
            r == (forall|b: int| 0 <= b < 128 ==> !#[trigger] in_mask(self.0, b)),
    {
        proof {
            assert forall|b: int| 0 <= b < 128 implies !#[trigger] in_mask(0, b) by {
                lemma_none(b);
            }
            if forall|b: int| 0 <= b < 128 ==> !#[trigger] in_mask(self.0, b) {
                lemma_same_themes(self.0, 0);
            }
        }
        self.0 == 0
    }

    /// Adds a theme; there are 128.
    pub fn set_bit(&mut self, bit_index: u8)
        ensures
            bit_index >= 128 ==> *final(self) == *old(self),
            forall|b: int|
                0 <= b < 128 ==> #[trigger] in_mask(final(self).0, b) == (in_mask(old(self).0, b) || b
                    == bit_index),
    {
        if bit_index < 128 {
            let i: u128 = bit_index as u128;
            let ghost was = self.0;
            self.0 = self.0 | (1u128 << i);
            assert forall|b: int| 0 <= b < 128 implies #[trigger] in_mask(self.0, b) == (in_mask(was, b)
                || b == bit_index) by {
                lemma_set(was, i, b as u128);
            }
        }
    }

    /// Whether the mask holds a theme.
    pub fn has_bit(&self, bit_index: u8) -> (r: bool)
        ensures
            r == (bit_index < 128 && in_mask(self.0, bit_index as int)),
    {
        if bit_index < 128 {
            let i: u128 = bit_index as u128;
            proof {
                lemma_test(self.0, i);
            }
            (self.0 & (1u128 << i)) != 0
        } else {
            false
        }
    }

    /// Whether the mask holds every theme of another.
    pub fn contains_all(&self, other: ThemeMask) -> (r: bool)
        ensures
            r == mask_all(self.0, other.0),
    {
        let both: u128 = self.0 & other.0;
        proof {
            assert forall|b: int| 0 <= b < 128 implies #[trigger] in_mask(both, b) == (in_mask(self.0, b)
                && in_mask(other.0, b)) by {
                lemma_and(self.0, other.0, b as u128);
            }
            if mask_all(self.0, other.0) {
                lemma_same_themes(both, other.0);
            } else {
                let b = choose|b: int| 0 <= b < 128 && #[trigger] in_mask(other.0, b) && !in_mask(self.0, b);
                assert(in_mask(both, b) != in_mask(other.0, b));
            }
        }
        both == other.0
    }

    /// Whether the mask holds a theme of another.
    pub fn contains_any(&self, other: ThemeMask) -> (r: bool)
        ensures
            r == mask_any(self.0, other.0),
    {
        let both: u128 = self.0 & other.0;
        proof {
            assert forall|b: int| 0 <= b < 128 implies #[trigger] in_mask(both, b) == (in_mask(self.0, b)
                && in_mask(other.0, b)) by {
                lemma_and(self.0, other.0, b as u128);
            }
            assert forall|b: int| 0 <= b < 128 implies !#[trigger] in_mask(0, b) by {
                lemma_none(b);
            }
            if mask_any(self.0, other.0) {
                let b = choose|b: int| 0 <= b < 128 && #[trigger] in_mask(self.0, b) && in_mask(other.0, b);
                assert(in_mask(both, b) != in_mask(0, b));
            } else {
                assert forall|b: int| 0 <= b < 128 implies #[trigger] in_mask(both, b) == in_mask(0, b) by {
                    assert(in_mask(self.0, b) == in_mask(self.0, b));
                }
                lemma_same_themes(both, 0);
            }
        }
        both != 0
    }

    /// The bit of the theme of a name.
    pub fn theme_to_bit(name: &str) -> (r: Option<u8>)
        ensures
            match r {
                Some(b) => theme_of(name@) == Some(b as nat),
                None => theme_of(name@) is None,
            },
    {
        let chars = chars_of(name);
        Self::bit_of_chars(&chars)
    }

    /// The bit of the theme of a name.
    pub(crate) fn bit_of_chars(name: &[char]) -> (r: Option<u8>)
        ensures
            match r {
                Some(b) => theme_of(name@) == Some(b as nat) && b < 73,
                None => theme_of(name@) is None,
            },
    {
        let bare = trim(name);
        let small = to_lower(&bare);
        let mut i: usize = 0;
        while i < 73
            invariant
                i <= 73,
                small@ == lower(trimmed(name@)),
                theme_of(name@) == theme_from(small@, i as nat),
            decreases 73 - i,
        {
            let known = chars_of(THEME_NAMES[i]);
            let known_small = to_lower(&known);
            if same_chars(&known_small, &small) {
                return Some(i as u8);
            }
            i = i + 1;
        }
        None
    }

    /// The mask of a list of names; what names no theme is left out.
    pub fn from_names(names: &[&str]) -> (r: Self)
        ensures
            marks_names(r.0, strs(names@)),
    {
        let mut mask = ThemeMask(0);
        assert forall|b: int| 0 <= b < 128 implies !#[trigger] in_mask(0, b) by {
            lemma_none(b);
        }
        for i in 0..names.len()
            invariant
                marks_names(mask.0, strs(names@.take(i as int))),
        {
            let ghost was = mask.0;
            let name = names[i];
            let bit = Self::theme_to_bit(name);
            if let Some(b) = bit {
                mask.set_bit(b);
            }
            proof {
                let before = strs(names@.take(i as int));
                let after = strs(names@.take(i + 1));
                assert(after =~= before.push(name@));
                lemma_marks_push(was, mask.0, before, name@);
            }
        }
        assert(names@.take(names@.len() as int) =~= names@);
        mask
    }

    /// The mask of a list of names.
    fn from_words(names: &Vec<Vec<char>>) -> (r: Self)
        ensures
            marks_names(r.0, words(names@)),
    {
        let mut mask = ThemeMask(0);
        assert forall|b: int| 0 <= b < 128 implies !#[trigger] in_mask(0, b) by {
            lemma_none(b);
        }
        for i in 0..names.len()
            invariant
                marks_names(mask.0, words(names@.take(i as int))),
        {
            let ghost was = mask.0;
            let bit = Self::bit_of_chars(&names[i]);
            if let Some(b) = bit {
                mask.set_bit(b);
            }
            proof {
                let before = words(names@.take(i as int));
                let after = words(names@.take(i + 1));
                assert(after =~= before.push(names@[i as int]@));
                lemma_marks_push(was, mask.0, before, names@[i as int]@);
            }
        }
        assert(names@.take(names@.len() as int) =~= names@);
        mask
    }

    /// The mask of a list of theme numbers counted from one; numbers above 128 and
    /// zero are left out.
    pub fn from_1based_ids(ids: &[u16]) -> (r: Self)
        ensures
            marks_numbers(r.0, ids@),
    {
        let mut mask = ThemeMask(0);
        assert forall|b: int| 0 <= b < 128 implies !#[trigger] in_mask(0, b) by {
            lemma_none(b);
        }
        for i in 0..ids.len()
            invariant
                marks_numbers(mask.0, ids@.take(i as int)),
        {
            let ghost was = mask.0;
            let id: u16 = ids[i];
            if id >= 1 && id <= 128 {
                mask.set_bit((id - 1) as u8);
            }
            proof {
                let before = ids@.take(i as int);
                let after = ids@.take(i + 1);
                assert(after =~= before.push(id));
                assert forall|b: int| 0 <= b < 128 implies #[trigger] in_mask(mask.0, b)
                    == lists_number(after, b) by {
                    assert(in_mask(was, b) == lists_number(before, b));
                    if lists_number(before, b) {
                        let k = choose|k: int| 0 <= k < before.len() && #[trigger] before[k] == b + 1;
                        assert(after[k] == b + 1);
                    }
                    if id == b + 1 {
                        assert(after[i as int] == b + 1);
                    }
                    if lists_number(after, b) && id != b + 1 {
                        let k = choose|k: int| 0 <= k < after.len() && #[trigger] after[k] == b + 1;
                        assert(before[k] == b + 1);
                    }
                }
            }
        }
        assert(ids@.take(ids@.len() as int) =~= ids@);
        mask
    }

    /// The mask of a text of theme numbers counted from one, such as `1 2 3 4`.
    pub fn from_sqlite_ids_str(s: &str) -> (r: Self)
        ensures
            marks_numbers(r.0, field_numbers(fields(s@))),
    {
        let chars = chars_of(s);
        let parts = split_fields(&chars);
        let mut ids: Vec<u16> = Vec::new();
        for i in 0..parts.len()
            invariant
                words(parts@) == fields(s@),
                ids@ == field_numbers(fields(s@).take(i as int)),
        {
            proof {
                let after = fields(s@).take(i + 1);
                assert(after.drop_last() =~= fields(s@).take(i as int));
                assert(after.last() == words(parts@)[i as int]);
            }
            if let Some(id) = parse_number(&parts[i], 65535) {
                ids.push(id as u16);
            }
        }
        assert(fields(s@).take(parts@.len() as int) =~= fields(s@));
        Self::from_1based_ids(&ids)
    }

    /// The mask of a text of theme names, such as `advantage fork short`.
    pub fn from_csv_themes_str(s: &str) -> (r: Self)
        ensures
            marks_names(r.0, fields(s@)),
    {
        let chars = chars_of(s);
        let parts = split_fields(&chars);
        Self::from_words(&parts)
    }

    /// The mask of theme names with commas between them, such as `fork, endgame`.
    pub fn from_csv(s: &str) -> (r: Self)
        ensures
            marks_names(r.0, pieces(s@, ',')),
    {
        let chars = chars_of(s);
        let parts = split_on(&chars, ',');
        Self::from_words(&parts)
    }

    /// The names of the themes in the mask, in the order of the bits.
    pub fn to_theme_names(&self) -> (r: Vec<&'static str>)
        ensures
            strs(r@) == mask_names(self.0),
    {
        let mut list: Vec<&'static str> = Vec::new();
        for i in 0..73usize
            invariant
                strs(list@) == names_upto(self.0, i as nat),
        {
            if self.has_bit(i as u8) {
                list.push(THEME_NAMES[i]);
                assert(strs(list@) =~= names_upto(self.0, i as nat).push(theme_name(i as int)));
            }
        }
        list
    }
}

/// Every theme of one mask is in another.
pub open spec fn mask_all(mask: u128, other: u128) -> bool {
    forall|b: int| 0 <= b < 128 && #[trigger] in_mask(other, b) ==> in_mask(mask, b)
}

/// Some theme is in both masks.
pub open spec fn mask_any(mask: u128, other: u128) -> bool {
    exists|b: int| 0 <= b < 128 && #[trigger] in_mask(mask, b) && in_mask(other, b)
}

/// What one more name adds to a mask.
proof fn lemma_marks_push(was: u128, mask: u128, before: Seq<Seq<char>>, name: Seq<char>)
    requires
        marks_names(was, before),
        match theme_of(name) {
            Some(k) => forall|b: int|
                0 <= b < 128 ==> #[trigger] in_mask(mask, b) == (in_mask(was, b) || b == k),
            None => mask == was,
        },
    ensures
        marks_names(mask, before.push(name)),
{
    let after = before.push(name);
    assert forall|b: int| 0 <= b < 128 implies #[trigger] in_mask(mask, b) == names_theme(after, b) by {
        assert(in_mask(was, b) == names_theme(before, b));
        if names_theme(before, b) {
            let k = choose|k: int|
                0 <= k < before.len() && #[trigger] theme_of(before[k]) == Some(b as nat);
            assert(theme_of(after[k]) == Some(b as nat));
        }
        if theme_of(name) == Some(b as nat) {
            assert(theme_of(after[before.len() as int]) == Some(b as nat));
        }
        if names_theme(after, b) && theme_of(name) != Some(b as nat) {
            let k = choose|k: int|
                0 <= k < after.len() && #[trigger] theme_of(after[k]) == Some(b as nat);
            assert(theme_of(before[k]) == Some(b as nat));
        }
    }
}

/// The theme that small letters name, told from their number and a few of them.
spec fn place(s: Seq<char>) -> int {
    if s.len() == 3 {
        23
    } else if s.len() == 4 {
        if s[0] == 'l' {
            2
        } else if s[0] == 'f' {
            8
        } else {
            10
        }
    } else if s.len() == 5 {
        6
    } else if s.len() == 6 {
        if s[0] == 'm' {
            13
        } else {
            19
        }
    } else if s.len() == 7 {
        if s[6] == 'e' {
            if s[0] == 'e' {
                5
            } else {
                21
            }
        } else if s[6] == '2' {
            11
        } else if s[6] == '1' {
            20
        } else if s[6] == 'g' {
            22
        } else if s[6] == '3' {
            36
        } else if s[6] == 'm' {
            38
        } else if s[6] == '4' {
            60
        } else {
            71
        }
    } else if s.len() == 8 {
        if s[1] == 'r' {
            0
        } else if s[1] == 'e' {
            16
        } else if s[1] == 'u' {
            17
        } else if s[1] == 'q' {
            48
        } else if s[1] == 'o' {
            52
        } else {
            70
        }
    } else if s.len() == 9 {
        if s[0] == 'a' {
            4
        } else if s[0] == 'o' {
            12
        } else if s[0] == 'q' {
            24
        } else if s[0] == 's' {
            27
        } else if s[0] == 'b' {
            29
        } else if s[0] == 'p' {
            35
        } else if s[0] == 'c' {
            46
        } else {
            49
        }
    } else if s.len() == 10 {
        if s[0] == 'm' {
            3
        } else if s[0] == 'd' {
            30
        } else if s[0] == 'a' {
            34
        } else if s[0] == 'c' {
            41
        } else if s[0] == 'i' {
            47
        } else {
            54
        }
    } else if s.len() == 11 {
        if s[0] == 'r' {
            7
        } else if s[0] == 'p' {
            9
        } else if s[0] == 'e' {
            18
        } else if s[0] == 'm' {
            31
        } else if s[0] == 'd' {
            58
        } else if s[0] == 'a' {
            59
        } else if s[0] == 'v' {
            62
        } else {
            67
        }
    } else if s.len() == 12 {
        if s[2] == 'n' {
            1
        } else if s[2] == 't' {
            14
        } else if s[2] == 'c' {
            25
        } else if s[2] == 'v' {
            if s[0] == 'a' {
                33
            } else {
                63
            }
        } else if s[2] == 'e' {
            43
        } else if s[2] == 'a' {
            51
        } else if s[2] == 'i' {
            64
        } else {
            65
        }
    } else if s.len() == 13 {
        if s[3] == 'h' {
            28
        } else if s[3] == 't' {
            32
        } else if s[3] == 'g' {
            40
        } else if s[3] == 'e' {
            42
        } else if s[3] == 'a' {
            44
        } else if s[3] == 'u' {
            61
        } else if s[3] == 'l' {
            66
        } else {
            68
        }
    } else if s.len() == 14 {
        if s[0] == 'k' {
            15
        } else if s[0] == 'm' {
            37
        } else if s[0] == 'p' {
            50
        } else if s[0] == 'b' {
            69
        } else {
            72
        }
    } else if s.len() == 15 {
        if s[0] == 'q' {
            39
        } else {
            53
        }
    } else if s.len() == 16 {
        if s[1] == 'i' {
            26
        } else if s[1] == 'u' {
            45
        } else if s[1] == 'w' {
            56
        } else {
            57
        }
    } else {
        55
    }
}

proof fn lemma_name(i: int)
    requires
        0 <= i < 73,
    ensures
        theme_name(i).len() > 0,
        'a' <= theme_name(i)[0] <= 'z',
        no_white(theme_name(i)),
        place(lower(theme_name(i))) == i,
{
    if i == 0 {
        reveal_strlit("crushing");
    }
    if i == 1 {
        reveal_strlit("hangingPiece");
    }
    if i == 2 {
        reveal_strlit("long");
    }
    if i == 3 {
        reveal_strlit("middlegame");
    }
    if i == 4 {
        reveal_strlit("advantage");
    }
    if i == 5 {
        reveal_strlit("endgame");
    }
    if i == 6 {
        reveal_strlit("short");
    }
    if i == 7 {
        reveal_strlit("rookEndgame");
    }
    if i == 8 {
        reveal_strlit("fork");
    }
    if i == 9 {
        reveal_strlit("pawnEndgame");
    }
    if i == 10 {
        reveal_strlit("mate");
    }
    if i == 11 {
        reveal_strlit("mateIn2");
    }
    if i == 12 {
        reveal_strlit("operaMate");
    }
    if i == 13 {
        reveal_strlit("master");
    }
    if i == 14 {
        reveal_strlit("interference");
    }
    if i == 15 {
        reveal_strlit("kingsideAttack");
    }
    if i == 16 {
        reveal_strlit("veryLong");
    }
    if i == 17 {
        reveal_strlit("zugzwang");
    }
    if i == 18 {
        reveal_strlit("exposedKing");
    }
    if i == 19 {
        reveal_strlit("skewer");
    }
    if i == 20 {
        reveal_strlit("mateIn1");
    }
    if i == 21 {
        reveal_strlit("oneMove");
    }
    if i == 22 {
        reveal_strlit("opening");
    }
    if i == 23 {
        reveal_strlit("pin");
    }
    if i == 24 {
        reveal_strlit("quietMove");
    }
    if i == 25 {
        reveal_strlit("backRankMate");
    }
    if i == 26 {
        reveal_strlit("discoveredAttack");
    }
    if i == 27 {
        reveal_strlit("sacrifice");
    }
    if i == 28 {
        reveal_strlit("bishopEndgame");
    }
    if i == 29 {
        reveal_strlit("bodenMate");
    }
    if i == 30 {
        reveal_strlit("deflection");
    }
    if i == 31 {
        reveal_strlit("morphysMate");
    }
    if i == 32 {
        reveal_strlit("smotheredMate");
    }
    if i == 33 {
        reveal_strlit("advancedPawn");
    }
    if i == 34 {
        reveal_strlit("attraction");
    }
    if i == 35 {
        reveal_strlit("promotion");
    }
    if i == 36 {
        reveal_strlit("mateIn3");
    }
    if i == 37 {
        reveal_strlit("masterVsMaster");
    }
    if i == 38 {
        reveal_strlit("superGM");
    }
    if i == 39 {
        reveal_strlit("queensideAttack");
    }
    if i == 40 {
        reveal_strlit("knightEndgame");
    }
    if i == 41 {
        reveal_strlit("cornerMate");
    }
    if i == 42 {
        reveal_strlit("defensiveMove");
    }
    if i == 43 {
        reveal_strlit("queenEndgame");
    }
    if i == 44 {
        reveal_strlit("attackingF2F7");
    }
    if i == 45 {
        reveal_strlit("queenRookEndgame");
    }
    if i == 46 {
        reveal_strlit("clearance");
    }
    if i == 47 {
        reveal_strlit("intermezzo");
    }
    if i == 48 {
        reveal_strlit("equality");
    }
    if i == 49 {
        reveal_strlit("enPassant");
    }
    if i == 50 {
        reveal_strlit("pillsburysMate");
    }
    if i == 51 {
        reveal_strlit("trappedPiece");
    }
    if i == 52 {
        reveal_strlit("hookMate");
    }
    if i == 53 {
        reveal_strlit("discoveredCheck");
    }
    if i == 54 {
        reveal_strlit("xRayAttack");
    }
    if i == 55 {
        reveal_strlit("capturingDefender");
    }
    if i == 56 {
        reveal_strlit("swallowstailMate");
    }
    if i == 57 {
        reveal_strlit("doubleBishopMate");
    }
    if i == 58 {
        reveal_strlit("doubleCheck");
    }
    if i == 59 {
        reveal_strlit("arabianMate");
    }
    if i == 60 {
        reveal_strlit("mateIn4");
    }
    if i == 61 {
        reveal_strlit("epauletteMate");
    }
    if i == 62 {
        reveal_strlit("vukovicMate");
    }
    if i == 63 {
        reveal_strlit("dovetailMate");
    }
    if i == 64 {
        reveal_strlit("triangleMate");
    }
    if i == 65 {
        reveal_strlit("balestraMate");
    }
    if i == 66 {
        reveal_strlit("collinearMove");
    }
    if i == 67 {
        reveal_strlit("killBoxMate");
    }
    if i == 68 {
        reveal_strlit("anastasiaMate");
    }
    if i == 69 {
        reveal_strlit("blindSwineMate");
    }
    if i == 70 {
        reveal_strlit("castling");
    }
    if i == 71 {
        reveal_strlit("mateIn5");
    }
    if i == 72 {
        reveal_strlit("underPromotion");
    }
}

/// Every theme is found by its name.
pub proof fn law_theme_names(i: int)
    requires
        0 <= i < 73,
    ensures
        theme_of(theme_name(i)) == Some(i as nat),
{
    let name = theme_name(i);
    lemma_name(i);
    lemma_trimmed_word(name);
    lemma_theme_from(lower(name), 0);
    let k = theme_from(lower(name), 0);
    match k {
        Some(k) => {
            lemma_name(k as int);
        },
        None => {
            assert(lower(theme_name(i)) != lower(name));
        },
    }
}

proof fn lemma_upto(mask: u128, n: nat)
    requires
        n <= 73,
    ensures
        forall|k: int|
            0 <= k < names_upto(mask, n).len() ==> {
                &&& #[trigger] names_upto(mask, n)[k].len() > 0
                &&& 'a' <= names_upto(mask, n)[k][0] <= 'z'
                &&& no_white(names_upto(mask, n)[k])
                &&& theme_of(names_upto(mask, n)[k]) is Some
            },
        forall|b: int|
            0 <= b < 128 ==> #[trigger] names_theme(names_upto(mask, n), b) == (b < n && in_mask(
                mask,
                b,
            )),
    decreases n,
{
    if n > 0 {
        let m = (n - 1) as nat;
        lemma_upto(mask, m);
        lemma_name(n - 1);
        law_theme_names(n - 1);
        let before = names_upto(mask, m);
        let after = names_upto(mask, n);
        assert forall|b: int| 0 <= b < 128 implies #[trigger] names_theme(after, b) == (b < n
            && in_mask(mask, b)) by {
            assert(names_theme(before, b) == (b < m && in_mask(mask, b)));
            if in_mask(mask, n - 1) {
                if names_theme(before, b) {
                    let k = choose|k: int|
                        0 <= k < before.len() && #[trigger] theme_of(before[k]) == Some(b as nat);
                    assert(theme_of(after[k]) == Some(b as nat));
                }
                if b == n - 1 {
                    assert(theme_of(after[before.len() as int]) == Some(b as nat));
                }
                if names_theme(after, b) {
                    let k = choose|k: int|
                        0 <= k < after.len() && #[trigger] theme_of(after[k]) == Some(b as nat);
                    if k < before.len() {
                        assert(theme_of(before[k]) == Some(b as nat));
                    }
                }
            }
        }
    }
}

/// The names of a mask give the mask back, its themes without a name left out.
pub proof fn law_mask_round_trip(mask: u128, back: u128)
    requires
        marks_names(back, mask_names(mask)),
    ensures
        forall|b: int| 0 <= b < 128 ==> #[trigger] in_mask(back, b) == (b < 73 && in_mask(mask, b)),
        (forall|b: int| 73 <= b < 128 ==> !#[trigger] in_mask(mask, b)) ==> back == mask,
{
    lemma_upto(mask, 73);
    assert forall|b: int| 0 <= b < 128 implies #[trigger] in_mask(back, b) == (b < 73 && in_mask(
        mask,
        b,
    )) by {
        assert(names_theme(mask_names(mask), b) == (b < 73 && in_mask(mask, b)));
    }
    if forall|b: int| 73 <= b < 128 ==> !#[trigger] in_mask(mask, b) {
        lemma_same_themes(back, mask);
    }
}

/// The names of a mask, joined by spaces, are read back as the same names.
pub proof fn law_names_text(mask: u128)
    ensures
        fields(joined(mask_names(mask), seq![' '])) == mask_names(mask),
{
    lemma_upto(mask, 73);
    lemma_fields_joined(mask_names(mask));
}

/// Every name of a mask names a theme.
pub proof fn lemma_names_are_known(mask: u128)
    ensures
        forall|k: int|
            0 <= k < mask_names(mask).len() ==> theme_of(#[trigger] mask_names(mask)[k]) is Some,
{
    lemma_upto(mask, 73);
}

/// A mask has the name of a theme if and only if it has the bit of the theme, and it
/// has no other names.
pub proof fn law_names_of_a_mask(mask: u128, b: int)
    requires
        0 <= b < 73,
    ensures
        mask_names(mask).contains(theme_name(b)) <==> (mask >> (b as u128)) & 1 == 1,
        forall|k: int|
            0 <= k < mask_names(mask).len() ==> exists|t: int|
                0 <= t < 73 && #[trigger] theme_name(t) == #[trigger] mask_names(mask)[k],
        mask_names(mask).no_duplicates(),
{
    let names = mask_names(mask);
    lemma_upto(mask, 73);
    lemma_listed(mask, 73);
    law_theme_names(b);
    assert(names_theme(names, b) == in_mask(mask, b));
    if names.contains(theme_name(b)) {
        let k = choose|k: int| 0 <= k < names.len() && names[k] == theme_name(b);
        assert(theme_of(names[k]) == Some(b as nat));
        assert(names_theme(names, b));
    }
}

proof fn lemma_listed(mask: u128, n: nat)
    requires
        n <= 73,
    ensures
        forall|b: int|
            0 <= b < n && #[trigger] in_mask(mask, b) ==> names_upto(mask, n).contains(
                theme_name(b),
            ),
        forall|k: int|
            0 <= k < names_upto(mask, n).len() ==> exists|t: int|
                0 <= t < n && #[trigger] theme_name(t) == #[trigger] names_upto(mask, n)[k],
        names_upto(mask, n).no_duplicates(),
    decreases n,
{
    if n > 0 {
        let m = (n - 1) as nat;
        lemma_listed(mask, m);
        let before = names_upto(mask, m);
        let after = names_upto(mask, n);
        assert forall|b: int| 0 <= b < n && #[trigger] in_mask(mask, b) implies after.contains(
            theme_name(b),
        ) by {
            if b < m {
                let k = choose|k: int| 0 <= k < before.len() && before[k] == theme_name(b);
                assert(after[k] == theme_name(b));
            } else {
                assert(after[before.len() as int] == theme_name(b));
            }
        }
        assert forall|k: int| 0 <= k < after.len() implies exists|t: int|
            0 <= t < n && #[trigger] theme_name(t) == #[trigger] after[k] by {
            if k < before.len() {
                let t = choose|t: int| 0 <= t < m && #[trigger] theme_name(t) == before[k];
                assert(theme_name(t) == after[k]);
            } else {
                assert(theme_name(n - 1) == after[k]);
            }
        }
        assert(after.no_duplicates()) by {
            if in_mask(mask, n - 1) {
                assert forall|k: int| 0 <= k < before.len() implies before[k] != theme_name(
                    n - 1,
                ) by {
                    let t = choose|t: int| 0 <= t < m && #[trigger] theme_name(t) == before[k];
                    law_theme_names(t);
                    law_theme_names(n - 1);
                }
            }
        }
    }
}

/// A name stands for the same theme whatever the case of its letters and the white
/// space around it.
pub proof fn law_case_of_a_name(a: Seq<char>, b: Seq<char>)
    requires
        lower(trimmed(a)) == lower(trimmed(b)),
    ensures
        theme_of(a) == theme_of(b),
{
}

/// A text of digits names no theme.
pub proof fn lemma_no_theme(s: Seq<char>)
    requires
        s.len() > 0,
        forall|i: int| 0 <= i < s.len() ==> '0' <= #[trigger] s[i] <= '9',
    ensures
        theme_of(s) is None,
{
    assert(no_white(s));
    lemma_trimmed_word(s);
    lemma_theme_from(lower(s), 0);
    match theme_of(s) {
        Some(k) => {
            lemma_name(k as int);
            assert(lower(theme_name(k as int))[0] == lower(s)[0]);
            assert(lower(s)[0] == s[0]);
        },
        None => {},
    }
}

/// Masks with the same themes that have names have the same names.
pub proof fn lemma_same_names(a: u128, b: u128, n: nat)
    requires
        n <= 73,
        forall|k: int| 0 <= k < n ==> #[trigger] in_mask(a, k) == in_mask(b, k),
    ensures
        names_upto(a, n) == names_upto(b, n),
    decreases n,
{
    if n > 0 {
        lemma_same_names(a, b, (n - 1) as nat);
        assert(in_mask(a, n - 1) == in_mask(b, n - 1));
    }
}

/// A list of names fixes the mask.
pub proof fn law_names_fix_mask(a: u128, b: u128, names: Seq<Seq<char>>)
    requires
        marks_names(a, names),
        marks_names(b, names),
    ensures
        a == b,
{
    assert forall|i: int| 0 <= i < 128 implies #[trigger] in_mask(a, i) == in_mask(b, i) by {
        assert(in_mask(a, i) == names_theme(names, i));
        assert(in_mask(b, i) == names_theme(names, i));
    }
    lemma_same_themes(a, b);
}

} // verus!
