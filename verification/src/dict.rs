//! Theme dictionaries: every theme mask that occurs, once, in the order of the
//! first occurrences.

use std::collections::HashMap;
use vstd::prelude::*;

use crate::ingest::{models, ItemModel, ParsedItem};
use crate::theme::ThemeMask;

verus! {

/// The masks of parsed puzzles.
pub open spec fn item_masks(items: Seq<ItemModel>) -> Seq<u128> {
    items.map_values(|m: ItemModel| m.mask)
}

/// The distinct masks of a list, in the order of their first occurrences.
pub open spec fn distinct(masks: Seq<u128>) -> Seq<ThemeMask>
    decreases masks.len(),
{
    if masks.len() == 0 {
        Seq::empty()
    } else {
        let init = distinct(masks.drop_last());
        if init.contains(ThemeMask(masks.last())) {
            init
        } else {
            init.push(ThemeMask(masks.last()))
        }
    }
}

/// The place of a mask in a dictionary.
pub open spec fn place_of(dict: Seq<ThemeMask>, mask: u128) -> nat {
    dict.index_of(ThemeMask(mask)) as nat
}

/// The theme dictionary of parsed puzzles.
pub open spec fn dict_of(items: Seq<ItemModel>) -> Seq<ThemeMask> {
    distinct(item_masks(items))
}

/// The masks of a dictionary are distinct, there are at most as many as in the
/// list, and every mask of the list is there.
pub proof fn lemma_distinct(masks: Seq<u128>)
    ensures
        distinct(masks).len() <= masks.len(),
        distinct(masks).no_duplicates(),
        forall|i: int|
            0 <= i < masks.len() ==> distinct(masks).contains(ThemeMask(#[trigger] masks[i])),
        forall|k: int|
            0 <= k < distinct(masks).len() ==> masks.contains((#[trigger] distinct(masks)[k]).0),
    decreases masks.len(),
{
    if masks.len() > 0 {
        let init = masks.drop_last();
        lemma_distinct(init);
        let before = distinct(init);
        let after = distinct(masks);
        let last = ThemeMask(masks.last());
        assert forall|i: int| 0 <= i < masks.len() implies after.contains(
            ThemeMask(#[trigger] masks[i]),
        ) by {
            if i < init.len() {
                assert(before.contains(ThemeMask(init[i])));
                let k = choose|k: int| 0 <= k < before.len() && before[k] == ThemeMask(init[i]);
                assert(after[k] == before[k]);
            } else if !before.contains(last) {
                assert(after[before.len() as int] == last);
            }
        }
        assert forall|k: int| 0 <= k < after.len() implies masks.contains((#[trigger] after[k]).0) by {
            if k < before.len() {
                assert(init.contains(before[k].0));
                let j = choose|j: int| 0 <= j < init.len() && init[j] == before[k].0;
                assert(masks[j] == before[k].0);
            } else {
                assert(masks[masks.len() - 1] == after[k].0);
            }
        }
    }
}

/// A part of a list has no more distinct masks than the list.
proof fn lemma_distinct_grows(masks: Seq<u128>, n: int)
    requires
        0 <= n <= masks.len(),
    ensures
        distinct(masks.take(n)).len() <= distinct(masks).len(),
    decreases masks.len(),
{
    if n < masks.len() {
        lemma_distinct_grows(masks.drop_last(), n);
        assert(masks.drop_last().take(n) =~= masks.take(n));
    } else {
        assert(masks.take(n) =~= masks);
    }
}

/// The place of a mask of the list holds the mask.
pub proof fn lemma_place(masks: Seq<u128>, i: int)
    requires
        0 <= i < masks.len(),
    ensures
        place_of(distinct(masks), masks[i]) < distinct(masks).len(),
        distinct(masks)[place_of(distinct(masks), masks[i]) as int] == ThemeMask(masks[i]),
{
    lemma_distinct(masks);
    assert(distinct(masks).contains(ThemeMask(masks[i])));
}

/// Distinct masks, and a map from each of them to its place.
pub open spec fn places_fit(masks: Seq<ThemeMask>, places: Map<u128, u32>) -> bool {
    &&& masks.no_duplicates()
    &&& masks.len() <= 0xFFFF_FFFF
    &&& forall|k: int|
        0 <= k < masks.len() ==> places.contains_key((#[trigger] masks[k]).0) && places[masks[k].0]
            == k
    &&& forall|m: u128|
        (#[trigger] places.contains_key(m)) ==> places[m] < masks.len() && masks[places[m] as int]
            == ThemeMask(m)
}

/// A theme dictionary with the place of each mask.
pub struct ThemeDict {
    pub masks: Vec<ThemeMask>,
    pub places: HashMap<u128, u32>,
}

impl ThemeDict {
    /// The places are those of the masks, and there are no others.
    pub open spec fn wf(&self) -> bool {
        places_fit(self.masks@, self.places@)
    }

    /// The dictionary of parsed puzzles; none where it has more masks than 32 bits
    /// count.
    pub fn build(items: &Vec<ParsedItem>) -> (r: Option<Self>)
        ensures
            match r {
                Some(d) => d.wf() && d.masks@ == dict_of(models(items@)),
                None => dict_of(models(items@)).len() > 0xFFFF_FFFF,
            },
    {
        broadcast use vstd::std_specs::hash::group_hash_axioms;

        let ghost all = item_masks(models(items@));
        let mut masks: Vec<ThemeMask> = Vec::new();
        let mut places: HashMap<u128, u32> = HashMap::new();
        for i in 0..items.len()
            invariant
                all == item_masks(models(items@)),
                places_fit(masks@, places@),
                masks@ == distinct(all.take(i as int)),
        {
            broadcast use vstd::std_specs::hash::group_hash_axioms;

            let mask: u128 = items[i].theme_mask.0;
            assert(all.take(i + 1).drop_last() =~= all.take(i as int));
            assert(all.take(i + 1).last() == mask);
            if !places.contains_key(&mask) {
                let ghost before = masks@;
                let ghost had = places@;
                if masks.len() as u64 >= 0xFFFF_FFFF {
                    proof {
                        if before.contains(ThemeMask(mask)) {
                            let k = choose|k: int|
                                0 <= k < before.len() && before[k] == ThemeMask(mask);
                            assert(had.contains_key(before[k].0));
                        }
                        lemma_distinct_grows(all, i + 1);
                    }
                    return None;
                }
                let id: u32 = masks.len() as u32;
                masks.push(ThemeMask(mask));
                places.insert(mask, id);
                proof {
                    assert(masks@ =~= before.push(ThemeMask(mask)));
                    assert(places@ =~= had.insert(mask, id));
                    if before.contains(ThemeMask(mask)) {
                        let k = choose|k: int| 0 <= k < before.len() && before[k] == ThemeMask(mask);
                        assert(had.contains_key(before[k].0));
                    }
                    assert forall|k: int| 0 <= k < masks@.len() implies places@.contains_key(
                        (#[trigger] masks@[k]).0,
                    ) && places@[masks@[k].0] == k by {
                        if k < before.len() {
                            assert(had.contains_key(before[k].0) && had[before[k].0] == k);
                            assert(before[k] != ThemeMask(mask));
                        }
                    }
                    assert forall|m: u128| (#[trigger] places@.contains_key(m)) implies places@[m]
                        < masks@.len() && masks@[places@[m] as int] == ThemeMask(m) by {
                        if m != mask {
                            assert(had.contains_key(m));
                        }
                    }
                }
            } else {
                assert(masks@[places@[mask] as int] == ThemeMask(mask));
            }
        }
        assert(all.take(items@.len() as int) =~= all);
        Some(ThemeDict { masks, places })
    }

    /// The place of a mask of the dictionary.
    pub fn place(&self, mask: ThemeMask) -> (r: u32)
        requires
            self.wf(),
            self.masks@.contains(mask),
        ensures
            r == place_of(self.masks@, mask.0),
    {
        broadcast use vstd::std_specs::hash::group_hash_axioms;

        assert(self.places@.contains_key(mask.0));
        match self.places.get(&mask.0) {
            Some(id) => {
                assert(self.masks@[*id as int] == mask);
                assert(self.masks@.index_of(mask) == *id);
                *id
            },
            None => 0,
        }
    }
}

} // verus!
