//! What holds of the registry however it is built: identifiers are stable,
//! the counters only grow, and a new name gets an identifier that no name
//! had before.

use vstd::prelude::*;
use crate::builder::{fits, merged, sighted};
use crate::sanitize::canonical_of;
use crate::registry::BankView;

verus! {

/// One sighting keeps every known name with its identifier, and lowers no
/// counter.
pub proof fn lemma_sighted_keeps(v: BankView, location_raw: Seq<char>, item_raw: Seq<char>, is_current_day: bool)
    ensures
        ({
            let w = sighted(v, location_raw, item_raw, is_current_day);
            &&& forall|name: Seq<char>| #[trigger]
                v.foods.contains_key(name) ==> w.foods.contains_key(name) && w.foods[name].id
                    == v.foods[name].id
            &&& forall|name: Seq<char>| #[trigger]
                v.locations.contains_key(name) ==> w.locations.contains_key(name)
                    && w.locations[name] == v.locations[name]
            &&& v.next_food_id <= w.next_food_id <= v.next_food_id + 1
            &&& v.next_location_id <= w.next_location_id <= v.next_location_id + 1
        }),
{
}

/// Identifiers are stable: a food that the registry knows keeps its
/// identifier through any merge, whether or not the feed names it again.
pub proof fn lemma_food_id_stable(v: BankView, feed: Seq<(Seq<char>, Seq<char>)>, is_current_day: bool, name: Seq<char>)
    requires
        v.foods.contains_key(name),
    ensures
        merged(v, feed, is_current_day).foods.contains_key(name),
        merged(v, feed, is_current_day).foods[name].id == v.foods[name].id,
    decreases feed.len(),
{
    if feed.len() > 0 {
        lemma_food_id_stable(v, feed.drop_last(), is_current_day, name);
        lemma_sighted_keeps(
            merged(v, feed.drop_last(), is_current_day),
            feed.last().0,
            feed.last().1,
            is_current_day,
        );
    }
}

/// Identifiers are stable: a location that the registry knows keeps its
/// entry through any merge, whether or not the feed names it again.
pub proof fn lemma_location_id_stable(v: BankView, feed: Seq<(Seq<char>, Seq<char>)>, is_current_day: bool, name: Seq<char>)
    requires
        v.locations.contains_key(name),
    ensures
        merged(v, feed, is_current_day).locations.contains_key(name),
        merged(v, feed, is_current_day).locations[name] == v.locations[name],
    decreases feed.len(),
{
    if feed.len() > 0 {
        lemma_location_id_stable(v, feed.drop_last(), is_current_day, name);
        lemma_sighted_keeps(
            merged(v, feed.drop_last(), is_current_day),
            feed.last().0,
            feed.last().1,
            is_current_day,
        );
    }
}

/// The registry only grows: no merge lowers a counter, and a merge raises
/// each counter by at most the number of sightings.
pub proof fn lemma_counters_grow(v: BankView, feed: Seq<(Seq<char>, Seq<char>)>, is_current_day: bool)
    ensures
        v.next_food_id <= merged(v, feed, is_current_day).next_food_id <= v.next_food_id
            + feed.len(),
        v.next_location_id <= merged(v, feed, is_current_day).next_location_id
            <= v.next_location_id + feed.len(),
    decreases feed.len(),
{
    if feed.len() > 0 {
        lemma_counters_grow(v, feed.drop_last(), is_current_day);
        lemma_sighted_keeps(
            merged(v, feed.drop_last(), is_current_day),
            feed.last().0,
            feed.last().1,
            is_current_day,
        );
    }
}

/// Merging one feed and then another is merging the two in a row, so what
/// holds of one merge holds of any sequence of merges.
pub proof fn lemma_merged_in_a_row(v: BankView, first: Seq<(Seq<char>, Seq<char>)>, second: Seq<(Seq<char>, Seq<char>)>, is_current_day: bool)
    ensures
        merged(merged(v, first, is_current_day), second, is_current_day) == merged(
            v,
            first + second,
            is_current_day,
        ),
    decreases second.len(),
{
    if second.len() == 0 {
        assert(first + second =~= first);
    } else {
        lemma_merged_in_a_row(v, first, second.drop_last(), is_current_day);
        assert((first + second).drop_last() =~= first + second.drop_last());
        assert((first + second).last() == second.last());
    }
}

/// No identifier is given twice: a food that a merge adds gets an
/// identifier at or above the counter from before the merge, which no
/// earlier food can hold.
pub proof fn lemma_new_food_ids_fresh(v: BankView, feed: Seq<(Seq<char>, Seq<char>)>, is_current_day: bool, name: Seq<char>)
    requires
        !v.foods.contains_key(name),
        merged(v, feed, is_current_day).foods.contains_key(name),
        v.next_food_id + feed.len() <= u32::MAX,
    ensures
        v.next_food_id <= merged(v, feed, is_current_day).foods[name].id < merged(
            v,
            feed,
            is_current_day,
        ).next_food_id,
    decreases feed.len(),
{
    if feed.len() > 0 {
        let before = merged(v, feed.drop_last(), is_current_day);
        lemma_counters_grow(v, feed.drop_last(), is_current_day);
        lemma_sighted_keeps(before, feed.last().0, feed.last().1, is_current_day);
        if before.foods.contains_key(name) {
            lemma_new_food_ids_fresh(v, feed.drop_last(), is_current_day, name);
        }
    }
}

/// Whether the registry knows every name that `feed` gives: the canonical
/// form of each location, and that of each item under a location that has
/// one.
pub open spec fn knows_all(v: BankView, feed: Seq<(Seq<char>, Seq<char>)>) -> bool {
    forall|i: int|
        0 <= i < feed.len() && canonical_of((#[trigger] feed[i]).0).len() > 0 ==> {
            &&& v.locations.contains_key(canonical_of(feed[i].0))
            &&& canonical_of(feed[i].1).len() > 0 ==> v.foods.contains_key(canonical_of(feed[i].1))
        }
}

/// Merging a feed of known names uses up no identifier: both counters stay
/// as they are, so that such a merge is never turned down; no name is
/// added, and every name keeps its identifier.
pub proof fn lemma_known_feed_adds_nothing(v: BankView, feed: Seq<(Seq<char>, Seq<char>)>, is_current_day: bool)
    requires
        knows_all(v, feed),
    ensures
        merged(v, feed, is_current_day).next_food_id == v.next_food_id,
        merged(v, feed, is_current_day).next_location_id == v.next_location_id,
        fits(v) ==> fits(merged(v, feed, is_current_day)),
        merged(v, feed, is_current_day).locations == v.locations,
        merged(v, feed, is_current_day).foods.dom() == v.foods.dom(),
        forall|name: Seq<char>| #[trigger]
            v.foods.contains_key(name) ==> merged(v, feed, is_current_day).foods[name].id
                == v.foods[name].id,
    decreases feed.len(),
{
    if feed.len() > 0 {
        let head = feed.drop_last();
        assert(knows_all(v, head)) by {
            assert forall|i: int|
                0 <= i < head.len() && canonical_of((#[trigger] head[i]).0).len() > 0 implies {
                &&& v.locations.contains_key(canonical_of(head[i].0))
                &&& canonical_of(head[i].1).len() > 0 ==> v.foods.contains_key(
                    canonical_of(head[i].1),
                )
            } by {
                assert(head[i] == feed[i]);
            }
        }
        lemma_known_feed_adds_nothing(v, head, is_current_day);
        let before = merged(v, head, is_current_day);
        let last = feed[feed.len() - 1];
        assert(feed.last() == last);
        let after = sighted(before, last.0, last.1, is_current_day);
        let location = canonical_of(last.0);
        let item = canonical_of(last.1);
        if location.len() > 0 {
            assert(before.locations.contains_key(location));
            if item.len() > 0 {
                assert(v.foods.contains_key(item));
                assert(before.foods.dom().contains(item));
                assert(after.foods.dom() =~= before.foods.dom());
            }
        }
    }
}

/// A sighting of the current day sets the location: after it the food
/// stands at the location of the sighting, whether the food was new or
/// known at another location.
pub proof fn lemma_today_sets_location(v: BankView, location_raw: Seq<char>, item_raw: Seq<char>)
    requires
        canonical_of(location_raw).len() > 0,
        canonical_of(item_raw).len() > 0,
    ensures
        sighted(v, location_raw, item_raw, true).foods.contains_key(canonical_of(item_raw)),
        sighted(v, location_raw, item_raw, true).foods[canonical_of(item_raw)].location
            == canonical_of(location_raw),
{
}

/// A sighting of another day leaves the location of a known food as it
/// is.
pub proof fn lemma_other_day_keeps_location(v: BankView, location_raw: Seq<char>, item_raw: Seq<char>, name: Seq<char>)
    requires
        v.foods.contains_key(name),
    ensures
        sighted(v, location_raw, item_raw, false).foods[name] == v.foods[name],
{
}

} // verus!
