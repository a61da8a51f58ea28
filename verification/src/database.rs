//! What is handed to the outside counter store: the name of the hash that
//! holds the counts, the two scripts that the store runs as indivisible
//! batches, and their arguments.

use vstd::prelude::*;
use vstd::string::StringExecFns;
use crate::registry::RegistryEntry;
use crate::votes::{Vote, VoteDelta};

verus! {

/// The hash of the store that holds one count per food name.
pub const FOODS_HASH: &'static str = "foods";

/// The script that initialises counts: its arguments are names and values
/// in turn, and it sets each name that has no count yet, so that a count
/// that is there is never overwritten.
pub const FOODS_INIT_SCRIPT: &'static str = r#"
        local key = KEYS[1]

        for i = 1, #ARGV, 2 do
            local field = ARGV[i]
            local value = ARGV[i + 1]
            if redis.call("HEXISTS", key, field) == 0 then
                redis.call("HSET", key, field, value)
            end
        end
    "#;

/// The script that applies steps: its arguments are names and directions in
/// turn, and it takes each step unless the count would fall below zero.
pub const FOODS_APPLY_SCRIPT: &'static str = r#"
        local key = KEYS[1]

        for i = 1, #ARGV, 2 do
            local field = ARGV[i]
            local direction = tonumber(ARGV[i + 1])
            local current = tonumber(redis.call("HGET", key, field) or "0")
            if current + direction >= 0 then
                redis.call("HINCRBY", key, field, direction)
            end
        end
    "#;

/// The text of the number zero.
pub open spec fn zero_text() -> Seq<char> {
    seq!['0']
}

/// The arguments of the initialising script for a list of entries: each
/// name, in order, with the text `0`.
pub fn map_keys_to_zero_vec<'a>(map: &'a Vec<RegistryEntry>) -> (pairs: Vec<(&'a str, String)>)
    ensures
        pairs.len() == map.len(),
        forall|i: int|
            0 <= i < map.len() ==> (#[trigger] pairs@[i]).0@ == map@[i].name@ && pairs@[i].1@
                == zero_text(),
{
    let mut pairs: Vec<(&'a str, String)> = Vec::new();
    let mut i: usize = 0;
    while i < map.len()
        invariant
            i <= map.len(),
            pairs.len() == i,
            forall|k: int|
                0 <= k < i ==> (#[trigger] pairs@[k]).0@ == map@[k].name@ && pairs@[k].1@
                    == zero_text(),
        decreases map.len() - i,
    {
        let zero = String::from_str("0");
        proof {
            reveal_strlit("0");
            assert(zero@ =~= zero_text());
        }
        pairs.push((map[i].name.as_str(), zero));
        i += 1;
    }
    pairs
}

/// The steps of `deltas` by food name, in order: each step whose food has
/// a name in the table, under that name. A step on an identifier beyond the
/// table or without a name is passed over.
pub open spec fn keyed(deltas: Seq<VoteDelta>, names: Seq<Seq<char>>) -> Seq<(Seq<char>, int)>
    decreases deltas.len(),
{
    if deltas.len() == 0 {
        Seq::empty()
    } else {
        let head = keyed(deltas.drop_last(), names);
        let d = deltas.last();
        if d.food_id < names.len() && names[d.food_id as int].len() > 0 {
            head.push((names[d.food_id as int], d.direction.spec_sign()))
        } else {
            head
        }
    }
}

/// The arguments of the applying script for a list of steps: each step
/// under the name of its food.
pub fn keyed_deltas(deltas: &Vec<VoteDelta>, food_id_to_name: &Vec<String>) -> (out: Vec<(String, Vote)>)
    ensures
        crate::store::steps_view(out@) == keyed(deltas@, food_id_to_name.deep_view()),
{
    let ghost names = food_id_to_name.deep_view();
    let mut out: Vec<(String, Vote)> = Vec::new();
    let mut i: usize = 0;
    assert(deltas@.take(0) =~= Seq::empty());
    while i < deltas.len()
        invariant
            i <= deltas.len(),
            names == food_id_to_name.deep_view(),
            crate::store::steps_view(out@) == keyed(deltas@.take(i as int), names),
        decreases deltas.len() - i,
    {
        let d = deltas[i];
        let id = d.food_id as usize;
        let ghost before = out@;
        proof {
            assert(deltas@.take(i + 1).drop_last() =~= deltas@.take(i as int));
        }
        if id < food_id_to_name.len() {
            assert(names[id as int] == food_id_to_name@[id as int]@);
            if !food_id_to_name[id].as_str().is_empty() {
                out.push((food_id_to_name[id].clone(), d.direction));
                assert(crate::store::steps_view(out@) =~= crate::store::steps_view(before).push(
                    (names[id as int], d.direction.spec_sign()),
                ));
            }
        }
        i += 1;
    }
    assert(deltas@.take(deltas.len() as int) =~= deltas@);
    out
}

} // verus!
