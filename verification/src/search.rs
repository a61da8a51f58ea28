//! What the search index is given: one record per food, with its
//! identifier, its name, its current count of votes and where it is served.

use vstd::prelude::*;
use crate::registry::RegistryEntry;

verus! {

/// The name of the index that holds the foods.
pub const FOODS_INDEX: &'static str = "foods";

/// The field of a record that tells the records apart.
pub const PRIMARY_KEY: &'static str = "id";

/// One food as the search index holds it.
#[derive(Debug, Clone, PartialEq, Eq)]
pub struct FoodDocument {
    /// The identifier.
    pub id: u32,
    /// The canonical name.
    pub name: String,
    /// The current count of votes.
    pub votes: i64,
    /// Where the food is served today, or the placeholder.
    pub location: String,
}

/// The count that an answer of the counter store stands for: a food
/// without a count stands at 0.
pub open spec fn votes_of(found: Option<i64>) -> i64 {
    match found {
        Some(count) => count,
        None => 0,
    }
}

/// Whether `doc` is the record of `food` with the count `found`.
pub open spec fn is_document_of(doc: FoodDocument, food: RegistryEntry, found: Option<i64>) -> bool {
    &&& doc.id == food.id
    &&& doc.name@ == food.name@
    &&& doc.location@ == food.location@
    &&& doc.votes == votes_of(found)
}

/// The records of `foods`, in their order, with the counts that the counter
/// store gave for them, one for each food.
pub fn food_documents(foods: &Vec<RegistryEntry>, votes: &Vec<Option<i64>>) -> (docs: Vec<FoodDocument>)
    requires
        votes.len() == foods.len(),
    ensures
        docs.len() == foods.len(),
        forall|i: int|
            0 <= i < foods.len() ==> is_document_of(#[trigger] docs@[i], foods@[i], votes@[i]),
{
    let mut docs: Vec<FoodDocument> = Vec::new();
    let mut i: usize = 0;
    while i < foods.len()
        invariant
            i <= foods.len(),
            votes.len() == foods.len(),
            docs.len() == i,
            forall|k: int| 0 <= k < i ==> is_document_of(#[trigger] docs@[k], foods@[k], votes@[k]),
        decreases foods.len() - i,
    {
        let count = match votes[i] {
            Some(count) => count,
            None => 0,
        };
        docs.push(
            FoodDocument {
                id: foods[i].id,
                name: foods[i].name.clone(),
                votes: count,
                location: foods[i].location.clone(),
            },
        );
        i += 1;
    }
    docs
}

} // verus!
