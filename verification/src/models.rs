//! The shape of the menu feed's answer: dining courts, their meals of the
//! day, the stations of each meal and the items that each station serves.

use vstd::prelude::*;

verus! {

/// The address of the menu feed.
pub const ENDPOINT: &'static str = "https://api.hfs.purdue.edu/menus/v3/GraphQL";

/// The whole answer.
#[derive(Debug, Clone)]
pub struct Response {
    /// The payload.
    pub data: Data,
}

/// The payload of an answer.
#[derive(Debug, Clone)]
pub struct Data {
    /// Every dining court, with its menu of the day that was asked for.
    pub dining_courts: Vec<DiningCourt>,
}

/// One dining court: a location.
#[derive(Debug, Clone)]
pub struct DiningCourt {
    /// The court's name as the feed writes it.
    pub formal_name: String,
    /// What the court serves on the day that was asked for.
    pub daily_menu: DailyMenu,
}

/// The menu of one court on one day.
#[derive(Debug, Clone)]
pub struct DailyMenu {
    /// The meals of the day.
    pub meals: Vec<Meal>,
}

/// One meal of a day.
#[derive(Debug, Clone)]
pub struct Meal {
    /// The meal's name.
    pub name: String,
    /// The stations that serve it.
    pub stations: Vec<Station>,
}

/// One station of a meal.
#[derive(Debug, Clone)]
pub struct Station {
    /// The station's name.
    pub name: String,
    /// What it serves.
    pub items: Vec<ItemShell>,
}

/// The wrapping in which the feed hands out an item.
#[derive(Debug, Clone)]
pub struct ItemShell {
    /// The item.
    pub item: Item,
}

/// One food item as the feed names it.
#[derive(Debug, Clone)]
pub struct Item {
    /// The item's name as the feed writes it.
    pub name: String,
}

} // verus!
