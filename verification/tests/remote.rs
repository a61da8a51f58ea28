use food_votes::builder::merge_menu;
use food_votes::error::LoadError;
use food_votes::registry::{Bank, RegistryEntry};
use food_votes::remote::{get_remote_bank, id_to_name, RemoteBank};
use food_votes::snapshot::save;

fn entry(id: u32, name: &str) -> RegistryEntry {
    RegistryEntry { id, name: name.to_string(), location: "none".to_string() }
}

fn sample() -> Bank {
    let mut bank = Bank::new();
    merge_menu(
        &mut bank,
        &vec![
            ("Earhart".to_string(), "Pizza".to_string()),
            ("Wiley".to_string(), "Salad".to_string()),
            ("Wiley".to_string(), "Soup".to_string()),
        ],
        true,
    );
    bank
}

#[test]
fn each_name_stands_at_its_identifier() {
    let loaded = RemoteBank::new(sample());
    assert_eq!(loaded.food_id_to_name, vec!["pizza", "salad", "soup"]);
    assert_eq!(loaded.location_id_to_name, vec!["earhart", "wiley"]);
    assert_eq!(loaded.bank, sample());
}

#[test]
fn the_tables_of_an_empty_registry_are_empty() {
    let loaded = RemoteBank::new(Bank::new());
    assert!(loaded.food_id_to_name.is_empty());
    assert!(loaded.location_id_to_name.is_empty());
}

#[test]
fn a_gap_holds_the_empty_string() {
    let entries = vec![entry(3, "soup"), entry(0, "pizza")];
    assert_eq!(id_to_name(&entries, 5), vec!["pizza", "", "", "soup", ""]);
}

#[test]
fn the_order_of_the_entries_does_not_matter() {
    let a = vec![entry(0, "pizza"), entry(1, "salad"), entry(2, "soup")];
    let b = vec![entry(2, "soup"), entry(0, "pizza"), entry(1, "salad")];
    assert_eq!(id_to_name(&a, 3), id_to_name(&b, 3));
}

#[test]
fn a_valid_registry_is_taken_over() {
    let loaded = RemoteBank::from_bank(sample()).expect("valid");
    assert_eq!(loaded.food_id_to_name.len(), 3);
    assert_eq!(loaded.bank, sample());
}

#[test]
fn a_registry_that_is_not_valid_is_a_corrupt_snapshot() {
    let mut twice = sample();
    twice.foods.push(entry(1, "tacos"));
    twice.next_food_id = 4;
    assert_eq!(RemoteBank::from_bank(twice).err(), Some(LoadError::CorruptSnapshot));
    let mut beyond = sample();
    beyond.next_food_id = 2;
    assert_eq!(RemoteBank::from_bank(beyond).err(), Some(LoadError::CorruptSnapshot));
    let mut raw = sample();
    raw.locations.push(entry(2, "Not Canonical"));
    raw.next_location_id = 3;
    assert_eq!(RemoteBank::from_bank(raw).err(), Some(LoadError::CorruptSnapshot));
}

#[test]
fn a_reload_replaces_registry_and_tables_together() {
    let current = RemoteBank::new(sample());
    let mut newer = sample();
    merge_menu(&mut newer, &vec![("Ford".to_string(), "Tacos".to_string())], true);
    let (after, fault) = current.reload(Ok(newer.clone()));
    assert_eq!(fault, None);
    assert_eq!(after.bank, newer);
    assert_eq!(after.food_id_to_name, vec!["pizza", "salad", "soup", "tacos"]);
    assert_eq!(after.location_id_to_name, vec!["earhart", "wiley", "ford"]);
}

#[test]
fn a_failed_reload_keeps_what_was_there() {
    let current = RemoteBank::new(sample());
    let (after, fault) = current.reload(Err(LoadError::FetchError));
    assert_eq!(fault, Some(LoadError::FetchError));
    assert_eq!(after.bank, sample());
    assert_eq!(after.food_id_to_name, vec!["pizza", "salad", "soup"]);
    let mut corrupt = sample();
    corrupt.next_food_id = 0;
    let (after, fault) = after.reload(Ok(corrupt));
    assert_eq!(fault, Some(LoadError::CorruptSnapshot));
    assert_eq!(after.bank, sample());
    assert_eq!(after.location_id_to_name, vec!["earhart", "wiley"]);
}

#[test]
fn a_fetched_snapshot_gives_registry_and_tables() {
    let loaded = get_remote_bank(&save(&sample())).expect("valid");
    assert_eq!(loaded.bank, sample());
    assert_eq!(loaded.food_id_to_name, vec!["pizza", "salad", "soup"]);
    assert_eq!(loaded.location_id_to_name, vec!["earhart", "wiley"]);
}

#[test]
fn fetched_bytes_that_are_no_snapshot_are_corrupt() {
    assert_eq!(get_remote_bank(&[0x0a, 0x09]).err(), Some(LoadError::CorruptSnapshot));
    let mut low = sample();
    low.next_food_id = 1;
    assert_eq!(get_remote_bank(&save(&low)).err(), Some(LoadError::CorruptSnapshot));
}
