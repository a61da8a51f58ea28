use food_votes::builder::merge_menu;
use food_votes::error::LoadError;
use food_votes::registry::{Bank, RegistryEntry};
use food_votes::snapshot::{decode_bank, decode_item, encode_item, load, save};
use food_votes::text::utf8_string;
use prost::bytes::{Buf, BufMut};
use prost::encoding::{DecodeContext, WireType};
use prost::Message;

/// One entry as the outside codec would hold it.
#[derive(Debug, Clone, PartialEq)]
struct WireItem {
    id: u32,
    name: String,
    location: String,
}

impl Default for WireItem {
    fn default() -> Self {
        WireItem { id: 0, name: String::new(), location: "none".to_string() }
    }
}

impl Message for WireItem {
    fn encode_raw(&self, buf: &mut impl BufMut) {
        if self.id != 0 {
            prost::encoding::uint32::encode(1, &self.id, buf);
        }
        if !self.name.is_empty() {
            prost::encoding::string::encode(2, &self.name, buf);
        }
        if self.location != "none" {
            prost::encoding::string::encode(3, &self.location, buf);
        }
    }

    fn merge_field(
        &mut self,
        tag: u32,
        wire_type: WireType,
        buf: &mut impl Buf,
        ctx: DecodeContext,
    ) -> Result<(), prost::DecodeError> {
        match tag {
            1 => prost::encoding::uint32::merge(wire_type, &mut self.id, buf, ctx),
            2 => prost::encoding::string::merge(wire_type, &mut self.name, buf, ctx),
            3 => prost::encoding::string::merge(wire_type, &mut self.location, buf, ctx),
            _ => prost::encoding::skip_field(wire_type, tag, buf, ctx),
        }
    }

    fn encoded_len(&self) -> usize {
        let mut len = 0;
        if self.id != 0 {
            len += prost::encoding::uint32::encoded_len(1, &self.id);
        }
        if !self.name.is_empty() {
            len += prost::encoding::string::encoded_len(2, &self.name);
        }
        if self.location != "none" {
            len += prost::encoding::string::encoded_len(3, &self.location);
        }
        len
    }

    fn clear(&mut self) {
        *self = WireItem::default();
    }
}

/// The registry as the outside codec would hold it.
#[derive(Debug, Clone, Default, PartialEq)]
struct WireBank {
    foods: Vec<WireItem>,
    locations: Vec<WireItem>,
    next_food_id: u32,
    next_location_id: u32,
}

impl Message for WireBank {
    fn encode_raw(&self, buf: &mut impl BufMut) {
        for item in &self.foods {
            prost::encoding::message::encode(1, item, buf);
        }
        for item in &self.locations {
            prost::encoding::message::encode(2, item, buf);
        }
        if self.next_food_id != 0 {
            prost::encoding::uint32::encode(3, &self.next_food_id, buf);
        }
        if self.next_location_id != 0 {
            prost::encoding::uint32::encode(4, &self.next_location_id, buf);
        }
    }

    fn merge_field(
        &mut self,
        tag: u32,
        wire_type: WireType,
        buf: &mut impl Buf,
        ctx: DecodeContext,
    ) -> Result<(), prost::DecodeError> {
        match tag {
            1 => prost::encoding::message::merge_repeated(wire_type, &mut self.foods, buf, ctx),
            2 => prost::encoding::message::merge_repeated(wire_type, &mut self.locations, buf, ctx),
            3 => prost::encoding::uint32::merge(wire_type, &mut self.next_food_id, buf, ctx),
            4 => prost::encoding::uint32::merge(wire_type, &mut self.next_location_id, buf, ctx),
            _ => prost::encoding::skip_field(wire_type, tag, buf, ctx),
        }
    }

    fn encoded_len(&self) -> usize {
        let mut len = prost::encoding::message::encoded_len_repeated(1, &self.foods)
            + prost::encoding::message::encoded_len_repeated(2, &self.locations);
        if self.next_food_id != 0 {
            len += prost::encoding::uint32::encoded_len(3, &self.next_food_id);
        }
        if self.next_location_id != 0 {
            len += prost::encoding::uint32::encoded_len(4, &self.next_location_id);
        }
        len
    }

    fn clear(&mut self) {
        *self = WireBank::default();
    }
}

fn wire_item(e: &RegistryEntry) -> WireItem {
    WireItem { id: e.id, name: e.name.clone(), location: e.location.clone() }
}

fn wire_bank(bank: &Bank) -> WireBank {
    WireBank {
        foods: bank.foods.iter().map(wire_item).collect(),
        locations: bank.locations.iter().map(wire_item).collect(),
        next_food_id: bank.next_food_id,
        next_location_id: bank.next_location_id,
    }
}

fn entry(id: u32, name: &str, location: &str) -> RegistryEntry {
    RegistryEntry { id, name: name.to_string(), location: location.to_string() }
}

fn sample() -> Bank {
    let mut bank = Bank::new();
    merge_menu(
        &mut bank,
        &vec![
            ("Earhart".to_string(), "Pizza".to_string()),
            ("Earhart".to_string(), "Mac_and_Cheese".to_string()),
            ("Wiley".to_string(), "7-Up".to_string()),
        ],
        true,
    );
    merge_menu(&mut bank, &vec![("Ford".to_string(), "Tacos".to_string())], false);
    bank
}

fn big() -> Bank {
    let mut bank = Bank::new();
    let feed: Vec<(String, String)> =
        (0..400).map(|i| (format!("court {}", i % 7), format!("food number {}", i))).collect();
    merge_menu(&mut bank, &feed, true);
    bank
}

#[test]
fn an_empty_registry_takes_no_bytes() {
    assert_eq!(save(&Bank::new()), Vec::<u8>::new());
    assert_eq!(load(&[]), Ok(Bank::new()));
}

#[test]
fn the_bytes_of_one_entry() {
    assert_eq!(encode_item(&entry(1, "ab", "none")), vec![0x08, 0x01, 0x12, 0x02, b'a', b'b']);
    assert_eq!(encode_item(&entry(0, "ab", "c")), vec![0x12, 0x02, b'a', b'b', 0x1a, 0x01, b'c']);
    assert_eq!(encode_item(&entry(300, "", "none")), vec![0x08, 0xac, 0x02]);
    assert_eq!(encode_item(&entry(0, "", "")), vec![0x1a, 0x00]);
}

#[test]
fn the_bytes_of_a_small_registry() {
    let mut bank = Bank::new();
    merge_menu(&mut bank, &vec![("B".to_string(), "a".to_string())], false);
    assert_eq!(
        save(&bank),
        vec![0x0a, 0x03, 0x12, 0x01, b'a', 0x12, 0x03, 0x12, 0x01, b'b', 0x18, 0x01, 0x20, 0x01]
    );
}

#[test]
fn a_registry_is_read_back_from_its_snapshot() {
    for bank in [Bank::new(), sample(), big()] {
        assert_eq!(load(&save(&bank)), Ok(bank));
    }
}

#[test]
fn saving_is_deterministic() {
    assert_eq!(save(&sample()), save(&sample()));
    assert_eq!(save(&big()), save(&big()));
}

#[test]
fn a_snapshot_is_written_as_the_outside_codec_writes_it() {
    for bank in [Bank::new(), sample(), big()] {
        assert_eq!(save(&bank), wire_bank(&bank).encode_to_vec());
    }
}

#[test]
fn a_snapshot_of_the_outside_codec_is_read() {
    for bank in [Bank::new(), sample(), big()] {
        let theirs = wire_bank(&bank).encode_to_vec();
        assert_eq!(load(&theirs), Ok(bank));
    }
}

#[test]
fn a_snapshot_is_read_as_the_outside_codec_reads_it() {
    let whole = save(&sample());
    let mut inputs: Vec<Vec<u8>> = Vec::new();
    for cut in 0..=whole.len() {
        inputs.push(whole[..cut].to_vec());
    }
    for i in 0..whole.len() {
        let mut flipped = whole.clone();
        flipped[i] ^= 0x01;
        inputs.push(flipped);
        let mut high = whole.clone();
        high[i] ^= 0x80;
        inputs.push(high);
    }
    let mut with_unknown = vec![0x28, 0x07, 0x32, 0x02, 0xff, 0xfe, 0x3d, 1, 2, 3, 4];
    with_unknown.extend_from_slice(&whole);
    inputs.push(with_unknown);
    inputs.push(vec![0x18, 0xff, 0xff, 0xff, 0xff, 0x1f]);
    inputs.push(vec![0x2b, 0x08, 0x01, 0x33, 0x34, 0x2c, 0x18, 0x02]);
    inputs.push(vec![0x0a, 0x06, 0x08, 0x05, 0x23, 0x08, 0x01, 0x24]);
    for depth in [98usize, 99, 100, 101] {
        let mut inner = vec![0x23; depth];
        inner.extend(vec![0x24; depth]);
        let mut outer = vec![0x0a];
        prost::encoding::encode_varint(inner.len() as u64, &mut outer);
        outer.extend(inner);
        inputs.push(outer);
    }
    inputs.push(vec![0x0a, 0x02, 0x08, 0x05, 0x18, 0x06]);
    let mut compared = 0;
    for bytes in inputs {
        let ours = decode_bank(&bytes);
        match WireBank::decode(&bytes[..]) {
            Ok(theirs) => {
                match ours {
                    Some(bank) => assert_eq!(wire_bank(&bank), theirs, "{:?}", bytes),
                    None => panic!("{:?}: not read, against {:?}", bytes, theirs),
                }
                compared += 1;
            }
            Err(_) => assert_eq!(ours, None, "{:?}", bytes),
        }
    }
    assert!(compared > 10);
}

#[test]
fn bytes_that_are_no_snapshot_are_corrupt() {
    assert_eq!(load(&[0x0a]), Err(LoadError::CorruptSnapshot));
    assert_eq!(load(&[0x0a, 0x05, 0x01]), Err(LoadError::CorruptSnapshot));
    assert_eq!(load(&[0x08, 0x01]), Err(LoadError::CorruptSnapshot));
    assert_eq!(load(&[0x1a, 0x00]), Err(LoadError::CorruptSnapshot));
    assert_eq!(load(&[0xff]), Err(LoadError::CorruptSnapshot));
    assert_eq!(load(&[0x0b]), Err(LoadError::CorruptSnapshot));
}

#[test]
fn a_snapshot_of_a_registry_that_is_not_valid_is_corrupt() {
    let mut twice = sample();
    twice.foods.push(entry(0, "soup", "none"));
    twice.next_food_id += 1;
    assert_eq!(decode_bank(&save(&twice)), Some(twice.clone()));
    assert_eq!(load(&save(&twice)), Err(LoadError::CorruptSnapshot));
    let mut low = sample();
    low.next_location_id = 1;
    assert_eq!(load(&save(&low)), Err(LoadError::CorruptSnapshot));
    let mut raw = sample();
    raw.foods[0].name = "Pizza".to_string();
    assert_eq!(load(&save(&raw)), Err(LoadError::CorruptSnapshot));
    let mut nameless = Bank::new();
    nameless.foods.push(entry(0, "", "none"));
    nameless.next_food_id = 1;
    assert_eq!(load(&save(&nameless)), Err(LoadError::CorruptSnapshot));
}

#[test]
fn every_registry_is_read_back_valid_or_not() {
    let mut bank = Bank::new();
    bank.foods.push(entry(0, "cr\u{e8}me br\u{fb}l\u{e9}e", "none"));
    bank.foods.push(entry(0, "", ""));
    bank.foods.push(entry(7, "\u{1f355}", "\u{4e2d}\u{6587}"));
    bank.locations.push(entry(9, "Not Canonical", "none"));
    bank.next_food_id = 1;
    let bytes = save(&bank);
    assert_eq!(bytes, wire_bank(&bank).encode_to_vec());
    assert_eq!(decode_bank(&bytes), Some(bank));
    assert_eq!(load(&bytes), Err(LoadError::CorruptSnapshot));
}

#[test]
fn a_name_that_is_no_utf8_text_is_not_read() {
    assert_eq!(decode_item(&[0x12, 0x01, 0xff]), None);
    assert_eq!(decode_item(&[0x12, 0x02, 0xc3, 0x28]), None);
    assert_eq!(decode_item(&[0x1a, 0x03, 0xed, 0xa0, 0x80]), None);
    assert_eq!(decode_item(&[0x12, 0x02, 0xc3, 0xa8]), Some(entry(0, "\u{e8}", "none")));
    assert_eq!(decode_bank(&[0x0a, 0x03, 0x12, 0x01, 0x80]), None);
}

#[test]
fn an_entry_without_a_location_stands_at_the_placeholder() {
    assert_eq!(decode_item(&[0x08, 0x02, 0x12, 0x01, b'x']), Some(entry(2, "x", "none")));
    assert_eq!(decode_item(&[]), Some(entry(0, "", "none")));
    assert_eq!(decode_item(&[0x1a, 0x01, b'y']), Some(entry(0, "", "y")));
    assert_eq!(decode_item(&[0x08, 0x01, 0x08, 0x02]), Some(entry(2, "", "none")));
}

#[test]
fn an_identifier_keeps_its_low_32_bits() {
    assert_eq!(decode_item(&[0x08, 0x80, 0x80, 0x80, 0x80, 0x10]), Some(entry(0, "", "none")));
    assert_eq!(decode_item(&[0x08, 0x85, 0x80, 0x80, 0x80, 0x10]), Some(entry(5, "", "none")));
    assert_eq!(decode_item(&[0x08, 0xff, 0xff, 0xff, 0xff, 0x0f]), Some(entry(u32::MAX, "", "none")));
}

#[test]
fn utf8_text_is_read() {
    assert_eq!(utf8_string(b"hello world"), Some("hello world".to_string()));
    assert_eq!(utf8_string(b""), Some(String::new()));
    assert_eq!(utf8_string(&[0x7f, 0x00]), Some("\u{7f}\u{0}".to_string()));
    assert_eq!(utf8_string("\u{e9}\u{1f355}".as_bytes()), Some("\u{e9}\u{1f355}".to_string()));
    assert_eq!(utf8_string(&[b'a', 0x80]), None);
    assert_eq!(utf8_string(&[0xc0, 0x80]), None);
    assert_eq!(utf8_string(&[0xf4, 0x90, 0x80, 0x80]), None);
    assert_eq!(utf8_string(&[0xe2, 0x82]), None);
}
