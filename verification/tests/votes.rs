use food_votes::error::AppError;
use food_votes::payloads::encode_votes;
use food_votes::votes::{
    compare_bits, diff_and_map, get_maps, get_votes_from_body, Vote, VoteDelta, Votes,
};

fn names(n: usize) -> Vec<String> {
    (0..n).map(|i| format!("food {}", i)).collect()
}

fn votes(old: Vec<u8>, new: Vec<u8>) -> Votes {
    Votes { old_bit_map: old, new_bit_map: new }
}

#[test]
fn one_flipped_bit_gives_one_step_up() {
    let lookup = names(16);
    for p in 0..16usize {
        let old = vec![0u8, 0u8];
        let mut new = vec![0u8, 0u8];
        new[p / 8] |= 1 << (p % 8);
        let got = diff_and_map(&votes(old, new), &lookup).unwrap();
        assert_eq!(got, vec![VoteDelta { food_id: p as u32, direction: Vote::Increment }]);
    }
}

#[test]
fn one_cleared_bit_gives_one_step_down() {
    let lookup = names(16);
    for p in 0..16usize {
        let mut old = vec![0b1010_0101u8, 0b0101_1010u8];
        let mut new = old.clone();
        old[p / 8] |= 1 << (p % 8);
        new[p / 8] &= !(1 << (p % 8));
        let got = diff_and_map(&votes(old, new), &lookup).unwrap();
        assert_eq!(got, vec![VoteDelta { food_id: p as u32, direction: Vote::Decrement }]);
    }
}

#[test]
fn bit_zero_is_the_least_significant_bit() {
    let lookup = names(8);
    let got = diff_and_map(&votes(vec![0b0000_0000], vec![0b1000_0000]), &lookup).unwrap();
    assert_eq!(got, vec![VoteDelta { food_id: 7, direction: Vote::Increment }]);
    let got = diff_and_map(&votes(vec![0b0000_0000], vec![0b0000_0001]), &lookup).unwrap();
    assert_eq!(got, vec![VoteDelta { food_id: 0, direction: Vote::Increment }]);
}

#[test]
fn mismatched_lengths_are_malformed() {
    let lookup = names(64);
    let got = diff_and_map(&votes(vec![0, 0], vec![0, 0, 0]), &lookup);
    assert_eq!(got, Err(AppError::MalformedPayload));
    let got = get_maps(&lookup, &encode_votes(&votes(vec![0, 0], vec![0, 0, 0])));
    assert_eq!(got, Err(AppError::MalformedPayload));
}

#[test]
fn oversized_bitmaps_are_malformed() {
    let lookup = names(15);
    let got = diff_and_map(&votes(vec![0, 0], vec![0, 1]), &lookup);
    assert_eq!(got, Err(AppError::MalformedPayload));
    let got = get_maps(&lookup, &encode_votes(&votes(vec![0, 0], vec![0, 1])));
    assert_eq!(got, Err(AppError::MalformedPayload));
    let got = diff_and_map(&votes(vec![0], vec![1]), &names(0));
    assert_eq!(got, Err(AppError::MalformedPayload));
}

#[test]
fn a_bitmap_that_just_fits_is_valid() {
    let lookup = names(16);
    let request = votes(vec![0, 0], vec![0, 0b1000_0000]);
    assert_eq!(get_maps(&lookup, &encode_votes(&request)), Ok(request.clone()));
    let got = diff_and_map(&request, &lookup).unwrap();
    assert_eq!(got, vec![VoteDelta { food_id: 15, direction: Vote::Increment }]);
}

#[test]
fn a_shorter_bitmap_is_valid() {
    let lookup = names(100);
    let got = diff_and_map(&votes(vec![0b0000_0010], vec![0b0000_0100]), &lookup).unwrap();
    assert_eq!(
        got,
        vec![
            VoteDelta { food_id: 1, direction: Vote::Decrement },
            VoteDelta { food_id: 2, direction: Vote::Increment },
        ]
    );
}

#[test]
fn empty_bitmaps_give_no_step() {
    assert_eq!(diff_and_map(&votes(vec![], vec![]), &names(0)), Ok(vec![]));
    assert_eq!(diff_and_map(&votes(vec![], vec![]), &names(3)), Ok(vec![]));
}

#[test]
fn equal_bitmaps_give_no_step() {
    let lookup = names(16);
    assert_eq!(diff_and_map(&votes(vec![0xff, 0x0f], vec![0xff, 0x0f]), &lookup), Ok(vec![]));
}

#[test]
fn steps_come_in_the_order_of_the_identifiers() {
    let lookup = names(16);
    let got = diff_and_map(&votes(vec![0b0000_1111, 0b0000_0001], vec![0b1111_0000, 0b0000_0010]), &lookup)
        .unwrap();
    let ids: Vec<u32> = got.iter().map(|d| d.food_id).collect();
    assert_eq!(ids, vec![0, 1, 2, 3, 4, 5, 6, 7, 8, 9]);
    let ups: Vec<bool> = got.iter().map(|d| d.direction == Vote::Increment).collect();
    assert_eq!(ups, vec![false, false, false, false, true, true, true, true, false, true]);
}

#[test]
fn a_food_without_a_name_is_passed_over() {
    let mut lookup = names(8);
    lookup[3] = String::new();
    let got = diff_and_map(&votes(vec![0], vec![0b0001_1100]), &lookup).unwrap();
    assert_eq!(
        got,
        vec![
            VoteDelta { food_id: 2, direction: Vote::Increment },
            VoteDelta { food_id: 4, direction: Vote::Increment },
        ]
    );
}

#[test]
fn compare_bits_appends_and_never_fails() {
    let lookup = names(16);
    let mut out = vec![VoteDelta { food_id: 99, direction: Vote::Decrement }];
    let res = compare_bits(&lookup, &mut out, 0b0000_0001, 0b0000_0010, 1);
    assert_eq!(res, Ok(()));
    assert_eq!(
        out,
        vec![
            VoteDelta { food_id: 99, direction: Vote::Decrement },
            VoteDelta { food_id: 8, direction: Vote::Decrement },
            VoteDelta { food_id: 9, direction: Vote::Increment },
        ]
    );
}

#[test]
fn compare_bits_passes_over_what_lies_beyond_the_table() {
    let lookup = names(10);
    let mut out = Vec::new();
    let res = compare_bits(&lookup, &mut out, 0x00, 0xff, 1);
    assert_eq!(res, Ok(()));
    assert_eq!(
        out,
        vec![
            VoteDelta { food_id: 8, direction: Vote::Increment },
            VoteDelta { food_id: 9, direction: Vote::Increment },
        ]
    );
}

#[test]
fn the_sign_of_a_step() {
    assert_eq!(Vote::Increment.sign(), 1);
    assert_eq!(Vote::Decrement.sign(), -1);
}

#[test]
fn a_byte_speaks_of_eight_foods_even_where_it_votes_for_two() {
    let lookup = vec!["pizza".to_string(), "salad".to_string()];
    let got = diff_and_map(&votes(vec![0b0000_0000], vec![0b0000_0011]), &lookup);
    assert_eq!(got, Err(AppError::MalformedPayload));
}

#[test]
fn a_body_is_read_validated_and_turned_into_steps() {
    let lookup = names(16);
    let body = encode_votes(&votes(vec![0b0000_0001, 0], vec![0b0000_0010, 0]));
    assert_eq!(
        get_votes_from_body(&lookup, &body),
        Ok(vec![
            VoteDelta { food_id: 0, direction: Vote::Decrement },
            VoteDelta { food_id: 1, direction: Vote::Increment },
        ])
    );
    assert_eq!(get_votes_from_body(&lookup, &[0x0a, 0x05]), Err(AppError::MalformedPayload));
    assert_eq!(get_votes_from_body(&lookup, &[0x08, 0x05]), Err(AppError::MalformedPayload));
    assert_eq!(get_votes_from_body(&names(15), &body), Err(AppError::MalformedPayload));
    assert_eq!(get_votes_from_body(&lookup, &[]), Ok(vec![]));
    assert_eq!(get_maps(&lookup, &[0xff]), Err(AppError::MalformedPayload));
}
