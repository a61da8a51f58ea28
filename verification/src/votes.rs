//! The vote protocol.
//!
//! A client reports a change of its votes as two bitmaps of equal length:
//! its votes before and after. Bit `i` of byte `b`, counted from the least
//! significant bit, stands for the food with identifier `8 * b + i`. Every
//! bit that differs becomes one signed step on that food's counter.

use vstd::prelude::*;
use crate::error::AppError;
use crate::payloads::{get_votes_from_bytes, votes_of};

verus! {

/// The direction of one step on a counter.
#[derive(Debug, Clone, Copy, PartialEq, Eq, Structural)]
pub enum Vote {
    /// The vote was given: one up.
    Increment,
    /// The vote was taken back: one down.
    Decrement,
}

impl Vote {
    /// The step as a number: `+1` or `-1`.
    pub open spec fn spec_sign(&self) -> int {
        match self {
            Vote::Increment => 1,
            Vote::Decrement => -1,
        }
    }

    /// The step as a number: `+1` or `-1`.
    pub fn sign(&self) -> (s: i8)
        ensures
            s == self.spec_sign(),
    {
        match self {
            Vote::Increment => 1,
            Vote::Decrement => -1,
        }
    }
}

/// One step on the counter of one food.
#[derive(Debug, Clone, Copy, PartialEq, Eq, Structural)]
pub struct VoteDelta {
    /// The food whose counter moves.
    pub food_id: u32,
    /// Which way it moves.
    pub direction: Vote,
}

/// A vote submission: the client's votes before and after.
#[derive(Debug, Clone, PartialEq, Eq)]
pub struct Votes {
    /// The votes that the client held before.
    pub old_bit_map: Vec<u8>,
    /// The votes that the client holds now.
    pub new_bit_map: Vec<u8>,
}

/// Bit `i` of `byte`, counted from the least significant bit: 0 or 1.
pub open spec fn bit(byte: u8, i: u8) -> u8 {
    (byte >> i) & 1
}

/// The step that position `i` of the byte pair at index `b` gives, if any:
/// none where the two bits agree, and none where the food at that position
/// is unknown (beyond the table, or an empty name).
pub open spec fn delta_at(old_byte: u8, new_byte: u8, b: int, names: Seq<Seq<char>>, i: u8) -> Option<
    VoteDelta,
> {
    let id = b * 8 + i;
    if bit(old_byte, i) == bit(new_byte, i) || id >= names.len() || names[id].len() == 0 {
        None
    } else if bit(new_byte, i) == 1 {
        Some(VoteDelta { food_id: id as u32, direction: Vote::Increment })
    } else {
        Some(VoteDelta { food_id: id as u32, direction: Vote::Decrement })
    }
}

/// The steps that the lowest `k` positions of the byte pair at index `b`
/// give, lowest position first.
pub open spec fn bit_deltas(old_byte: u8, new_byte: u8, b: int, names: Seq<Seq<char>>, k: u8) -> Seq<
    VoteDelta,
>
    decreases k,
{
    if k == 0 {
        Seq::empty()
    } else {
        let before = bit_deltas(old_byte, new_byte, b, names, (k - 1) as u8);
        match delta_at(old_byte, new_byte, b, names, (k - 1) as u8) {
            Some(d) => before.push(d),
            None => before,
        }
    }
}

/// The steps that the first `n` byte pairs of two bitmaps give, in the order
/// of the food identifiers.
pub open spec fn byte_deltas(old: Seq<u8>, new: Seq<u8>, names: Seq<Seq<char>>, n: int) -> Seq<
    VoteDelta,
>
    decreases n,
{
    if n <= 0 {
        Seq::empty()
    } else {
        byte_deltas(old, new, names, n - 1) + bit_deltas(old[n - 1], new[n - 1], n - 1, names, 8)
    }
}

/// Whether a submission is structurally valid against a table of `known`
/// foods: both bitmaps have the same length, and they speak of no more
/// foods than are known. A shorter bitmap is valid.
pub open spec fn well_formed(old: Seq<u8>, new: Seq<u8>, known: nat) -> bool {
    old.len() == new.len() && old.len() * 8 <= known
}

/// The steps that a valid submission gives.
pub open spec fn deltas_of(old: Seq<u8>, new: Seq<u8>, names: Seq<Seq<char>>) -> Seq<VoteDelta> {
    byte_deltas(old, new, names, old.len() as int)
}

/// What a request body gives: the steps of the submission that it holds,
/// or none where it holds no submission or one that is not valid against a
/// table with the names `names`.
pub open spec fn body_deltas(body: Seq<u8>, names: Seq<Seq<char>>) -> Option<Seq<VoteDelta>> {
    match votes_of(body) {
        Some((old, new)) => if well_formed(old, new, names.len()) {
            Some(deltas_of(old, new, names))
        } else {
            None
        },
        None => None,
    }
}

/// Reads a submission from a request body and checks it against the table
/// of known foods. A body that holds no submission is as malformed as a
/// submission that is not valid.
pub fn get_maps(food_id_to_name: &Vec<String>, bytes: &[u8]) -> (res: Result<Votes, AppError>)
    ensures
        match votes_of(bytes@) {
            Some((old, new)) => if well_formed(old, new, food_id_to_name@.len()) {
                res is Ok && res->Ok_0.old_bit_map@ == old && res->Ok_0.new_bit_map@ == new
            } else {
                res == Err::<Votes, AppError>(AppError::MalformedPayload)
            },
            None => res == Err::<Votes, AppError>(AppError::MalformedPayload),
        },
{
    let vote_maps = match get_votes_from_bytes(bytes) {
        Ok(vote_maps) => vote_maps,
        Err(_) => { return Err(AppError::MalformedPayload); },
    };
    if vote_maps.old_bit_map.len() != vote_maps.new_bit_map.len() || vote_maps.old_bit_map.len()
        > food_id_to_name.len() / 8 {
        return Err(AppError::MalformedPayload);
    }
    Ok(vote_maps)
}

/// Turns the differing bits of one byte pair into steps and appends them to
/// `votes`, lowest bit first. A bit is 0 or 1, so no pair of bits is
/// rejected: the result is always `Ok`.
pub fn compare_bits(
    food_id_to_name: &Vec<String>,
    votes: &mut Vec<VoteDelta>,
    old_byte: u8,
    new_byte: u8,
    byte_index: usize,
) -> (res: Result<(), AppError>)
    requires
        byte_index * 8 + 7 <= u32::MAX,
    ensures
        res is Ok,
        final(votes)@ == old(votes)@ + bit_deltas(
            old_byte,
            new_byte,
            byte_index as int,
            food_id_to_name.deep_view(),
            8,
        ),
{
    let ghost names = food_id_to_name.deep_view();
    let ghost before = votes@;
    let mut bit_index: u8 = 0;
    while bit_index < 8
        invariant
            bit_index <= 8,
            byte_index * 8 + 7 <= u32::MAX,
            names == food_id_to_name.deep_view(),
            votes@ == before + bit_deltas(old_byte, new_byte, byte_index as int, names, bit_index),
        decreases 8 - bit_index,
    {
        // bits run right to left: index 0 is the rightmost bit of the byte
        let old_bit = (old_byte >> bit_index) & 1;
        let new_bit = (new_byte >> bit_index) & 1;
        assert(old_bit == 0 || old_bit == 1) by (bit_vector)
            requires
                old_bit == (old_byte >> bit_index) & 1,
        ;
        assert(new_bit == 0 || new_bit == 1) by (bit_vector)
            requires
                new_bit == (new_byte >> bit_index) & 1,
        ;
        let ghost so_far = votes@;
        if old_bit != new_bit {
            let vote = match (old_bit, new_bit) {
                (1, 0) => Vote::Decrement,
                (0, 1) => Vote::Increment,
                _ => { return Err(AppError::MalformedPayload); },
            };
            let food_index: usize = byte_index * 8 + bit_index as usize;
            if food_index < food_id_to_name.len() {
                assert(names[food_index as int] == food_id_to_name@[food_index as int]@);
                if !food_id_to_name[food_index].as_str().is_empty() {
                    votes.push(VoteDelta { food_id: food_index as u32, direction: vote });
                }
            }
        }
        bit_index += 1;
        assert(votes@ == before + bit_deltas(
            old_byte,
            new_byte,
            byte_index as int,
            names,
            bit_index,
        )) by {
            let d = delta_at(old_byte, new_byte, byte_index as int, names, (bit_index - 1) as u8);
            let prev = bit_deltas(old_byte, new_byte, byte_index as int, names, (bit_index - 1) as u8);
            assert(so_far == before + prev);
            if d is Some {
                assert(votes@ == so_far.push(d->0));
                assert((before + prev).push(d->0) == before + prev.push(d->0));
            }
        }
    }
    Ok(())
}

/// Validates a submission and turns it into steps, in the order of the food
/// identifiers. Nothing is produced for a submission that is turned down.
pub fn diff_and_map(request: &Votes, lookup: &Vec<String>) -> (res: Result<Vec<VoteDelta>, AppError>)
    requires
        lookup.len() <= u32::MAX,
    ensures
        well_formed(request.old_bit_map@, request.new_bit_map@, lookup@.len()) ==> res is Ok
            && res->Ok_0@ == deltas_of(
            request.old_bit_map@,
            request.new_bit_map@,
            lookup.deep_view(),
        ),
        !well_formed(request.old_bit_map@, request.new_bit_map@, lookup@.len()) ==> res == Err::<
            Vec<VoteDelta>,
            AppError,
        >(AppError::MalformedPayload),
{
    let n = request.old_bit_map.len();
    if n != request.new_bit_map.len() || n > lookup.len() / 8 {
        return Err(AppError::MalformedPayload);
    }
    let ghost names = lookup.deep_view();
    let mut votes: Vec<VoteDelta> = Vec::new();
    let mut byte_index: usize = 0;
    while byte_index < n
        invariant
            byte_index <= n,
            n == request.old_bit_map.len(),
            n == request.new_bit_map.len(),
            n * 8 <= lookup.len() <= u32::MAX,
            names == lookup.deep_view(),
            votes@ == byte_deltas(
                request.old_bit_map@,
                request.new_bit_map@,
                names,
                byte_index as int,
            ),
        decreases n - byte_index,
    {
        let old_byte = request.old_bit_map[byte_index];
        let new_byte = request.new_bit_map[byte_index];
        let _ = compare_bits(lookup, &mut votes, old_byte, new_byte, byte_index);
        byte_index += 1;
    }
    Ok(votes)
}

/// Reads a submission from a request body, validates it and turns it into
/// steps, in the order of the food identifiers.
pub fn get_votes_from_body(food_id_to_name: &Vec<String>, body: &[u8]) -> (res: Result<
    Vec<VoteDelta>,
    AppError,
>)
    requires
        food_id_to_name.len() <= u32::MAX,
    ensures
        match body_deltas(body@, food_id_to_name.deep_view()) {
            Some(deltas) => res is Ok && res->Ok_0@ == deltas,
            None => res == Err::<Vec<VoteDelta>, AppError>(AppError::MalformedPayload),
        },
{
    let vote_maps = match get_maps(food_id_to_name, body) {
        Ok(vote_maps) => vote_maps,
        Err(e) => { return Err(e); },
    };
    diff_and_map(&vote_maps, food_id_to_name)
}

} // verus!
