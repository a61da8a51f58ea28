//! The vote submission on the wire: a message of two fields, the bitmap of
//! the votes before under number 1 and that of the votes after under
//! number 2, each as a length and its bytes.

use vstd::prelude::*;
use vstd::slice::{slice_subrange, slice_to_vec};
use crate::votes::Votes;
use crate::wire::{
    bytes_field, decode_field, encode_bytes_field, lemma_bytes_field_read_back,
    lemma_next_field_bounds, next_field, DecodeError, RECURSION_LIMIT,
};

verus! {

/// The two bitmaps that `bytes` holds, read field by field on top of `old`
/// and `new`: a field with number 1 or 2 replaces the bitmap of that number
/// and must be laid out as bytes; a field or a group with another number is
/// passed over. None where `bytes` is no run of fields.
pub open spec fn parse_votes(bytes: Seq<u8>, old: Seq<u8>, new: Seq<u8>) -> Option<(Seq<u8>, Seq<u8>)>
    decreases bytes.len(),
    via parse_votes_decreases
{
    if bytes.len() == 0 {
        Some((old, new))
    } else {
        match next_field(bytes, RECURSION_LIMIT as nat) {
            None => None,
            Some(field) => if field.tag == 1 {
                if field.wire == 2 {
                    parse_votes(bytes.skip(field.used as int), field.payload, new)
                } else {
                    None
                }
            } else if field.tag == 2 {
                if field.wire == 2 {
                    parse_votes(bytes.skip(field.used as int), old, field.payload)
                } else {
                    None
                }
            } else {
                parse_votes(bytes.skip(field.used as int), old, new)
            },
        }
    }
}

#[via_fn]
proof fn parse_votes_decreases(bytes: Seq<u8>, old: Seq<u8>, new: Seq<u8>) {
    lemma_next_field_bounds(bytes, RECURSION_LIMIT as nat);
}

/// The submission that `bytes` holds, or none.
pub open spec fn votes_of(bytes: Seq<u8>) -> Option<(Seq<u8>, Seq<u8>)> {
    parse_votes(bytes, Seq::empty(), Seq::empty())
}

/// Reads a vote submission from its bytes.
pub fn get_votes_from_bytes(buf: &[u8]) -> (res: Result<Votes, DecodeError>)
    ensures
        match votes_of(buf@) {
            Some((old, new)) => res is Ok && res->Ok_0.old_bit_map@ == old
                && res->Ok_0.new_bit_map@ == new,
            None => res == Err::<Votes, DecodeError>(DecodeError::Malformed),
        },
{
    let mut old_bit_map: Vec<u8> = Vec::new();
    let mut new_bit_map: Vec<u8> = Vec::new();
    let mut pos: usize = 0;
    assert(buf@.skip(0) =~= buf@);
    while pos < buf.len()
        invariant
            pos <= buf.len(),
            votes_of(buf@) == parse_votes(buf@.skip(pos as int), old_bit_map@, new_bit_map@),
        decreases buf.len() - pos,
    {
        let ghost rest = buf@.skip(pos as int);
        proof {
            lemma_next_field_bounds(rest, RECURSION_LIMIT as nat);
        }
        let field = match decode_field(buf, pos, RECURSION_LIMIT) {
            Some(field) => field,
            None => { return Err(DecodeError::Malformed); },
        };
        assert(rest.skip(field.next - pos) =~= buf@.skip(field.next as int));
        if field.tag == 1 {
            if field.wire != 2 {
                return Err(DecodeError::Malformed);
            }
            old_bit_map = slice_to_vec(slice_subrange(buf, field.start, field.end));
        } else if field.tag == 2 {
            if field.wire != 2 {
                return Err(DecodeError::Malformed);
            }
            new_bit_map = slice_to_vec(slice_subrange(buf, field.start, field.end));
        }
        pos = field.next;
    }
    Ok(Votes { old_bit_map, new_bit_map })
}

/// The bytes that hold a submission: each bitmap that is not empty as one
/// field, the votes before first. An empty bitmap takes no bytes.
pub open spec fn votes_bytes(old: Seq<u8>, new: Seq<u8>) -> Seq<u8> {
    (if old.len() > 0 {
        bytes_field(1, old)
    } else {
        Seq::empty()
    }) + (if new.len() > 0 {
        bytes_field(2, new)
    } else {
        Seq::empty()
    })
}

/// Writes a vote submission as bytes.
pub fn encode_votes(votes: &Votes) -> (out: Vec<u8>)
    ensures
        out@ == votes_bytes(votes.old_bit_map@, votes.new_bit_map@),
{
    let mut out: Vec<u8> = Vec::new();
    if votes.old_bit_map.len() > 0 {
        encode_bytes_field(1, votes.old_bit_map.as_slice(), &mut out);
    }
    if votes.new_bit_map.len() > 0 {
        encode_bytes_field(2, votes.new_bit_map.as_slice(), &mut out);
    }
    assert(out@ =~= votes_bytes(votes.old_bit_map@, votes.new_bit_map@));
    out
}

/// A submission that was written is read back as it was.
pub proof fn lemma_votes_round_trip(old: Seq<u8>, new: Seq<u8>)
    requires
        old.len() <= u64::MAX,
        new.len() <= u64::MAX,
    ensures
        votes_of(votes_bytes(old, new)) == Some((old, new)),
{
    let none = Seq::<u8>::empty();
    let second = if new.len() > 0 {
        bytes_field(2, new)
    } else {
        none
    };
    assert(parse_votes(second, old, none) == Some((old, new))) by {
        if new.len() > 0 {
            lemma_bytes_field_read_back(2, new, none, RECURSION_LIMIT as nat);
            assert(bytes_field(2, new) + none =~= bytes_field(2, new));
            assert(parse_votes(none, old, new) == Some((old, new)));
        } else {
            assert(new =~= none);
        }
    }
    if old.len() > 0 {
        lemma_bytes_field_read_back(1, old, second, RECURSION_LIMIT as nat);
        assert(votes_bytes(old, new) =~= bytes_field(1, old) + second);
    } else {
        assert(old =~= none);
        assert(votes_bytes(old, new) =~= second);
    }
}

} // verus!
