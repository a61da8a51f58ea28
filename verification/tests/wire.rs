use food_votes::payloads::{encode_votes, get_votes_from_bytes};
use food_votes::votes::Votes;
use food_votes::wire::{
    decode_field, decode_key, decode_varint, encode_bytes_field, encode_varint,
    encode_varint_field, skip_group, skip_value, DecodeError, Field,
};
use prost::bytes::{Buf, BufMut};
use prost::encoding::{DecodeContext, WireType};
use prost::Message;

/// The submission as the outside codec would hold it.
#[derive(Debug, Default, PartialEq)]
struct WireVotes {
    old_bit_map: Vec<u8>,
    new_bit_map: Vec<u8>,
}

impl Message for WireVotes {
    fn encode_raw(&self, buf: &mut impl BufMut) {
        if !self.old_bit_map.is_empty() {
            prost::encoding::bytes::encode(1, &self.old_bit_map, buf);
        }
        if !self.new_bit_map.is_empty() {
            prost::encoding::bytes::encode(2, &self.new_bit_map, buf);
        }
    }

    fn merge_field(
        &mut self,
        tag: u32,
        wire_type: WireType,
        buf: &mut impl Buf,
        ctx: DecodeContext,
    ) -> Result<(), prost::DecodeError> {
        match tag {
            1 => prost::encoding::bytes::merge(wire_type, &mut self.old_bit_map, buf, ctx),
            2 => prost::encoding::bytes::merge(wire_type, &mut self.new_bit_map, buf, ctx),
            _ => prost::encoding::skip_field(wire_type, tag, buf, ctx),
        }
    }

    fn encoded_len(&self) -> usize {
        let mut len = 0;
        if !self.old_bit_map.is_empty() {
            len += prost::encoding::bytes::encoded_len(1, &self.old_bit_map);
        }
        if !self.new_bit_map.is_empty() {
            len += prost::encoding::bytes::encoded_len(2, &self.new_bit_map);
        }
        len
    }

    fn clear(&mut self) {
        self.old_bit_map.clear();
        self.new_bit_map.clear();
    }
}

fn varint(value: u64) -> Vec<u8> {
    let mut out = Vec::new();
    encode_varint(value, &mut out);
    out
}

fn samples() -> Vec<u64> {
    let mut values = vec![0, 1, 2, 127, 128, 129, 255, 256, 300, 16383, 16384, u32::MAX as u64, u64::MAX, u64::MAX - 1];
    for shift in 0..64 {
        values.push(1u64 << shift);
        values.push((1u64 << shift) - 1);
        values.push((1u64 << shift) + 1);
    }
    values
}

#[test]
fn varints_are_written_seven_bits_to_the_byte() {
    assert_eq!(varint(0), vec![0x00]);
    assert_eq!(varint(1), vec![0x01]);
    assert_eq!(varint(127), vec![0x7f]);
    assert_eq!(varint(128), vec![0x80, 0x01]);
    assert_eq!(varint(300), vec![0xac, 0x02]);
    assert_eq!(varint(16384), vec![0x80, 0x80, 0x01]);
    assert_eq!(varint(u64::MAX), vec![0xff, 0xff, 0xff, 0xff, 0xff, 0xff, 0xff, 0xff, 0xff, 0x01]);
}

#[test]
fn varints_are_read_back() {
    for value in samples() {
        let mut bytes = vec![0xaa, 0xbb];
        encode_varint(value, &mut bytes);
        let end = bytes.len();
        bytes.push(0xcc);
        assert_eq!(decode_varint(&bytes, 2), Some((value, end)));
    }
}

#[test]
fn varints_are_written_as_the_outside_codec_writes_them() {
    for value in samples() {
        let mut theirs = Vec::new();
        prost::encoding::encode_varint(value, &mut theirs);
        assert_eq!(varint(value), theirs);
    }
}

#[test]
fn varints_are_read_as_the_outside_codec_reads_them() {
    let mut inputs: Vec<Vec<u8>> = vec![
        vec![],
        vec![0x80],
        vec![0x80, 0x80],
        vec![0xff; 9],
        vec![0xff; 10],
        vec![0xff; 11],
        vec![0xff, 0xff, 0xff, 0xff, 0xff, 0xff, 0xff, 0xff, 0xff, 0x01],
        vec![0xff, 0xff, 0xff, 0xff, 0xff, 0xff, 0xff, 0xff, 0xff, 0x02],
        vec![0x80, 0x80, 0x80, 0x80, 0x80, 0x80, 0x80, 0x80, 0x80, 0x00],
        vec![0x80, 0x80, 0x80, 0x80, 0x80, 0x80, 0x80, 0x80, 0x80, 0x80, 0x00],
        vec![0x80, 0x00],
        vec![0x81, 0x80, 0x00, 0x07],
    ];
    for value in samples() {
        let mut bytes = varint(value);
        inputs.push(bytes.clone());
        bytes.push(0x05);
        inputs.push(bytes.clone());
        bytes.truncate(bytes.len() - 2);
        inputs.push(bytes);
    }
    for bytes in inputs {
        let mut theirs = &bytes[..];
        let expected = prost::encoding::decode_varint(&mut theirs).ok().map(|v| (v, bytes.len() - theirs.len()));
        assert_eq!(decode_varint(&bytes, 0), expected, "{:?}", bytes);
    }
}

#[test]
fn a_varint_is_read_from_where_it_starts() {
    let bytes = vec![0xff, 0xac, 0x02, 0x00];
    assert_eq!(decode_varint(&bytes, 1), Some((300, 3)));
    assert_eq!(decode_varint(&bytes, 3), Some((0, 4)));
    assert_eq!(decode_varint(&bytes, 4), None);
}

#[test]
fn fields_are_read_by_their_layout() {
    let mut bytes = Vec::new();
    encode_varint_field(5, 300, &mut bytes);
    let a = bytes.len();
    encode_bytes_field(7, &[1, 2, 3], &mut bytes);
    let b = bytes.len();
    bytes.extend_from_slice(&[(9 << 3) | 5, 1, 2, 3, 4]);
    let c = bytes.len();
    bytes.extend_from_slice(&[(10 << 3) | 1, 1, 2, 3, 4, 5, 6, 7, 8]);
    let d = bytes.len();
    assert_eq!(decode_field(&bytes, 0, 100), Some(Field { tag: 5, wire: 0, number: 300, start: a, end: a, next: a }));
    assert_eq!(decode_field(&bytes, a, 100), Some(Field { tag: 7, wire: 2, number: 0, start: a + 2, end: b, next: b }));
    assert_eq!(&bytes[a + 2..b], &[1, 2, 3]);
    assert_eq!(decode_field(&bytes, b, 100), Some(Field { tag: 9, wire: 5, number: 0, start: b + 1, end: c, next: c }));
    assert_eq!(decode_field(&bytes, c, 100), Some(Field { tag: 10, wire: 1, number: 0, start: c + 1, end: d, next: d }));
    assert_eq!(decode_field(&bytes, d, 100), None);
}

#[test]
fn what_is_no_field() {
    assert_eq!(decode_field(&[], 0, 100), None);
    assert_eq!(decode_field(&[0x00, 0x01], 0, 100), None);
    assert_eq!(decode_field(&[0x02, 0x00], 0, 100), None);
    assert_eq!(decode_field(&[(1 << 3) | 3], 0, 100), None);
    assert_eq!(decode_field(&[(1 << 3) | 4], 0, 100), None);
    assert_eq!(decode_field(&[(1 << 3) | 6, 0], 0, 100), None);
    assert_eq!(decode_field(&[(1 << 3) | 7, 0], 0, 100), None);
    assert_eq!(decode_field(&[(1 << 3) | 2, 3, 1, 2], 0, 100), None);
    assert_eq!(decode_field(&[(1 << 3) | 5, 1, 2, 3], 0, 100), None);
    assert_eq!(decode_field(&[(1 << 3) | 1, 1, 2, 3, 4, 5, 6, 7], 0, 100), None);
    assert_eq!(decode_field(&[(1 << 3) | 0], 0, 100), None);
    assert_eq!(decode_field(&[(1 << 3) | 0, 0x80], 0, 100), None);
    assert_eq!(decode_field(&[0x88, 0x80, 0x80, 0x80, 0x10, 0x00], 0, 100), None);
    assert_eq!(
        decode_field(&[0xf8, 0xff, 0xff, 0xff, 0x0f, 0x09], 0, 100),
        Some(Field { tag: 0x1fff_ffff, wire: 0, number: 9, start: 6, end: 6, next: 6 })
    );
}

#[test]
fn keys_are_written_as_the_outside_codec_writes_them() {
    for tag in [1u32, 2, 15, 16, 2047, 2048, 0x1fff_ffff] {
        let mut ours = Vec::new();
        encode_varint_field(tag, 77, &mut ours);
        let mut theirs = Vec::new();
        prost::encoding::uint64::encode(tag, &77u64, &mut theirs);
        assert_eq!(ours, theirs);
        let mut ours = Vec::new();
        encode_bytes_field(tag, &[9, 8, 7], &mut ours);
        let mut theirs = Vec::new();
        prost::encoding::bytes::encode(tag, &vec![9u8, 8, 7], &mut theirs);
        assert_eq!(ours, theirs);
    }
}

fn submissions() -> Vec<(Vec<u8>, Vec<u8>)> {
    vec![
        (vec![], vec![]),
        (vec![0], vec![]),
        (vec![], vec![0xff]),
        (vec![0b0000_0000], vec![0b0000_0011]),
        (vec![0, 0], vec![0x80, 0]),
        (vec![1, 2, 3], vec![4, 5]),
        ((0..=255).collect(), (0..=255).rev().collect()),
        (vec![7; 1000], vec![9; 1000]),
    ]
}

#[test]
fn a_submission_is_read_back() {
    for (old, new) in submissions() {
        let votes = Votes { old_bit_map: old, new_bit_map: new };
        assert_eq!(get_votes_from_bytes(&encode_votes(&votes)), Ok(votes));
    }
}

#[test]
fn a_submission_is_written_as_the_outside_codec_writes_it() {
    for (old, new) in submissions() {
        let theirs = WireVotes { old_bit_map: old.clone(), new_bit_map: new.clone() }.encode_to_vec();
        assert_eq!(encode_votes(&Votes { old_bit_map: old, new_bit_map: new }), theirs);
    }
}

#[test]
fn a_submission_is_read_as_the_outside_codec_reads_it() {
    let mut inputs: Vec<Vec<u8>> = vec![
        vec![],
        vec![0x0a, 0x00],
        vec![0x0a, 0x01, 0xff, 0x0a, 0x02, 0x01, 0x02],
        vec![0x12, 0x01, 0x05, 0x0a, 0x01, 0x06],
        vec![0x0a],
        vec![0x0a, 0x02, 0x01],
        vec![0x08, 0x01],
        vec![0x10, 0x01],
        vec![0x18, 0x96, 0x01, 0x0a, 0x01, 0x01],
        vec![0x1d, 1, 2, 3, 4, 0x12, 0x01, 0x09],
        vec![0x19, 1, 2, 3, 4, 5, 6, 7, 8],
        vec![0x22, 0x03, 0x61, 0x62, 0x63, 0x0a, 0x00],
        vec![0x00],
        vec![0x07],
        vec![0x0e, 0x00],
        vec![0xff],
        vec![0x1c],
    ];
    for (old, new) in submissions() {
        let bytes = encode_votes(&Votes { old_bit_map: old, new_bit_map: new });
        if !bytes.is_empty() {
            inputs.push(bytes[..bytes.len() - 1].to_vec());
        }
        inputs.push(bytes);
    }
    for bytes in inputs {
        let theirs = WireVotes::decode(&bytes[..]);
        let ours = get_votes_from_bytes(&bytes);
        match (ours, theirs) {
            (Ok(a), Ok(b)) => {
                assert_eq!(a.old_bit_map, b.old_bit_map, "{:?}", bytes);
                assert_eq!(a.new_bit_map, b.new_bit_map, "{:?}", bytes);
            }
            (Err(e), Err(_)) => assert_eq!(e, DecodeError::Malformed),
            (a, b) => panic!("{:?}: {:?} against {:?}", bytes, a, b),
        }
    }
}

#[test]
fn the_last_field_of_a_number_counts() {
    let bytes = vec![0x0a, 0x01, 0x01, 0x0a, 0x02, 0x02, 0x03];
    assert_eq!(get_votes_from_bytes(&bytes), Ok(Votes { old_bit_map: vec![2, 3], new_bit_map: vec![] }));
}

#[test]
fn a_group_is_passed_over_as_one_field() {
    let group = [0x1b, 0x08, 0x01, 0x12, 0x02, 0xaa, 0xbb, 0x23, 0x24, 0x1c];
    assert_eq!(
        decode_field(&group, 0, 100),
        Some(Field { tag: 3, wire: 3, number: 0, start: 10, end: 10, next: 10 })
    );
    assert_eq!(skip_group(&group, 1, 3, 100), Some(10));
    assert_eq!(skip_value(&group, 1, 3, 3, 100), Some(10));
    assert_eq!(skip_value(&group, 8, 3, 4, 99), Some(9));
    assert_eq!(decode_key(&group, 0), Some((3, 3, 1)));
    assert_eq!(decode_key(&group, 9), Some((3, 4, 10)));
    assert_eq!(get_votes_from_bytes(&[0x1b, 0x1c]), Ok(Votes { old_bit_map: vec![], new_bit_map: vec![] }));
    assert_eq!(
        get_votes_from_bytes(&[0x0a, 0x01, 0x07, 0x1b, 0x08, 0x01, 0x1c, 0x12, 0x01, 0x09]),
        Ok(Votes { old_bit_map: vec![7], new_bit_map: vec![9] })
    );
}

#[test]
fn a_group_that_does_not_end_rightly_is_no_field() {
    assert_eq!(decode_field(&[0x1b], 0, 100), None);
    assert_eq!(decode_field(&[0x1b, 0x08, 0x01], 0, 100), None);
    assert_eq!(decode_field(&[0x1b, 0x24], 0, 100), None);
    assert_eq!(decode_field(&[0x1c], 0, 100), None);
    assert_eq!(decode_field(&[0x1b, 0x23, 0x1c, 0x24], 0, 100), None);
    assert_eq!(decode_field(&[0x1b, 0x1c], 0, 0), None);
    assert_eq!(decode_field(&[0x1b, 0x08, 0x01, 0x1c], 0, 1), None);
    assert_eq!(
        decode_field(&[0x1b, 0x08, 0x01, 0x1c], 0, 2),
        Some(Field { tag: 3, wire: 3, number: 0, start: 4, end: 4, next: 4 })
    );
    assert_eq!(get_votes_from_bytes(&[0x0b, 0x0c]), Err(DecodeError::Malformed));
    assert_eq!(get_votes_from_bytes(&[0x1c]), Err(DecodeError::Malformed));
}

fn nested(depth: usize) -> Vec<u8> {
    let mut bytes = vec![0x1b; depth];
    bytes.extend(vec![0x1c; depth]);
    bytes
}

#[test]
fn groups_are_passed_over_as_the_outside_codec_passes_them_over() {
    let mut inputs: Vec<Vec<u8>> = vec![
        vec![0x1b, 0x1c],
        vec![0x1b, 0x08, 0x01, 0x12, 0x02, 0xaa, 0xbb, 0x23, 0x24, 0x1c],
        vec![0x1b, 0x08, 0x01, 0x1c, 0x0a, 0x01, 0x05],
        vec![0x1b, 0x0a, 0x01, 0x05, 0x1c],
        vec![0x1b, 0x24],
        vec![0x1b, 0x23, 0x1c, 0x24],
        vec![0x1b, 0x23, 0x24, 0x1c, 0x12, 0x00],
        vec![0x1b, 0x1d, 1, 2, 3, 4, 0x19, 1, 2, 3, 4, 5, 6, 7, 8, 0x1c],
        vec![0x1b, 0x1d, 1, 2, 3, 0x1c],
        vec![0x0b, 0x0c],
        vec![0x13, 0x14],
        vec![0x1b],
        vec![0x1c],
        vec![0x1b, 0x1b, 0x1c],
    ];
    for depth in [1usize, 2, 50, 98, 99, 100, 101, 102, 150] {
        inputs.push(nested(depth));
        let mut with_value = vec![0x1b; depth];
        with_value.extend_from_slice(&[0x20, 0x01]);
        with_value.extend(vec![0x1c; depth]);
        inputs.push(with_value);
    }
    let mut accepted = 0;
    for bytes in inputs {
        let theirs = WireVotes::decode(&bytes[..]);
        let ours = get_votes_from_bytes(&bytes);
        match (ours, theirs) {
            (Ok(a), Ok(b)) => {
                assert_eq!(a.old_bit_map, b.old_bit_map, "{:?}", bytes);
                assert_eq!(a.new_bit_map, b.new_bit_map, "{:?}", bytes);
                accepted += 1;
            }
            (Err(e), Err(_)) => assert_eq!(e, DecodeError::Malformed),
            (a, b) => panic!("{:?}: {:?} against {:?}", bytes, a, b),
        }
    }
    assert!(accepted >= 8);
}
