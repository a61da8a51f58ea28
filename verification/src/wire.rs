//! The wire format of snapshots and vote submissions: the Protocol Buffers
//! encoding, as far as the two need it.
//!
//! A message is a run of fields. Each field starts with a key, a variable
//! length integer that holds the field's number and, in its lowest three
//! bits, how the value is laid out: as a variable length integer, as four or
//! eight bytes, or as a length followed by that many bytes. A group, a run
//! of fields between a start marker and the end marker of the same number,
//! holds nothing that the two messages use: it is read only to be passed
//! over, down to a bounded depth of groups within groups.

use vstd::prelude::*;

verus! {

/// The variable length integer at the start of `bytes`, as its value and
/// the number of bytes it takes, or none where `bytes` starts with none
/// within `budget` bytes. Each byte holds seven bits of the value, lowest
/// first; its top bit says that another follows. The last byte of a
/// full-length (ten byte) integer may hold one bit only, so that the value
/// fits in 64 bits.
pub open spec fn read_varint(bytes: Seq<u8>, budget: nat) -> Option<(nat, nat)>
    decreases budget,
{
    if budget == 0 || bytes.len() == 0 {
        None
    } else if bytes[0] < 128 {
        if budget == 1 && bytes[0] >= 2 {
            None
        } else {
            Some((bytes[0] as nat, 1))
        }
    } else {
        match read_varint(bytes.drop_first(), (budget - 1) as nat) {
            Some((value, used)) => Some((((bytes[0] - 128) + 128 * value) as nat, used + 1)),
            None => None,
        }
    }
}

/// The bytes that write `value` as a variable length integer.
pub open spec fn write_varint(value: nat) -> Seq<u8>
    decreases value,
{
    if value < 128 {
        seq![value as u8]
    } else {
        seq![(value % 128 + 128) as u8] + write_varint(value / 128)
    }
}

/// 128 to the power of `n`.
pub open spec fn pow128(n: nat) -> nat
    decreases n,
{
    if n == 0 {
        1
    } else {
        128 * pow128((n - 1) as nat)
    }
}

/// What is read within a budget is below twice 128 to the budget less one,
/// and takes at least one byte and at most the budget.
pub proof fn lemma_read_varint_bounds(bytes: Seq<u8>, budget: nat)
    ensures
        match read_varint(bytes, budget) {
            Some((value, used)) => 1 <= used <= budget && used <= bytes.len() && value < 2 * pow128(
                (budget - 1) as nat,
            ),
            None => true,
        },
    decreases budget,
{
    if budget == 0 || bytes.len() == 0 {
    } else if bytes[0] < 128 {
        if budget > 1 {
            lemma_pow128_grows(1, (budget - 1) as nat);
        }
    } else {
        lemma_read_varint_bounds(bytes.drop_first(), (budget - 1) as nat);
        if budget >= 2 {
            assert(pow128((budget - 1) as nat) == 128 * pow128((budget - 2) as nat));
        }
    }
}

/// Powers of 128 grow with the exponent.
pub proof fn lemma_pow128_grows(a: nat, b: nat)
    requires
        a <= b,
    ensures
        1 <= pow128(a) <= pow128(b),
        a >= 1 ==> 128 <= pow128(a),
    decreases b,
{
    if a < b {
        lemma_pow128_grows(a, (b - 1) as nat);
    } else if a > 0 {
        lemma_pow128_grows((a - 1) as nat, (a - 1) as nat);
    }
}

/// 128 to the ninth is 2 to the 63rd.
pub proof fn lemma_pow128_nine()
    ensures
        pow128(9) == 0x8000_0000_0000_0000,
{
    reveal_with_fuel(pow128, 10);
}

/// 128 to the eighth is 2 to the 56th.
pub proof fn lemma_pow128_eight()
    ensures
        pow128(8) == 0x100_0000_0000_0000,
{
    reveal_with_fuel(pow128, 9);
}

/// Reads the variable length integer that starts at `pos`, and returns its
/// value with the position behind it.
pub fn decode_varint(bytes: &[u8], pos: usize) -> (out: Option<(u64, usize)>)
    requires
        pos <= bytes.len(),
    ensures
        match read_varint(bytes@.skip(pos as int), 10) {
            Some((value, used)) => out == Some((value as u64, (pos + used) as usize)) && value
                <= u64::MAX && pos + used <= bytes.len(),
            None => out is None,
        },
{
    let ghost s = bytes@.skip(pos as int);
    let n = bytes.len() - pos;
    let mut value: u64 = 0;
    let mut pow: u64 = 1;
    let mut i: usize = 0;
    assert(s.skip(0) =~= s);
    while i < n
        invariant
            i <= 9,
            i <= n,
            n == bytes.len() - pos,
            s == bytes@.skip(pos as int),
            pow == pow128(i as nat),
            value < pow,
            match read_varint(s.skip(i as int), (10 - i) as nat) {
                Some((v, u)) => read_varint(s, 10) == Some(((value + pow * v) as nat, (i + u) as nat)),
                None => read_varint(s, 10) is None,
            },
        decreases n - i,
    {
        let b = bytes[pos + i];
        let ghost rest = s.skip(i as int);
        proof {
            assert(rest[0] == b);
            assert(rest.drop_first() =~= s.skip(i + 1));
            lemma_pow128_grows(i as nat, 9);
            lemma_pow128_nine();
            lemma_read_varint_bounds(s, 10);
            if i <= 8 {
                lemma_pow128_grows(i as nat, 8);
                lemma_pow128_eight();
            }
        }
        if b < 128 {
            if i == 9 && b >= 2 {
                return None;
            }
            assert(b * pow <= 127 * 0x100_0000_0000_0000 || (i == 9 && b * pow
                <= 0x8000_0000_0000_0000)) by (nonlinear_arith)
                requires
                    b < 128,
                    (i <= 8 && pow <= 0x100_0000_0000_0000) || (i == 9 && b < 2 && pow
                        == 0x8000_0000_0000_0000),
            ;
            assert(pow * (b as nat) == b * pow) by (nonlinear_arith);
            return Some((value + (b as u64) * pow, pos + i + 1));
        }
        if i == 9 {
            return None;
        }
        proof {
            let low = (b - 128) as nat;
            assert(low * pow <= 127 * 0x100_0000_0000_0000) by (nonlinear_arith)
                requires
                    low < 128,
                    pow <= 0x100_0000_0000_0000,
            ;
            assert(value + low * pow < pow * 128) by (nonlinear_arith)
                requires
                    value < pow,
                    low <= 127,
            ;
            assert(pow128((i + 1) as nat) == 128 * pow128(i as nat));
            match read_varint(s.skip(i + 1), (10 - (i + 1)) as nat) {
                Some((v, u)) => {
                    assert((value + pow * (low + 128 * v)) == (value + low * pow) + (pow * 128)
                        * v) by (nonlinear_arith);
                },
                None => {},
            }
        }
        value = value + ((b - 128) as u64) * pow;
        pow = pow * 128;
        i += 1;
    }
    None
}

/// What was written is read back: the bytes of a value, whatever follows
/// them, read as that value and as many bytes as were written.
pub proof fn lemma_varint_round_trip(value: nat, rest: Seq<u8>, budget: nat)
    requires
        budget >= 1,
        value < 2 * pow128((budget - 1) as nat),
    ensures
        read_varint(write_varint(value) + rest, budget) == Some((value, write_varint(value).len())),
        1 <= write_varint(value).len() <= budget,
    decreases value,
{
    let bytes = write_varint(value) + rest;
    if value < 128 {
        assert(bytes[0] == value as u8);
    } else {
        if budget == 1 {
            assert(pow128(0) == 1);
        }
        assert(pow128((budget - 1) as nat) == 128 * pow128((budget - 2) as nat));
        assert(bytes[0] == (value % 128 + 128) as u8);
        assert(bytes.drop_first() =~= write_varint(value / 128) + rest);
        lemma_varint_round_trip(value / 128, rest, (budget - 1) as nat);
    }
}

/// Every 64-bit value is read back within ten bytes.
pub proof fn lemma_varint_round_trip_u64(value: u64, rest: Seq<u8>)
    ensures
        read_varint(write_varint(value as nat) + rest, 10) == Some(
            (value as nat, write_varint(value as nat).len()),
        ),
        1 <= write_varint(value as nat).len() <= 10,
{
    lemma_pow128_nine();
    lemma_varint_round_trip(value as nat, rest, 10);
}

/// Appends `value` as a variable length integer.
pub fn encode_varint(value: u64, out: &mut Vec<u8>)
    ensures
        final(out)@ == old(out)@ + write_varint(value as nat),
{
    let ghost start = out@;
    let mut v = value;
    while v >= 128
        invariant
            start + write_varint(value as nat) == out@ + write_varint(v as nat),
        decreases v,
    {
        let ghost before = out@;
        out.push((v % 128 + 128) as u8);
        proof {
            assert(out@ + write_varint((v / 128) as nat) =~= before + write_varint(v as nat));
        }
        v = v / 128;
    }
    let ghost before = out@;
    out.push(v as u8);
    assert(out@ =~= before + write_varint(v as nat));
}

/// One field as it is read.
pub struct FieldView {
    /// The field's number, at least 1.
    pub tag: u32,
    /// The layout of the value.
    pub wire: u8,
    /// The value of a variable length integer; 0 under any other layout.
    pub number: u64,
    /// The bytes of the value under any other layout; empty for a variable
    /// length integer.
    pub payload: Seq<u8>,
    /// How many bytes the field takes, key and value together.
    pub used: nat,
}

/// The field at the start of `bytes`, or none where `bytes` starts with no
/// field of the format: a key that is no variable length integer, that
/// does not fit in 32 bits, that holds the number 0 or a layout other than
/// the four above, or a value that is cut short.
pub open spec fn read_field(bytes: Seq<u8>) -> Option<FieldView> {
    match read_varint(bytes, 10) {
        None => None,
        Some((key, k)) => {
            let rest = bytes.skip(k as int);
            let tag = (key / 8) as u32;
            if key > u32::MAX || key / 8 == 0 {
                None
            } else if key % 8 == 0 {
                match read_varint(rest, 10) {
                    Some((value, u)) => Some(
                        FieldView {
                            tag,
                            wire: 0,
                            number: value as u64,
                            payload: Seq::empty(),
                            used: k + u,
                        },
                    ),
                    None => None,
                }
            } else if key % 8 == 1 {
                if rest.len() >= 8 {
                    Some(FieldView { tag, wire: 1, number: 0, payload: rest.take(8), used: k + 8 })
                } else {
                    None
                }
            } else if key % 8 == 5 {
                if rest.len() >= 4 {
                    Some(FieldView { tag, wire: 5, number: 0, payload: rest.take(4), used: k + 4 })
                } else {
                    None
                }
            } else if key % 8 == 2 {
                match read_varint(rest, 10) {
                    Some((len, u)) => if u + len <= rest.len() {
                        Some(
                            FieldView {
                                tag,
                                wire: 2,
                                number: 0,
                                payload: rest.subrange(u as int, (u + len) as int),
                                used: k + u + len,
                            },
                        )
                    } else {
                        None
                    },
                    None => None,
                }
            } else {
                None
            }
        },
    }
}

/// One field as it was found in a buffer.
#[derive(Debug, Clone, Copy, PartialEq, Eq)]
pub struct Field {
    /// The field's number, at least 1.
    pub tag: u32,
    /// The layout of the value.
    pub wire: u8,
    /// The value of a variable length integer; 0 under any other layout.
    pub number: u64,
    /// Where the bytes of the value start.
    pub start: usize,
    /// Where the bytes of the value end.
    pub end: usize,
    /// Where the next field starts.
    pub next: usize,
}

/// Whether `field` is what `view` says, for a field read at `pos` of
/// `bytes`.
pub open spec fn field_matches(field: Field, view: FieldView, bytes: Seq<u8>, pos: int) -> bool {
    &&& field.tag == view.tag
    &&& field.wire == view.wire
    &&& field.number == view.number
    &&& pos < field.next <= bytes.len()
    &&& field.next == pos + view.used
    &&& pos <= field.start <= field.end <= field.next
    &&& bytes.subrange(field.start as int, field.end as int) == view.payload
    &&& view.tag >= 1
}

fn decode_plain_field(bytes: &[u8], pos: usize) -> (out: Option<Field>)
    requires
        pos <= bytes.len(),
    ensures
        match read_field(bytes@.skip(pos as int)) {
            Some(view) => out is Some && field_matches(out->0, view, bytes@, pos as int),
            None => out is None,
        },
{
    let ghost s = bytes@.skip(pos as int);
    let (key, at) = match decode_varint(bytes, pos) {
        Some(found) => found,
        None => { return None; },
    };
    let ghost k = (at - pos) as nat;
    let ghost rest = s.skip(k as int);
    proof {
        lemma_read_varint_bounds(s, 10);
        assert(rest =~= bytes@.skip(at as int));
    }
    if key > 0xffff_ffff || key / 8 == 0 {
        return None;
    }
    let tag = (key / 8) as u32;
    let wire = (key % 8) as u8;
    if wire == 0 {
        match decode_varint(bytes, at) {
            Some((number, next)) => {
                proof {
                    lemma_read_varint_bounds(rest, 10);
                    assert(bytes@.subrange(next as int, next as int) =~= Seq::<u8>::empty());
                }
                Some(Field { tag, wire, number, start: next, end: next, next })
            },
            None => None,
        }
    } else if wire == 1 {
        if bytes.len() - at >= 8 {
            assert(bytes@.subrange(at as int, at + 8) =~= rest.take(8));
            Some(Field { tag, wire, number: 0, start: at, end: at + 8, next: at + 8 })
        } else {
            None
        }
    } else if wire == 5 {
        if bytes.len() - at >= 4 {
            assert(bytes@.subrange(at as int, at + 4) =~= rest.take(4));
            Some(Field { tag, wire, number: 0, start: at, end: at + 4, next: at + 4 })
        } else {
            None
        }
    } else if wire == 2 {
        match decode_varint(bytes, at) {
            Some((len, start)) => {
                proof {
                    lemma_read_varint_bounds(rest, 10);
                }
                if len <= (bytes.len() - start) as u64 {
                    let end = start + len as usize;
                    assert(bytes@.subrange(start as int, end as int) =~= rest.subrange(
                        start - at,
                        start - at + len,
                    ));
                    Some(Field { tag, wire, number: 0, start, end, next: end })
                } else {
                    None
                }
            },
            None => None,
        }
    } else {
        None
    }
}

/// A field takes at least one byte and no more than there are, and its
/// value lies within it.
pub proof fn lemma_read_field_bounds(bytes: Seq<u8>)
    ensures
        match read_field(bytes) {
            Some(view) => 1 <= view.used <= bytes.len() && view.payload.len() < view.used
                && view.tag >= 1,
            None => true,
        },
{
    lemma_read_varint_bounds(bytes, 10);
    match read_varint(bytes, 10) {
        Some((key, k)) => {
            lemma_read_varint_bounds(bytes.skip(k as int), 10);
        },
        None => {},
    }
}

/// Why bytes could not be read as a message.
#[derive(Debug, Clone, Copy, PartialEq, Eq, Structural)]
pub enum DecodeError {
    /// The bytes are no message of the format.
    Malformed,
}

/// The largest number that a field can have.
pub const MAX_TAG: u32 = 0x1fff_ffff;

/// The bytes of a field with the number `tag` whose value is the variable
/// length integer `value`.
pub open spec fn varint_field(tag: u32, value: u64) -> Seq<u8> {
    write_varint((tag * 8) as nat) + write_varint(value as nat)
}

/// The bytes of a field with the number `tag` whose value is `payload`,
/// laid out as a length and its bytes.
pub open spec fn bytes_field(tag: u32, payload: Seq<u8>) -> Seq<u8> {
    write_varint((tag * 8 + 2) as nat) + write_varint(payload.len()) + payload
}

/// A field that holds a variable length integer is read back as it was
/// written, whatever follows it.
pub proof fn lemma_varint_field_round_trip(tag: u32, value: u64, rest: Seq<u8>)
    requires
        1 <= tag <= MAX_TAG,
    ensures
        read_field(varint_field(tag, value) + rest) == Some(
            FieldView {
                tag,
                wire: 0,
                number: value,
                payload: Seq::empty(),
                used: varint_field(tag, value).len(),
            },
        ),
        (varint_field(tag, value) + rest).skip(varint_field(tag, value).len() as int) == rest,
{
    let key = write_varint((tag * 8) as nat);
    let number = write_varint(value as nat);
    let all = varint_field(tag, value) + rest;
    assert(all =~= key + (number + rest));
    lemma_varint_round_trip_u64((tag * 8) as u64, number + rest);
    assert(all.skip(key.len() as int) =~= number + rest);
    lemma_varint_round_trip_u64(value, rest);
    assert(all.skip(varint_field(tag, value).len() as int) =~= rest);
}

/// A field that holds bytes is read back as it was written, whatever
/// follows it.
pub proof fn lemma_bytes_field_round_trip(tag: u32, payload: Seq<u8>, rest: Seq<u8>)
    requires
        1 <= tag <= MAX_TAG,
        payload.len() <= u64::MAX,
    ensures
        read_field(bytes_field(tag, payload) + rest) == Some(
            FieldView {
                tag,
                wire: 2,
                number: 0,
                payload,
                used: bytes_field(tag, payload).len(),
            },
        ),
        (bytes_field(tag, payload) + rest).skip(bytes_field(tag, payload).len() as int) == rest,
{
    let key = write_varint((tag * 8 + 2) as nat);
    let len = write_varint(payload.len());
    let all = bytes_field(tag, payload) + rest;
    assert(all =~= key + (len + payload + rest));
    lemma_varint_round_trip_u64((tag * 8 + 2) as u64, len + payload + rest);
    let after_key = all.skip(key.len() as int);
    assert(after_key =~= len + (payload + rest));
    lemma_varint_round_trip_u64(payload.len() as u64, payload + rest);
    assert(after_key.subrange(len.len() as int, (len.len() + payload.len()) as int) =~= payload);
    assert(all.skip(bytes_field(tag, payload).len() as int) =~= rest);
}

/// Appends a field with the number `tag` that holds `value` as a variable
/// length integer.
pub fn encode_varint_field(tag: u32, value: u64, out: &mut Vec<u8>)
    requires
        1 <= tag <= MAX_TAG,
    ensures
        final(out)@ == old(out)@ + varint_field(tag, value),
{
    let ghost start = out@;
    encode_varint((tag as u64) * 8, out);
    encode_varint(value, out);
    assert(out@ =~= start + varint_field(tag, value));
}

/// Appends a field with the number `tag` that holds `payload` as a length
/// and its bytes.
pub fn encode_bytes_field(tag: u32, payload: &[u8], out: &mut Vec<u8>)
    requires
        1 <= tag <= MAX_TAG,
    ensures
        final(out)@ == old(out)@ + bytes_field(tag, payload@),
        payload@.len() <= usize::MAX,
{
    let ghost start = out@;
    encode_varint((tag as u64) * 8 + 2, out);
    encode_varint(payload.len() as u64, out);
    let ghost head = out@;
    let mut i: usize = 0;
    while i < payload.len()
        invariant
            i <= payload.len(),
            out@ == head + payload@.take(i as int),
        decreases payload.len() - i,
    {
        out.push(payload[i]);
        i += 1;
        assert(payload@.take(i as int) =~= payload@.take(i - 1).push(payload@[i - 1]));
    }
    assert(payload@.take(payload.len() as int) =~= payload@);
    assert(out@ =~= start + bytes_field(tag, payload@));
}

/// How deep a message may nest: a field at this depth below the outermost
/// message is not passed over any more.
pub const RECURSION_LIMIT: u32 = 100;

/// The key at the start of `bytes`, as the field's number, the layout of
/// its value and the number of bytes that the key takes, or none where
/// `bytes` starts with no key: the number is at least 1, the key fits in 32
/// bits, and the layout is one of 0 to 5, of which 3 starts a group and 4
/// ends one.
pub open spec fn read_key(bytes: Seq<u8>) -> Option<(u32, u8, nat)> {
    match read_varint(bytes, 10) {
        Some((key, k)) => if key > u32::MAX || key / 8 == 0 || key % 8 > 5 {
            None
        } else {
            Some(((key / 8) as u32, (key % 8) as u8, k))
        },
        None => None,
    }
}

/// How many bytes the value of a field takes that is passed over at
/// `depth`: the field has the number `tag` and the layout `wire`, and its
/// value starts `bytes`. None where the value is cut short, where the
/// layout is an end marker, or where `depth` is used up.
pub open spec fn value_len(bytes: Seq<u8>, wire: u8, tag: u32, depth: nat) -> Option<nat>
    decreases depth, bytes.len(), 1nat,
{
    if depth == 0 {
        None
    } else if wire == 0 {
        match read_varint(bytes, 10) {
            Some((value, used)) => Some(used),
            None => None,
        }
    } else if wire == 1 {
        if bytes.len() >= 8 {
            Some(8)
        } else {
            None
        }
    } else if wire == 5 {
        if bytes.len() >= 4 {
            Some(4)
        } else {
            None
        }
    } else if wire == 2 {
        match read_varint(bytes, 10) {
            Some((len, used)) => if used + len <= bytes.len() {
                Some(used + len)
            } else {
                None
            },
            None => None,
        }
    } else if wire == 3 {
        group_len(bytes, tag, depth)
    } else {
        None
    }
}

/// How many bytes the rest of a group with the number `tag` takes, up to
/// and with its end marker: the fields at the start of `bytes` are passed
/// over, one level deeper, until an end marker comes, which must bear the
/// group's number.
pub open spec fn group_len(bytes: Seq<u8>, tag: u32, depth: nat) -> Option<nat>
    decreases depth, bytes.len(), 0nat,
    via group_len_decreases
{
    if depth == 0 {
        None
    } else {
        match read_key(bytes) {
            None => None,
            Some((inner_tag, wire, k)) => if wire == 4 {
                if inner_tag == tag {
                    Some(k)
                } else {
                    None
                }
            } else {
                match value_len(bytes.skip(k as int), wire, inner_tag, (depth - 1) as nat) {
                    Some(u) if k + u <= bytes.len() => match group_len(
                        bytes.skip((k + u) as int),
                        tag,
                        depth,
                    ) {
                        Some(rest) => Some(k + u + rest),
                        None => None,
                    },
                    _ => None,
                }
            },
        }
    }
}

#[via_fn]
proof fn group_len_decreases(bytes: Seq<u8>, tag: u32, depth: nat) {
    lemma_read_varint_bounds(bytes, 10);
}

/// A key takes at least one byte and no more than there are.
pub proof fn lemma_read_key_bounds(bytes: Seq<u8>)
    ensures
        match read_key(bytes) {
            Some((tag, wire, k)) => 1 <= k <= bytes.len() && k <= 10 && tag >= 1 && wire <= 5,
            None => true,
        },
{
    lemma_read_varint_bounds(bytes, 10);
}

/// What is passed over lies within the bytes that are there.
pub proof fn lemma_value_len_bounds(bytes: Seq<u8>, wire: u8, tag: u32, depth: nat)
    ensures
        match value_len(bytes, wire, tag, depth) {
            Some(u) => u <= bytes.len() && (wire == 3 ==> u >= 1),
            None => true,
        },
    decreases depth, bytes.len(), 1nat,
{
    lemma_read_varint_bounds(bytes, 10);
    if depth > 0 && wire == 3 {
        lemma_group_len_bounds(bytes, tag, depth);
    }
}

/// The rest of a group takes at least one byte and no more than there
/// are.
pub proof fn lemma_group_len_bounds(bytes: Seq<u8>, tag: u32, depth: nat)
    ensures
        match group_len(bytes, tag, depth) {
            Some(g) => 1 <= g <= bytes.len(),
            None => true,
        },
    decreases depth, bytes.len(), 0nat,
{
    lemma_read_key_bounds(bytes);
    if depth > 0 {
        match read_key(bytes) {
            Some((inner_tag, wire, k)) => {
                if wire != 4 {
                    match value_len(bytes.skip(k as int), wire, inner_tag, (depth - 1) as nat) {
                        Some(u) => {
                            if k + u <= bytes.len() {
                                lemma_group_len_bounds(bytes.skip((k + u) as int), tag, depth);
                            }
                        },
                        None => {},
                    }
                }
            },
            None => {},
        }
    }
}

/// The field at the start of `bytes`, read at `depth`: a plain field as it
/// stands, or a whole group, from its start marker to its end marker, as
/// one field with the layout 3 and no value.
#[verifier::opaque]
pub open spec fn next_field(bytes: Seq<u8>, depth: nat) -> Option<FieldView> {
    match read_field(bytes) {
        Some(field) => Some(field),
        None => match read_key(bytes) {
            Some((tag, wire, k)) => if wire == 3 {
                match group_len(bytes.skip(k as int), tag, depth) {
                    Some(g) => Some(
                        FieldView { tag, wire: 3, number: 0, payload: Seq::empty(), used: k + g },
                    ),
                    None => None,
                }
            } else {
                None
            },
            None => None,
        },
    }
}

/// A field takes at least one byte and no more than there are.
pub proof fn lemma_next_field_bounds(bytes: Seq<u8>, depth: nat)
    ensures
        match next_field(bytes, depth) {
            Some(view) => 1 <= view.used <= bytes.len() && view.payload.len() < view.used
                && view.tag >= 1,
            None => true,
        },
{
    reveal(next_field);
    lemma_read_field_bounds(bytes);
    lemma_read_key_bounds(bytes);
    match read_key(bytes) {
        Some((tag, wire, k)) => {
            lemma_group_len_bounds(bytes.skip(k as int), tag, depth);
        },
        None => {},
    }
}

/// A plain field is read the same at every depth.
pub proof fn lemma_next_field_plain(bytes: Seq<u8>, depth: nat)
    ensures
        read_field(bytes) is Some ==> next_field(bytes, depth) == read_field(bytes),
{
    reveal(next_field);
}

/// Reads the key that starts at `pos`, and returns the field's number, the
/// layout of its value and the position behind the key.
pub fn decode_key(bytes: &[u8], pos: usize) -> (out: Option<(u32, u8, usize)>)
    requires
        pos <= bytes.len(),
    ensures
        match read_key(bytes@.skip(pos as int)) {
            Some((tag, wire, k)) => out == Some((tag, wire, (pos + k) as usize)) && pos + k
                <= bytes.len(),
            None => out is None,
        },
{
    proof {
        lemma_read_varint_bounds(bytes@.skip(pos as int), 10);
    }
    match decode_varint(bytes, pos) {
        Some((key, at)) => {
            if key > 0xffff_ffff || key / 8 == 0 || key % 8 > 5 {
                None
            } else {
                Some(((key / 8) as u32, (key % 8) as u8, at))
            }
        },
        None => None,
    }
}

/// Passes over the value of a field with the number `tag` and the layout
/// `wire` that starts at `pos`, and returns the position behind it.
pub fn skip_value(bytes: &[u8], pos: usize, wire: u8, tag: u32, depth: u32) -> (out: Option<usize>)
    requires
        pos <= bytes.len(),
    ensures
        match value_len(bytes@.skip(pos as int), wire, tag, depth as nat) {
            Some(u) => out == Some((pos + u) as usize) && pos + u <= bytes.len(),
            None => out is None,
        },
    decreases depth, bytes.len() - pos, 1nat,
{
    let ghost rest = bytes@.skip(pos as int);
    proof {
        lemma_read_varint_bounds(rest, 10);
    }
    if depth == 0 {
        None
    } else if wire == 0 {
        match decode_varint(bytes, pos) {
            Some((_, next)) => Some(next),
            None => None,
        }
    } else if wire == 1 {
        if bytes.len() - pos >= 8 {
            Some(pos + 8)
        } else {
            None
        }
    } else if wire == 5 {
        if bytes.len() - pos >= 4 {
            Some(pos + 4)
        } else {
            None
        }
    } else if wire == 2 {
        match decode_varint(bytes, pos) {
            Some((len, start)) => {
                if len <= (bytes.len() - start) as u64 {
                    Some(start + len as usize)
                } else {
                    None
                }
            },
            None => None,
        }
    } else if wire == 3 {
        skip_group(bytes, pos, tag, depth)
    } else {
        None
    }
}

/// Passes over the rest of a group with the number `tag` that goes on at
/// `pos`, and returns the position behind its end marker.
pub fn skip_group(bytes: &[u8], pos: usize, tag: u32, depth: u32) -> (out: Option<usize>)
    requires
        pos <= bytes.len(),
    ensures
        match group_len(bytes@.skip(pos as int), tag, depth as nat) {
            Some(g) => out == Some((pos + g) as usize) && pos + g <= bytes.len(),
            None => out is None,
        },
    decreases depth, bytes.len() - pos, 0nat,
{
    if depth == 0 {
        return None;
    }
    let ghost whole = group_len(bytes@.skip(pos as int), tag, depth as nat);
    let mut at: usize = pos;
    loop
        invariant
            depth > 0,
            pos <= at <= bytes.len(),
            whole == group_len(bytes@.skip(pos as int), tag, depth as nat),
            match group_len(bytes@.skip(at as int), tag, depth as nat) {
                Some(g) => whole == Some((at - pos + g) as nat),
                None => whole is None,
            },
        decreases bytes.len() - at,
    {
        let ghost rest = bytes@.skip(at as int);
        proof {
            lemma_read_key_bounds(rest);
            lemma_group_len_bounds(rest, tag, depth as nat);
        }
        let (inner_tag, wire, next) = match decode_key(bytes, at) {
            Some(key) => key,
            None => { return None; },
        };
        if wire == 4 {
            if inner_tag == tag {
                return Some(next);
            } else {
                return None;
            }
        }
        proof {
            assert(rest.skip(next - at) =~= bytes@.skip(next as int));
            lemma_value_len_bounds(bytes@.skip(next as int), wire, inner_tag, (depth - 1) as nat);
        }
        match skip_value(bytes, next, wire, inner_tag, depth - 1) {
            Some(after) => {
                proof {
                    assert(rest.skip(after - at) =~= bytes@.skip(after as int));
                }
                at = after;
            },
            None => { return None; },
        }
    }
}

/// Reads the field that starts at `pos`, at `depth`: a plain field as it
/// stands, or a whole group as one field without a value.
pub fn decode_field(bytes: &[u8], pos: usize, depth: u32) -> (out: Option<Field>)
    requires
        pos <= bytes.len(),
    ensures
        match next_field(bytes@.skip(pos as int), depth as nat) {
            Some(view) => out is Some && field_matches(out->0, view, bytes@, pos as int),
            None => out is None,
        },
{
    let ghost rest = bytes@.skip(pos as int);
    proof {
        reveal(next_field);
    }
    match decode_plain_field(bytes, pos) {
        Some(field) => Some(field),
        None => match decode_key(bytes, pos) {
            Some((tag, wire, at)) => {
                if wire == 3 {
                    proof {
                        lemma_read_key_bounds(rest);
                        assert(rest.skip(at - pos) =~= bytes@.skip(at as int));
                        lemma_group_len_bounds(bytes@.skip(at as int), tag, depth as nat);
                    }
                    match skip_group(bytes, at, tag, depth) {
                        Some(next) => {
                            assert(bytes@.subrange(next as int, next as int) =~= Seq::<u8>::empty());
                            Some(Field { tag, wire, number: 0, start: next, end: next, next })
                        },
                        None => None,
                    }
                } else {
                    None
                }
            },
            None => None,
        },
    }
}

/// A field that holds a variable length integer is read back as it was
/// written at every depth, whatever follows it.
pub proof fn lemma_varint_field_read_back(tag: u32, value: u64, rest: Seq<u8>, depth: nat)
    requires
        1 <= tag <= MAX_TAG,
    ensures
        next_field(varint_field(tag, value) + rest, depth) == Some(
            FieldView {
                tag,
                wire: 0,
                number: value,
                payload: Seq::empty(),
                used: varint_field(tag, value).len(),
            },
        ),
        (varint_field(tag, value) + rest).skip(varint_field(tag, value).len() as int) == rest,
{
    lemma_varint_field_round_trip(tag, value, rest);
    lemma_next_field_plain(varint_field(tag, value) + rest, depth);
}

/// A field that holds bytes is read back as it was written at every
/// depth, whatever follows it.
pub proof fn lemma_bytes_field_read_back(tag: u32, payload: Seq<u8>, rest: Seq<u8>, depth: nat)
    requires
        1 <= tag <= MAX_TAG,
        payload.len() <= u64::MAX,
    ensures
        next_field(bytes_field(tag, payload) + rest, depth) == Some(
            FieldView {
                tag,
                wire: 2,
                number: 0,
                payload,
                used: bytes_field(tag, payload).len(),
            },
        ),
        (bytes_field(tag, payload) + rest).skip(bytes_field(tag, payload).len() as int) == rest,
{
    lemma_bytes_field_round_trip(tag, payload, rest);
    lemma_next_field_plain(bytes_field(tag, payload) + rest, depth);
}

} // verus!
