//! Minimal protobuf encoder.

use vstd::prelude::*;

verus! {

/// A field of a message: its number, and an integer or bytes.
#[verifier::ext_equal]
pub enum Field {
    Varint { number: u32, value: u64 },
    Bytes { number: u32, data: Seq<u8> },
}

/// A number in groups of seven bits, the lowest first; all groups but the last have the high bit
/// set.
pub open spec fn varint(n: nat) -> Seq<u8>
    decreases n,
{
    if n < 128 {
        seq![n as u8]
    } else {
        seq![(n % 128 + 128) as u8] + varint(n / 128)
    }
}

impl Field {
    /// The field as bytes: key, and value or length and data.
    pub open spec fn encoded(self) -> Seq<u8> {
        match self {
            Field::Varint { number, value } => varint((number * 8) as nat) + varint(value as nat),
            Field::Bytes { number, data } => varint((number * 8 + 2) as nat) + varint(data.len())
                + data,
        }
    }

    /// A field number that a key has room for, and data whose length fits in 64 bits.
    pub open spec fn wf(self) -> bool {
        match self {
            Field::Varint { number, value } => true,
            Field::Bytes { number, data } => data.len() <= u64::MAX,
        }
    }
}

/// A message as bytes.
pub open spec fn message(fields: Seq<Field>) -> Seq<u8>
    decreases fields.len(),
{
    if fields.len() == 0 {
        Seq::empty()
    } else {
        message(fields.drop_last()) + fields.last().encoded()
    }
}

/// Reads a number from the front of `bytes`: its value, and the number of bytes it takes.
pub open spec fn read_varint(bytes: Seq<u8>) -> Option<(nat, int)>
    decreases bytes.len(),
{
    if bytes.len() == 0 {
        None
    } else if bytes[0] < 128 {
        Some((bytes[0] as nat, 1))
    } else {
        match read_varint(bytes.skip(1)) {
            None => None,
            Some((high, used)) => Some(((high * 128 + (bytes[0] - 128)) as nat, used + 1)),
        }
    }
}

/// Reads a field from the front of `bytes`, with the number of bytes it takes.
pub open spec fn read_field(bytes: Seq<u8>) -> Option<(Field, int)> {
    match read_varint(bytes) {
        None => None,
        Some((key, used)) => {
            match read_varint(bytes.skip(used)) {
                None => None,
                Some((n, more)) => {
                    let at = used + more;
                    if key % 8 == 0 {
                        Some((Field::Varint { number: (key / 8) as u32, value: n as u64 }, at))
                    } else if key % 8 == 2 && at + n <= bytes.len() {
                        Some(
                            (
                                Field::Bytes {
                                    number: (key / 8) as u32,
                                    data: bytes.subrange(at, at + n),
                                },
                                at + n,
                            ),
                        )
                    } else {
                        None
                    }
                },
            }
        },
    }
}

/// Reads a message.
pub open spec fn read_message(bytes: Seq<u8>) -> Option<Seq<Field>>
    decreases bytes.len(),
{
    if bytes.len() == 0 {
        Some(Seq::empty())
    } else {
        match read_field(bytes) {
            None => None,
            Some((field, used)) => if 0 < used <= bytes.len() {
                match read_message(bytes.skip(used)) {
                    None => None,
                    Some(rest) => Some(seq![field] + rest),
                }
            } else {
                None
            },
        }
    }
}

/// Appends a number.
pub fn encode_varint(buf: &mut Vec<u8>, val: u64)
    ensures
        final(buf)@ == old(buf)@ + varint(val as nat),
{
    let mut val: u64 = val;
    let ghost all = val as nat;
    loop
        invariant_except_break
            buf@ + varint(val as nat) == old(buf)@ + varint(all),
        ensures
            buf@ == old(buf)@ + varint(all),
        decreases val,
    {
        let byte: u8 = (val & 0x7f) as u8;
        let ghost was = val;
        let ghost part = buf@;
        proof {
            assert((val & 0x7f) < 128) by (bit_vector);
            assert(val & 0x7f == val % 128) by (bit_vector);
            assert(val >> 7 == val / 128) by (bit_vector);
            assert(byte < 128 ==> byte | 0x80 == byte + 128) by (bit_vector);
        }
        val = val >> 7;
        if val == 0 {
            buf.push(byte);
            proof {
                assert(buf@ =~= part + seq![was as u8]);
            }
            break;
        }
        buf.push(byte | 0x80);
        proof {
            assert(varint(was as nat) == seq![(was % 128 + 128) as u8] + varint(val as nat));
            assert(buf@ + varint(val as nat) =~= part + varint(was as nat));
        }
    }
}

/// Appends an integer field.
pub fn encode_varint_field(buf: &mut Vec<u8>, field: u32, val: u64)
    ensures
        final(buf)@ == old(buf)@ + (Field::Varint { number: field, value: val }).encoded(),
{
    let key: u64 = (field as u64) << 3;
    proof {
        let f = field as u64;
        assert(f <= 0xffff_ffff ==> f << 3 == f * 8) by (bit_vector);
    }
    encode_varint(buf, key);
    encode_varint(buf, val);
    assert(buf@ =~= old(buf)@ + (Field::Varint { number: field, value: val }).encoded());
}

/// Appends a length-delimited field.
pub fn encode_field(buf: &mut Vec<u8>, field: u32, data: &[u8])
    ensures
        final(buf)@ == old(buf)@ + (Field::Bytes { number: field, data: data@ }).encoded(),
{
    let key: u64 = ((field as u64) << 3) | 2;
    proof {
        let f = field as u64;
        assert(f <= 0xffff_ffff ==> ((f << 3) | 2) == f * 8 + 2) by (bit_vector);
    }
    encode_varint(buf, key);
    encode_varint(buf, data.len() as u64);
    buf.extend_from_slice(data);
    assert(buf@ =~= old(buf)@ + (Field::Bytes { number: field, data: data@ }).encoded());
}

/// Appends a bytes field.
pub fn encode_bytes_field(buf: &mut Vec<u8>, field: u32, data: &[u8])
    ensures
        final(buf)@ == old(buf)@ + (Field::Bytes { number: field, data: data@ }).encoded(),
{
    encode_field(buf, field, data);
}

/// The two integer fields of a value type or a label.
pub open spec fn pair(a: u64, b: u64) -> Seq<Field> {
    seq![Field::Varint { number: 1, value: a }, Field::Varint { number: 2, value: b }]
}

/// Encodes a value type: the string indices of a type and a unit.
pub fn encode_value_type(type_idx: u64, unit_idx: u64) -> (r: Vec<u8>)
    ensures
        r@ == message(pair(type_idx, unit_idx)),
{
    let mut buf: Vec<u8> = Vec::new();
    encode_varint_field(&mut buf, 1, type_idx);
    encode_varint_field(&mut buf, 2, unit_idx);
    proof {
        lemma_pair(type_idx, unit_idx);
    }
    assert(buf@ =~= message(pair(type_idx, unit_idx)));
    buf
}

/// Encodes a label: the string indices of a key and a value.
pub fn encode_label(key: u64, str_val: u64) -> (r: Vec<u8>)
    ensures
        r@ == message(pair(key, str_val)),
{
    let mut buf: Vec<u8> = Vec::new();
    encode_varint_field(&mut buf, 1, key);
    encode_varint_field(&mut buf, 2, str_val);
    proof {
        lemma_pair(key, str_val);
    }
    assert(buf@ =~= message(pair(key, str_val)));
    buf
}

/// A message of two fields.
proof fn lemma_pair(a: u64, b: u64)
    ensures
        message(pair(a, b)) == pair(a, b)[0].encoded() + pair(a, b)[1].encoded(),
{
    let p = pair(a, b);
    lemma_message_push(Seq::empty(), p[0]);
    assert(Seq::<Field>::empty().push(p[0]) =~= p.drop_last());
    assert(message(Seq::<Field>::empty()) =~= Seq::<u8>::empty());
    assert(Seq::<u8>::empty() + p[0].encoded() =~= p[0].encoded());
}

/// A message with one more field.
pub proof fn lemma_message_push(fields: Seq<Field>, field: Field)
    ensures
        message(fields.push(field)) == message(fields) + field.encoded(),
{
    assert(fields.push(field).drop_last() =~= fields);
}

/// A message in two parts.
pub proof fn lemma_message_concat(a: Seq<Field>, b: Seq<Field>)
    ensures
        message(a + b) == message(a) + message(b),
    decreases b.len(),
{
    if b.len() == 0 {
        assert(a + b =~= a);
        assert(message(a) + message(b) =~= message(a));
    } else {
        lemma_message_concat(a, b.drop_last());
        assert((a + b).drop_last() =~= a + b.drop_last());
        assert(message(a + b) =~= message(a) + message(b));
    }
}

/// A number that is written is read back, whatever follows it.
pub proof fn law_varint_round_trip(n: nat, rest: Seq<u8>)
    ensures
        read_varint(varint(n) + rest) == Some((n, varint(n).len() as int)),
    decreases n,
{
    let all = varint(n) + rest;
    if n >= 128 {
        law_varint_round_trip(n / 128, rest);
        assert(all.skip(1) =~= varint(n / 128) + rest);
        assert(all[0] == (n % 128 + 128) as u8);
    } else {
        assert(all[0] == n as u8);
    }
}

/// A field that is written is read back, whatever follows it.
pub proof fn law_field_round_trip(field: Field, rest: Seq<u8>)
    requires
        field.wf(),
    ensures
        read_field(field.encoded() + rest) == Some((field, field.encoded().len() as int)),
{
    let all = field.encoded() + rest;
    match field {
        Field::Varint { number, value } => {
            let key = varint((number * 8) as nat);
            let val = varint(value as nat);
            law_varint_round_trip((number * 8) as nat, val + rest);
            assert(all =~= key + (val + rest));
            law_varint_round_trip(value as nat, rest);
            assert(all.skip(key.len() as int) =~= val + rest);
        },
        Field::Bytes { number, data } => {
            let key = varint((number * 8 + 2) as nat);
            let len = varint(data.len());
            law_varint_round_trip((number * 8 + 2) as nat, len + data + rest);
            assert(all =~= key + (len + data + rest));
            law_varint_round_trip(data.len(), data + rest);
            assert(all.skip(key.len() as int) =~= len + (data + rest));
            let at = key.len() + len.len();
            assert(all.subrange(at as int, (at + data.len()) as int) =~= data);
        },
    }
}

/// A message that is written is read back.
pub proof fn law_message_round_trip(fields: Seq<Field>)
    requires
        forall|i: int| 0 <= i < fields.len() ==> (#[trigger] fields[i]).wf(),
    ensures
        read_message(message(fields)) == Some(fields),
    decreases fields.len(),
{
    if fields.len() > 0 {
        let first = fields[0];
        let rest = fields.skip(1);
        assert(fields =~= seq![first] + rest);
        lemma_message_concat(seq![first], rest);
        lemma_message_push(Seq::empty(), first);
        assert(Seq::<Field>::empty().push(first) =~= seq![first]);
        assert(message(Seq::<Field>::empty()) =~= Seq::<u8>::empty());
        assert(message(seq![first]) =~= first.encoded());
        law_field_round_trip(first, message(rest));
        assert forall|i: int| 0 <= i < rest.len() implies (#[trigger] rest[i]).wf() by {
            assert(rest[i] == fields[i + 1]);
        }
        law_message_round_trip(rest);
        let used = first.encoded().len() as int;
        lemma_field_not_empty(first);
        assert(message(fields).skip(used) =~= message(rest));
    } else {
        assert(fields =~= Seq::empty());
    }
}

/// A field takes at least one byte.
proof fn lemma_field_not_empty(field: Field)
    ensures
        field.encoded().len() > 0,
{
    match field {
        Field::Varint { number, value } => {
            assert(varint((number * 8) as nat).len() > 0);
        },
        Field::Bytes { number, data } => {
            assert(varint((number * 8 + 2) as nat).len() > 0);
        },
    }
}

/// A number is written as its lowest seven bits, marked as not the last, and then the rest; one
/// below 128 is a single byte.
pub proof fn law_varint_is_groups_of_seven_bits(high: nat, low: nat)
    requires
        low < 128,
    ensures
        varint(low) == seq![low as u8],
        high > 0 ==> varint(high * 128 + low) == seq![(low + 128) as u8] + varint(high),
{
    if high > 0 {
        let n = high * 128 + low;
        assert(n / 128 == high && n % 128 == low);
    }
}

/// An integer field is its number with kind zero, then the integer; a field of bytes is its number
/// with kind two, then the length, then the bytes. A message is its fields one after the other.
pub proof fn law_message_is_its_fields(
    a: Seq<Field>,
    b: Seq<Field>,
    number: u32,
    value: u64,
    data: Seq<u8>,
)
    ensures
        message(Seq::empty()) == Seq::<u8>::empty(),
        message(seq![Field::Varint { number, value }]) == varint((8 * number) as nat) + varint(
            value as nat,
        ),
        message(seq![Field::Bytes { number, data }]) == varint((8 * number + 2) as nat) + varint(
            data.len(),
        ) + data,
        message(a + b) == message(a) + message(b),
{
    lemma_message_concat(a, b);
    let f = Field::Varint { number, value };
    let g = Field::Bytes { number, data };
    lemma_message_push(Seq::empty(), f);
    lemma_message_push(Seq::empty(), g);
    assert(Seq::<Field>::empty().push(f) =~= seq![f]);
    assert(Seq::<Field>::empty().push(g) =~= seq![g]);
    assert(message(Seq::<Field>::empty()) =~= Seq::<u8>::empty());
    assert(message(seq![f]) =~= f.encoded());
    assert(message(seq![g]) =~= g.encoded());
}

/// A number takes few bytes.
proof fn lemma_varint_len(n: nat)
    ensures
        1 <= varint(n).len() <= n / 128 + 1,
    decreases n,
{
    if n >= 128 {
        lemma_varint_len(n / 128);
    }
}

/// An integer field takes few bytes.
pub proof fn lemma_varint_field_len(number: u32, value: u64)
    ensures
        (Field::Varint { number, value }).encoded().len() <= 0x0400_0000_0000_0000,
{
    lemma_varint_len((number * 8) as nat);
    lemma_varint_len(value as nat);
}

/// A value type or a label is read back, and takes few bytes.
pub proof fn lemma_pair_read(a: u64, b: u64)
    ensures
        read_message(message(pair(a, b))) == Some(pair(a, b)),
        message(pair(a, b)).len() <= u64::MAX,
{
    law_message_round_trip(pair(a, b));
    lemma_pair(a, b);
    lemma_varint_field_len(1, a);
    lemma_varint_field_len(2, b);
}

} // verus!
