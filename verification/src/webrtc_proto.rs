//! The protobuf message that libp2p wraps around the bytes of a WebRTC data channel: an optional
//! flag in field 1 and optional bytes in field 2.
use vstd::prelude::*;
use prost::encoding::{DecodeContext, WireType};
use crate::varint::{has_varint, varint, varint_bytes, varint_len, varint_value};
use crate::varint::{law_varint_fits, law_varint_reads_only_its_bytes, law_varint_round_trip};

pub mod message;

verus! {

/// The wire types of protobuf, by their numbers.
pub const WIRE_VARINT: u64 = 0;

pub const WIRE_SIXTY_FOUR_BIT: u64 = 1;

pub const WIRE_LENGTH_DELIMITED: u64 = 2;

pub const WIRE_START_GROUP: u64 = 3;

pub const WIRE_END_GROUP: u64 = 4;

pub const WIRE_THIRTY_TWO_BIT: u64 = 5;

pub const FLAG_TAG: u32 = 1;

pub const MESSAGE_TAG: u32 = 2;

/// The protobuf integer at the front of `data`, which has to fit in 64 bits, and how many bytes it
/// takes.
pub open spec fn proto_varint(data: Seq<u8>) -> Option<(nat, nat)> {
    if has_varint(data) && varint_value(data) <= u64::MAX {
        Some((varint_value(data), varint_len(data)))
    } else {
        None
    }
}

/// The key at the front of `data`: a field's tag, its wire type, and how many bytes the key takes.
pub open spec fn field_key(data: Seq<u8>) -> Option<(nat, nat, nat)> {
    match proto_varint(data) {
        Some((key, n)) if 8 <= key <= u32::MAX && key % 8 <= 5 => Some((key / 8, key % 8, n)),
        _ => None,
    }
}

/// The low 32 bits of `value` as a signed number.
pub open spec fn low_i32(value: nat) -> int {
    let low = value % 0x1_0000_0000;
    if low < 0x8000_0000 {
        low as int
    } else {
        low - 0x1_0000_0000
    }
}

/// The bytes of a length-delimited field at the front of `data`: where they start and end.
pub open spec fn delimited(data: Seq<u8>) -> Option<(nat, nat)> {
    match proto_varint(data) {
        Some((length, n)) if n + length <= data.len() => Some((n, n + length)),
        _ => None,
    }
}

/// How many bytes a group takes from behind its start key to behind its end key, if it is well
/// formed.
pub uninterp spec fn group_len(tag: u32, data: Seq<u8>) -> Option<nat>;

/// How many bytes the value of a field of an unknown tag takes.
pub open spec fn skipped_len(wire_type: u64, tag: u32, data: Seq<u8>) -> Option<nat> {
    if wire_type == WIRE_VARINT {
        match proto_varint(data) {
            Some((_, n)) => Some(n),
            None => None,
        }
    } else if wire_type == WIRE_SIXTY_FOUR_BIT {
        if data.len() >= 8 {
            Some(8)
        } else {
            None
        }
    } else if wire_type == WIRE_LENGTH_DELIMITED {
        match delimited(data) {
            Some((_, end)) => Some(end),
            None => None,
        }
    } else if wire_type == WIRE_START_GROUP {
        match group_len(tag, data) {
            Some(n) if n <= data.len() => Some(n),
            _ => None,
        }
    } else if wire_type == WIRE_THIRTY_TWO_BIT {
        if data.len() >= 4 {
            Some(4)
        } else {
            None
        }
    } else {
        None
    }
}

/// `prost::encoding::decode_key`: the tag and the wire type of the key at the front of `data`, and
/// the bytes behind it; `None` where the call reports an error, which is where there is no key.
#[verifier::external_body]
fn decode_key(data: &[u8]) -> (r: Option<(u32, u64, &[u8])>)
    ensures
        match field_key(data@) {
            Some((tag, wire_type, n)) => r is Some && r.unwrap().0 == tag && r.unwrap().1
                == wire_type && r.unwrap().2@ == data@.skip(n as int),
            None => r is None,
        },
{
    let mut buf = data;
    match prost::encoding::decode_key(&mut buf) {
        Ok((tag, wire_type)) => Some((tag, wire_type as u64, buf)),
        Err(_) => None,
    }
}

/// `prost::encoding::int32::merge`: a field of wire type varint is the low 32 bits of the integer
/// at the front of `data`; the bytes behind it are left. `None` where the call reports an error.
#[verifier::external_body]
fn merge_int32(wire_type: u64, data: &[u8]) -> (r: Option<(i32, &[u8])>)
    ensures
        match proto_varint(data@) {
            Some((v, n)) if wire_type == WIRE_VARINT => r is Some && r.unwrap().0 == low_i32(v)
                && r.unwrap().1@ == data@.skip(n as int),
            _ => r is None,
        },
{
    let mut buf = data;
    let mut value: i32 = 0;
    let wire_type = WireType::try_from(wire_type).ok()?;
    match prost::encoding::int32::merge(wire_type, &mut value, &mut buf, DecodeContext::default()) {
        Ok(()) => Some((value, buf)),
        Err(_) => None,
    }
}

/// `prost::encoding::bytes::merge`: a length-delimited field is the bytes behind its length; the
/// bytes behind the field are left. `None` where the call reports an error.
#[verifier::external_body]
fn merge_bytes(wire_type: u64, data: &[u8]) -> (r: Option<(Vec<u8>, &[u8])>)
    ensures
        match delimited(data@) {
            Some((start, end)) if wire_type == WIRE_LENGTH_DELIMITED => r is Some
                && r.unwrap().0@ == data@.subrange(start as int, end as int) && r.unwrap().1@
                == data@.skip(end as int),
            _ => r is None,
        },
{
    let mut buf = data;
    let mut value: Vec<u8> = Vec::new();
    let wire_type = WireType::try_from(wire_type).ok()?;
    match prost::encoding::bytes::merge(wire_type, &mut value, &mut buf, DecodeContext::default()) {
        Ok(()) => Some((value, buf)),
        Err(_) => None,
    }
}

/// `prost::encoding::skip_field` at the outermost level: the bytes behind the value of a field.
/// For a group the number of bytes is only named. `None` where the call reports an error.
#[verifier::external_body]
fn skip_field(wire_type: u64, tag: u32, data: &[u8]) -> (r: Option<&[u8]>)
    ensures
        match skipped_len(wire_type, tag, data@) {
            Some(n) => r is Some && r.unwrap()@ == data@.skip(n as int),
            None => r is None,
        },
        wire_type == WIRE_START_GROUP ==> (r is Some <==> group_len(tag, data@) is Some),
{
    let mut buf = data;
    let wire_type = WireType::try_from(wire_type).ok()?;
    match prost::encoding::skip_field(wire_type, tag, &mut buf, DecodeContext::default()) {
        Ok(()) => Some(buf),
        Err(_) => None,
    }
}

/// A decoded message.
#[derive(Debug, Clone)]
pub struct Message {
    pub flag: Option<i32>,
    pub message: Option<Vec<u8>>,
}

/// What a message holds.
#[verifier::ext_equal]
pub struct MessageFields {
    pub flag: Option<i32>,
    pub message: Option<Seq<u8>>,
}

impl View for Message {
    type V = MessageFields;

    open spec fn view(&self) -> MessageFields {
        MessageFields {
            flag: self.flag,
            message: match self.message {
                Some(bytes) => Some(bytes@),
                None => None,
            },
        }
    }
}

/// `fields` after the field at the front of `data`, and how many bytes that field takes with its
/// key. A field that comes again replaces what came before; a field of another tag is skipped.
pub open spec fn merged_field(fields: MessageFields, data: Seq<u8>) -> Option<(MessageFields, nat)> {
    match field_key(data) {
        None => None,
        Some((tag, wire_type, n)) => {
            let body = data.skip(n as int);
            if tag == FLAG_TAG {
                match proto_varint(body) {
                    Some((v, len)) if wire_type == WIRE_VARINT => Some(
                        (MessageFields { flag: Some(low_i32(v) as i32), ..fields }, n + len),
                    ),
                    _ => None,
                }
            } else if tag == MESSAGE_TAG {
                match delimited(body) {
                    Some((start, end)) if wire_type == WIRE_LENGTH_DELIMITED => Some(
                        (
                            MessageFields {
                                message: Some(body.subrange(start as int, end as int)),
                                ..fields
                            },
                            n + end,
                        ),
                    ),
                    _ => None,
                }
            } else {
                match skipped_len(wire_type as u64, tag as u32, body) {
                    Some(len) => Some((fields, n + len)),
                    None => None,
                }
            }
        },
    }
}

/// `fields` after all fields in `data`, if `data` is made of fields up to its end.
pub open spec fn merged(fields: MessageFields, data: Seq<u8>) -> Option<MessageFields>
    decreases data.len(),
{
    if data.len() == 0 {
        Some(fields)
    } else {
        match merged_field(fields, data) {
            Some((next, n)) if 0 < n <= data.len() => merged(next, data.skip(n as int)),
            _ => None,
        }
    }
}

/// The message that `data` encodes.
pub open spec fn decoded(data: Seq<u8>) -> Option<MessageFields> {
    merged(MessageFields { flag: None, message: None }, data)
}

impl Message {
    /// Takes the field at the front of `data` into the message, and returns the bytes behind it;
    /// `None`, with the message as it was, where there is no valid field.
    fn merge_field<'a>(&mut self, data: &'a [u8]) -> (r: Option<&'a [u8]>)
        ensures
            r is Some <==> merged_field(old(self)@, data@) is Some,
            match r {
                Some(rest) => {
                    &&& merged_field(old(self)@, data@) matches Some((fields, n))
                    &&& final(self)@ == fields
                    &&& 0 < n <= data@.len()
                    &&& rest@ == data@.skip(n as int)
                },
                None => *final(self) == *old(self),
            },
    {
        let (tag, wire_type, body) = match decode_key(data) {
            Some(key) => key,
            None => {
                return None;
            },
        };
        let ghost (_, _, key_len) = field_key(data@).unwrap();
        assert(forall|m: int| 0 <= m <= body@.len() ==> #[trigger] body@.skip(m) =~= data@.skip(
            key_len + m,
        ));
        if tag == FLAG_TAG {
            match merge_int32(wire_type, body) {
                Some((value, rest)) => {
                    self.flag = Some(value);
                    assert(self@ =~= merged_field(old(self)@, data@).unwrap().0);
                    Some(rest)
                },
                None => None,
            }
        } else if tag == MESSAGE_TAG {
            match merge_bytes(wire_type, body) {
                Some((value, rest)) => {
                    self.message = Some(value);
                    assert(self@ =~= merged_field(old(self)@, data@).unwrap().0);
                    Some(rest)
                },
                None => None,
            }
        } else {
            skip_field(wire_type, tag, body)
        }
    }

    /// Decodes the message that `data` encodes; `None` where `data` is not made of valid fields.
    pub fn decode(data: &[u8]) -> (r: Option<Message>)
        ensures
            r is Some <==> decoded(data@) is Some,
            r matches Some(message) ==> decoded(data@) == Some(message@),
    {
        let mut message = Message { flag: None, message: None };
        let mut rest = data;
        assert(message@ =~= (MessageFields { flag: None, message: None }));
        while rest.len() > 0
            invariant
                merged(message@, rest@) == decoded(data@),
            decreases rest.len(),
        {
            match message.merge_field(rest) {
                Some(next) => {
                    rest = next;
                },
                None => {
                    return None;
                },
            }
        }
        Some(message)
    }
}

/// A 32-bit number in the 64 bits that protobuf writes for it.
pub open spec fn wide(value: i32) -> nat {
    if value >= 0 {
        value as nat
    } else {
        (value + 0x1_0000_0000_0000_0000) as nat
    }
}

/// The field that carries a flag: its key, and the number of the flag.
pub open spec fn flag_field(flag: i32) -> Seq<u8> {
    seq![0x08u8] + varint_bytes(wide(flag))
}

/// The field that carries the bytes of a message: its key, their length, and the bytes.
pub open spec fn message_field(bytes: Seq<u8>) -> Seq<u8> {
    seq![0x12u8] + varint_bytes(bytes.len()) + bytes
}

/// The fields that are present, flag first.
pub open spec fn encoded(fields: MessageFields) -> Seq<u8> {
    let flag = match fields.flag {
        Some(flag) => flag_field(flag),
        None => Seq::empty(),
    };
    let message = match fields.message {
        Some(bytes) => message_field(bytes),
        None => Seq::empty(),
    };
    flag + message
}

proof fn lemma_one_byte_key(key: u8, rest: Seq<u8>)
    requires
        8 <= key < 128,
        key % 8 <= 5,
    ensures
        field_key(seq![key] + rest) == Some((key as nat / 8, key as nat % 8, 1nat)),
        (seq![key] + rest).skip(1) == rest,
{
    law_varint_round_trip(key as u64, rest);
    assert(varint_bytes(key as nat) =~= seq![key]);
    assert((seq![key] + rest).skip(1) =~= rest);
}

proof fn lemma_merged_flag(fields: MessageFields, flag: i32, rest: Seq<u8>)
    ensures
        merged(fields, flag_field(flag) + rest) == merged(
            MessageFields { flag: Some(flag), ..fields },
            rest,
        ),
{
    let value = varint_bytes(wide(flag));
    let data = flag_field(flag) + rest;
    assert(data =~= seq![0x08u8] + (value + rest));
    lemma_one_byte_key(0x08, value + rest);
    law_varint_round_trip(wide(flag) as u64, rest);
    assert(low_i32(wide(flag)) == flag);
    assert(data.skip(1 + value.len() as int) =~= rest);
}

proof fn lemma_merged_message(fields: MessageFields, bytes: Seq<u8>, rest: Seq<u8>)
    requires
        bytes.len() <= u64::MAX,
    ensures
        merged(fields, message_field(bytes) + rest) == merged(
            MessageFields { message: Some(bytes), ..fields },
            rest,
        ),
{
    let prefix = varint_bytes(bytes.len());
    let data = message_field(bytes) + rest;
    let body = prefix + (bytes + rest);
    assert(data =~= seq![0x12u8] + body);
    lemma_one_byte_key(0x12, body);
    law_varint_round_trip(bytes.len() as u64, bytes + rest);
    let n = prefix.len() as int;
    assert(body.subrange(n, n + bytes.len()) =~= bytes);
    assert(data.skip(1 + n + bytes.len()) =~= rest);
}

/// Law: what a message holds is what decoding its encoding gives back.
pub proof fn law_decode_round_trip(fields: MessageFields)
    requires
        fields.message matches Some(bytes) ==> bytes.len() <= u64::MAX,
    ensures
        decoded(encoded(fields)) == Some(fields),
{
    let none = MessageFields { flag: None, message: None };
    lemma_merged_encoded(none, fields, Seq::empty());
    assert(encoded(fields) + Seq::<u8>::empty() =~= encoded(fields));
    assert(overlaid(none, fields) =~= fields);
}

/// Law: of a field that comes twice the later value counts.
pub proof fn law_later_field_counts(first: MessageFields, second: MessageFields)
    requires
        first.message matches Some(bytes) ==> bytes.len() <= u64::MAX,
        second.message matches Some(bytes) ==> bytes.len() <= u64::MAX,
    ensures
        decoded(encoded(first) + encoded(second)) == Some(
            MessageFields {
                flag: if second.flag is Some {
                    second.flag
                } else {
                    first.flag
                },
                message: if second.message is Some {
                    second.message
                } else {
                    first.message
                },
            },
        ),
{
    let none = MessageFields { flag: None, message: None };
    lemma_merged_encoded(none, first, encoded(second));
    let mid = overlaid(none, first);
    lemma_merged_encoded(mid, second, Seq::empty());
    assert(encoded(second) + Seq::<u8>::empty() =~= encoded(second));
}

/// `fields` with what is present in `over` in its place.
spec fn overlaid(fields: MessageFields, over: MessageFields) -> MessageFields {
    MessageFields {
        flag: if over.flag is Some {
            over.flag
        } else {
            fields.flag
        },
        message: if over.message is Some {
            over.message
        } else {
            fields.message
        },
    }
}

proof fn lemma_merged_encoded(fields: MessageFields, over: MessageFields, rest: Seq<u8>)
    requires
        over.message matches Some(bytes) ==> bytes.len() <= u64::MAX,
    ensures
        merged(fields, encoded(over) + rest) == merged(overlaid(fields, over), rest),
{
    let message = match over.message {
        Some(bytes) => message_field(bytes),
        None => Seq::empty(),
    };
    let with_flag = overlaid(fields, MessageFields { flag: over.flag, message: None });
    match over.flag {
        Some(flag) => {
            lemma_merged_flag(fields, flag, message + rest);
            assert(encoded(over) + rest =~= flag_field(flag) + (message + rest));
        },
        None => {
            assert(encoded(over) + rest =~= message + rest);
        },
    }
    match over.message {
        Some(bytes) => {
            lemma_merged_message(with_flag, bytes, rest);
        },
        None => {
            assert(message + rest =~= rest);
        },
    }
}

/// A protobuf integer is one that fits in 64 bits.
proof fn lemma_proto_varint(data: Seq<u8>)
    ensures
        proto_varint(data) == match varint(data) {
            Some((value, n)) if n < 10 || data[9] <= 1 => Some((value, n)),
            _ => None,
        },
{
    if has_varint(data) {
        law_varint_fits(data);
    }
}

proof fn lemma_proto_varint_front(front: Seq<u8>, rest: Seq<u8>)
    requires
        varint(front) matches Some((_, n)) && n == front.len(),
    ensures
        proto_varint(front + rest) == match varint(front) {
            Some((value, n)) if n < 10 || front[9] <= 1 => Some((value, n)),
            _ => None,
        },
{
    law_varint_reads_only_its_bytes(front, rest);
    assert(front.take(front.len() as int) =~= front);
    lemma_proto_varint(front + rest);
}

proof fn lemma_merged_overlays(fields: MessageFields, data: Seq<u8>)
    ensures
        merged(fields, data) == match decoded(data) {
            Some(found) => Some(overlaid(fields, found)),
            None => None,
        },
    decreases data.len(),
{
    let none = MessageFields { flag: None, message: None };
    if data.len() == 0 {
        assert(overlaid(fields, none) =~= fields);
    } else {
        match merged_field(none, data) {
            Some((g, n)) if 0 < n <= data.len() => {
                let f = merged_field(fields, data).unwrap().0;
                let rest = data.skip(n as int);
                lemma_merged_overlays(f, rest);
                lemma_merged_overlays(g, rest);
                assert(f =~= overlaid(fields, g));
                if decoded(rest) is Some {
                    let found = decoded(rest).unwrap();
                    assert(overlaid(f, found) =~= overlaid(fields, overlaid(g, found)));
                }
            },
            _ => {},
        }
    }
}

/// What a field in front makes of what is decoded behind it: a value behind it counts in its place.
proof fn lemma_decoded_front(data: Seq<u8>, front: MessageFields, n: nat)
    requires
        0 < n <= data.len(),
        merged_field(MessageFields { flag: None, message: None }, data) == Some((front, n)),
    ensures
        decoded(data) == match decoded(data.skip(n as int)) {
            Some(found) => Some(overlaid(front, found)),
            None => None,
        },
{
    lemma_merged_overlays(front, data.skip(n as int));
}

/// Law: nothing decodes to a message without flag and bytes.
pub proof fn law_decode_nothing()
    ensures
        decoded(Seq::empty()) == Some(MessageFields { flag: None, message: None }),
{
}

/// Law: a key of the number 8, however it is written, and a number of 64 bits behind it are a flag:
/// the low 32 bits, as a signed number. What is decoded behind them is kept, and a flag there counts
/// in place of this one; where nothing can be decoded behind them, nothing can be decoded.
pub proof fn law_decode_flag_in_front(key: Seq<u8>, value: Seq<u8>, rest: Seq<u8>, flag: i32)
    requires
        varint(key) == Some((8nat, key.len())),
        key.len() < 10 || key[9] <= 1,
        varint(value) matches Some((v, n)) && n == value.len() && (v - flag) % 0x1_0000_0000 == 0,
        value.len() < 10 || value[9] <= 1,
    ensures
        decoded(key + value + rest) == match decoded(rest) {
            Some(found) => Some(
                MessageFields {
                    flag: if found.flag is Some {
                        found.flag
                    } else {
                        Some(flag)
                    },
                    message: found.message,
                },
            ),
            None => None,
        },
{
    let data = key + value + rest;
    let (v, n) = varint(value).unwrap();
    let none = MessageFields { flag: None, message: None };
    lemma_proto_varint_front(key, value + rest);
    lemma_proto_varint_front(value, rest);
    assert(data =~= key + (value + rest));
    assert(data.skip(key.len() as int) =~= value + rest);
    assert(low_i32(v) == flag);
    let len = key.len() + value.len();
    assert(data.skip(len as int) =~= rest);
    let front = MessageFields { flag: Some(flag), message: None };
    assert(merged_field(none, data) == Some((front, len)));
    lemma_decoded_front(data, front, len);
}

/// Law: a key of the number 18, however it is written, a length and as many bytes are the bytes of a
/// message, however many they are. What is decoded behind them is kept, and bytes there count in
/// place of these; where nothing can be decoded behind them, nothing can be decoded.
pub proof fn law_decode_message_in_front(
    key: Seq<u8>,
    length: Seq<u8>,
    bytes: Seq<u8>,
    rest: Seq<u8>,
)
    requires
        varint(key) == Some((18nat, key.len())),
        key.len() < 10 || key[9] <= 1,
        varint(length) == Some((bytes.len(), length.len())),
        length.len() < 10 || length[9] <= 1,
    ensures
        decoded(key + length + bytes + rest) == match decoded(rest) {
            Some(found) => Some(
                MessageFields {
                    flag: found.flag,
                    message: if found.message is Some {
                        found.message
                    } else {
                        Some(bytes)
                    },
                },
            ),
            None => None,
        },
{
    let data = key + length + bytes + rest;
    let body = length + (bytes + rest);
    let none = MessageFields { flag: None, message: None };
    lemma_proto_varint_front(key, body);
    lemma_proto_varint_front(length, bytes + rest);
    assert(data =~= key + body);
    assert(data.skip(key.len() as int) =~= body);
    let n = length.len() as int;
    assert(body.subrange(n, n + bytes.len()) =~= bytes);
    let len = key.len() + length.len() + bytes.len();
    assert(data.skip(len as int) =~= rest);
    let front = MessageFields { flag: None, message: Some(bytes) };
    assert(merged_field(none, data) == Some((front, len)));
    lemma_decoded_front(data, front, len);
}

/// Law: a field of any other tag is passed over: a number, eight or four bytes, bytes behind their
/// length, or a group.
pub proof fn law_decode_passes_over_other_fields(
    key: Seq<u8>,
    number: nat,
    length: Seq<u8>,
    bytes: Seq<u8>,
    rest: Seq<u8>,
)
    requires
        varint(key) == Some((number, key.len())),
        key.len() < 10 || key[9] <= 1,
        24 <= number <= u32::MAX,
        ({
            ||| number % 8 == 0 && length.len() == 0 && (varint(bytes) matches Some((_, n)) && n
                == bytes.len()) && (bytes.len() < 10 || bytes[9] <= 1)
            ||| number % 8 == 1 && length.len() == 0 && bytes.len() == 8
            ||| number % 8 == 2 && varint(length) == Some((bytes.len(), length.len())) && (
            length.len() < 10 || length[9] <= 1)
            ||| number % 8 == 3 && length.len() == 0 && group_len(
                (number / 8) as u32,
                bytes + rest,
            ) == Some(bytes.len())
            ||| number % 8 == 5 && length.len() == 0 && bytes.len() == 4
        }),
    ensures
        decoded(key + length + bytes + rest) == decoded(rest),
{
    let data = key + length + bytes + rest;
    let body = length + (bytes + rest);
    let none = MessageFields { flag: None, message: None };
    lemma_proto_varint_front(key, body);
    assert(data =~= key + body);
    assert(data.skip(key.len() as int) =~= body);
    if length.len() == 0 {
        assert(body =~= bytes + rest);
    }
    if number % 8 == 0 {
        lemma_proto_varint_front(bytes, rest);
    } else if number % 8 == 2 {
        lemma_proto_varint_front(length, bytes + rest);
    }
    let len = key.len() + length.len() + bytes.len();
    assert(data.skip(len as int) =~= rest);
    assert(skipped_len((number % 8) as u64, (number / 8) as u32, body) == Some(
        length.len() + bytes.len(),
    ));
    assert(merged_field(none, data) == Some((none, len)));
    lemma_decoded_front(data, none, len);
    if decoded(rest) is Some {
        assert(overlaid(none, decoded(rest).unwrap()) =~= decoded(rest).unwrap());
    }
}

/// Law: nothing is decoded where a key is missing.
pub proof fn law_decode_needs_a_key(data: Seq<u8>)
    requires
        data.len() > 0,
        match varint(data) {
            Some((_, n)) => n == 10 && data[9] > 1,
            None => true,
        },
    ensures
        decoded(data) is None,
{
    lemma_proto_varint(data);
}

/// Law: nothing is decoded behind a key with the tag 0, with a wire type that does not exist or ends a
/// group, past 32 bits, or with another wire type than the flag or the bytes have.
pub proof fn law_decode_refuses_keys(key: Seq<u8>, number: nat, body: Seq<u8>)
    requires
        varint(key) == Some((number, key.len())),
        number < 8 || number > u32::MAX || number % 8 == 4 || number % 8 > 5 || (8 < number < 16) || (
        16 <= number < 24 && number != 18),
    ensures
        decoded(key + body) is None,
{
    lemma_proto_varint_front(key, body);
}

/// Law: nothing is decoded where the value of a field is missing or cut off.
pub proof fn law_decode_needs_values(key: Seq<u8>, number: nat, body: Seq<u8>)
    requires
        varint(key) == Some((number, key.len())),
        ({
            let has_number = match varint(body) {
                Some((_, n)) => n < 10 || body[9] <= 1,
                None => false,
            };
            let has_bytes = match varint(body) {
                Some((length, n)) => (n < 10 || body[9] <= 1) && n + length <= body.len(),
                None => false,
            };
            ||| number % 8 == 0 && !has_number
            ||| number % 8 == 1 && body.len() < 8
            ||| number % 8 == 2 && !has_bytes
            ||| number % 8 == 3 && group_len((number / 8) as u32, body) is None
            ||| number % 8 == 5 && body.len() < 4
        }),
    ensures
        decoded(key + body) is None,
{
    lemma_proto_varint_front(key, body);
    lemma_proto_varint(body);
    assert((key + body).skip(key.len() as int) =~= body);
}

/// Law: nothing of a decoded message is hidden from its view.
pub proof fn law_view_shows_all(m: Message)
    ensures
        m@.flag == m.flag,
        m.message matches Some(bytes) ==> m@.message == Some(bytes@),
        m.message is None ==> m@.message is None,
{
}

} // verus!
