//! SCTP packets inside IPv4 inside Ethernet: their data chunks and the resets of streams.
use vstd::prelude::*;
use crate::framing::{framed, frames};
use crate::message::{first_stream, views, Message, MessageView, SctpEvent, SctpEventView, Sender};
use crate::timestamp::Timestamp;
use crate::webrtc::{can_be_sent, channel_messages, decode_webrtc_messages, sent_messages};
use crate::webrtc::{law_channel_messages_are_consistent, law_sent_messages_are_found};
use crate::webrtc::{law_sent_messages_are_told_of, sent_records, tells_of};
use crate::webrtc_proto::MessageFields;

verus! {

/// The length of an Ethernet header.
pub const ETHERNET_LEN: usize = 14;

/// The Ethernet type of IPv4.
pub const ETHERTYPE_IPV4: u16 = 0x0800;

/// The length of an IPv4 header without options.
pub const IPV4_MIN_LEN: usize = 20;

/// The IPv4 protocol number of SCTP.
pub const PROTOCOL_SCTP: u8 = 132;

/// The length of the header in front of all chunks.
pub const SCTP_HEADER_LEN: usize = 12;

/// The type of a data chunk.
pub const CHUNK_DATA: u8 = 0;

/// The type of a chunk that asks for, or answers, a reset of streams.
pub const CHUNK_RECONFIG: u8 = 130;

/// The payload protocol identifier of binary WebRTC data.
pub const PPID_WEBRTC_BINARY: u32 = 53;

/// The parameter that asks for a reset of outgoing streams.
pub const PARAM_OUTGOING_RESET: u16 = 13;

/// The parameter that asks for a reset of incoming streams.
pub const PARAM_INCOMING_RESET: u16 = 14;

/// The parameter that answers such a request.
pub const PARAM_RECONFIG_RESPONSE: u16 = 16;

/// The 16-bit number, most significant byte first, at `i`.
pub open spec fn be16(data: Seq<u8>, i: int) -> nat {
    data[i] as nat * 0x100 + data[i + 1] as nat
}

/// The 32-bit number, most significant byte first, at `i`.
pub open spec fn be32(data: Seq<u8>, i: int) -> nat {
    be16(data, i) * 0x1_0000 + be16(data, i + 2)
}

/// `n` rounded up to a multiple of four.
pub open spec fn padded(n: nat) -> nat {
    (n + 3) / 4 * 4
}

/// The records of `data` that carry their own length, header included, in their bytes 2 and 3, and
/// that are padded to four bytes. The walk ends at the first record whose length is under four or
/// runs past the end of `data`.
pub open spec fn padded_records(data: Seq<u8>) -> Seq<Seq<u8>>
    decreases data.len(),
{
    if data.len() < 4 {
        Seq::empty()
    } else {
        let n = be16(data, 2);
        if n < 4 || n > data.len() {
            Seq::empty()
        } else {
            let next = if padded(n) <= data.len() {
                padded(n) as int
            } else {
                data.len() as int
            };
            seq![data.take(n as int)] + padded_records(data.skip(next))
        }
    }
}

/// The 16-bit numbers that `data` is made of; an odd byte at the end is left out.
pub open spec fn numbers16(data: Seq<u8>) -> Seq<u16> {
    Seq::new(data.len() / 2, |i: int| be16(data, 2 * i) as u16)
}

/// The step in a reset of streams that a parameter holds.
pub open spec fn reset_event(param: Seq<u8>) -> Option<SctpEventView> {
    let kind = be16(param, 0);
    if kind == PARAM_OUTGOING_RESET && param.len() >= 16 {
        Some(SctpEventView::OutgoingReset { stream_ids: numbers16(param.skip(16)) })
    } else if kind == PARAM_INCOMING_RESET && param.len() >= 8 {
        Some(SctpEventView::IncomingReset { stream_ids: numbers16(param.skip(8)) })
    } else if kind == PARAM_RECONFIG_RESPONSE && param.len() >= 12 {
        Some(
            SctpEventView::ResetResponse {
                result: be32(param, 8) as u32,
                seq_number: be32(param, 4) as u32,
            },
        )
    } else {
        None
    }
}

/// The message that tells of a step in a reset of streams.
pub open spec fn reset_message(
    event: SctpEventView,
    packet_number: u64,
    timestamp: Timestamp,
    sender: Sender,
) -> MessageView {
    MessageView {
        packet_number,
        timestamp,
        sender,
        stream_id: first_stream(event),
        flag: None,
        protocol: None,
        payload: None,
        payload_len: 0,
        sctp_event: Some(event),
    }
}

/// The messages that `params` make, in their order: one for each step in a reset of streams.
pub open spec fn reset_messages(
    params: Seq<Seq<u8>>,
    packet_number: u64,
    timestamp: Timestamp,
    sender: Sender,
) -> Seq<MessageView>
    decreases params.len(),
{
    if params.len() == 0 {
        Seq::empty()
    } else {
        let before = reset_messages(params.drop_last(), packet_number, timestamp, sender);
        match reset_event(params.last()) {
            Some(event) => before.push(reset_message(event, packet_number, timestamp, sender)),
            None => before,
        }
    }
}

/// Whether `chunk` carries binary WebRTC data.
pub open spec fn is_webrtc_data(chunk: Seq<u8>) -> bool {
    chunk[0] == CHUNK_DATA && chunk.len() >= 16 && be32(chunk, 12) == PPID_WEBRTC_BINARY
}

/// The messages that a chunk makes.
pub open spec fn chunk_messages(
    chunk: Seq<u8>,
    packet_number: u64,
    timestamp: Timestamp,
    sender: Sender,
) -> Seq<MessageView> {
    if is_webrtc_data(chunk) {
        channel_messages(
            frames(chunk.skip(16)),
            packet_number,
            timestamp,
            sender,
            be16(chunk, 8) as u16,
        )
    } else if chunk[0] == CHUNK_RECONFIG {
        reset_messages(padded_records(chunk.skip(4)), packet_number, timestamp, sender)
    } else {
        Seq::empty()
    }
}

/// The messages that `chunks` make, in their order.
pub open spec fn chunks_messages(
    chunks: Seq<Seq<u8>>,
    packet_number: u64,
    timestamp: Timestamp,
    sender: Sender,
) -> Seq<MessageView>
    decreases chunks.len(),
{
    if chunks.len() == 0 {
        Seq::empty()
    } else {
        chunks_messages(chunks.drop_last(), packet_number, timestamp, sender) + chunk_messages(
            chunks.last(),
            packet_number,
            timestamp,
            sender,
        )
    }
}

/// Where the chunks of a packet start: behind the Ethernet header, an IPv4 header of the length
/// that it gives itself, and the SCTP header. `None` for anything that is not SCTP over IPv4, or
/// that ends before that.
pub open spec fn chunks_start(data: Seq<u8>) -> Option<int> {
    if data.len() >= ETHERNET_LEN + IPV4_MIN_LEN && be16(data, 12) == ETHERTYPE_IPV4
        && data[ETHERNET_LEN + 9] == PROTOCOL_SCTP {
        let start = ETHERNET_LEN + data[ETHERNET_LEN as int] % 16 * 4 + SCTP_HEADER_LEN;
        if start <= data.len() {
            Some(start)
        } else {
            None
        }
    } else {
        None
    }
}

/// The chunks of a packet.
pub open spec fn packet_chunks(data: Seq<u8>) -> Seq<Seq<u8>> {
    match chunks_start(data) {
        Some(start) => padded_records(data.skip(start)),
        None => Seq::empty(),
    }
}

/// The messages in a packet.
pub open spec fn packet_messages(
    data: Seq<u8>,
    packet_number: u64,
    timestamp: Timestamp,
    sender: Sender,
) -> Seq<MessageView> {
    chunks_messages(packet_chunks(data), packet_number, timestamp, sender)
}

fn read_be16(data: &[u8], i: usize) -> (r: u16)
    requires
        i + 2 <= data@.len(),
    ensures
        r == be16(data@, i as int),
{
    data[i] as u16 * 0x100 + data[i + 1] as u16
}

fn read_be32(data: &[u8], i: usize) -> (r: u32)
    requires
        i + 4 <= data@.len(),
    ensures
        r == be32(data@, i as int),
{
    assert(i + 4 <= data.len());
    read_be16(data, i) as u32 * 0x1_0000 + read_be16(data, i + 2) as u32
}

/// Where the padded record that starts at `offset` ends, and where the next one starts; `None` at
/// the end of the walk.
fn next_padded_record(data: &[u8], offset: usize) -> (r: Option<(usize, usize)>)
    requires
        offset <= data@.len(),
    ensures
        match r {
            Some((end, next)) => {
                &&& offset + 4 <= end <= next <= data@.len()
                &&& padded_records(data@.skip(offset as int)) == seq![
                    data@.subrange(offset as int, end as int),
                ] + padded_records(data@.skip(next as int))
            },
            None => padded_records(data@.skip(offset as int)) == Seq::<Seq<u8>>::empty(),
        },
{
    let left: usize = data.len() - offset;
    let ghost rest = data@.skip(offset as int);
    if left < 4 {
        return None;
    }
    let n: usize = read_be16(data, offset + 2) as usize;
    assert(n == be16(rest, 2));
    if n < 4 || n > left {
        return None;
    }
    let step: usize = (n + 3) / 4 * 4;
    let end: usize = offset + n;
    let next: usize = if step <= left {
        offset + step
    } else {
        data.len()
    };
    assert(rest.take(n as int) =~= data@.subrange(offset as int, end as int));
    assert(rest.skip(next - offset) =~= data@.skip(next as int));
    Some((end, next))
}

/// The 16-bit numbers of `data` from `offset` on.
fn read_numbers16(data: &[u8], offset: usize) -> (r: Vec<u16>)
    requires
        offset <= data@.len(),
    ensures
        r@ == numbers16(data@.skip(offset as int)),
{
    let mut numbers: Vec<u16> = Vec::new();
    let ghost rest = data@.skip(offset as int);
    let mut i: usize = offset;
    while data.len() - i >= 2
        invariant
            offset <= i <= data@.len(),
            rest == data@.skip(offset as int),
            i == offset + 2 * numbers@.len(),
            numbers@ == numbers16(rest).take(numbers@.len() as int),
            numbers@.len() <= numbers16(rest).len(),
        decreases data.len() - i,
    {
        let number = read_be16(data, i);
        assert(number == be16(rest, 2 * numbers@.len() as int));
        numbers.push(number);
        assert(numbers@ =~= numbers16(rest).take(numbers@.len() as int));
        i = i + 2;
    }
    assert(numbers@ =~= numbers16(rest));
    numbers
}

/// The step in a reset of streams that a parameter holds.
fn read_reset_event(param: &[u8]) -> (r: Option<SctpEvent>)
    requires
        param@.len() >= 4,
    ensures
        r is Some <==> reset_event(param@) is Some,
        r matches Some(event) ==> reset_event(param@) == Some(event@),
{
    let kind = read_be16(param, 0);
    if kind == PARAM_OUTGOING_RESET && param.len() >= 16 {
        Some(SctpEvent::OutgoingReset { stream_ids: read_numbers16(param, 16) })
    } else if kind == PARAM_INCOMING_RESET && param.len() >= 8 {
        Some(SctpEvent::IncomingReset { stream_ids: read_numbers16(param, 8) })
    } else if kind == PARAM_RECONFIG_RESPONSE && param.len() >= 12 {
        Some(
            SctpEvent::ResetResponse {
                seq_number: read_be32(param, 4),
                result: read_be32(param, 8),
            },
        )
    } else {
        None
    }
}

/// The message that tells of a step in a reset of streams.
fn message_from_event(
    event: SctpEvent,
    packet_number: u64,
    timestamp: Timestamp,
    sender: Sender,
) -> (r: Message)
    ensures
        r@ == reset_message(event@, packet_number, timestamp, sender),
{
    let stream_id: u16 = match &event {
        SctpEvent::OutgoingReset { stream_ids } => if stream_ids.len() > 0 {
            stream_ids[0]
        } else {
            0
        },
        SctpEvent::IncomingReset { stream_ids } => if stream_ids.len() > 0 {
            stream_ids[0]
        } else {
            0
        },
        SctpEvent::ResetResponse { .. } => 0,
    };
    Message {
        packet_number,
        timestamp,
        sender,
        stream_id,
        flag: None,
        protocol: None,
        payload: None,
        payload_len: 0,
        sctp_event: Some(event),
    }
}

/// Appends the messages that a chunk with parameters makes.
fn read_reconfig_chunk(
    chunk: &[u8],
    packet_number: u64,
    timestamp: Timestamp,
    sender: Sender,
    messages: &mut Vec<Message>,
)
    requires
        chunk@.len() >= 4,
    ensures
        views(final(messages)@) == views(old(messages)@) + reset_messages(
            padded_records(chunk@.skip(4)),
            packet_number,
            timestamp,
            sender,
        ),
{
    let mut offset: usize = 4;
    let ghost params = padded_records(chunk@.skip(4));
    let ghost mut done: Seq<Seq<u8>> = Seq::empty();
    assert(done + params =~= params);
    assert(views(messages@) + reset_messages(done, packet_number, timestamp, sender) =~= views(
        messages@,
    ));
    loop
        invariant_except_break
            4 <= offset <= chunk@.len(),
            params == done + padded_records(chunk@.skip(offset as int)),
        invariant
            views(messages@) == views(old(messages)@) + reset_messages(
                done,
                packet_number,
                timestamp,
                sender,
            ),
        ensures
            params == done,
        decreases chunk.len() - offset,
    {
        match next_padded_record(chunk, offset) {
            None => {
                assert(done + Seq::<Seq<u8>>::empty() =~= done);
                break;
            },
            Some((end, next)) => {
                let param = vstd::slice::slice_subrange(chunk, offset, end);
                let ghost before = done;
                let ghost before_messages = messages@;
                proof {
                    done = done.push(param@);
                    assert(done.drop_last() =~= before);
                    assert(before + (seq![param@] + padded_records(chunk@.skip(next as int)))
                        =~= done + padded_records(chunk@.skip(next as int)));
                }
                if let Some(event) = read_reset_event(param) {
                    let message = message_from_event(event, packet_number, timestamp, sender);
                    messages.push(message);
                    proof {
                        assert(views(messages@) =~= views(before_messages).push(message@));
                        assert(views(messages@) =~= views(old(messages)@) + reset_messages(
                            done,
                            packet_number,
                            timestamp,
                            sender,
                        ));
                    }
                }
                offset = next;
            },
        }
    }
}

/// Appends the messages that a chunk makes.
fn read_chunk(
    chunk: &[u8],
    packet_number: u64,
    timestamp: Timestamp,
    sender: Sender,
    messages: &mut Vec<Message>,
)
    requires
        chunk@.len() >= 4,
    ensures
        views(final(messages)@) == views(old(messages)@) + chunk_messages(
            chunk@,
            packet_number,
            timestamp,
            sender,
        ),
{
    let kind = chunk[0];
    if kind == CHUNK_DATA && chunk.len() >= 16 && read_be32(chunk, 12) == PPID_WEBRTC_BINARY {
        let stream_id = read_be16(chunk, 8);
        let user_data = vstd::slice::slice_subrange(chunk, 16, chunk.len());
        assert(user_data@ =~= chunk@.skip(16));
        if let Some(mut found) = decode_webrtc_messages(
            user_data,
            packet_number,
            timestamp,
            sender,
            stream_id,
        ) {
            let ghost found_messages = found@;
            messages.append(&mut found);
            assert(views(messages@) =~= views(old(messages)@) + views(found_messages));
        } else {
            assert(views(messages@) =~= views(old(messages)@) + chunk_messages(
                chunk@,
                packet_number,
                timestamp,
                sender,
            ));
        }
    } else if kind == CHUNK_RECONFIG {
        read_reconfig_chunk(chunk, packet_number, timestamp, sender, messages);
    } else {
        assert(views(messages@) =~= views(old(messages)@) + Seq::<MessageView>::empty());
    }
}

/// Finds the messages in a captured packet; `None` if it holds none, or is not SCTP over IPv4 over
/// Ethernet.
pub fn parse_sctp_packet_with_sender(
    data: &[u8],
    packet_number: u64,
    timestamp: Timestamp,
    sender: Sender,
) -> (r: Option<Vec<Message>>)
    ensures
        ({
            let found = packet_messages(data@, packet_number, timestamp, sender);
            match r {
                Some(messages) => found.len() > 0 && views(messages@) == found,
                None => found.len() == 0,
            }
        }),
{
    if data.len() < ETHERNET_LEN {
        return None;
    }
    if read_be16(data, 12) != ETHERTYPE_IPV4 {
        return None;
    }
    if data.len() < ETHERNET_LEN + IPV4_MIN_LEN {
        return None;
    }
    let first = data[ETHERNET_LEN];
    assert(first & 0x0F == first % 16) by (bit_vector);
    let ip_header_len: usize = ((first & 0x0F) * 4) as usize;
    if data[ETHERNET_LEN + 9] != PROTOCOL_SCTP {
        return None;
    }
    let start: usize = ETHERNET_LEN + ip_header_len + SCTP_HEADER_LEN;
    if start > data.len() {
        return None;
    }
    let mut messages: Vec<Message> = Vec::new();
    let mut offset: usize = start;
    let ghost chunks = packet_chunks(data@);
    let ghost mut done: Seq<Seq<u8>> = Seq::empty();
    assert(done + chunks =~= chunks);
    assert(views(messages@) =~= Seq::<MessageView>::empty());
    loop
        invariant_except_break
            offset <= data@.len(),
            chunks == done + padded_records(data@.skip(offset as int)),
        invariant
            views(messages@) == chunks_messages(done, packet_number, timestamp, sender),
        ensures
            chunks == done,
        decreases data.len() - offset,
    {
        match next_padded_record(data, offset) {
            None => {
                assert(done + Seq::<Seq<u8>>::empty() =~= done);
                break;
            },
            Some((end, next)) => {
                let chunk = vstd::slice::slice_subrange(data, offset, end);
                let ghost before = done;
                proof {
                    done = done.push(chunk@);
                    assert(done.drop_last() =~= before);
                    assert(before + (seq![chunk@] + padded_records(data@.skip(next as int)))
                        =~= done + padded_records(data@.skip(next as int)));
                }
                read_chunk(chunk, packet_number, timestamp, sender, &mut messages);
                offset = next;
            },
        }
    }
    assert(views(messages@).len() == messages@.len());
    if messages.is_empty() {
        None
    } else {
        Some(messages)
    }
}

/// Finds the messages in a packet of a capture that does not tell who sent it. The address of the
/// dialer is not looked at.
pub fn parse_sctp_packet(
    data: &[u8],
    packet_number: u64,
    timestamp: Timestamp,
    _dialer_ip: &Option<String>,
) -> (r: Option<Vec<Message>>)
    ensures
        ({
            let found = packet_messages(data@, packet_number, timestamp, Sender::Unknown);
            match r {
                Some(messages) => found.len() > 0 && views(messages@) == found,
                None => found.len() == 0,
            }
        }),
{
    parse_sctp_packet_with_sender(data, packet_number, timestamp, Sender::Unknown)
}

/// Whether `record` gives its own length.
pub open spec fn is_record(record: Seq<u8>) -> bool {
    record.len() >= 4 && record[2] * 256 + record[3] == record.len()
}

/// Whether `padding` fills a record up to four bytes, whatever it holds.
pub open spec fn pads(padding: Seq<u8>, record: Seq<u8>) -> bool {
    padding.len() < 4 && (record.len() + padding.len()) % 4 == 0
}

/// Whether each of `paddings` fills up one of `records`.
pub open spec fn all_pad(paddings: Seq<Seq<u8>>, records: Seq<Seq<u8>>) -> bool {
    &&& paddings.len() == records.len()
    &&& forall|i: int|
        0 <= i < records.len() ==> is_record(#[trigger] records[i]) && pads(paddings[i], records[i])
}

/// `records` one after the other, each with its padding behind it.
pub open spec fn written(records: Seq<Seq<u8>>, paddings: Seq<Seq<u8>>) -> Seq<u8>
    decreases records.len(),
{
    if records.len() == 0 {
        Seq::empty()
    } else {
        records[0] + paddings[0] + written(records.skip(1), paddings.skip(1))
    }
}

/// Whether `data` is made of padded records up to its end.
pub open spec fn is_whole(data: Seq<u8>) -> bool
    decreases data.len(),
{
    ||| data.len() == 0
    ||| {
        let n = data[2] * 256 + data[3];
        &&& 4 <= n
        &&& (n + 3) / 4 * 4 <= data.len()
        &&& is_whole(data.skip((n + 3) / 4 * 4))
    }
}

/// Law: whole padded records are read as they would be read alone, and so is what follows them,
/// whatever that is.
pub proof fn law_padded_records_in_parts(first: Seq<u8>, second: Seq<u8>)
    requires
        is_whole(first),
    ensures
        padded_records(first + second) == padded_records(first) + padded_records(second),
    decreases first.len(),
{
    let data = first + second;
    if first.len() == 0 {
        assert(data =~= second);
        assert(padded_records(first) + padded_records(second) =~= padded_records(second));
    } else {
        let n = be16(first, 2);
        let step = padded(n) as int;
        law_padded_records_in_parts(first.skip(step), second);
        assert(be16(data, 2) == n);
        assert(data.take(n as int) =~= first.take(n as int));
        assert(data.skip(step) =~= first.skip(step) + second);
        assert(padded_records(data) =~= padded_records(first) + padded_records(second));
    }
}

/// Law: a record is found in front of what follows its padding. The last one needs no padding, or
/// not all of it.
pub proof fn law_record_is_found(record: Seq<u8>, padding: Seq<u8>, after: Seq<u8>)
    requires
        is_record(record),
        pads(padding, record) || (padding.len() < 4 && after.len() == 0),
    ensures
        padded_records(record + padding + after) == seq![record] + padded_records(after),
{
    let data = record + padding + after;
    let n = record.len();
    assert(be16(data, 2) == n);
    assert(data.take(n as int) =~= record);
    if pads(padding, record) {
        assert(data.skip(padded(n) as int) =~= after);
    } else {
        assert(padded_records(after) =~= Seq::<Seq<u8>>::empty());
        let next = if padded(n) <= data.len() {
            padded(n) as int
        } else {
            data.len() as int
        };
        assert(data.skip(next).len() < 4);
        assert(padded_records(data.skip(next)) =~= Seq::<Seq<u8>>::empty());
        assert(padded_records(data) == seq![record] + padded_records(data.skip(next)));
    }
}

/// Law: padded records come back as they were written, in order, whatever they are padded with and
/// whatever follows them.
pub proof fn law_padded_records_round_trip(
    records: Seq<Seq<u8>>,
    paddings: Seq<Seq<u8>>,
    tail: Seq<u8>,
)
    requires
        all_pad(paddings, records),
    ensures
        is_whole(written(records, paddings)),
        padded_records(written(records, paddings) + tail) == records + padded_records(tail),
    decreases records.len(),
{
    let all = written(records, paddings);
    if records.len() > 0 {
        let record = records[0];
        let padding = paddings[0];
        let more = written(records.skip(1), paddings.skip(1));
        assert(is_record(record) && pads(padding, record));
        assert forall|i: int| 0 <= i < records.skip(1).len() implies is_record(
            #[trigger] records.skip(1)[i],
        ) && pads(paddings.skip(1)[i], records.skip(1)[i]) by {
            assert(is_record(records[i + 1]));
        }
        law_padded_records_round_trip(records.skip(1), paddings.skip(1), tail);
        law_record_is_found(record, padding, more + tail);
        assert(all + tail =~= record + padding + (more + tail));
        assert(be16(all, 2) == record.len());
        assert(all.skip(padded(record.len()) as int) =~= more);
        assert(records + padded_records(tail) =~= seq![record] + (records.skip(1) + padded_records(
            tail,
        )));
    } else {
        assert(all + tail =~= tail);
        assert(records + padded_records(tail) =~= padded_records(tail));
    }
}

/// Whether `headers` are complete: Ethernet for IPv4, an IPv4 header for SCTP of the length that it
/// gives itself, and an SCTP header.
pub open spec fn are_headers(headers: Seq<u8>) -> bool {
    &&& headers.len() >= 34
    &&& headers.len() == 26 + headers[14] % 16 * 4
    &&& headers[12] == 8 && headers[13] == 0
    &&& headers[23] == 132
}

/// Whether `chunk` is a data chunk with binary WebRTC data, whatever its flags, its sequence numbers
/// and its stream are.
pub open spec fn is_binary_data(chunk: Seq<u8>) -> bool {
    &&& chunk.len() >= 16
    &&& chunk[0] == 0
    &&& chunk[12] == 0 && chunk[13] == 0 && chunk[14] == 0 && chunk[15] == 53
}

proof fn lemma_packet_chunks(headers: Seq<u8>, bytes: Seq<u8>)
    requires
        are_headers(headers),
    ensures
        packet_chunks(headers + bytes) == padded_records(bytes),
{
    assert((headers + bytes).skip(headers.len() as int) =~= bytes);
}

/// Law: behind complete headers the chunks of a packet come back as they were written, whatever
/// follows them.
pub proof fn law_packet_chunks_round_trip(
    headers: Seq<u8>,
    chunks: Seq<Seq<u8>>,
    paddings: Seq<Seq<u8>>,
    tail: Seq<u8>,
)
    requires
        are_headers(headers),
        all_pad(paddings, chunks),
    ensures
        packet_chunks(headers + (written(chunks, paddings) + tail)) == chunks + padded_records(
            tail,
        ),
{
    law_padded_records_round_trip(chunks, paddings, tail);
    lemma_packet_chunks(headers, written(chunks, paddings) + tail);
}

/// Law: what a packet tells of in whole chunks is found whatever follows them, and then what follows
/// is told of as it would be in a packet of its own.
pub proof fn law_packet_in_parts(
    headers: Seq<u8>,
    first: Seq<u8>,
    second: Seq<u8>,
    packet_number: u64,
    timestamp: Timestamp,
    sender: Sender,
)
    requires
        are_headers(headers),
        is_whole(first),
    ensures
        packet_messages(headers + (first + second), packet_number, timestamp, sender)
            == packet_messages(headers + first, packet_number, timestamp, sender)
            + packet_messages(headers + second, packet_number, timestamp, sender),
{
    lemma_packet_chunks(headers, first + second);
    lemma_packet_chunks(headers, first);
    lemma_packet_chunks(headers, second);
    law_padded_records_in_parts(first, second);
    law_chunks_in_parts(
        padded_records(first),
        padded_records(second),
        packet_number,
        timestamp,
        sender,
    );
}

/// Law: a chunk is told of wherever it stands among whole chunks and whatever follows it: between
/// what is told of the chunks before it and what is told of the bytes behind it.
pub proof fn law_chunk_is_found(
    headers: Seq<u8>,
    before: Seq<u8>,
    chunk: Seq<u8>,
    padding: Seq<u8>,
    after: Seq<u8>,
    packet_number: u64,
    timestamp: Timestamp,
    sender: Sender,
)
    requires
        are_headers(headers),
        is_whole(before),
        is_record(chunk),
        pads(padding, chunk) || (padding.len() < 4 && after.len() == 0),
    ensures
        packet_messages(
            headers + (before + (chunk + padding + after)),
            packet_number,
            timestamp,
            sender,
        ) == packet_messages(headers + before, packet_number, timestamp, sender) + chunk_messages(
            chunk,
            packet_number,
            timestamp,
            sender,
        ) + packet_messages(headers + after, packet_number, timestamp, sender),
{
    let bytes = chunk + padding + after;
    let one = seq![chunk];
    law_packet_in_parts(headers, before, bytes, packet_number, timestamp, sender);
    law_record_is_found(chunk, padding, after);
    lemma_packet_chunks(headers, bytes);
    lemma_packet_chunks(headers, after);
    law_chunks_in_parts(one, padded_records(after), packet_number, timestamp, sender);
    lemma_one_chunk(chunk, packet_number, timestamp, sender);
    assert(packet_messages(headers + (before + bytes), packet_number, timestamp, sender)
        =~= packet_messages(headers + before, packet_number, timestamp, sender) + chunk_messages(
        chunk,
        packet_number,
        timestamp,
        sender,
    ) + packet_messages(headers + after, packet_number, timestamp, sender));
}

/// Law: the messages that were written into a data chunk are found, all of them and in order, on the
/// stream of the chunk, whatever its flags and sequence numbers are and whatever follows them in it.
/// With the law that a chunk is found wherever it stands, they are found in every packet that holds
/// the chunk.
pub proof fn law_sent_chunk_is_found(
    chunk: Seq<u8>,
    sent: Seq<MessageFields>,
    tail: Seq<u8>,
    packet_number: u64,
    timestamp: Timestamp,
    sender: Sender,
)
    requires
        is_binary_data(chunk),
        chunk.skip(16) == framed(sent_records(sent)) + tail,
        forall|i: int| 0 <= i < sent.len() ==> can_be_sent(#[trigger] sent[i]),
    ensures
        ({
            let stream_id = (chunk[8] * 256 + chunk[9]) as u16;
            let found = chunk_messages(chunk, packet_number, timestamp, sender);
            &&& found == sent_messages(sent, packet_number, timestamp, sender, stream_id)
                + channel_messages(frames(tail), packet_number, timestamp, sender, stream_id)
            &&& forall|i: int|
                0 <= i < sent.len() ==> tells_of(
                    found[i],
                    #[trigger] sent[i],
                    packet_number,
                    timestamp,
                    sender,
                    stream_id,
                )
        }),
{
    let stream_id = (chunk[8] * 256 + chunk[9]) as u16;
    law_chunk_by_its_bytes(chunk, packet_number, timestamp, sender);
    law_sent_messages_are_found(sent, tail, packet_number, timestamp, sender, stream_id);
    law_sent_messages_are_told_of(sent, tail, packet_number, timestamp, sender, stream_id);
}

/// Law: the messages that were written into a data chunk of a packet are found, all of them and in
/// order, on the stream of the chunk: behind what the chunks before it tell, and in front of what
/// the rest of the chunk and of the packet tell. Each is told of field by field.
pub proof fn law_sent_packet_is_found(
    headers: Seq<u8>,
    before: Seq<u8>,
    chunk: Seq<u8>,
    sent: Seq<MessageFields>,
    tail: Seq<u8>,
    padding: Seq<u8>,
    after: Seq<u8>,
    packet_number: u64,
    timestamp: Timestamp,
    sender: Sender,
)
    requires
        are_headers(headers),
        is_whole(before),
        is_record(chunk),
        is_binary_data(chunk),
        chunk.skip(16) == framed(sent_records(sent)) + tail,
        forall|i: int| 0 <= i < sent.len() ==> can_be_sent(#[trigger] sent[i]),
        pads(padding, chunk) || (padding.len() < 4 && after.len() == 0),
    ensures
        ({
            let stream_id = (chunk[8] * 256 + chunk[9]) as u16;
            let found = packet_messages(
                headers + (before + (chunk + padding + after)),
                packet_number,
                timestamp,
                sender,
            );
            let first = packet_messages(headers + before, packet_number, timestamp, sender);
            let told = sent_messages(sent, packet_number, timestamp, sender, stream_id);
            let more = channel_messages(frames(tail), packet_number, timestamp, sender, stream_id);
            let last = packet_messages(headers + after, packet_number, timestamp, sender);
            &&& found == first + (told + more) + last
            &&& forall|i: int|
                0 <= i < sent.len() ==> tells_of(
                    found[first.len() + i],
                    #[trigger] sent[i],
                    packet_number,
                    timestamp,
                    sender,
                    stream_id,
                )
        }),
{
    let stream_id = (chunk[8] * 256 + chunk[9]) as u16;
    law_chunk_is_found(
        headers,
        before,
        chunk,
        padding,
        after,
        packet_number,
        timestamp,
        sender,
    );
    law_sent_chunk_is_found(chunk, sent, tail, packet_number, timestamp, sender);
    let found = packet_messages(
        headers + (before + (chunk + padding + after)),
        packet_number,
        timestamp,
        sender,
    );
    let first = packet_messages(headers + before, packet_number, timestamp, sender);
    let of_chunk = chunk_messages(chunk, packet_number, timestamp, sender);
    assert forall|i: int| 0 <= i < sent.len() implies tells_of(
        found[first.len() + i],
        #[trigger] sent[i],
        packet_number,
        timestamp,
        sender,
        stream_id,
    ) by {
        assert(found[first.len() + i] == of_chunk[i]);
    }
}

/// `numbers` as bytes, two each, most significant byte first.
pub open spec fn bytes16(numbers: Seq<u16>) -> Seq<u8> {
    Seq::new(
        2 * numbers.len(),
        |i: int|
            if i % 2 == 0 {
                (numbers[i / 2] / 0x100) as u8
            } else {
                (numbers[i / 2] % 0x100) as u8
            },
    )
}

/// Law: the streams that were written into a request for a reset are the ones that it is found to
/// be about, in order. `head` is the parameter up to them: 16 bytes in a request for outgoing
/// streams, 8 in one for incoming streams.
pub proof fn law_reset_request_round_trip(head: Seq<u8>, stream_ids: Seq<u16>)
    requires
        head.len() >= 2,
    ensures
        be16(head, 0) == PARAM_OUTGOING_RESET && head.len() == 16 ==> reset_event(
            head + bytes16(stream_ids),
        ) == Some(SctpEventView::OutgoingReset { stream_ids }),
        be16(head, 0) == PARAM_INCOMING_RESET && head.len() == 8 ==> reset_event(
            head + bytes16(stream_ids),
        ) == Some(SctpEventView::IncomingReset { stream_ids }),
{
    let bytes = bytes16(stream_ids);
    let param = head + bytes;
    assert(param.skip(head.len() as int) =~= bytes);
    assert forall|i: int| 0 <= i < stream_ids.len() implies be16(bytes, 2 * i)
        == #[trigger] stream_ids[i] by {
        assert(bytes[2 * i] == stream_ids[i] / 0x100);
        assert(bytes[2 * i + 1] == stream_ids[i] % 0x100);
    }
    assert(numbers16(bytes) =~= stream_ids);
}

/// `n` as four bytes, most significant byte first.
pub open spec fn bytes32(n: u32) -> Seq<u8> {
    bytes16(seq![(n / 0x1_0000) as u16, (n % 0x1_0000) as u16])
}

/// Law: the number of the request and the result that were written into an answer are the ones that
/// it is found to give. `head` is the type and the length of the parameter, `more` what may follow.
pub proof fn law_reset_response_round_trip(
    head: Seq<u8>,
    seq_number: u32,
    result: u32,
    more: Seq<u8>,
)
    requires
        head.len() == 4,
        be16(head, 0) == PARAM_RECONFIG_RESPONSE,
    ensures
        reset_event(head + bytes32(seq_number) + bytes32(result) + more) == Some(
            SctpEventView::ResetResponse { result, seq_number },
        ),
{
    let param = head + bytes32(seq_number) + bytes32(result) + more;
    assert(param[0] == head[0] && param[1] == head[1]);
    assert(param.subrange(4, 8) =~= bytes32(seq_number));
    assert(param.subrange(8, 12) =~= bytes32(result));
    lemma_be32_bytes32(param, 4, seq_number);
    lemma_be32_bytes32(param, 8, result);
}

proof fn lemma_be32_bytes32(data: Seq<u8>, i: int, n: u32)
    requires
        0 <= i,
        i + 4 <= data.len(),
        data.subrange(i, i + 4) == bytes32(n),
    ensures
        be32(data, i) == n,
{
    let bytes = data.subrange(i, i + 4);
    let high = (n / 0x1_0000) as u16;
    let low = (n % 0x1_0000) as u16;
    assert(data[i] == bytes[0] && data[i + 1] == bytes[1]);
    assert(data[i + 2] == bytes[2] && data[i + 3] == bytes[3]);
    assert(bytes[0] == high / 0x100 && bytes[1] == high % 0x100);
    assert(bytes[2] == low / 0x100 && bytes[3] == low % 0x100);
}

/// Law: parameters are told of one after the other, whatever stands around them.
pub proof fn law_params_in_parts(
    first: Seq<Seq<u8>>,
    second: Seq<Seq<u8>>,
    packet_number: u64,
    timestamp: Timestamp,
    sender: Sender,
)
    ensures
        reset_messages(first + second, packet_number, timestamp, sender) == reset_messages(
            first,
            packet_number,
            timestamp,
            sender,
        ) + reset_messages(second, packet_number, timestamp, sender),
    decreases second.len(),
{
    let all = first + second;
    let parts = reset_messages(first, packet_number, timestamp, sender) + reset_messages(
        second,
        packet_number,
        timestamp,
        sender,
    );
    if second.len() == 0 {
        assert(all =~= first);
        assert(parts =~= reset_messages(first, packet_number, timestamp, sender));
    } else {
        law_params_in_parts(first, second.drop_last(), packet_number, timestamp, sender);
        assert(all.drop_last() =~= first + second.drop_last());
        assert(all.last() == second.last());
        assert(reset_messages(all, packet_number, timestamp, sender) =~= parts);
    }
}

/// Law: the parameters that were written into a chunk are found, all of them and in order, whatever
/// they are padded with and whatever follows them in it: each step in a reset of streams is told of.
/// With the law that a chunk is found wherever it stands, they are found in every packet that holds
/// the chunk.
pub proof fn law_reset_chunk_is_found(
    chunk: Seq<u8>,
    params: Seq<Seq<u8>>,
    paddings: Seq<Seq<u8>>,
    tail: Seq<u8>,
    packet_number: u64,
    timestamp: Timestamp,
    sender: Sender,
)
    requires
        chunk[0] == 130,
        all_pad(paddings, params),
        chunk.skip(4) == written(params, paddings) + tail,
    ensures
        chunk_messages(chunk, packet_number, timestamp, sender) == reset_messages(
            params,
            packet_number,
            timestamp,
            sender,
        ) + reset_messages(padded_records(tail), packet_number, timestamp, sender),
{
    law_padded_records_round_trip(params, paddings, tail);
    law_params_in_parts(params, padded_records(tail), packet_number, timestamp, sender);
}

/// Law: the parameters that were written into a chunk of a packet are found, all of them and in
/// order: behind what the chunks before it tell, and in front of what the rest of the chunk and of
/// the packet tell.
pub proof fn law_reset_packet_is_found(
    headers: Seq<u8>,
    before: Seq<u8>,
    chunk: Seq<u8>,
    params: Seq<Seq<u8>>,
    paddings: Seq<Seq<u8>>,
    tail: Seq<u8>,
    padding: Seq<u8>,
    after: Seq<u8>,
    packet_number: u64,
    timestamp: Timestamp,
    sender: Sender,
)
    requires
        are_headers(headers),
        is_whole(before),
        is_record(chunk),
        chunk[0] == 130,
        all_pad(paddings, params),
        chunk.skip(4) == written(params, paddings) + tail,
        pads(padding, chunk) || (padding.len() < 4 && after.len() == 0),
    ensures
        packet_messages(
            headers + (before + (chunk + padding + after)),
            packet_number,
            timestamp,
            sender,
        ) == packet_messages(headers + before, packet_number, timestamp, sender) + (reset_messages(
            params,
            packet_number,
            timestamp,
            sender,
        ) + reset_messages(padded_records(tail), packet_number, timestamp, sender))
            + packet_messages(headers + after, packet_number, timestamp, sender),
{
    law_chunk_is_found(
        headers,
        before,
        chunk,
        padding,
        after,
        packet_number,
        timestamp,
        sender,
    );
    law_reset_chunk_is_found(
        chunk,
        params,
        paddings,
        tail,
        packet_number,
        timestamp,
        sender,
    );
}

/// Law: chunks are told of one after the other, whatever stands around them.
pub proof fn law_chunks_in_parts(
    first: Seq<Seq<u8>>,
    second: Seq<Seq<u8>>,
    packet_number: u64,
    timestamp: Timestamp,
    sender: Sender,
)
    ensures
        chunks_messages(first + second, packet_number, timestamp, sender) == chunks_messages(
            first,
            packet_number,
            timestamp,
            sender,
        ) + chunks_messages(second, packet_number, timestamp, sender),
    decreases second.len(),
{
    let all = first + second;
    if second.len() == 0 {
        assert(all =~= first);
        assert(chunks_messages(first, packet_number, timestamp, sender) + chunks_messages(
            second,
            packet_number,
            timestamp,
            sender,
        ) =~= chunks_messages(first, packet_number, timestamp, sender));
    } else {
        law_chunks_in_parts(first, second.drop_last(), packet_number, timestamp, sender);
        assert(all.drop_last() =~= first + second.drop_last());
        assert(all.last() == second.last());
        assert(chunks_messages(all, packet_number, timestamp, sender) =~= chunks_messages(
            first,
            packet_number,
            timestamp,
            sender,
        ) + chunks_messages(second, packet_number, timestamp, sender));
    }
}

/// Whether a message comes from the packet of that number, time and sender, with parts that fit
/// together.
pub open spec fn is_of_packet(
    m: MessageView,
    packet_number: u64,
    timestamp: Timestamp,
    sender: Sender,
) -> bool {
    &&& m.is_consistent()
    &&& m.packet_number == packet_number
    &&& m.timestamp == timestamp
    &&& m.sender == sender
}

proof fn lemma_reset_messages(
    params: Seq<Seq<u8>>,
    packet_number: u64,
    timestamp: Timestamp,
    sender: Sender,
)
    ensures
        forall|i: int|
            0 <= i < reset_messages(params, packet_number, timestamp, sender).len()
                ==> is_of_packet(
                #[trigger] reset_messages(params, packet_number, timestamp, sender)[i],
                packet_number,
                timestamp,
                sender,
            ),
    decreases params.len(),
{
    if params.len() > 0 {
        let before = reset_messages(params.drop_last(), packet_number, timestamp, sender);
        let all = reset_messages(params, packet_number, timestamp, sender);
        lemma_reset_messages(params.drop_last(), packet_number, timestamp, sender);
        assert forall|i: int| 0 <= i < all.len() implies is_of_packet(
            #[trigger] all[i],
            packet_number,
            timestamp,
            sender,
        ) by {
            if i < before.len() {
                assert(all[i] == before[i]);
            }
        }
    }
}

proof fn lemma_chunks_messages(
    chunks: Seq<Seq<u8>>,
    packet_number: u64,
    timestamp: Timestamp,
    sender: Sender,
)
    ensures
        forall|i: int|
            0 <= i < chunks_messages(chunks, packet_number, timestamp, sender).len()
                ==> is_of_packet(
                #[trigger] chunks_messages(chunks, packet_number, timestamp, sender)[i],
                packet_number,
                timestamp,
                sender,
            ),
    decreases chunks.len(),
{
    if chunks.len() > 0 {
        let chunk = chunks.last();
        lemma_chunks_messages(chunks.drop_last(), packet_number, timestamp, sender);
        lemma_reset_messages(
            padded_records(chunk.skip(4)),
            packet_number,
            timestamp,
            sender,
        );
        law_channel_messages_are_consistent(
            frames(chunk.skip(16)),
            packet_number,
            timestamp,
            sender,
            be16(chunk, 8) as u16,
        );
        let before = chunks_messages(chunks.drop_last(), packet_number, timestamp, sender);
        let more = chunk_messages(chunk, packet_number, timestamp, sender);
        let all = chunks_messages(chunks, packet_number, timestamp, sender);
        assert forall|i: int| 0 <= i < all.len() implies is_of_packet(
            #[trigger] all[i],
            packet_number,
            timestamp,
            sender,
        ) by {
            if i < before.len() {
                assert(all[i] == before[i]);
            } else {
                assert(all[i] == more[i - before.len()]);
            }
        }
    }
}

/// Law: every message that is found in a packet carries the number, time and sender of that
/// packet, and its parts fit together.
pub proof fn law_messages_are_of_their_packet(
    data: Seq<u8>,
    packet_number: u64,
    timestamp: Timestamp,
    sender: Sender,
)
    ensures
        forall|i: int|
            0 <= i < packet_messages(data, packet_number, timestamp, sender).len()
                ==> is_of_packet(
                #[trigger] packet_messages(data, packet_number, timestamp, sender)[i],
                packet_number,
                timestamp,
                sender,
            ),
{
    lemma_chunks_messages(packet_chunks(data), packet_number, timestamp, sender);
}

/// Law: a packet that ends before its first chunk, or is not SCTP over IPv4, holds no message.
pub proof fn law_short_or_foreign_packet_is_empty(
    data: Seq<u8>,
    packet_number: u64,
    timestamp: Timestamp,
    sender: Sender,
)
    requires
        data.len() < ETHERNET_LEN + IPV4_MIN_LEN || be16(data, 12) != ETHERTYPE_IPV4
            || data[ETHERNET_LEN + 9] != PROTOCOL_SCTP || data.len() < ETHERNET_LEN
            + data[ETHERNET_LEN as int] % 16 * 4 + SCTP_HEADER_LEN,
    ensures
        packet_messages(data, packet_number, timestamp, sender).len() == 0,
{
}

/// Law: the messages of a packet are those of the bytes behind its headers. There are none where the
/// packet is not SCTP over IPv4 over Ethernet, or ends before its headers do.
pub proof fn law_packet_by_its_bytes(
    data: Seq<u8>,
    packet_number: u64,
    timestamp: Timestamp,
    sender: Sender,
)
    ensures
        ({
            let start = 14 + data[14] % 16 * 4 + 12;
            let found = packet_messages(data, packet_number, timestamp, sender);
            if data.len() >= 34 && data[12] == 8 && data[13] == 0 && data[23] == 132 && start
                <= data.len() {
                found == chunks_messages(
                    padded_records(data.skip(start)),
                    packet_number,
                    timestamp,
                    sender,
                )
            } else {
                found.len() == 0
            }
        }),
{
}

/// Law: a chunk that gives its own length, in its bytes 2 and 3, is told of in front of what is told of
/// the bytes behind its padding.
pub proof fn law_chunk_in_front(
    chunk: Seq<u8>,
    padding: Seq<u8>,
    after: Seq<u8>,
    packet_number: u64,
    timestamp: Timestamp,
    sender: Sender,
)
    requires
        chunk.len() >= 4,
        chunk[2] * 256 + chunk[3] == chunk.len(),
        padding.len() < 4,
        (chunk.len() + padding.len()) % 4 == 0 || after.len() == 0,
    ensures
        chunks_messages(
            padded_records(chunk + padding + after),
            packet_number,
            timestamp,
            sender,
        ) == chunk_messages(chunk, packet_number, timestamp, sender) + chunks_messages(
            padded_records(after),
            packet_number,
            timestamp,
            sender,
        ),
{
    let one = seq![chunk];
    law_record_is_found(chunk, padding, after);
    law_chunks_in_parts(one, padded_records(after), packet_number, timestamp, sender);
    lemma_one_chunk(chunk, packet_number, timestamp, sender);
}

proof fn lemma_one_chunk(
    chunk: Seq<u8>,
    packet_number: u64,
    timestamp: Timestamp,
    sender: Sender,
)
    ensures
        chunks_messages(seq![chunk], packet_number, timestamp, sender) == chunk_messages(
            chunk,
            packet_number,
            timestamp,
            sender,
        ),
{
    let one = seq![chunk];
    assert(one.drop_last() =~= Seq::<Seq<u8>>::empty());
    assert(chunks_messages(one.drop_last(), packet_number, timestamp, sender) =~= Seq::<
        MessageView,
    >::empty());
    assert(chunks_messages(one, packet_number, timestamp, sender) =~= chunk_messages(
        chunk,
        packet_number,
        timestamp,
        sender,
    ));
}

/// Law: nothing is told of bytes that do not start with a chunk or a parameter: fewer than four, or
/// with a length under four or past their end.
pub proof fn law_nothing_without_a_length(
    bytes: Seq<u8>,
    packet_number: u64,
    timestamp: Timestamp,
    sender: Sender,
)
    requires
        bytes.len() < 4 || bytes[2] * 256 + bytes[3] < 4 || bytes[2] * 256 + bytes[3] > bytes.len(),
    ensures
        chunks_messages(padded_records(bytes), packet_number, timestamp, sender).len() == 0,
        reset_messages(padded_records(bytes), packet_number, timestamp, sender).len() == 0,
{
    assert(padded_records(bytes) =~= Seq::<Seq<u8>>::empty());
}

/// Law: what is told of a chunk shows in its bytes. A data chunk of the payload protocol 53, whatever
/// its flags and sequence numbers are, is told of by the records behind its 16 bytes, on the stream in
/// its bytes 8 and 9; a chunk of the type 130 by the parameters behind its 4 bytes; no other chunk is
/// told of.
pub proof fn law_chunk_by_its_bytes(
    chunk: Seq<u8>,
    packet_number: u64,
    timestamp: Timestamp,
    sender: Sender,
)
    requires
        chunk.len() >= 4,
    ensures
        ({
            let found = chunk_messages(chunk, packet_number, timestamp, sender);
            if chunk[0] == 0 && chunk.len() >= 16 && chunk[12] == 0 && chunk[13] == 0 && chunk[14]
                == 0 && chunk[15] == 53 {
                found == channel_messages(
                    frames(chunk.skip(16)),
                    packet_number,
                    timestamp,
                    sender,
                    (chunk[8] * 256 + chunk[9]) as u16,
                )
            } else if chunk[0] == 130 {
                found == reset_messages(
                    padded_records(chunk.skip(4)),
                    packet_number,
                    timestamp,
                    sender,
                )
            } else {
                found.len() == 0
            }
        }),
{
}

/// Whether `ids` are the numbers, two bytes each, that stand in `param` from `start` on.
pub open spec fn are_ids_from(ids: Seq<u16>, param: Seq<u8>, start: int) -> bool {
    &&& ids.len() == (param.len() - start) / 2
    &&& forall|i: int|
        0 <= i < ids.len() ==> #[trigger] ids[i] == param[start + 2 * i] * 256 + param[start + 2 * i
            + 1]
}

/// Whether a parameter tells of a reset: a request for outgoing streams, of the type 13 and at least
/// 16 bytes, one for incoming streams, of the type 14 and at least 8 bytes, or an answer, of the type
/// 16 and at least 12 bytes.
pub open spec fn is_of_reset(param: Seq<u8>) -> bool {
    ||| param[0] == 0 && param[1] == 13 && param.len() >= 16
    ||| param[0] == 0 && param[1] == 14 && param.len() >= 8
    ||| param[0] == 0 && param[1] == 16 && param.len() >= 12
}

/// Whether `m` tells of the reset in `param`, byte by byte: all streams in their order, and the first
/// of them as its own, or the number of the request and the result.
pub open spec fn tells_of_reset(
    m: MessageView,
    param: Seq<u8>,
    packet_number: u64,
    timestamp: Timestamp,
    sender: Sender,
) -> bool {
    &&& m.packet_number == packet_number
    &&& m.timestamp == timestamp
    &&& m.sender == sender
    &&& m.flag is None
    &&& m.protocol is None
    &&& m.payload is None
    &&& m.payload_len == 0
    &&& param[1] == 13 ==> {
        &&& m.sctp_event matches Some(SctpEventView::OutgoingReset { stream_ids })
        &&& are_ids_from(stream_ids, param, 16)
        &&& m.stream_id == if param.len() >= 18 {
            param[16] * 256 + param[17]
        } else {
            0
        }
    }
    &&& param[1] == 14 ==> {
        &&& m.sctp_event matches Some(SctpEventView::IncomingReset { stream_ids })
        &&& are_ids_from(stream_ids, param, 8)
        &&& m.stream_id == if param.len() >= 10 {
            param[8] * 256 + param[9]
        } else {
            0
        }
    }
    &&& param[1] == 16 ==> {
        &&& m.sctp_event matches Some(SctpEventView::ResetResponse { result, seq_number })
        &&& seq_number == param[4] * 0x100_0000 + param[5] * 0x1_0000 + param[6] * 0x100 + param[7]
        &&& result == param[8] * 0x100_0000 + param[9] * 0x1_0000 + param[10] * 0x100 + param[11]
        &&& m.stream_id == 0
    }
}

/// Law: each parameter that tells of a reset, however many streams that is about, makes exactly one
/// message, which tells of it byte by byte and stands behind those of the parameters before it. No
/// other parameter makes one.
pub proof fn law_reset_messages_by_bytes(
    params: Seq<Seq<u8>>,
    param: Seq<u8>,
    packet_number: u64,
    timestamp: Timestamp,
    sender: Sender,
)
    requires
        param.len() >= 4,
    ensures
        ({
            let before = reset_messages(params, packet_number, timestamp, sender);
            let all = reset_messages(params.push(param), packet_number, timestamp, sender);
            if is_of_reset(param) {
                &&& all.len() == before.len() + 1
                &&& all.drop_last() == before
                &&& tells_of_reset(all.last(), param, packet_number, timestamp, sender)
            } else {
                all == before
            }
        }),
        reset_messages(Seq::empty(), packet_number, timestamp, sender).len() == 0,
{
    let before = reset_messages(params, packet_number, timestamp, sender);
    let all = reset_messages(params.push(param), packet_number, timestamp, sender);
    assert(params.push(param).drop_last() =~= params);
    if is_of_reset(param) {
        assert(all.drop_last() =~= before);
        if param[1] == 13 {
            lemma_ids_from(param, 16);
        } else if param[1] == 14 {
            lemma_ids_from(param, 8);
        }
    }
}

proof fn lemma_ids_from(param: Seq<u8>, start: int)
    requires
        0 <= start <= param.len(),
    ensures
        are_ids_from(numbers16(param.skip(start)), param, start),
{
    let rest = param.skip(start);
    let ids = numbers16(rest);
    assert forall|i: int| 0 <= i < ids.len() implies #[trigger] ids[i] == param[start + 2 * i] * 256
        + param[start + 2 * i + 1] by {
        assert(rest[2 * i] == param[start + 2 * i]);
        assert(rest[2 * i + 1] == param[start + 2 * i + 1]);
    }
}

/// Law: a parameter that gives its own length is told of in front of what is told of the bytes behind
/// its padding: by one message where it tells of a reset, and else by none.
pub proof fn law_param_in_front(
    param: Seq<u8>,
    padding: Seq<u8>,
    after: Seq<u8>,
    packet_number: u64,
    timestamp: Timestamp,
    sender: Sender,
)
    requires
        param.len() >= 4,
        param[2] * 256 + param[3] == param.len(),
        padding.len() < 4,
        (param.len() + padding.len()) % 4 == 0 || after.len() == 0,
    ensures
        ({
            let all = reset_messages(
                padded_records(param + padding + after),
                packet_number,
                timestamp,
                sender,
            );
            let more = reset_messages(padded_records(after), packet_number, timestamp, sender);
            if is_of_reset(param) {
                &&& all.len() == more.len() + 1
                &&& tells_of_reset(all[0], param, packet_number, timestamp, sender)
                &&& all.skip(1) == more
            } else {
                all == more
            }
        }),
{
    let none = Seq::<Seq<u8>>::empty();
    let one = seq![param];
    let more = reset_messages(padded_records(after), packet_number, timestamp, sender);
    law_record_is_found(param, padding, after);
    law_params_in_parts(one, padded_records(after), packet_number, timestamp, sender);
    law_reset_messages_by_bytes(none, param, packet_number, timestamp, sender);
    assert(none.push(param) =~= one);
    let all = reset_messages(
        padded_records(param + padding + after),
        packet_number,
        timestamp,
        sender,
    );
    if is_of_reset(param) {
        assert(all.skip(1) =~= more);
    } else {
        assert(all =~= more);
    }
}

/// Law: a reset is told of in every packet that asks for it or answers it: a chunk of the type 130
/// that starts with such a parameter makes a message that tells of it byte by byte, behind what the
/// chunks before it tell.
pub proof fn law_reset_is_told_of(
    headers: Seq<u8>,
    before: Seq<u8>,
    chunk: Seq<u8>,
    param: Seq<u8>,
    param_padding: Seq<u8>,
    tail: Seq<u8>,
    padding: Seq<u8>,
    after: Seq<u8>,
    packet_number: u64,
    timestamp: Timestamp,
    sender: Sender,
)
    requires
        are_headers(headers),
        is_whole(before),
        is_record(chunk),
        chunk[0] == 130,
        chunk.skip(4) == param + param_padding + tail,
        is_record(param),
        is_of_reset(param),
        pads(param_padding, param) || (param_padding.len() < 4 && tail.len() == 0),
        pads(padding, chunk) || (padding.len() < 4 && after.len() == 0),
    ensures
        ({
            let found = packet_messages(
                headers + (before + (chunk + padding + after)),
                packet_number,
                timestamp,
                sender,
            );
            let first = packet_messages(headers + before, packet_number, timestamp, sender);
            &&& found.len() > first.len()
            &&& tells_of_reset(
                found[first.len() as int],
                param,
                packet_number,
                timestamp,
                sender,
            )
        }),
{
    law_chunk_is_found(
        headers,
        before,
        chunk,
        padding,
        after,
        packet_number,
        timestamp,
        sender,
    );
    law_chunk_by_its_bytes(chunk, packet_number, timestamp, sender);
    law_param_in_front(param, param_padding, tail, packet_number, timestamp, sender);
    let found = packet_messages(
        headers + (before + (chunk + padding + after)),
        packet_number,
        timestamp,
        sender,
    );
    let first = packet_messages(headers + before, packet_number, timestamp, sender);
    let of_chunk = chunk_messages(chunk, packet_number, timestamp, sender);
    assert(found[first.len() as int] == of_chunk[0]);
}

} // verus!
