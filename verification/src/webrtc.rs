//! The messages that travel on a WebRTC data channel.
use vstd::prelude::*;
use crate::framing::{framed, frames, is_whole, next_frame};
use crate::framing::{law_frames_in_parts, law_frames_round_trip, law_record_behind_its_length};
use crate::message::{views, Flag, Message, MessageView, Sender};
use crate::multistream::{extract_multistream_protocol, multistream_protocol};
use crate::timestamp::Timestamp;
use crate::varint::varint;
use crate::webrtc_proto;
use crate::webrtc_proto::{decoded, encoded, law_decode_round_trip, MessageFields};

verus! {

/// The message that decoded `fields` make on a stream.
pub open spec fn channel_message(
    fields: MessageFields,
    packet_number: u64,
    timestamp: Timestamp,
    sender: Sender,
    stream_id: u16,
) -> MessageView {
    MessageView {
        packet_number,
        timestamp,
        sender,
        stream_id,
        flag: match fields.flag {
            Some(number) => Flag::spec_from_number(number),
            None => None,
        },
        protocol: match fields.message {
            Some(bytes) => multistream_protocol(bytes),
            None => None,
        },
        payload: fields.message,
        payload_len: match fields.message {
            Some(bytes) => bytes.len(),
            None => 0,
        },
        sctp_event: None,
    }
}

/// The messages among `records`, in their order: one for each record that decodes.
pub open spec fn channel_messages(
    records: Seq<Seq<u8>>,
    packet_number: u64,
    timestamp: Timestamp,
    sender: Sender,
    stream_id: u16,
) -> Seq<MessageView>
    decreases records.len(),
{
    if records.len() == 0 {
        Seq::empty()
    } else {
        let before = channel_messages(
            records.drop_last(),
            packet_number,
            timestamp,
            sender,
            stream_id,
        );
        match decoded(records.last()) {
            Some(fields) => before.push(
                channel_message(fields, packet_number, timestamp, sender, stream_id),
            ),
            None => before,
        }
    }
}

/// The message that a decoded one makes on a stream.
pub fn message_from_proto(
    decoded: webrtc_proto::Message,
    packet_number: u64,
    timestamp: Timestamp,
    sender: Sender,
    stream_id: u16,
) -> (r: Message)
    ensures
        r@ == channel_message(decoded@, packet_number, timestamp, sender, stream_id),
{
    let flag = match decoded.flag {
        Some(number) => Flag::from_number(number),
        None => None,
    };
    let protocol = match &decoded.message {
        Some(bytes) => extract_multistream_protocol(bytes.as_slice()),
        None => None,
    };
    let payload_len: usize = match &decoded.message {
        Some(bytes) => bytes.len(),
        None => 0,
    };
    Message {
        packet_number,
        timestamp,
        sender,
        stream_id,
        flag,
        protocol,
        payload: decoded.message,
        payload_len,
        sctp_event: None,
    }
}

/// Decodes the messages in the bytes of a data chunk; `None` if there is none.
pub fn decode_webrtc_messages(
    data: &[u8],
    packet_number: u64,
    timestamp: Timestamp,
    sender: Sender,
    stream_id: u16,
) -> (r: Option<Vec<Message>>)
    ensures
        ({
            let found = channel_messages(
                frames(data@),
                packet_number,
                timestamp,
                sender,
                stream_id,
            );
            match r {
                Some(messages) => found.len() > 0 && views(messages@) == found,
                None => found.len() == 0,
            }
        }),
{
    let mut messages: Vec<Message> = Vec::new();
    let mut offset: usize = 0;
    let ghost mut done: Seq<Seq<u8>> = Seq::empty();
    assert(data@.skip(0) =~= data@);
    assert(done + frames(data@) =~= frames(data@));
    assert(views(messages@) =~= Seq::<MessageView>::empty());
    while offset < data.len()
        invariant_except_break
            offset <= data@.len(),
            frames(data@) == done + frames(data@.skip(offset as int)),
        invariant
            views(messages@) == channel_messages(
                done,
                packet_number,
                timestamp,
                sender,
                stream_id,
            ),
        ensures
            frames(data@) == done,
        decreases data.len() - offset,
    {
        match next_frame(data, offset) {
            None => {
                assert(done + Seq::<Seq<u8>>::empty() =~= done);
                break;
            },
            Some((start, end)) => {
                let record = vstd::slice::slice_subrange(data, start, end);
                let ghost before = done;
                proof {
                    done = done.push(record@);
                    assert(done.drop_last() =~= before);
                    assert(before + (seq![record@] + frames(data@.skip(end as int))) =~= done
                        + frames(data@.skip(end as int)));
                }
                let ghost before_messages = messages@;
                if let Some(decoded) = webrtc_proto::Message::decode(record) {
                    let message = message_from_proto(
                        decoded,
                        packet_number,
                        timestamp,
                        sender,
                        stream_id,
                    );
                    messages.push(message);
                    assert(views(messages@) =~= views(before_messages).push(message@));
                }
                offset = end;
                proof {
                    if offset == data@.len() {
                        assert(data@.skip(offset as int).len() == 0);
                        assert(done + frames(data@.skip(offset as int)) =~= done);
                    }
                }
            },
        }
    }
    assert(views(messages@).len() == messages@.len());
    if messages.is_empty() {
        None
    } else {
        Some(messages)
    }
}

/// `sent` as records, each the encoding of one message.
pub open spec fn sent_records(sent: Seq<MessageFields>) -> Seq<Seq<u8>> {
    sent.map_values(|fields: MessageFields| encoded(fields))
}

/// The messages that `sent` makes on a stream, one each.
pub open spec fn sent_messages(
    sent: Seq<MessageFields>,
    packet_number: u64,
    timestamp: Timestamp,
    sender: Sender,
    stream_id: u16,
) -> Seq<MessageView> {
    sent.map_values(
        |fields: MessageFields|
            channel_message(fields, packet_number, timestamp, sender, stream_id),
    )
}

/// Whether the lengths of a message and of its encoding can be written as 64-bit numbers.
pub open spec fn can_be_sent(fields: MessageFields) -> bool {
    &&& encoded(fields).len() <= u64::MAX
    &&& fields.message matches Some(bytes) ==> bytes.len() <= u64::MAX
}

/// Law: the messages of whole records are found whatever follows them, and then the messages of what
/// follows.
pub proof fn law_channel_in_parts(
    first: Seq<u8>,
    second: Seq<u8>,
    packet_number: u64,
    timestamp: Timestamp,
    sender: Sender,
    stream_id: u16,
)
    requires
        is_whole(first),
    ensures
        channel_messages(frames(first + second), packet_number, timestamp, sender, stream_id)
            == channel_messages(frames(first), packet_number, timestamp, sender, stream_id)
            + channel_messages(frames(second), packet_number, timestamp, sender, stream_id),
{
    law_frames_in_parts(first, second);
    lemma_channel_messages_add(
        frames(first),
        frames(second),
        packet_number,
        timestamp,
        sender,
        stream_id,
    );
}

proof fn lemma_channel_messages_add(
    first: Seq<Seq<u8>>,
    second: Seq<Seq<u8>>,
    packet_number: u64,
    timestamp: Timestamp,
    sender: Sender,
    stream_id: u16,
)
    ensures
        channel_messages(first + second, packet_number, timestamp, sender, stream_id)
            == channel_messages(first, packet_number, timestamp, sender, stream_id)
            + channel_messages(second, packet_number, timestamp, sender, stream_id),
    decreases second.len(),
{
    let all = first + second;
    let parts = channel_messages(first, packet_number, timestamp, sender, stream_id)
        + channel_messages(second, packet_number, timestamp, sender, stream_id);
    if second.len() == 0 {
        assert(all =~= first);
        assert(parts =~= channel_messages(first, packet_number, timestamp, sender, stream_id));
    } else {
        lemma_channel_messages_add(
            first,
            second.drop_last(),
            packet_number,
            timestamp,
            sender,
            stream_id,
        );
        assert(all.drop_last() =~= first + second.drop_last());
        assert(all.last() == second.last());
        assert(channel_messages(all, packet_number, timestamp, sender, stream_id) =~= parts);
    }
}

/// Law: every message that was written to a channel is found, in the order of writing, whatever
/// follows; what follows is read as it would be read alone.
pub proof fn law_sent_messages_are_found(
    sent: Seq<MessageFields>,
    tail: Seq<u8>,
    packet_number: u64,
    timestamp: Timestamp,
    sender: Sender,
    stream_id: u16,
)
    requires
        forall|i: int| 0 <= i < sent.len() ==> can_be_sent(#[trigger] sent[i]),
    ensures
        channel_messages(
            frames(framed(sent_records(sent)) + tail),
            packet_number,
            timestamp,
            sender,
            stream_id,
        ) == sent_messages(sent, packet_number, timestamp, sender, stream_id) + channel_messages(
            frames(tail),
            packet_number,
            timestamp,
            sender,
            stream_id,
        ),
{
    let records = sent_records(sent);
    assert forall|i: int| 0 <= i < records.len() implies (#[trigger] records[i]).len()
        <= u64::MAX by {
        assert(can_be_sent(sent[i]));
    }
    law_frames_round_trip(records, tail);
    lemma_channel_messages_add(
        records,
        frames(tail),
        packet_number,
        timestamp,
        sender,
        stream_id,
    );
    lemma_messages_of_records(sent, packet_number, timestamp, sender, stream_id);
}

proof fn lemma_messages_of_records(
    sent: Seq<MessageFields>,
    packet_number: u64,
    timestamp: Timestamp,
    sender: Sender,
    stream_id: u16,
)
    requires
        forall|i: int| 0 <= i < sent.len() ==> can_be_sent(#[trigger] sent[i]),
    ensures
        channel_messages(sent_records(sent), packet_number, timestamp, sender, stream_id)
            == sent_messages(sent, packet_number, timestamp, sender, stream_id),
    decreases sent.len(),
{
    let records = sent_records(sent);
    let messages = sent_messages(sent, packet_number, timestamp, sender, stream_id);
    if sent.len() > 0 {
        lemma_messages_of_records(sent.drop_last(), packet_number, timestamp, sender, stream_id);
        assert(records.drop_last() =~= sent_records(sent.drop_last()));
        assert(can_be_sent(sent.last()));
        law_decode_round_trip(sent.last());
        assert(messages =~= sent_messages(
            sent.drop_last(),
            packet_number,
            timestamp,
            sender,
            stream_id,
        ).push(messages.last()));
    }
}

/// Law: every message of a channel carries the number, time and sender of its packet and the
/// stream of its chunk, tells of no reset, and gives the length of its payload.
pub proof fn law_channel_messages_are_consistent(
    records: Seq<Seq<u8>>,
    packet_number: u64,
    timestamp: Timestamp,
    sender: Sender,
    stream_id: u16,
)
    ensures
        channel_messages(records, packet_number, timestamp, sender, stream_id).len()
            <= records.len(),
        forall|i: int|
            #![trigger channel_messages(records, packet_number, timestamp, sender, stream_id)[i]]
            0 <= i < channel_messages(records, packet_number, timestamp, sender, stream_id).len()
                ==> {
                let m = channel_messages(records, packet_number, timestamp, sender, stream_id)[i];
                &&& m.is_consistent()
                &&& m.packet_number == packet_number
                &&& m.timestamp == timestamp
                &&& m.sender == sender
                &&& m.stream_id == stream_id
                &&& m.sctp_event is None
            },
    decreases records.len(),
{
    if records.len() > 0 {
        law_channel_messages_are_consistent(
            records.drop_last(),
            packet_number,
            timestamp,
            sender,
            stream_id,
        );
    }
}

/// Whether `m` tells of what was sent, field by field: the packet and the stream that it came on, its
/// bytes, all of them, with how many they are and what protocols they name, and the flag that its
/// number stands for.
pub open spec fn tells_of(
    m: MessageView,
    fields: MessageFields,
    packet_number: u64,
    timestamp: Timestamp,
    sender: Sender,
    stream_id: u16,
) -> bool {
    &&& m.packet_number == packet_number
    &&& m.timestamp == timestamp
    &&& m.sender == sender
    &&& m.stream_id == stream_id
    &&& m.payload == fields.message
    &&& fields.message matches Some(bytes) ==> m.payload_len == bytes.len() && m.protocol
        == multistream_protocol(bytes)
    &&& fields.message is None ==> m.payload_len == 0 && m.protocol is None
    &&& m.flag == Some(Flag::Fin) <==> fields.flag == Some(0i32)
    &&& m.flag == Some(Flag::StopSending) <==> fields.flag == Some(1i32)
    &&& m.flag == Some(Flag::ResetStream) <==> fields.flag == Some(2i32)
    &&& m.flag == Some(Flag::FinAck) <==> fields.flag == Some(3i32)
    &&& m.sctp_event is None
}

/// Law: a record that decodes, and what follows it, make one message that tells of what was decoded,
/// in front of what the rest makes; a record that does not decode makes none.
pub proof fn law_channel_message_in_front(
    prefix: Seq<u8>,
    record: Seq<u8>,
    rest: Seq<u8>,
    packet_number: u64,
    timestamp: Timestamp,
    sender: Sender,
    stream_id: u16,
)
    requires
        varint(prefix) == Some((record.len(), prefix.len())),
    ensures
        ({
            let all = channel_messages(
                frames(prefix + record + rest),
                packet_number,
                timestamp,
                sender,
                stream_id,
            );
            let more = channel_messages(
                frames(rest),
                packet_number,
                timestamp,
                sender,
                stream_id,
            );
            match decoded(record) {
                Some(fields) => {
                    &&& all.len() == more.len() + 1
                    &&& tells_of(all[0], fields, packet_number, timestamp, sender, stream_id)
                    &&& all.skip(1) == more
                },
                None => all == more,
            }
        }),
{
    let one = seq![record];
    law_record_behind_its_length(prefix, record, rest);
    lemma_channel_messages_add(one, frames(rest), packet_number, timestamp, sender, stream_id);
    assert(one.drop_last() =~= Seq::<Seq<u8>>::empty());
    let none = channel_messages(one.drop_last(), packet_number, timestamp, sender, stream_id);
    assert(none =~= Seq::<MessageView>::empty());
    let all = channel_messages(
        one + frames(rest),
        packet_number,
        timestamp,
        sender,
        stream_id,
    );
    let more = channel_messages(frames(rest), packet_number, timestamp, sender, stream_id);
    if decoded(record) is Some {
        assert(all.skip(1) =~= more);
    } else {
        assert(all =~= more);
    }
}

/// Law: there is no message where there is no length, or where fewer bytes are left than it says.
pub proof fn law_no_channel_message_without_a_record(
    data: Seq<u8>,
    packet_number: u64,
    timestamp: Timestamp,
    sender: Sender,
    stream_id: u16,
)
    requires
        match varint(data) {
            Some((length, n)) => n + length > data.len(),
            None => true,
        },
    ensures
        channel_messages(frames(data), packet_number, timestamp, sender, stream_id).len() == 0,
{
}

/// Law: for each message that was written to a channel, in the order of writing, a message is found
/// that tells of it field by field, whatever was written and whatever follows.
pub proof fn law_sent_messages_are_told_of(
    sent: Seq<MessageFields>,
    tail: Seq<u8>,
    packet_number: u64,
    timestamp: Timestamp,
    sender: Sender,
    stream_id: u16,
)
    requires
        forall|i: int| 0 <= i < sent.len() ==> can_be_sent(#[trigger] sent[i]),
    ensures
        ({
            let found = channel_messages(
                frames(framed(sent_records(sent)) + tail),
                packet_number,
                timestamp,
                sender,
                stream_id,
            );
            &&& found.len() >= sent.len()
            &&& forall|i: int|
                0 <= i < sent.len() ==> tells_of(
                    found[i],
                    #[trigger] sent[i],
                    packet_number,
                    timestamp,
                    sender,
                    stream_id,
                )
            &&& found.skip(sent.len() as int) == channel_messages(
                frames(tail),
                packet_number,
                timestamp,
                sender,
                stream_id,
            )
        }),
{
    law_sent_messages_are_found(sent, tail, packet_number, timestamp, sender, stream_id);
    let found = channel_messages(
        frames(framed(sent_records(sent)) + tail),
        packet_number,
        timestamp,
        sender,
        stream_id,
    );
    let told = sent_messages(sent, packet_number, timestamp, sender, stream_id);
    assert forall|i: int| 0 <= i < sent.len() implies tells_of(
        found[i],
        #[trigger] sent[i],
        packet_number,
        timestamp,
        sender,
        stream_id,
    ) by {
        assert(found[i] == told[i]);
    }
    assert(found.skip(sent.len() as int) =~= channel_messages(
        frames(tail),
        packet_number,
        timestamp,
        sender,
        stream_id,
    ));
}

} // verus!
