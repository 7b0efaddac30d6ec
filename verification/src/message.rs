//! What is found in a capture: messages on streams, and resets of streams.
use vstd::prelude::*;
use vstd::string::*;
use crate::multistream::multistream_protocol;
use crate::text::{decimal, decimal_text, joined, push_decimal, push_part};
use crate::text::{law_joined_alone, law_joined_in_parts};
use crate::timestamp::Timestamp;
use crate::webrtc_proto;

verus! {

/// The side that sent a packet.
#[derive(Debug, Clone, Copy, PartialEq, Eq, Structural)]
pub enum Sender {
    Dialer,
    Listener,
    Unknown,
}

/// A flag of a message.
#[derive(Debug, Clone, Copy, PartialEq, Eq, Structural)]
pub enum Flag {
    Fin,
    StopSending,
    ResetStream,
    FinAck,
}

impl Sender {
    /// The name of the side.
    pub open spec fn spec_text(self) -> Seq<char> {
        match self {
            Sender::Dialer => "Dialer"@,
            Sender::Listener => "Listener"@,
            Sender::Unknown => "Unknown"@,
        }
    }

    /// The name of the side.
    pub fn to_string(&self) -> (r: String)
        ensures
            r@ == self.spec_text(),
    {
        match self {
            Sender::Dialer => "Dialer".to_owned(),
            Sender::Listener => "Listener".to_owned(),
            Sender::Unknown => "Unknown".to_owned(),
        }
    }
}

impl Flag {
    /// The name of the flag.
    pub open spec fn spec_text(self) -> Seq<char> {
        match self {
            Flag::Fin => "FIN"@,
            Flag::StopSending => "STOP_SENDING"@,
            Flag::ResetStream => "RESET_STREAM"@,
            Flag::FinAck => "FIN_ACK"@,
        }
    }

    /// The name of the flag.
    pub fn to_string(&self) -> (r: String)
        ensures
            r@ == self.spec_text(),
    {
        match self {
            Flag::Fin => "FIN".to_owned(),
            Flag::StopSending => "STOP_SENDING".to_owned(),
            Flag::ResetStream => "RESET_STREAM".to_owned(),
            Flag::FinAck => "FIN_ACK".to_owned(),
        }
    }

    /// The flag that a number stands for on the wire.
    pub open spec fn spec_from_number(number: i32) -> Option<Flag> {
        if number == 0 {
            Some(Flag::Fin)
        } else if number == 1 {
            Some(Flag::StopSending)
        } else if number == 2 {
            Some(Flag::ResetStream)
        } else if number == 3 {
            Some(Flag::FinAck)
        } else {
            None
        }
    }

    /// The flag that a number stands for on the wire.
    pub fn from_number(number: i32) -> (r: Option<Flag>)
        ensures
            r == Flag::spec_from_number(number),
    {
        match number {
            0 => Some(Flag::Fin),
            1 => Some(Flag::StopSending),
            2 => Some(Flag::ResetStream),
            3 => Some(Flag::FinAck),
            _ => None,
        }
    }
}

/// The flag that a flag of the schema stands for.
pub open spec fn flag_of_schema(flag: webrtc_proto::message::Flag) -> Flag {
    match flag {
        webrtc_proto::message::Flag::Fin => Flag::Fin,
        webrtc_proto::message::Flag::StopSending => Flag::StopSending,
        webrtc_proto::message::Flag::ResetStream => Flag::ResetStream,
        webrtc_proto::message::Flag::FinAck => Flag::FinAck,
    }
}

/// Law: every flag of the schema is read from its number, and no number that the schema does not
/// give to a flag is read as one.
pub proof fn law_flags_are_those_of_the_schema(flag: webrtc_proto::message::Flag, number: i32)
    ensures
        Flag::spec_from_number(flag.spec_number()) == Some(flag_of_schema(flag)),
        Flag::spec_from_number(number) is Some <==> exists|known: webrtc_proto::message::Flag|
            #[trigger] known.spec_number() == number,
{
    assert(webrtc_proto::message::Flag::Fin.spec_number() == 0);
    assert(webrtc_proto::message::Flag::StopSending.spec_number() == 1);
    assert(webrtc_proto::message::Flag::ResetStream.spec_number() == 2);
    assert(webrtc_proto::message::Flag::FinAck.spec_number() == 3);
}

/// A step in the reset of streams (RFC 6525).
#[derive(Debug, Clone)]
pub enum SctpEvent {
    /// The sender asks to reset these of its outgoing streams.
    OutgoingReset { stream_ids: Vec<u16> },
    /// The sender asks to reset these of its incoming streams.
    IncomingReset { stream_ids: Vec<u16> },
    /// The answer to such a request.
    ResetResponse { result: u32, seq_number: u32 },
}

/// What a step in the reset of streams says.
pub enum SctpEventView {
    OutgoingReset { stream_ids: Seq<u16> },
    IncomingReset { stream_ids: Seq<u16> },
    ResetResponse { result: u32, seq_number: u32 },
}

impl View for SctpEvent {
    type V = SctpEventView;

    open spec fn view(&self) -> SctpEventView {
        match self {
            SctpEvent::OutgoingReset { stream_ids } => SctpEventView::OutgoingReset {
                stream_ids: stream_ids@,
            },
            SctpEvent::IncomingReset { stream_ids } => SctpEventView::IncomingReset {
                stream_ids: stream_ids@,
            },
            SctpEvent::ResetResponse { result, seq_number } => SctpEventView::ResetResponse {
                result: *result,
                seq_number: *seq_number,
            },
        }
    }
}

/// `ids` in decimal digits.
pub open spec fn decimals(ids: Seq<u16>) -> Seq<Seq<char>> {
    ids.map_values(|id: u16| decimal(id as nat))
}

/// What the result number of an answer means.
pub open spec fn result_meaning(result: u32) -> Seq<char> {
    if result == 0 {
        "Success (Nothing to do)"@
    } else if result == 1 {
        "Success (Performed)"@
    } else if result == 2 {
        "Denied"@
    } else if result == 3 {
        "Error (Wrong SSN)"@
    } else if result == 4 {
        "Error (Request In Progress)"@
    } else if result == 5 {
        "Error (Bad Sequence Number)"@
    } else if result == 6 {
        "In Progress"@
    } else {
        "Unknown"@
    }
}

impl SctpEventView {
    /// The streams that the step is about, or a dash for an answer.
    pub open spec fn stream_ids_text(self) -> Seq<char> {
        match self {
            SctpEventView::OutgoingReset { stream_ids } => joined(decimals(stream_ids), ", "@),
            SctpEventView::IncomingReset { stream_ids } => joined(decimals(stream_ids), ", "@),
            SctpEventView::ResetResponse { .. } => "-"@,
        }
    }

    /// The step in words.
    pub open spec fn description_text(self) -> Seq<char> {
        match self {
            SctpEventView::OutgoingReset { .. } => "SCTP Outgoing Reset ["@ + self.stream_ids_text()
                + "]"@,
            SctpEventView::IncomingReset { .. } => "SCTP Incoming Reset ["@ + self.stream_ids_text()
                + "]"@,
            SctpEventView::ResetResponse { result, seq_number } => "SCTP Reset Response: "@
                + result_meaning(result) + " (seq="@ + decimal(seq_number as nat) + ")"@,
        }
    }
}

/// `ids` in decimal digits with commas between them.
fn join_ids(ids: &Vec<u16>) -> (r: String)
    ensures
        r@ == joined(decimals(ids@), ", "@),
{
    let mut text = String::new();
    assert(ids@.take(0) =~= Seq::<u16>::empty());
    assert(decimals(ids@.take(0)) =~= Seq::<Seq<char>>::empty());
    assert(text@ =~= joined(decimals(ids@.take(0)), ", "@));
    let mut i: usize = 0;
    while i < ids.len()
        invariant
            i <= ids@.len(),
            text@ == joined(decimals(ids@.take(i as int)), ", "@),
        decreases ids.len() - i,
    {
        let id = decimal_text(ids[i] as u64);
        push_part(&mut text, id.as_str(), ", ", Ghost(decimals(ids@.take(i as int))), i == 0);
        assert(decimals(ids@.take(i + 1)) =~= decimals(ids@.take(i as int)).push(id@));
        i = i + 1;
    }
    assert(ids@.take(i as int) =~= ids@);
    text
}

/// What the result number of an answer means.
fn meaning_of_result(result: u32) -> (r: &'static str)
    ensures
        r@ == result_meaning(result),
{
    match result {
        0 => "Success (Nothing to do)",
        1 => "Success (Performed)",
        2 => "Denied",
        3 => "Error (Wrong SSN)",
        4 => "Error (Request In Progress)",
        5 => "Error (Bad Sequence Number)",
        6 => "In Progress",
        _ => "Unknown",
    }
}

impl SctpEvent {
    /// The streams that the step is about with commas between them, or a dash for an answer.
    pub fn stream_ids_str(&self) -> (r: String)
        ensures
            r@ == self@.stream_ids_text(),
    {
        match self {
            SctpEvent::OutgoingReset { stream_ids } => join_ids(stream_ids),
            SctpEvent::IncomingReset { stream_ids } => join_ids(stream_ids),
            SctpEvent::ResetResponse { .. } => "-".to_owned(),
        }
    }

    /// The step in words.
    pub fn description(&self) -> (r: String)
        ensures
            r@ == self@.description_text(),
    {
        match self {
            SctpEvent::OutgoingReset { .. } => {
                let mut text = "SCTP Outgoing Reset [".to_owned();
                text.append(self.stream_ids_str().as_str());
                text.append("]");
                text
            },
            SctpEvent::IncomingReset { .. } => {
                let mut text = "SCTP Incoming Reset [".to_owned();
                text.append(self.stream_ids_str().as_str());
                text.append("]");
                text
            },
            SctpEvent::ResetResponse { result, seq_number } => {
                let mut text = "SCTP Reset Response: ".to_owned();
                text.append(meaning_of_result(*result));
                text.append(" (seq=");
                push_decimal(&mut text, *seq_number as u64);
                text.append(")");
                text
            },
        }
    }
}

/// The first stream that a step in a reset is about, or 0.
pub open spec fn first_stream(event: SctpEventView) -> u16 {
    match event {
        SctpEventView::OutgoingReset { stream_ids } if stream_ids.len() > 0 => stream_ids[0],
        SctpEventView::IncomingReset { stream_ids } if stream_ids.len() > 0 => stream_ids[0],
        _ => 0,
    }
}

/// A message on a stream, or a step in the reset of streams.
#[derive(Debug)]
pub struct Message {
    /// The number of the packet in the capture, from 1.
    pub packet_number: u64,
    pub timestamp: Timestamp,
    pub sender: Sender,
    pub stream_id: u16,
    pub flag: Option<Flag>,
    /// The protocol names in the payload.
    pub protocol: Option<String>,
    pub payload: Option<Vec<u8>>,
    pub payload_len: usize,
    pub sctp_event: Option<SctpEvent>,
}

/// What a message holds.
pub struct MessageView {
    pub packet_number: u64,
    pub timestamp: Timestamp,
    pub sender: Sender,
    pub stream_id: u16,
    pub flag: Option<Flag>,
    pub protocol: Option<Seq<char>>,
    pub payload: Option<Seq<u8>>,
    pub payload_len: nat,
    pub sctp_event: Option<SctpEventView>,
}

impl MessageView {
    /// Whether the parts of a message fit together: it gives the length of its payload and exactly the
    /// protocols that its payload names, and where it tells of a reset it is on the first stream of
    /// that reset and has nothing of a message on a stream.
    pub open spec fn is_consistent(self) -> bool {
        &&& self.payload_len == match self.payload {
            Some(bytes) => bytes.len(),
            None => 0,
        }
        &&& self.protocol == match self.payload {
            Some(bytes) => multistream_protocol(bytes),
            None => None,
        }
        &&& self.sctp_event matches Some(event) ==> {
            &&& self.flag is None
            &&& self.payload is None
            &&& self.stream_id == first_stream(event)
        }
    }
}

impl View for Message {
    type V = MessageView;

    open spec fn view(&self) -> MessageView {
        MessageView {
            packet_number: self.packet_number,
            timestamp: self.timestamp,
            sender: self.sender,
            stream_id: self.stream_id,
            flag: self.flag,
            protocol: match self.protocol {
                Some(text) => Some(text@),
                None => None,
            },
            payload: match self.payload {
                Some(bytes) => Some(bytes@),
                None => None,
            },
            payload_len: self.payload_len as nat,
            sctp_event: match self.sctp_event {
                Some(event) => Some(event@),
                None => None,
            },
        }
    }
}

/// What each of `messages` holds.
pub open spec fn views(messages: Seq<Message>) -> Seq<MessageView> {
    messages.map_values(|m: Message| m@)
}

/// Law: nothing of a message is hidden from its view.
pub proof fn law_message_view_shows_all(m: Message)
    ensures
        m@.packet_number == m.packet_number,
        m@.timestamp == m.timestamp,
        m@.sender == m.sender,
        m@.stream_id == m.stream_id,
        m@.flag == m.flag,
        m.protocol matches Some(text) ==> m@.protocol == Some(text@),
        m.protocol is None ==> m@.protocol is None,
        m.payload matches Some(bytes) ==> m@.payload == Some(bytes@),
        m.payload is None ==> m@.payload is None,
        m@.payload_len == m.payload_len,
        m.sctp_event matches Some(event) ==> m@.sctp_event == Some(event@),
        m.sctp_event is None ==> m@.sctp_event is None,
{
}

/// Law: nothing of a step in a reset is hidden from its view.
pub proof fn law_event_view_shows_all(event: SctpEvent)
    ensures
        event matches SctpEvent::OutgoingReset { stream_ids } ==> event@ == (
        SctpEventView::OutgoingReset { stream_ids: stream_ids@ }),
        event matches SctpEvent::IncomingReset { stream_ids } ==> event@ == (
        SctpEventView::IncomingReset { stream_ids: stream_ids@ }),
        event matches SctpEvent::ResetResponse { result, seq_number } ==> event@ == (
        SctpEventView::ResetResponse { result, seq_number }),
{
}

/// Law: messages are seen one by one, all of them and in their order.
pub proof fn law_views_show_all(messages: Seq<Message>)
    ensures
        views(messages).len() == messages.len(),
        forall|i: int| 0 <= i < messages.len() ==> #[trigger] views(messages)[i] == messages[i]@,
{
}

/// Law: senders and flags go by these names.
pub proof fn law_names()
    ensures
        Sender::Dialer.spec_text() == "Dialer"@,
        Sender::Listener.spec_text() == "Listener"@,
        Sender::Unknown.spec_text() == "Unknown"@,
        Flag::Fin.spec_text() == "FIN"@,
        Flag::StopSending.spec_text() == "STOP_SENDING"@,
        Flag::ResetStream.spec_text() == "RESET_STREAM"@,
        Flag::FinAck.spec_text() == "FIN_ACK"@,
{
}

/// Law: the streams of a request are named one after the other, however many they are, with a comma
/// and a space between each two; an answer names none.
pub proof fn law_streams_are_named(id: u16, first: Seq<u16>, second: Seq<u16>, answer: SctpEventView)
    ensures
        (SctpEventView::OutgoingReset { stream_ids: Seq::empty() }).stream_ids_text().len() == 0,
        (SctpEventView::IncomingReset { stream_ids: Seq::empty() }).stream_ids_text().len() == 0,
        (SctpEventView::OutgoingReset { stream_ids: seq![id] }).stream_ids_text() == decimal(
            id as nat,
        ),
        (SctpEventView::IncomingReset { stream_ids: seq![id] }).stream_ids_text() == decimal(
            id as nat,
        ),
        first.len() > 0 && second.len() > 0 ==> {
            &&& (SctpEventView::OutgoingReset { stream_ids: first + second }).stream_ids_text() == (
            SctpEventView::OutgoingReset { stream_ids: first }).stream_ids_text() + seq![',', ' ']
                + (SctpEventView::OutgoingReset { stream_ids: second }).stream_ids_text()
            &&& (SctpEventView::IncomingReset { stream_ids: first + second }).stream_ids_text() == (
            SctpEventView::IncomingReset { stream_ids: first }).stream_ids_text() + seq![',', ' ']
                + (SctpEventView::IncomingReset { stream_ids: second }).stream_ids_text()
        },
        answer is ResetResponse ==> answer.stream_ids_text() == "-"@,
{
    reveal_strlit(", ");
    assert(", "@ =~= seq![',', ' ']);
    assert(decimals(Seq::empty()) =~= Seq::<Seq<char>>::empty());
    assert(decimals(seq![id]) =~= seq![decimal(id as nat)]);
    law_joined_alone(decimal(id as nat), ", "@);
    assert(decimals(first + second) =~= decimals(first) + decimals(second));
    if first.len() > 0 && second.len() > 0 {
        law_joined_in_parts(decimals(first), decimals(second), ", "@);
    }
}

/// Law: a step in a reset is put into these words: requests with the streams that they name, answers
/// with what their result means and the number of the request.
pub proof fn law_steps_in_words(stream_ids: Seq<u16>, result: u32, seq_number: u32)
    ensures
        ({
            let event = SctpEventView::OutgoingReset { stream_ids };
            event.description_text() == "SCTP Outgoing Reset ["@ + event.stream_ids_text() + "]"@
        }),
        ({
            let event = SctpEventView::IncomingReset { stream_ids };
            event.description_text() == "SCTP Incoming Reset ["@ + event.stream_ids_text() + "]"@
        }),
        ({
            let text = (SctpEventView::ResetResponse { result, seq_number }).description_text();
            let start = "SCTP Reset Response: "@;
            let end = " (seq="@ + decimal(seq_number as nat) + ")"@;
            &&& result == 0 ==> text == start + "Success (Nothing to do)"@ + end
            &&& result == 1 ==> text == start + "Success (Performed)"@ + end
            &&& result == 2 ==> text == start + "Denied"@ + end
            &&& result == 3 ==> text == start + "Error (Wrong SSN)"@ + end
            &&& result == 4 ==> text == start + "Error (Request In Progress)"@ + end
            &&& result == 5 ==> text == start + "Error (Bad Sequence Number)"@ + end
            &&& result == 6 ==> text == start + "In Progress"@ + end
            &&& result > 6 ==> text == start + "Unknown"@ + end
        }),
{
    let text = (SctpEventView::ResetResponse { result, seq_number }).description_text();
    let end = " (seq="@ + decimal(seq_number as nat) + ")"@;
    assert(text =~= "SCTP Reset Response: "@ + result_meaning(result) + end);
}

} // verus!
