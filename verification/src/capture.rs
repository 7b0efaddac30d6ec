//! Reading a capture packet by packet.
use vstd::prelude::*;
use vstd::string::*;
use crate::message::{views, Message, MessageView, Sender};
use crate::sctp::{is_of_packet, law_messages_are_of_their_packet, packet_messages};
use crate::sctp::{parse_sctp_packet, parse_sctp_packet_with_sender};
use crate::text::{decimal, push_decimal};
use crate::timestamp::{is_valid, packet_timestamp, signed_secs, Timestamp};
use crate::timestamp::law_timestamp_is_its_parts;

verus! {

/// Whether a file that starts with `magic` is in the format pcapng.
pub fn is_pcapng(magic: &[u8; 4]) -> (r: bool)
    ensures
        r <==> magic@ == seq![0x0Au8, 0x0D, 0x0D, 0x0A],
{
    let r = magic[0] == 0x0A && magic[1] == 0x0D && magic[2] == 0x0D && magic[3] == 0x0A;
    assert(r ==> magic@ =~= seq![0x0Au8, 0x0D, 0x0D, 0x0A]);
    r
}

/// An option of a captured packet.
#[derive(Debug, Clone, Copy, PartialEq, Eq, Structural)]
pub enum PacketOption {
    /// The word of flags of the link layer.
    Flags(u32),
    /// Anything else.
    Other,
}

/// The flags of the first option that holds any.
pub open spec fn first_flags(options: Seq<PacketOption>) -> Option<u32>
    decreases options.len(),
{
    if options.len() == 0 {
        None
    } else {
        match options[0] {
            PacketOption::Flags(flags) => Some(flags),
            PacketOption::Other => first_flags(options.skip(1)),
        }
    }
}

/// The flags of the first option that holds any.
pub fn find_flags(options: &Vec<PacketOption>) -> (r: Option<u32>)
    ensures
        r == first_flags(options@),
{
    let mut i: usize = 0;
    assert(options@.skip(0) =~= options@);
    while i < options.len()
        invariant
            i <= options@.len(),
            first_flags(options@.skip(i as int)) == first_flags(options@),
        decreases options.len() - i,
    {
        assert(options@.skip(i as int).skip(1) =~= options@.skip(i + 1));
        match options[i] {
            PacketOption::Flags(flags) => {
                return Some(flags);
            },
            PacketOption::Other => {
                i = i + 1;
            },
        }
    }
    None
}

/// The sender of a packet: its second lowest flag marks it as outbound from the dialer, and else
/// its lowest flag as inbound.
pub open spec fn sender_of_flags(flags: Option<u32>) -> Sender {
    match flags {
        Some(flags) if flags / 2 % 2 == 1 => Sender::Dialer,
        Some(flags) if flags % 2 == 1 => Sender::Listener,
        _ => Sender::Unknown,
    }
}

/// The sender of a packet with these flags.
pub fn sender_from_flags(flags: Option<u32>) -> (r: Sender)
    ensures
        r == sender_of_flags(flags),
{
    match flags {
        Some(flags) => {
            assert((flags & 0x02 != 0) == (flags / 2 % 2 == 1)) by (bit_vector);
            assert((flags & 0x01 != 0) == (flags % 2 == 1)) by (bit_vector);
            if flags & 0x02 != 0 {
                Sender::Dialer
            } else if flags & 0x01 != 0 {
                Sender::Listener
            } else {
                Sender::Unknown
            }
        },
        None => Sender::Unknown,
    }
}

/// What comes next in a pcap file.
#[derive(Debug)]
pub enum PcapEvent {
    /// A packet, and the seconds and nanoseconds of its time.
    Packet { secs: u64, nanos: u32, data: Vec<u8> },
    /// A part of a packet, with nothing behind it.
    IncompleteBuffer,
    /// Something that cannot be read, and why.
    Failed(String),
}

/// What comes next in a pcapng file.
#[derive(Debug)]
pub enum PcapNgEvent {
    /// A packet, the seconds and nanoseconds of its time, and its options.
    EnhancedPacket { secs: u64, nanos: u32, options: Vec<PacketOption>, data: Vec<u8> },
    /// A block that is not a packet.
    OtherBlock,
    /// A part of a block, with nothing behind it.
    IncompleteBuffer,
    /// Something that cannot be read, and why.
    Failed(String),
}

/// What to do after a step.
#[derive(Debug)]
pub enum Next {
    /// Read on.
    Continue,
    /// Stop reading.
    Stop,
    /// Give this warning, and read on.
    Warn(String),
}

/// What was read so far.
#[derive(Debug)]
pub struct Capture {
    pub messages: Vec<Message>,
    pub packet_number: u64,
}

/// The messages of the packets that were read, and how many packets that were.
pub struct CaptureView {
    pub messages: Seq<MessageView>,
    pub packet_number: u64,
}

impl View for Capture {
    type V = CaptureView;

    open spec fn view(&self) -> CaptureView {
        CaptureView { messages: views(self.messages@), packet_number: self.packet_number }
    }
}

/// The capture of which nothing was read yet.
pub open spec fn empty_capture() -> CaptureView {
    CaptureView { messages: Seq::empty(), packet_number: 0 }
}

/// `capture` with one more packet.
pub open spec fn with_packet(
    capture: CaptureView,
    data: Seq<u8>,
    timestamp: Timestamp,
    sender: Sender,
) -> CaptureView {
    let number = (capture.packet_number + 1) as u64;
    CaptureView {
        messages: capture.messages + packet_messages(data, number, timestamp, sender),
        packet_number: number,
    }
}

/// Whether `timestamp` can be the time of a packet that carries so many seconds and nanoseconds:
/// exactly that time if it has a date, and else whatever the clock showed.
pub open spec fn is_packet_time(timestamp: Timestamp, secs: u64, nanos: u32) -> bool {
    &&& is_valid(timestamp.spec_secs() as int, timestamp.spec_nanos() as int)
    &&& is_valid(signed_secs(secs), nanos as int) ==> timestamp.spec_secs() == signed_secs(secs)
        && timestamp.spec_nanos() == nanos
}

/// Whether `after` is `before` with one more packet of that time.
pub open spec fn packet_was_added(
    before: CaptureView,
    after: CaptureView,
    data: Seq<u8>,
    secs: u64,
    nanos: u32,
    sender: Sender,
) -> bool {
    exists|timestamp: Timestamp| #[trigger]
        is_packet_time(timestamp, secs, nanos) && after == with_packet(
            before,
            data,
            timestamp,
            sender,
        )
}

/// What an event of a file means for a capture.
pub enum Step {
    /// One more packet.
    Packet { data: Seq<u8>, secs: u64, nanos: u32, sender: Sender },
    /// Nothing to take.
    Nothing,
    /// Nothing comes any more.
    End,
}

/// What an event of a pcap file means. Such a file does not tell who sent a packet.
pub open spec fn pcap_step(event: PcapEvent) -> Step {
    match event {
        PcapEvent::Packet { secs, nanos, data } => Step::Packet {
            data: data@,
            secs,
            nanos,
            sender: Sender::Unknown,
        },
        PcapEvent::IncompleteBuffer => Step::End,
        PcapEvent::Failed(_) => Step::Nothing,
    }
}

/// What an event of a pcapng file means. The options of a packet tell who sent it.
pub open spec fn pcapng_step(event: PcapNgEvent) -> Step {
    match event {
        PcapNgEvent::EnhancedPacket { secs, nanos, options, data } => Step::Packet {
            data: data@,
            secs,
            nanos,
            sender: sender_of_flags(first_flags(options@)),
        },
        PcapNgEvent::OtherBlock => Step::Nothing,
        PcapNgEvent::IncompleteBuffer => Step::End,
        PcapNgEvent::Failed(_) => Step::Nothing,
    }
}

/// Whether a step takes a capture from `before` to `after`.
pub open spec fn takes(before: CaptureView, step: Step, after: CaptureView) -> bool {
    match step {
        Step::Packet { data, secs, nanos, sender } => packet_was_added(
            before,
            after,
            data,
            secs,
            nanos,
            sender,
        ),
        _ => after == before,
    }
}

impl Capture {
    /// Nothing was read yet.
    pub fn new() -> (r: Capture)
        ensures
            r@ == empty_capture(),
    {
        let r = Capture { messages: Vec::new(), packet_number: 0 };
        assert(r@.messages =~= Seq::<MessageView>::empty());
        r
    }

    /// Takes what was found in one more packet.
    fn add_found(&mut self, found: Option<Vec<Message>>)
        requires
            old(self).packet_number < u64::MAX,
        ensures
            final(self).packet_number == old(self).packet_number + 1,
            views(final(self).messages@) == views(old(self).messages@) + (match found {
                Some(messages) => views(messages@),
                None => Seq::empty(),
            }),
    {
        self.packet_number = self.packet_number + 1;
        match found {
            Some(messages) => {
                let mut messages = messages;
                let ghost more = messages@;
                self.messages.append(&mut messages);
                assert(views(self.messages@) =~= views(old(self).messages@) + views(more));
            },
            None => {
                assert(views(self.messages@) =~= views(old(self).messages@) + Seq::<
                    MessageView,
                >::empty());
            },
        }
    }

    /// Takes the messages of one more packet.
    pub fn add_packet(&mut self, data: &[u8], timestamp: Timestamp, sender: Sender)
        requires
            old(self).packet_number < u64::MAX,
        ensures
            final(self)@ == with_packet(old(self)@, data@, timestamp, sender),
    {
        let number: u64 = self.packet_number + 1;
        let found = parse_sctp_packet_with_sender(data, number, timestamp, sender);
        self.add_found(found);
        assert(self@.messages =~= with_packet(old(self)@, data@, timestamp, sender).messages);
    }

    /// Takes the messages of one more packet of a capture that does not tell who sent it.
    pub fn add_undirected_packet(
        &mut self,
        data: &[u8],
        timestamp: Timestamp,
        dialer_ip: &Option<String>,
    )
        requires
            old(self).packet_number < u64::MAX,
        ensures
            final(self)@ == with_packet(old(self)@, data@, timestamp, Sender::Unknown),
    {
        let number: u64 = self.packet_number + 1;
        let found = parse_sctp_packet(data, number, timestamp, dialer_ip);
        self.add_found(found);
        assert(self@.messages =~= with_packet(
            old(self)@,
            data@,
            timestamp,
            Sender::Unknown,
        ).messages);
    }

    /// Takes what comes next in a pcap file. Such a file does not tell who sent a packet.
    pub fn read_pcap(&mut self, event: PcapEvent, dialer_ip: &Option<String>) -> (r: Next)
        requires
            !(event is IncompleteBuffer) ==> old(self).packet_number < u64::MAX,
        ensures
            takes(old(self)@, pcap_step(event), final(self)@),
            r is Stop <==> pcap_step(event) is End,
            match event {
                PcapEvent::Packet { .. } => r is Continue,
                PcapEvent::IncompleteBuffer => r is Stop,
                PcapEvent::Failed(error) => {
                    &&& r matches Next::Warn(warning)
                    &&& warning@ == "Warning: Error reading packet "@ + decimal(
                        (old(self).packet_number + 1) as nat,
                    ) + ": "@ + error@
                },
            },
    {
        match event {
            PcapEvent::Packet { secs, nanos, data } => {
                let timestamp = packet_timestamp(secs, nanos);
                assert(is_packet_time(timestamp, secs, nanos));
                self.add_undirected_packet(data.as_slice(), timestamp, dialer_ip);
                Next::Continue
            },
            PcapEvent::IncompleteBuffer => Next::Stop,
            PcapEvent::Failed(error) => {
                let mut warning = "Warning: Error reading packet ".to_owned();
                push_decimal(&mut warning, self.packet_number + 1);
                warning.append(": ");
                warning.append(error.as_str());
                Next::Warn(warning)
            },
        }
    }

    /// Takes what comes next in a pcapng file. The options of a packet tell who sent it; blocks
    /// that are not packets are passed over.
    pub fn read_pcapng(&mut self, event: PcapNgEvent) -> (r: Next)
        requires
            event is EnhancedPacket ==> old(self).packet_number < u64::MAX,
        ensures
            takes(old(self)@, pcapng_step(event), final(self)@),
            r is Stop <==> pcapng_step(event) is End,
            match event {
                PcapNgEvent::EnhancedPacket { .. } => r is Continue,
                PcapNgEvent::OtherBlock => r is Continue,
                PcapNgEvent::IncompleteBuffer => r is Stop,
                PcapNgEvent::Failed(error) => {
                    &&& r matches Next::Warn(warning)
                    &&& warning@ == "Warning: Error reading block: "@ + error@
                },
            },
    {
        match event {
            PcapNgEvent::EnhancedPacket { secs, nanos, options, data } => {
                let timestamp = packet_timestamp(secs, nanos);
                assert(is_packet_time(timestamp, secs, nanos));
                let sender = sender_from_flags(find_flags(&options));
                self.add_packet(data.as_slice(), timestamp, sender);
                Next::Continue
            },
            PcapNgEvent::OtherBlock => Next::Continue,
            PcapNgEvent::IncompleteBuffer => Next::Stop,
            PcapNgEvent::Failed(error) => {
                let mut warning = "Warning: Error reading block: ".to_owned();
                warning.append(error.as_str());
                Next::Warn(warning)
            },
        }
    }
}

/// A packet on its way into a capture.
pub struct Packet {
    pub data: Seq<u8>,
    pub timestamp: Timestamp,
    pub sender: Sender,
}

/// The capture that `packets` make, read in their order.
pub open spec fn capture_of(packets: Seq<Packet>) -> CaptureView
    decreases packets.len(),
{
    if packets.len() == 0 {
        empty_capture()
    } else {
        let packet = packets.last();
        with_packet(capture_of(packets.drop_last()), packet.data, packet.timestamp, packet.sender)
    }
}

/// The messages of `messages` that come from the packet of that number.
pub open spec fn of_number(messages: Seq<MessageView>, number: u64) -> Seq<MessageView> {
    messages.filter(|m: MessageView| m.packet_number == number)
}

proof fn lemma_of_number_all(messages: Seq<MessageView>, number: u64)
    requires
        forall|i: int|
            0 <= i < messages.len() ==> (#[trigger] messages[i]).packet_number == number,
    ensures
        of_number(messages, number) == messages,
    decreases messages.len(),
{
    reveal(Seq::filter);
    if messages.len() > 0 {
        lemma_of_number_all(messages.drop_last(), number);
        assert(messages.last() == messages[messages.len() - 1]);
        assert(messages.drop_last().push(messages.last()) =~= messages);
    } else {
        assert(of_number(messages, number) =~= messages);
    }
}

proof fn lemma_of_number_none(messages: Seq<MessageView>, number: u64)
    requires
        forall|i: int|
            0 <= i < messages.len() ==> (#[trigger] messages[i]).packet_number != number,
    ensures
        of_number(messages, number).len() == 0,
    decreases messages.len(),
{
    reveal(Seq::filter);
    if messages.len() > 0 {
        lemma_of_number_none(messages.drop_last(), number);
        assert(messages.last() == messages[messages.len() - 1]);
    }
}

/// Law: every message of a capture has the number of a packet that was read, the numbers never
/// fall, and the parts of each message fit together.
pub proof fn law_capture_is_ordered(packets: Seq<Packet>)
    requires
        packets.len() <= u64::MAX,
    ensures
        capture_of(packets).packet_number == packets.len(),
        forall|i: int|
            #![trigger capture_of(packets).messages[i]]
            0 <= i < capture_of(packets).messages.len() ==> {
                &&& 1 <= capture_of(packets).messages[i].packet_number <= packets.len()
                &&& capture_of(packets).messages[i].is_consistent()
            },
        forall|i: int, j: int|
            0 <= i <= j < capture_of(packets).messages.len() ==> (#[trigger] capture_of(
                packets,
            ).messages[i]).packet_number <= (#[trigger] capture_of(
                packets,
            ).messages[j]).packet_number,
    decreases packets.len(),
{
    if packets.len() > 0 {
        let packet = packets.last();
        let number = packets.len() as u64;
        let before = capture_of(packets.drop_last()).messages;
        let more = packet_messages(packet.data, number, packet.timestamp, packet.sender);
        let all = capture_of(packets).messages;
        law_capture_is_ordered(packets.drop_last());
        law_messages_are_of_their_packet(packet.data, number, packet.timestamp, packet.sender);
        assert(all =~= before + more);
        assert forall|i: int| before.len() <= i < all.len() implies {
            &&& (#[trigger] all[i]).packet_number == number
            &&& all[i].is_consistent()
        } by {
            assert(all[i] == more[i - before.len()]);
            assert(is_of_packet(
                more[i - before.len()],
                number,
                packet.timestamp,
                packet.sender,
            ));
        }
        assert forall|i: int| 0 <= i < before.len() implies #[trigger] all[i] == before[i] by {}
    }
}

/// Law: the messages that carry the number of a packet are exactly the messages of that packet, in
/// order: none is lost, added or moved by the packets around it.
pub proof fn law_packets_keep_their_messages(packets: Seq<Packet>, i: int)
    requires
        packets.len() <= u64::MAX,
        0 <= i < packets.len(),
    ensures
        of_number(capture_of(packets).messages, (i + 1) as u64) == packet_messages(
            packets[i].data,
            (i + 1) as u64,
            packets[i].timestamp,
            packets[i].sender,
        ),
    decreases packets.len(),
{
    let packet = packets.last();
    let number = packets.len() as u64;
    let wanted = (i + 1) as u64;
    let pred = |m: MessageView| m.packet_number == wanted;
    let before = capture_of(packets.drop_last()).messages;
    let more = packet_messages(packet.data, number, packet.timestamp, packet.sender);
    law_capture_is_ordered(packets.drop_last());
    law_messages_are_of_their_packet(packet.data, number, packet.timestamp, packet.sender);
    assert(capture_of(packets).messages =~= before + more);
    Seq::filter_distributes_over_add(before, more, pred);
    assert forall|k: int| 0 <= k < more.len() implies (#[trigger] more[k]).packet_number
        == number by {
        assert(is_of_packet(more[k], number, packet.timestamp, packet.sender));
    }
    if i == packets.len() - 1 {
        lemma_of_number_none(before, wanted);
        lemma_of_number_all(more, wanted);
        assert(of_number(before, wanted) + of_number(more, wanted) =~= more);
    } else {
        law_packets_keep_their_messages(packets.drop_last(), i);
        assert(packets.drop_last()[i] == packets[i]);
        lemma_of_number_none(more, wanted);
        assert(of_number(before, wanted) + of_number(more, wanted) =~= of_number(before, wanted));
    }
}

/// The steps in front of the first that ends a file.
pub open spec fn until_end(steps: Seq<Step>) -> Seq<Step>
    decreases steps.len(),
{
    if steps.len() == 0 || steps[0] is End {
        Seq::empty()
    } else {
        seq![steps[0]] + until_end(steps.skip(1))
    }
}

/// Whether `states` is how a capture goes through `steps`, from the empty one on.
pub open spec fn is_run(steps: Seq<Step>, states: Seq<CaptureView>) -> bool {
    &&& states.len() == steps.len() + 1
    &&& states[0] == empty_capture()
    &&& forall|i: int| 0 <= i < steps.len() ==> takes(states[i], #[trigger] steps[i], states[i + 1])
}

/// Whether `packets` are the packets among `steps`, in their order, each with its bytes, its sender
/// and a time that it can have.
pub open spec fn are_packets_among(steps: Seq<Step>, packets: Seq<Packet>) -> bool
    decreases steps.len(),
{
    if steps.len() == 0 {
        packets.len() == 0
    } else {
        match steps.last() {
            Step::Packet { data, secs, nanos, sender } => {
                &&& packets.len() > 0
                &&& packets.last().data == data
                &&& packets.last().sender == sender
                &&& is_packet_time(packets.last().timestamp, secs, nanos)
                &&& are_packets_among(steps.drop_last(), packets.drop_last())
            },
            _ => are_packets_among(steps.drop_last(), packets),
        }
    }
}

proof fn lemma_run(steps: Seq<Step>, states: Seq<CaptureView>) -> (packets: Seq<Packet>)
    requires
        is_run(steps, states),
    ensures
        are_packets_among(steps, packets),
        states.last() == capture_of(packets),
        packets.len() <= steps.len(),
    decreases steps.len(),
{
    if steps.len() == 0 {
        Seq::empty()
    } else {
        let fewer = steps.drop_last();
        let before = states.drop_last();
        assert forall|i: int| 0 <= i < fewer.len() implies takes(
            before[i],
            #[trigger] fewer[i],
            before[i + 1],
        ) by {
            assert(takes(states[i], steps[i], states[i + 1]));
        }
        let packets = lemma_run(fewer, before);
        let k = steps.len() - 1;
        assert(takes(states[k], steps[k], states[k + 1]));
        match steps.last() {
            Step::Packet { data, secs, nanos, sender } => {
                let timestamp = choose|timestamp: Timestamp| #[trigger]
                    is_packet_time(timestamp, secs, nanos) && states.last() == with_packet(
                        before.last(),
                        data,
                        timestamp,
                        sender,
                    );
                let all = packets.push(Packet { data, timestamp, sender });
                assert(all.drop_last() =~= packets);
                all
            },
            _ => packets,
        }
    }
}

/// What the events of a pcap file mean.
pub open spec fn pcap_steps(events: Seq<PcapEvent>) -> Seq<Step> {
    events.map_values(|event: PcapEvent| pcap_step(event))
}

/// What the events of a pcapng file mean.
pub open spec fn pcapng_steps(events: Seq<PcapNgEvent>) -> Seq<Step> {
    events.map_values(|event: PcapNgEvent| pcapng_step(event))
}

/// Law: reading a pcap file step by step, up to where nothing comes any more, gives the capture of
/// the packets in it, in their order. What cannot be read adds nothing and gets no number.
pub proof fn law_pcap_file_is_its_packets(events: Seq<PcapEvent>, states: Seq<CaptureView>)
    requires
        is_run(until_end(pcap_steps(events)), states),
        events.len() <= u64::MAX,
    ensures
        exists|packets: Seq<Packet>| #[trigger]
            are_packets_among(until_end(pcap_steps(events)), packets) && states.last()
                == capture_of(packets) && states.last().packet_number == packets.len(),
{
    lemma_until_end_shortens(pcap_steps(events));
    let packets = lemma_run(until_end(pcap_steps(events)), states);
    law_capture_is_ordered(packets);
}

/// Law: reading a pcapng file step by step, up to where nothing comes any more, gives the capture of
/// the packets in it, in their order. Other blocks, and what cannot be read, add nothing and get no
/// number.
pub proof fn law_pcapng_file_is_its_packets(events: Seq<PcapNgEvent>, states: Seq<CaptureView>)
    requires
        is_run(until_end(pcapng_steps(events)), states),
        events.len() <= u64::MAX,
    ensures
        exists|packets: Seq<Packet>| #[trigger]
            are_packets_among(until_end(pcapng_steps(events)), packets) && states.last()
                == capture_of(packets) && states.last().packet_number == packets.len(),
{
    lemma_until_end_shortens(pcapng_steps(events));
    let packets = lemma_run(until_end(pcapng_steps(events)), states);
    law_capture_is_ordered(packets);
}

proof fn lemma_until_end_shortens(steps: Seq<Step>)
    ensures
        until_end(steps).len() <= steps.len(),
    decreases steps.len(),
{
    if steps.len() > 0 && !(steps[0] is End) {
        lemma_until_end_shortens(steps.skip(1));
    }
}

/// Law: a file whose packets all have dates makes one capture and no other, whatever the clock
/// shows while it is read.
pub proof fn law_dated_file_makes_one_capture(
    steps: Seq<Step>,
    first: Seq<Packet>,
    second: Seq<Packet>,
)
    requires
        are_packets_among(steps, first),
        are_packets_among(steps, second),
        forall|i: int| 0 <= i < steps.len() ==> has_date(#[trigger] steps[i]),
    ensures
        capture_of(first) == capture_of(second),
{
    lemma_dated_packets(steps, first, second);
}

/// Whether a packet carries a time that has a date.
pub open spec fn has_date(step: Step) -> bool {
    step matches Step::Packet { secs, nanos, .. } ==> is_valid(signed_secs(secs), nanos as int)
}

proof fn lemma_dated_packets(steps: Seq<Step>, first: Seq<Packet>, second: Seq<Packet>)
    requires
        are_packets_among(steps, first),
        are_packets_among(steps, second),
        forall|i: int| 0 <= i < steps.len() ==> has_date(#[trigger] steps[i]),
    ensures
        first == second,
    decreases steps.len(),
{
    if steps.len() > 0 {
        let fewer = steps.drop_last();
        assert forall|i: int| 0 <= i < fewer.len() implies has_date(#[trigger] fewer[i]) by {
            assert(has_date(steps[i]));
        }
        assert(has_date(steps[steps.len() - 1]));
        match steps.last() {
            Step::Packet { .. } => {
                lemma_dated_packets(fewer, first.drop_last(), second.drop_last());
                law_timestamp_is_its_parts(first.last().timestamp, second.last().timestamp);
                assert(first.drop_last().push(first.last()) =~= first);
                assert(second.drop_last().push(second.last()) =~= second);
            },
            _ => {
                lemma_dated_packets(fewer, first, second);
            },
        }
    } else {
        assert(first =~= second);
    }
}

/// Law: nothing of a capture is hidden from its view.
pub proof fn law_capture_view_shows_all(capture: Capture)
    ensures
        capture@.packet_number == capture.packet_number,
        capture@.messages.len() == capture.messages@.len(),
        forall|i: int|
            0 <= i < capture.messages@.len() ==> #[trigger] capture@.messages[i]
                == capture.messages@[i]@,
{
}

/// Law: the flags of a packet are those of the first option that holds any, wherever it stands; a
/// packet without such an option has none.
pub proof fn law_first_flags(others: Seq<PacketOption>, flags: u32, rest: Seq<PacketOption>)
    requires
        forall|i: int| 0 <= i < others.len() ==> #[trigger] others[i] is Other,
    ensures
        first_flags(others) is None,
        first_flags(others + seq![PacketOption::Flags(flags)] + rest) == Some(flags),
    decreases others.len(),
{
    let options = others + seq![PacketOption::Flags(flags)] + rest;
    if others.len() > 0 {
        assert(others[0] is Other);
        assert(options[0] == others[0]);
        assert forall|i: int| 0 <= i < others.skip(1).len() implies #[trigger] others.skip(
            1,
        )[i] is Other by {
            assert(others[i + 1] is Other);
        }
        law_first_flags(others.skip(1), flags, rest);
        assert(options.skip(1) =~= others.skip(1) + seq![PacketOption::Flags(flags)] + rest);
    } else {
        assert(options[0] == PacketOption::Flags(flags));
    }
}

/// Law: a packet whose second flag is set comes from the dialer, whatever its other flags are; one with
/// the first flag but not the second from the listener; of every other the sender is not known.
pub proof fn law_senders_by_flags(flags: u32)
    ensures
        flags & 2 != 0 ==> sender_of_flags(Some(flags)) == Sender::Dialer,
        flags & 2 == 0 && flags & 1 != 0 ==> sender_of_flags(Some(flags)) == Sender::Listener,
        flags & 3 == 0 ==> sender_of_flags(Some(flags)) == Sender::Unknown,
        sender_of_flags(None) == Sender::Unknown,
{
    assert((flags & 2 != 0) == (flags / 2 % 2 == 1)) by (bit_vector);
    assert((flags & 1 != 0) == (flags % 2 == 1)) by (bit_vector);
    assert(flags & 3 == 0 ==> flags & 2 == 0 && flags & 1 == 0) by (bit_vector);
}

/// Whether a step adds one packet: it counts one more, and behind the messages that were there stand
/// those of its bytes, with its number, its sender and exactly its time, where that has a date.
pub open spec fn adds_packet(
    before: CaptureView,
    after: CaptureView,
    data: Seq<u8>,
    secs: u64,
    nanos: u32,
    sender: Sender,
) -> bool {
    let signed = if secs < 0x8000_0000_0000_0000 {
        secs as int
    } else {
        secs - 0x1_0000_0000_0000_0000
    };
    let dated = -8_334_601_228_800 <= signed <= 8_210_266_876_799 && (nanos < 1_000_000_000 || (nanos
        < 2_000_000_000 && signed % 60 == 59));
    &&& after.packet_number == before.packet_number + 1
    &&& exists|t: Timestamp|
        {
            &&& dated ==> t.spec_secs() == signed && t.spec_nanos() == nanos
            &&& after.messages == before.messages + #[trigger] packet_messages(
                data,
                after.packet_number,
                t,
                sender,
            )
        }
}

/// Law: what an event of a file does to a capture. A packet of a pcap file is added without a sender,
/// and one of a pcapng file with the sender that its options tell. Nothing else changes a capture, and
/// only what is incomplete ends a file.
pub proof fn law_events_by_what_they_do(
    before: CaptureView,
    after: CaptureView,
    secs: u64,
    nanos: u32,
    data: Vec<u8>,
    options: Vec<PacketOption>,
    error: String,
)
    requires
        before.packet_number < u64::MAX,
    ensures
        takes(before, pcap_step(PcapEvent::Packet { secs, nanos, data }), after) ==> adds_packet(
            before,
            after,
            data@,
            secs,
            nanos,
            Sender::Unknown,
        ),
        takes(
            before,
            pcapng_step(PcapNgEvent::EnhancedPacket { secs, nanos, options, data }),
            after,
        ) ==> adds_packet(
            before,
            after,
            data@,
            secs,
            nanos,
            sender_of_flags(first_flags(options@)),
        ),
        takes(before, pcap_step(PcapEvent::Failed(error)), after) ==> after == before,
        takes(before, pcap_step(PcapEvent::IncompleteBuffer), after) ==> after == before,
        takes(before, pcapng_step(PcapNgEvent::Failed(error)), after) ==> after == before,
        takes(before, pcapng_step(PcapNgEvent::OtherBlock), after) ==> after == before,
        takes(before, pcapng_step(PcapNgEvent::IncompleteBuffer), after) ==> after == before,
        pcap_step(PcapEvent::IncompleteBuffer) is End,
        !(pcap_step(PcapEvent::Failed(error)) is End),
        !(pcap_step(PcapEvent::Packet { secs, nanos, data }) is End),
        pcapng_step(PcapNgEvent::IncompleteBuffer) is End,
        !(pcapng_step(PcapNgEvent::Failed(error)) is End),
        !(pcapng_step(PcapNgEvent::OtherBlock) is End),
        !(pcapng_step(PcapNgEvent::EnhancedPacket { secs, nanos, options, data }) is End),
{
    let unknown = Sender::Unknown;
    let sender = sender_of_flags(first_flags(options@));
    if packet_was_added(before, after, data@, secs, nanos, unknown) {
        lemma_adds_packet(before, after, data@, secs, nanos, unknown);
    }
    if packet_was_added(before, after, data@, secs, nanos, sender) {
        lemma_adds_packet(before, after, data@, secs, nanos, sender);
    }
}

proof fn lemma_adds_packet(
    before: CaptureView,
    after: CaptureView,
    data: Seq<u8>,
    secs: u64,
    nanos: u32,
    sender: Sender,
)
    requires
        before.packet_number < u64::MAX,
        packet_was_added(before, after, data, secs, nanos, sender),
    ensures
        adds_packet(before, after, data, secs, nanos, sender),
{
    let t = choose|t: Timestamp| #[trigger]
        is_packet_time(t, secs, nanos) && after == with_packet(before, data, t, sender);
    assert(after.messages == before.messages + packet_messages(
        data,
        after.packet_number,
        t,
        sender,
    ));
}

} // verus!
