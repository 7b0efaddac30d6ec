use pcap_analyzer::capture::{find_flags, is_pcapng, sender_from_flags};
use pcap_analyzer::capture::{Capture, Next, PacketOption, PcapEvent, PcapNgEvent};
use pcap_analyzer::message::{Flag, Sender};
use pcap_analyzer::timestamp::Timestamp;

/// A packet with a message for each flag on the stream.
fn packet(stream_id: u8, flags: &[u8]) -> Vec<u8> {
    let mut data = vec![0u8; 14 + 20 + 12];
    data[12] = 0x08;
    data[14] = 0x45;
    data[23] = 132;
    let len = 16 + 3 * flags.len() as u8;
    data.extend_from_slice(&[0, 3, 0, len, 0, 0, 0, 1, 0, stream_id, 0, 0, 0, 0, 0, 53]);
    for flag in flags {
        data.extend_from_slice(&[2, 0x08, *flag]);
    }
    data
}

#[test]
fn pcapng_magic() {
    assert!(is_pcapng(&[0x0A, 0x0D, 0x0D, 0x0A]));
    assert!(!is_pcapng(&[0xA1, 0xB2, 0xC3, 0xD4]));
    assert!(!is_pcapng(&[0xD4, 0xC3, 0xB2, 0xA1]));
    assert!(!is_pcapng(&[0x0A, 0x0D, 0x0D, 0x0B]));
    assert!(!is_pcapng(&[0x0A, 0x0D, 0x0A, 0x0D]));
}

#[test]
fn flags_of_options() {
    assert_eq!(find_flags(&vec![]), None);
    assert_eq!(find_flags(&vec![PacketOption::Other]), None);
    let options = vec![PacketOption::Other, PacketOption::Flags(2), PacketOption::Flags(1)];
    assert_eq!(find_flags(&options), Some(2));
}

#[test]
fn senders_by_flags() {
    assert_eq!(sender_from_flags(None), Sender::Unknown);
    assert_eq!(sender_from_flags(Some(0)), Sender::Unknown);
    assert_eq!(sender_from_flags(Some(1)), Sender::Listener);
    assert_eq!(sender_from_flags(Some(2)), Sender::Dialer);
    assert_eq!(sender_from_flags(Some(3)), Sender::Dialer);
    assert_eq!(sender_from_flags(Some(4)), Sender::Unknown);
    assert_eq!(sender_from_flags(Some(0xFFFF_FFFD)), Sender::Listener);
    assert_eq!(sender_from_flags(Some(0xFFFF_FFFE)), Sender::Dialer);
}

#[test]
fn pcap_packets() {
    let mut capture = Capture::new();
    assert!(capture.messages.is_empty());
    assert_eq!(capture.packet_number, 0);
    let ip = Some("10.0.0.1".to_string());
    let event = PcapEvent::Packet { secs: 7, nanos: 8, data: packet(1, &[0, 3]) };
    assert!(matches!(capture.read_pcap(event, &ip), Next::Continue));
    let event = PcapEvent::Packet { secs: 9, nanos: 0, data: vec![1, 2, 3] };
    assert!(matches!(capture.read_pcap(event, &ip), Next::Continue));
    let event = PcapEvent::Packet { secs: 10, nanos: 0, data: packet(2, &[1]) };
    assert!(matches!(capture.read_pcap(event, &None), Next::Continue));
    assert_eq!(capture.packet_number, 3);
    let found: Vec<(u64, u16, Option<Flag>)> =
        capture.messages.iter().map(|m| (m.packet_number, m.stream_id, m.flag)).collect();
    assert_eq!(
        found,
        vec![
            (1, 1, Some(Flag::Fin)),
            (1, 1, Some(Flag::FinAck)),
            (3, 2, Some(Flag::StopSending)),
        ]
    );
    for m in &capture.messages {
        assert_eq!(m.sender, Sender::Unknown);
    }
    assert_eq!(capture.messages[0].timestamp, Timestamp::from_timestamp(7, 8).unwrap());
    assert_eq!(capture.messages[2].timestamp, Timestamp::from_timestamp(10, 0).unwrap());
}

#[test]
fn pcap_ends_and_errors() {
    let mut capture = Capture::new();
    let event = PcapEvent::Packet { secs: 7, nanos: 8, data: packet(1, &[0]) };
    capture.read_pcap(event, &None);
    match capture.read_pcap(PcapEvent::Failed("no luck".to_string()), &None) {
        Next::Warn(text) => assert_eq!(text, "Warning: Error reading packet 2: no luck"),
        other => panic!("{:?}", other),
    }
    assert!(matches!(capture.read_pcap(PcapEvent::IncompleteBuffer, &None), Next::Stop));
    assert_eq!(capture.packet_number, 1);
    assert_eq!(capture.messages.len(), 1);
}

#[test]
fn pcapng_packets() {
    let mut capture = Capture::new();
    let options = [
        vec![PacketOption::Flags(2)],
        vec![PacketOption::Other, PacketOption::Flags(1)],
        vec![],
    ];
    for (i, options) in options.into_iter().enumerate() {
        assert!(matches!(capture.read_pcapng(PcapNgEvent::OtherBlock), Next::Continue));
        let event = PcapNgEvent::EnhancedPacket {
            secs: i as u64,
            nanos: 5,
            options,
            data: packet(i as u8, &[2]),
        };
        assert!(matches!(capture.read_pcapng(event), Next::Continue));
    }
    assert_eq!(capture.packet_number, 3);
    let found: Vec<(u64, u16, Sender)> =
        capture.messages.iter().map(|m| (m.packet_number, m.stream_id, m.sender)).collect();
    assert_eq!(
        found,
        vec![(1, 0, Sender::Dialer), (2, 1, Sender::Listener), (3, 2, Sender::Unknown)]
    );
    assert_eq!(capture.messages[2].timestamp, Timestamp::from_timestamp(2, 5).unwrap());
}

#[test]
fn pcapng_ends_and_errors() {
    let mut capture = Capture::new();
    match capture.read_pcapng(PcapNgEvent::Failed("bad block".to_string())) {
        Next::Warn(text) => assert_eq!(text, "Warning: Error reading block: bad block"),
        other => panic!("{:?}", other),
    }
    assert!(matches!(capture.read_pcapng(PcapNgEvent::IncompleteBuffer), Next::Stop));
    assert_eq!(capture.packet_number, 0);
    assert!(capture.messages.is_empty());
}

#[test]
fn pcap_file_is_its_packets() {
    let events = vec![
        PcapEvent::Failed("first".to_string()),
        PcapEvent::Packet { secs: 1, nanos: 0, data: packet(1, &[0]) },
        PcapEvent::Failed("second".to_string()),
        PcapEvent::Packet { secs: 2, nanos: 0, data: packet(2, &[1]) },
        PcapEvent::IncompleteBuffer,
        PcapEvent::Packet { secs: 3, nanos: 0, data: packet(3, &[2]) },
    ];
    let mut capture = Capture::new();
    for event in events {
        if matches!(capture.read_pcap(event, &None), Next::Stop) {
            break;
        }
    }
    let mut expected = Capture::new();
    for (secs, flag) in [(1, 0), (2, 1)] {
        let time = Timestamp::from_timestamp(secs, 0).unwrap();
        expected.add_packet(&packet(secs as u8, &[flag]), time, Sender::Unknown);
    }
    assert_eq!(format!("{:?}", capture), format!("{:?}", expected));
    assert_eq!(capture.packet_number, 2);
}

#[test]
fn pcapng_file_is_its_packets() {
    let enhanced = |secs: u64, flags: u32| PcapNgEvent::EnhancedPacket {
        secs,
        nanos: 0,
        options: vec![PacketOption::Flags(flags)],
        data: packet(secs as u8, &[0]),
    };
    let events = vec![
        PcapNgEvent::OtherBlock,
        enhanced(1, 1),
        PcapNgEvent::Failed("block".to_string()),
        PcapNgEvent::OtherBlock,
        enhanced(2, 2),
        PcapNgEvent::IncompleteBuffer,
        enhanced(3, 1),
    ];
    let mut capture = Capture::new();
    for event in events {
        if matches!(capture.read_pcapng(event), Next::Stop) {
            break;
        }
    }
    let mut expected = Capture::new();
    for (secs, sender) in [(1, Sender::Listener), (2, Sender::Dialer)] {
        let time = Timestamp::from_timestamp(secs, 0).unwrap();
        expected.add_packet(&packet(secs as u8, &[0]), time, sender);
    }
    assert_eq!(format!("{:?}", capture), format!("{:?}", expected));
    assert_eq!(capture.packet_number, 2);
}

#[test]
fn packet_without_a_date_gets_the_time_of_the_clock() {
    let mut capture = Capture::new();
    let before = Timestamp::now();
    let event = PcapEvent::Packet { secs: i64::MAX as u64, nanos: 0, data: packet(1, &[0]) };
    capture.read_pcap(event, &None);
    assert!(before.secs() <= capture.messages[0].timestamp.secs());
}

#[test]
fn packets_are_added() {
    let mut capture = Capture::new();
    let time = Timestamp::from_timestamp(1, 2).unwrap();
    capture.add_packet(&packet(1, &[0]), time, Sender::Listener);
    capture.add_packet(&[], time, Sender::Listener);
    capture.add_undirected_packet(&packet(2, &[0]), time, &None);
    assert_eq!(capture.packet_number, 3);
    assert_eq!(capture.messages.len(), 2);
    assert_eq!(capture.messages[0].packet_number, 1);
    assert_eq!(capture.messages[0].sender, Sender::Listener);
    assert_eq!(capture.messages[1].packet_number, 3);
    assert_eq!(capture.messages[1].sender, Sender::Unknown);
}
