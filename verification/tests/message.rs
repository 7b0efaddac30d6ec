use pcap_analyzer::message::{Flag, SctpEvent, Sender};
use pcap_analyzer::webrtc_proto;

#[test]
fn test_sender_display() {
    assert_eq!(Sender::Dialer.to_string(), "Dialer");
    assert_eq!(Sender::Listener.to_string(), "Listener");
    assert_eq!(Sender::Unknown.to_string(), "Unknown");
}

#[test]
fn test_flag_display() {
    assert_eq!(Flag::Fin.to_string(), "FIN");
    assert_eq!(Flag::StopSending.to_string(), "STOP_SENDING");
    assert_eq!(Flag::ResetStream.to_string(), "RESET_STREAM");
    assert_eq!(Flag::FinAck.to_string(), "FIN_ACK");
}

#[test]
fn test_flag_conversion() {
    // Test flag enum values match proto definition
    assert_eq!(webrtc_proto::message::Flag::Fin as i32, 0);
    assert_eq!(webrtc_proto::message::Flag::StopSending as i32, 1);
    assert_eq!(webrtc_proto::message::Flag::ResetStream as i32, 2);
    assert_eq!(webrtc_proto::message::Flag::FinAck as i32, 3);
}

#[test]
fn flag_from_number() {
    assert_eq!(Flag::from_number(0), Some(Flag::Fin));
    assert_eq!(Flag::from_number(1), Some(Flag::StopSending));
    assert_eq!(Flag::from_number(2), Some(Flag::ResetStream));
    assert_eq!(Flag::from_number(3), Some(Flag::FinAck));
    assert_eq!(Flag::from_number(4), None);
    assert_eq!(Flag::from_number(-1), None);
}

#[test]
fn flags_are_those_of_the_schema() {
    let pairs = [
        (webrtc_proto::message::Flag::Fin, Flag::Fin),
        (webrtc_proto::message::Flag::StopSending, Flag::StopSending),
        (webrtc_proto::message::Flag::ResetStream, Flag::ResetStream),
        (webrtc_proto::message::Flag::FinAck, Flag::FinAck),
    ];
    for (i, (known, flag)) in pairs.into_iter().enumerate() {
        assert_eq!(known.number(), i as i32);
        assert_eq!(known.number(), known as i32);
        assert_eq!(Flag::from_number(known.number()), Some(flag));
    }
}

#[test]
fn event_streams() {
    let event = SctpEvent::OutgoingReset { stream_ids: vec![0, 7, 65535] };
    assert_eq!(event.stream_ids_str(), "0, 7, 65535");
    let event = SctpEvent::IncomingReset { stream_ids: vec![12] };
    assert_eq!(event.stream_ids_str(), "12");
    let event = SctpEvent::IncomingReset { stream_ids: vec![] };
    assert_eq!(event.stream_ids_str(), "");
    let event = SctpEvent::ResetResponse { result: 1, seq_number: 2 };
    assert_eq!(event.stream_ids_str(), "-");
}

#[test]
fn event_descriptions() {
    let event = SctpEvent::OutgoingReset { stream_ids: vec![1, 2] };
    assert_eq!(event.description(), "SCTP Outgoing Reset [1, 2]");
    let event = SctpEvent::IncomingReset { stream_ids: vec![] };
    assert_eq!(event.description(), "SCTP Incoming Reset []");
    let meanings = [
        "Success (Nothing to do)",
        "Success (Performed)",
        "Denied",
        "Error (Wrong SSN)",
        "Error (Request In Progress)",
        "Error (Bad Sequence Number)",
        "In Progress",
        "Unknown",
    ];
    for (i, meaning) in meanings.iter().enumerate() {
        let event = SctpEvent::ResetResponse { result: i as u32, seq_number: 4294967295 };
        assert_eq!(
            event.description(),
            format!("SCTP Reset Response: {} (seq=4294967295)", meaning)
        );
    }
    let event = SctpEvent::ResetResponse { result: u32::MAX, seq_number: 0 };
    assert_eq!(event.description(), "SCTP Reset Response: Unknown (seq=0)");
}
