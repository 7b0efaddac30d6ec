use pcap_analyzer::message::{Flag, Message, Sender};
use pcap_analyzer::timestamp::Timestamp;
use pcap_analyzer::webrtc::{decode_webrtc_messages, message_from_proto};
use pcap_analyzer::webrtc_proto;

fn time() -> Timestamp {
    Timestamp::from_timestamp(1_700_000_000, 5).unwrap()
}

fn decode(data: &[u8]) -> Option<Vec<Message>> {
    decode_webrtc_messages(data, 42, time(), Sender::Listener, 9)
}

#[test]
fn webrtc_messages_in_order() {
    // A flag; bytes that name a protocol; both; neither.
    let data = [
        2, 0x08, 0x00, // FIN
        6, 0x12, 4, 3, b'/', b'a', b'\n', // "/a\n"
        5, 0x08, 0x03, 0x12, 1, 0xFF, // FIN_ACK and a byte
        0, // an empty message
    ];
    let messages = decode(&data).unwrap();
    assert_eq!(messages.len(), 4);
    for m in &messages {
        assert_eq!(m.packet_number, 42);
        assert_eq!(m.timestamp, time());
        assert_eq!(m.sender, Sender::Listener);
        assert_eq!(m.stream_id, 9);
        assert!(m.sctp_event.is_none());
    }
    assert_eq!(messages[0].flag, Some(Flag::Fin));
    assert_eq!(messages[0].protocol, None);
    assert_eq!(messages[0].payload, None);
    assert_eq!(messages[0].payload_len, 0);

    assert_eq!(messages[1].flag, None);
    assert_eq!(messages[1].protocol, Some("/a\n".to_string()));
    assert_eq!(messages[1].payload, Some(vec![3, b'/', b'a', b'\n']));
    assert_eq!(messages[1].payload_len, 4);

    assert_eq!(messages[2].flag, Some(Flag::FinAck));
    assert_eq!(messages[2].protocol, None);
    assert_eq!(messages[2].payload, Some(vec![0xFF]));
    assert_eq!(messages[2].payload_len, 1);

    assert_eq!(messages[3].flag, None);
    assert_eq!(messages[3].payload, None);
    assert_eq!(messages[3].payload_len, 0);
}

#[test]
fn webrtc_messages_of_nothing() {
    assert!(decode(&[]).is_none());
    assert!(decode(&[0x80]).is_none());
    assert!(decode(&[5, 0x08]).is_none());
}

#[test]
fn webrtc_messages_that_do_not_decode_are_left_out() {
    let messages = decode(&[1, 0x08, 2, 0x08, 0x01, 2, 0x0A, 0x00, 2, 0x08, 0x02]).unwrap();
    assert_eq!(messages.len(), 2);
    assert_eq!(messages[0].flag, Some(Flag::StopSending));
    assert_eq!(messages[1].flag, Some(Flag::ResetStream));
    assert!(decode(&[1, 0x08]).is_none());
}

#[test]
fn webrtc_messages_end_where_one_is_cut_off() {
    let messages = decode(&[2, 0x08, 0x01, 9, 0x08, 0x02]).unwrap();
    assert_eq!(messages.len(), 1);
    let mut data = vec![2, 0x08, 0x01];
    data.extend_from_slice(&[0xFF, 0xFF, 0xFF, 0xFF, 0xFF, 0xFF, 0xFF, 0xFF, 0xFF, 0x01, 0x00]);
    assert_eq!(decode(&data).unwrap().len(), 1);
}

#[test]
fn webrtc_flags_that_do_not_exist() {
    let messages = decode(&[2, 0x08, 0x04]).unwrap();
    assert_eq!(messages.len(), 1);
    assert_eq!(messages[0].flag, None);
}

#[test]
fn message_of_decoded_fields() {
    let decoded = webrtc_proto::Message { flag: Some(2), message: Some(vec![2, b'n', b'a']) };
    let m = message_from_proto(decoded, 1, time(), Sender::Dialer, 65535);
    assert_eq!(m.packet_number, 1);
    assert_eq!(m.sender, Sender::Dialer);
    assert_eq!(m.stream_id, 65535);
    assert_eq!(m.flag, Some(Flag::ResetStream));
    assert_eq!(m.protocol, Some("na".to_string()));
    assert_eq!(m.payload, Some(vec![2, b'n', b'a']));
    assert_eq!(m.payload_len, 3);
    assert!(m.sctp_event.is_none());

    let m = message_from_proto(
        webrtc_proto::Message { flag: Some(-1), message: None },
        1,
        time(),
        Sender::Dialer,
        0,
    );
    assert_eq!(m.flag, None);
    assert_eq!(m.payload, None);
    assert_eq!(m.payload_len, 0);
}

#[test]
fn webrtc_messages_in_parts() {
    let first = [2, 0x08, 0x00, 1, 0x08, 0x80, 0x00];
    for second in [vec![], vec![0x80], vec![9, 1], vec![2, 0x08, 0x03], vec![1, 0x08]] {
        let whole = [first.to_vec(), second.clone()].concat();
        let alone = decode(&second).map_or(0, |messages| messages.len());
        assert_eq!(decode(&whole).unwrap().len(), 2 + alone);
    }
}
