use pcap_analyzer::message::{Flag, Message, SctpEvent, Sender};
use pcap_analyzer::multistream::extract_multistream_protocol;
use pcap_analyzer::sctp::{parse_sctp_packet, parse_sctp_packet_with_sender};
use pcap_analyzer::timestamp::Timestamp;

#[test]
fn test_parse_sctp_header_too_short() {
    let data = [0u8; 8]; // Less than 12 bytes
    let result = parse_sctp_packet_with_sender(&data, 1, Timestamp::now(), Sender::Unknown);
    assert!(result.is_none());
}

#[test]
fn test_parse_sctp_header_minimum() {
    let data = [0u8; 12]; // Exactly 12 bytes, no chunks
    let result = parse_sctp_packet_with_sender(&data, 1, Timestamp::now(), Sender::Unknown);
    assert!(result.is_none());
}

fn time() -> Timestamp {
    Timestamp::from_timestamp(1_000_000, 0).unwrap()
}

fn parse(data: &[u8]) -> Option<Vec<Message>> {
    parse_sctp_packet_with_sender(data, 3, time(), Sender::Dialer)
}

/// Ethernet, IPv4 and SCTP headers, the second with so many words of four bytes.
fn headers(ip_words: u8) -> Vec<u8> {
    let mut data = vec![0u8; 14];
    data[12] = 0x08;
    let mut ip = vec![0u8; ip_words as usize * 4];
    if ip_words >= 3 {
        ip[0] = 0x40 + ip_words;
        ip[9] = 132;
    }
    data.extend_from_slice(&ip);
    data.extend_from_slice(&[0u8; 12]);
    data
}

fn padded(data: &mut Vec<u8>, record: &[u8]) {
    data.extend_from_slice(record);
    for _ in 0..(4 - record.len() % 4) % 4 {
        data.push(0);
    }
}

fn data_chunk(stream_id: u16, ppid: u32, user_data: &[u8]) -> Vec<u8> {
    let len = 16 + user_data.len() as u16;
    let mut chunk = vec![0, 3];
    chunk.extend_from_slice(&len.to_be_bytes());
    chunk.extend_from_slice(&[0, 0, 0, 1]);
    chunk.extend_from_slice(&stream_id.to_be_bytes());
    chunk.extend_from_slice(&[0, 5]);
    chunk.extend_from_slice(&ppid.to_be_bytes());
    chunk.extend_from_slice(user_data);
    chunk
}

fn reset_request(kind: u16, head_len: usize, stream_ids: &[u16]) -> Vec<u8> {
    let mut param = kind.to_be_bytes().to_vec();
    let len = (head_len + 2 * stream_ids.len()) as u16;
    param.extend_from_slice(&len.to_be_bytes());
    param.resize(head_len, 0xEE);
    for id in stream_ids {
        param.extend_from_slice(&id.to_be_bytes());
    }
    param
}

fn response(seq_number: u32, result: u32, more: &[u8]) -> Vec<u8> {
    let mut param = vec![0, 16];
    param.extend_from_slice(&(12 + more.len() as u16).to_be_bytes());
    param.extend_from_slice(&seq_number.to_be_bytes());
    param.extend_from_slice(&result.to_be_bytes());
    param.extend_from_slice(more);
    param
}

fn reconfig_chunk(params: &[Vec<u8>]) -> Vec<u8> {
    let mut body: Vec<u8> = Vec::new();
    for param in params {
        padded(&mut body, param);
    }
    let mut chunk = vec![130, 0];
    chunk.extend_from_slice(&(4 + body.len() as u16).to_be_bytes());
    chunk.extend_from_slice(&body);
    chunk
}

fn packet(ip_words: u8, chunks: &[Vec<u8>]) -> Vec<u8> {
    let mut data = headers(ip_words);
    for chunk in chunks {
        padded(&mut data, chunk);
    }
    data
}

#[test]
fn sctp_data_chunk() {
    let data = packet(5, &[data_chunk(0x0102, 53, &[2, 0x08, 0x01, 5, 0x12, 3, 2, b'/', b'x'])]);
    let messages = parse(&data).unwrap();
    assert_eq!(messages.len(), 2);
    assert_eq!(messages[0].packet_number, 3);
    assert_eq!(messages[0].timestamp, time());
    assert_eq!(messages[0].sender, Sender::Dialer);
    assert_eq!(messages[0].stream_id, 0x0102);
    assert_eq!(messages[0].flag, Some(Flag::StopSending));
    assert_eq!(messages[1].stream_id, 0x0102);
    assert_eq!(messages[1].protocol, Some("/x".to_string()));
    assert_eq!(messages[1].payload_len, 3);
}

#[test]
fn sctp_headers_of_all_lengths() {
    let chunk = data_chunk(1, 53, &[2, 0x08, 0x01]);
    for words in 5..16u8 {
        assert_eq!(parse(&packet(words, &[chunk.clone()])).unwrap().len(), 1);
    }
}

#[test]
fn sctp_header_shorter_than_ipv4_has() {
    // The header says that it has twelve bytes; the chunks start where it says that it ends.
    let data = packet(3, &[data_chunk(1, 53, &[2, 0x08, 0x01])]);
    assert_eq!(parse(&data).unwrap().len(), 1);
}

#[test]
fn sctp_foreign_packets() {
    let good = packet(5, &[data_chunk(1, 53, &[2, 0x08, 0x01])]);
    assert!(parse(&good).is_some());
    let mut data = good.clone();
    data[12] = 0x86; // IPv6
    data[13] = 0xDD;
    assert!(parse(&data).is_none());
    let mut data = good.clone();
    data[23] = 17; // UDP
    assert!(parse(&data).is_none());
    let mut data = good.clone();
    data[14] = 0x4F; // a longer header than there is
    assert!(parse(&data).is_none());
}

#[test]
fn sctp_short_packets() {
    let good = packet(5, &[data_chunk(1, 53, &[2, 0x08, 0x01])]);
    for len in 0..46 + 16 + 3 {
        assert!(parse(&good[..len]).is_none(), "{}", len);
    }
    // The padding behind the last chunk can be missing.
    assert!(parse(&good[..46 + 16 + 3]).is_some());
}

#[test]
fn sctp_data_that_is_not_binary_webrtc() {
    assert!(parse(&packet(5, &[data_chunk(1, 51, &[2, 0x08, 0x01])])).is_none());
    assert!(parse(&packet(5, &[data_chunk(1, 53 << 8, &[2, 0x08, 0x01])])).is_none());
    let mut other = data_chunk(1, 53, &[2, 0x08, 0x01]);
    other[0] = 3;
    assert!(parse(&packet(5, &[other])).is_none());
    assert!(parse(&packet(5, &[data_chunk(1, 53, &[])])).is_none());
}

#[test]
fn sctp_outgoing_reset() {
    let data = packet(5, &[reconfig_chunk(&[reset_request(13, 16, &[7, 65535, 0])])]);
    let messages = parse(&data).unwrap();
    assert_eq!(messages.len(), 1);
    let m = &messages[0];
    assert_eq!(m.packet_number, 3);
    assert_eq!(m.sender, Sender::Dialer);
    assert_eq!(m.stream_id, 7);
    assert_eq!(m.flag, None);
    assert_eq!(m.protocol, None);
    assert_eq!(m.payload, None);
    assert_eq!(m.payload_len, 0);
    match &m.sctp_event {
        Some(SctpEvent::OutgoingReset { stream_ids }) => assert_eq!(stream_ids, &vec![7, 65535, 0]),
        other => panic!("{:?}", other),
    }
}

#[test]
fn sctp_incoming_reset() {
    let data = packet(5, &[reconfig_chunk(&[reset_request(14, 8, &[0x1234])])]);
    let messages = parse(&data).unwrap();
    assert_eq!(messages[0].stream_id, 0x1234);
    match &messages[0].sctp_event {
        Some(SctpEvent::IncomingReset { stream_ids }) => assert_eq!(stream_ids, &vec![0x1234]),
        other => panic!("{:?}", other),
    }
}

#[test]
fn sctp_reset_response() {
    let answer = response(0x01020304, 6, &[]);
    let longer = response(u32::MAX, 0x0A0B0C0D, &[9; 8]);
    let messages = parse(&packet(5, &[reconfig_chunk(&[answer, longer])])).unwrap();
    assert_eq!(messages.len(), 2);
    assert_eq!(messages[0].stream_id, 0);
    match &messages[0].sctp_event {
        Some(SctpEvent::ResetResponse { result, seq_number }) => {
            assert_eq!((*result, *seq_number), (6, 0x01020304));
        }
        other => panic!("{:?}", other),
    }
    match &messages[1].sctp_event {
        Some(SctpEvent::ResetResponse { result, seq_number }) => {
            assert_eq!((*result, *seq_number), (0x0A0B0C0D, u32::MAX));
        }
        other => panic!("{:?}", other),
    }
}

#[test]
fn sctp_reset_without_streams() {
    let data = packet(5, &[reconfig_chunk(&[reset_request(13, 16, &[])])]);
    let messages = parse(&data).unwrap();
    assert_eq!(messages[0].stream_id, 0);
    match &messages[0].sctp_event {
        Some(SctpEvent::OutgoingReset { stream_ids }) => assert!(stream_ids.is_empty()),
        other => panic!("{:?}", other),
    }
}

#[test]
fn sctp_reset_with_an_odd_byte() {
    let mut param = reset_request(14, 8, &[5, 6]);
    param.push(1);
    param[3] = 13;
    let messages = parse(&packet(5, &[reconfig_chunk(&[param])])).unwrap();
    match &messages[0].sctp_event {
        Some(SctpEvent::IncomingReset { stream_ids }) => assert_eq!(stream_ids, &vec![5, 6]),
        other => panic!("{:?}", other),
    }
}

#[test]
fn sctp_parameters_that_are_too_short_or_unknown() {
    let params = vec![
        reset_request(13, 15, &[]),
        reset_request(14, 7, &[]),
        reset_request(16, 11, &[]),
        reset_request(15, 16, &[1]),
        reset_request(14, 8, &[2]),
    ];
    let messages = parse(&packet(5, &[reconfig_chunk(&params)])).unwrap();
    assert_eq!(messages.len(), 1);
    assert_eq!(messages[0].stream_id, 2);
}

#[test]
fn sctp_walk_over_parameters_ends_at_a_wrong_length() {
    let mut broken = reset_request(14, 8, &[3, 4]);
    broken[3] = 3;
    let params = vec![reset_request(14, 8, &[1, 2]), broken, reset_request(14, 8, &[5, 6])];
    assert_eq!(parse(&packet(5, &[reconfig_chunk(&params)])).unwrap().len(), 1);
    let mut broken = reset_request(14, 8, &[3, 4]);
    broken[3] = 200;
    let params = vec![reset_request(14, 8, &[1, 2]), broken];
    assert_eq!(parse(&packet(5, &[reconfig_chunk(&params)])).unwrap().len(), 1);
}

#[test]
fn sctp_parameter_stays_inside_its_chunk() {
    // The last parameter would fit into the packet, but not into its chunk.
    let mut chunk = reconfig_chunk(&[reset_request(14, 8, &[1, 2]), reset_request(14, 8, &[3, 4])]);
    chunk[3] = 4 + 12 + 8;
    assert_eq!(parse(&packet(5, &[chunk])).unwrap().len(), 1);
}

#[test]
fn sctp_chunks_in_order() {
    let chunks = [
        data_chunk(1, 53, &[2, 0x08, 0x01, 2, 0x08, 0x02]),
        vec![3, 0, 0, 5, 9], // padded to eight bytes
        reconfig_chunk(&[reset_request(14, 8, &[2])]),
        data_chunk(4, 53, &[2, 0x08, 0x03]),
    ];
    let messages = parse(&packet(5, &chunks)).unwrap();
    let streams: Vec<u16> = messages.iter().map(|m| m.stream_id).collect();
    assert_eq!(streams, vec![1, 1, 2, 4]);
}

#[test]
fn sctp_walk_over_chunks_ends_at_a_wrong_length() {
    let good = data_chunk(1, 53, &[2, 0x08, 0x01]);
    let data = packet(5, &[good.clone(), vec![3, 0, 0, 3], good.clone()]);
    assert_eq!(parse(&data).unwrap().len(), 1);
    let data = packet(5, &[good.clone(), vec![3, 0, 0xFF, 0xFF], good]);
    assert_eq!(parse(&data).unwrap().len(), 1);
}

#[test]
fn sctp_without_a_sender() {
    let data = packet(5, &[data_chunk(1, 53, &[2, 0x08, 0x01])]);
    for dialer_ip in [None, Some("10.0.0.1".to_string())] {
        let messages = parse_sctp_packet(&data, 8, time(), &dialer_ip).unwrap();
        assert_eq!(messages.len(), 1);
        assert_eq!(messages[0].sender, Sender::Unknown);
        assert_eq!(messages[0].packet_number, 8);
    }
    assert!(parse_sctp_packet(&data[..40], 8, time(), &None).is_none());
}

#[test]
fn sctp_packets_in_parts() {
    // Padding need not be zeros, and whatever follows whole chunks takes nothing from them.
    let mut first = data_chunk(1, 53, &[2, 0x08, 0x01]);
    first.push(0xEE);
    let mut second = reconfig_chunk(&[reset_request(14, 8, &[2])]);
    // The parameter is not padded at its end.
    second.truncate(4 + 10);
    second[3] = 14;
    let mut second_padded = second.clone();
    second_padded.extend_from_slice(&[0xDD, 0xCC]);
    let tails = [
        vec![],
        vec![0, 3],
        vec![3, 0, 0, 2, 1, 1],
        vec![0, 3, 0xFF, 0xFF],
        data_chunk(4, 53, &[2, 0x08, 0x03]),
    ];
    for tail in tails {
        let alone = parse(&[headers(5), tail.clone()].concat());
        let data = [headers(5), first.clone(), second_padded.clone(), tail].concat();
        let messages = parse(&data).unwrap();
        let mut streams: Vec<u16> = vec![1, 2];
        streams.extend(alone.iter().flatten().map(|m| m.stream_id));
        assert_eq!(messages.iter().map(|m| m.stream_id).collect::<Vec<u16>>(), streams);
    }
    let data = [headers(5), first, second].concat();
    assert_eq!(parse(&data).unwrap().len(), 2);
}

#[test]
fn sctp_chunk_with_broken_data_behind_its_messages() {
    let messages = parse(&packet(5, &[data_chunk(1, 53, &[2, 0x08, 0x01, 9, 0x08])])).unwrap();
    assert_eq!(messages.len(), 1);
    assert_eq!(messages[0].flag, Some(Flag::StopSending));
}

#[test]
fn sctp_messages_are_consistent() {
    let chunks = [
        data_chunk(1, 53, &[2, 0x08, 0x01, 5, 0x12, 3, 2, b'/', b'x', 3, 0x12, 1, 9]),
        reconfig_chunk(&[reset_request(13, 16, &[7, 8]), response(1, 2, &[])]),
    ];
    let messages = parse(&packet(5, &chunks)).unwrap();
    assert_eq!(messages.len(), 5);
    for m in &messages {
        assert_eq!(m.payload_len, m.payload.as_ref().map_or(0, |p| p.len()));
        let named = m.payload.as_ref().and_then(|p| extract_multistream_protocol(p));
        assert_eq!(m.protocol, named);
    }
    assert_eq!(messages[3].stream_id, 7);
    assert_eq!(messages[4].stream_id, 0);
}
