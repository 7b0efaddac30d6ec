use pcap_analyzer::framing::next_frame;

#[test]
fn next_frame_walks_over_records() {
    let data = [2, 10, 11, 0, 1, 12];
    assert_eq!(next_frame(&data, 0), Some((1, 3)));
    assert_eq!(next_frame(&data, 3), Some((4, 4)));
    assert_eq!(next_frame(&data, 4), Some((5, 6)));
    assert_eq!(next_frame(&data, 6), None);
}

#[test]
fn next_frame_with_a_long_length() {
    let mut data = vec![0xAC, 0x02];
    data.extend_from_slice(&[7u8; 300]);
    assert_eq!(next_frame(&data, 0), Some((2, 302)));
    data.pop();
    assert_eq!(next_frame(&data, 0), None);
}

#[test]
fn next_frame_with_a_length_that_no_data_can_have() {
    let mut data = [0xFF; 12];
    data[9] = 0x01;
    assert_eq!(next_frame(&data, 0), None);
    assert_eq!(next_frame(&data, 9), Some((10, 11)));
}
