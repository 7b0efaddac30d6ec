use pcap_analyzer::varint::decode_varint;

#[test]
fn test_decode_varint_single_byte() {
    let data = [0x00];
    assert_eq!(decode_varint(&data), Some((0, 1)));

    let data = [0x7F];
    assert_eq!(decode_varint(&data), Some((127, 1)));
}

#[test]
fn test_decode_varint_multi_byte() {
    // 300 = 0b100101100 = 0xAC 0x02
    let data = [0xAC, 0x02];
    assert_eq!(decode_varint(&data), Some((300, 2)));

    // 16384 = 0x80 0x80 0x01
    let data = [0x80, 0x80, 0x01];
    assert_eq!(decode_varint(&data), Some((16384, 3)));
}

#[test]
fn test_decode_varint_incomplete() {
    let data = [0x80]; // Incomplete varint
    assert_eq!(decode_varint(&data), None);
}

#[test]
fn test_decode_varint_too_long() {
    let data = [0x80; 11]; // 11 bytes - too long
    assert_eq!(decode_varint(&data), None);
}

#[test]
fn decode_varint_of_nothing() {
    assert_eq!(decode_varint(&[]), None);
}

#[test]
fn decode_varint_ten_bytes() {
    let mut data = [0xFF; 10];
    data[9] = 0x01;
    assert_eq!(decode_varint(&data), Some((u64::MAX, 10)));

    // Ten bytes, none of which ends the number.
    assert_eq!(decode_varint(&[0x80; 10]), None);
}

#[test]
fn decode_varint_drops_bits_past_64() {
    let mut data = [0x80; 10];
    data[0] = 0x85;
    data[9] = 0x7E;
    assert_eq!(decode_varint(&data), Some((5, 10)));
    data[9] = 0x7F;
    assert_eq!(decode_varint(&data), Some((5 + (1 << 63), 10)));
}

#[test]
fn decode_varint_reads_longer_than_needed() {
    assert_eq!(decode_varint(&[0x81, 0x00]), Some((1, 2)));
}

#[test]
fn decode_varint_looks_at_no_byte_past_the_end() {
    assert_eq!(decode_varint(&[0xAC, 0x02]), Some((300, 2)));
    assert_eq!(decode_varint(&[0xAC, 0x02, 0xFF, 0xFF]), Some((300, 2)));
    assert_eq!(decode_varint(&[0xAC, 0x02, 0x00]), Some((300, 2)));
}

fn shortest(mut n: u64) -> Vec<u8> {
    let mut bytes: Vec<u8> = Vec::new();
    while n >= 128 {
        bytes.push((n % 128 + 128) as u8);
        n /= 128;
    }
    bytes.push(n as u8);
    bytes
}

#[test]
fn decode_varint_reads_back_what_was_written() {
    for bit in 0..64u32 {
        for near in [0u64, 1, u64::MAX] {
            let n: u64 = (1u64 << bit).wrapping_add(near);
            let mut data = shortest(n);
            let len = data.len();
            assert_eq!(decode_varint(&data), Some((n, len)));
            data.push(0x93);
            assert_eq!(decode_varint(&data), Some((n, len)));
        }
    }
}
