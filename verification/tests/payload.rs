use pcap_analyzer::payload::analyze_payload;
use pcap_analyzer::text::{decimal_text, hex2_text, push_decimal};

#[test]
fn payload_guesses() {
    assert_eq!(analyze_payload(&[]), "Empty");
    assert_eq!(analyze_payload(&[1]), "Likely Handshake (1B)");
    assert_eq!(analyze_payload(&[0; 199]), "Likely Handshake (199B)");
    assert_eq!(analyze_payload(&[0; 200]), "Likely BlockAnnounce (200B)");
    assert_eq!(analyze_payload(&[0; 500]), "Likely BlockAnnounce (500B)");
    assert_eq!(analyze_payload(&[0; 501]), "Unknown (501B)");
}

#[test]
fn payload_guess_goes_by_the_byte_behind_the_hash() {
    let mut payload = [0xFFu8; 300];
    assert_eq!(analyze_payload(&payload), "Unknown (300B)");
    payload[32] = 0xFC;
    assert_eq!(analyze_payload(&payload), "Likely BlockAnnounce (300B)");
    payload[32] = 0x02;
    assert_eq!(analyze_payload(&payload), "Unknown (300B)");
    payload[31] = 0;
    payload[33] = 0;
    assert_eq!(analyze_payload(&payload), "Unknown (300B)");
}

#[test]
fn bytes_in_hexadecimal() {
    for b in 0..=255u8 {
        assert_eq!(hex2_text(b), format!("{:02x}", b));
    }
}

#[test]
fn numbers_in_decimal() {
    for n in [0, 9, 10, 11, 99, 100, 101, 12345678901234567890, u64::MAX] {
        assert_eq!(decimal_text(n), format!("{}", n));
    }
    let mut text = "n = ".to_string();
    push_decimal(&mut text, 1020);
    assert_eq!(text, "n = 1020");
}
