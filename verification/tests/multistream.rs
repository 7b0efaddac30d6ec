use pcap_analyzer::multistream::extract_multistream_protocol;

#[test]
fn test_extract_multistream_protocol() {
    // Test with "/multistream/1.0.0"
    let protocol = b"/multistream/1.0.0";
    let mut data = vec![protocol.len() as u8]; // varint length
    data.extend_from_slice(protocol);

    let result = extract_multistream_protocol(&data);
    assert_eq!(result, Some("/multistream/1.0.0".to_string()));
}

#[test]
fn test_extract_multistream_protocol_yamux() {
    // Test with "/yamux/1.0.0" (length 12 = 0x0C)
    let protocol = b"/yamux/1.0.0";
    let mut data = vec![protocol.len() as u8]; // varint length
    data.extend_from_slice(protocol);

    let result = extract_multistream_protocol(&data);
    assert_eq!(result, Some("/yamux/1.0.0".to_string()));
}

#[test]
fn test_extract_multistream_protocol_no_slash() {
    // Test with non-protocol data
    let data = b"\x05hello";
    let result = extract_multistream_protocol(data);
    assert_eq!(result, None);
}

#[test]
fn test_extract_multistream_protocol_invalid_utf8() {
    // Test with invalid UTF-8
    let mut data = vec![4u8]; // length 4
    data.extend_from_slice(&[0xFF, 0xFF, 0xFF, 0xFF]); // Invalid UTF-8

    let result = extract_multistream_protocol(&data);
    assert_eq!(result, None);
}

#[test]
fn test_extract_multistream_protocol_incomplete() {
    // Test with incomplete data (length says 10 but only 5 bytes)
    let data = b"\x0Ahello";
    let result = extract_multistream_protocol(data);
    assert_eq!(result, None);
}

#[test]
fn test_extract_multistream_protocol_multiple() {
    // Test with multiple protocols: "/multistream/1.0.0\n" and "/ipfs/ping/1.0.0\n"
    let protocol1 = b"/multistream/1.0.0\n";
    let protocol2 = b"/ipfs/ping/1.0.0\n";

    let mut data = vec![protocol1.len() as u8];
    data.extend_from_slice(protocol1);
    data.push(protocol2.len() as u8);
    data.extend_from_slice(protocol2);

    let result = extract_multistream_protocol(&data);
    assert_eq!(result, Some("/multistream/1.0.0\n /ipfs/ping/1.0.0\n".to_string()));
}

#[test]
fn test_extract_multistream_protocol_mixed() {
    // Test with protocol followed by non-protocol data
    let protocol = b"/multistream/1.0.0\n";
    let non_protocol = b"hello";

    let mut data = vec![protocol.len() as u8];
    data.extend_from_slice(protocol);
    data.push(non_protocol.len() as u8);
    data.extend_from_slice(non_protocol);

    let result = extract_multistream_protocol(&data);
    // Should only extract the protocol, not the non-protocol data
    assert_eq!(result, Some("/multistream/1.0.0\n".to_string()));
}

#[test]
fn test_extract_multistream_protocol_na() {
    // Test with "na" response (protocol not supported)
    let na = b"na\n";
    let mut data = vec![na.len() as u8];
    data.extend_from_slice(na);

    let result = extract_multistream_protocol(&data);
    assert_eq!(result, Some("na\n".to_string()));
}

#[test]
fn test_extract_multistream_protocol_request_and_na() {
    // Test with protocol request followed by "na" response
    // Simulates: peer A requests /ipfs/ping/1.0.0, peer B responds na
    let protocol1 = b"/multistream/1.0.0\n";
    let protocol2 = b"/ipfs/ping/1.0.0\n";
    let na = b"na\n";

    // Request (A -> B)
    let mut data = vec![protocol1.len() as u8];
    data.extend_from_slice(protocol1);
    data.push(protocol2.len() as u8);
    data.extend_from_slice(protocol2);

    let result = extract_multistream_protocol(&data);
    assert_eq!(result, Some("/multistream/1.0.0\n /ipfs/ping/1.0.0\n".to_string()));

    // Response (B -> A)
    let mut data = vec![protocol1.len() as u8];
    data.extend_from_slice(protocol1);
    data.push(na.len() as u8);
    data.extend_from_slice(na);

    let result = extract_multistream_protocol(&data);
    assert_eq!(result, Some("/multistream/1.0.0\n na\n".to_string()));
}

fn records(texts: &[&str]) -> Vec<u8> {
    let mut data: Vec<u8> = Vec::new();
    for text in texts {
        data.push(text.len() as u8);
        data.extend_from_slice(text.as_bytes());
    }
    data
}

#[test]
fn extract_protocol_of_nothing() {
    assert_eq!(extract_multistream_protocol(&[]), None);
    assert_eq!(extract_multistream_protocol(&[0, 0, 0]), None);
}

#[test]
fn extract_protocol_na_with_any_white_space_behind_it() {
    let spaces: [u32; 25] = [
        0x09, 0x0A, 0x0B, 0x0C, 0x0D, 0x20, 0x85, 0xA0, 0x1680, 0x2000, 0x2001, 0x2002, 0x2003,
        0x2004, 0x2005, 0x2006, 0x2007, 0x2008, 0x2009, 0x200A, 0x2028, 0x2029, 0x202F, 0x205F,
        0x3000,
    ];
    for code in 0..=0xFFFFu32 {
        if let Some(c) = char::from_u32(code) {
            let text = format!("na {}", c);
            let found = extract_multistream_protocol(&records(&[&text]));
            if spaces.contains(&code) {
                assert_eq!(found, Some(text));
            } else {
                assert_eq!(found, None);
            }
        }
    }
}

#[test]
fn extract_protocol_na_needs_its_two_letters_only() {
    assert_eq!(extract_multistream_protocol(&records(&["na"])), Some("na".to_string()));
    assert_eq!(extract_multistream_protocol(&records(&[" na"])), None);
    assert_eq!(extract_multistream_protocol(&records(&["nan"])), None);
    assert_eq!(extract_multistream_protocol(&records(&["n"])), None);
    assert_eq!(extract_multistream_protocol(&records(&["NA"])), None);
    assert_eq!(extract_multistream_protocol(&records(&["n a"])), None);
}

#[test]
fn extract_protocol_keeps_what_is_not_ascii() {
    let texts = ["/caf\u{e9}/\u{1F600}", "x", "/\u{20AC}"];
    assert_eq!(
        extract_multistream_protocol(&records(&texts)),
        Some("/caf\u{e9}/\u{1F600} /\u{20AC}".to_string())
    );
}

#[test]
fn extract_protocol_goes_on_behind_what_is_not_text() {
    let mut data = vec![2u8, 0xC3, 0x28];
    data.extend_from_slice(&records(&["/a"]));
    assert_eq!(extract_multistream_protocol(&data), Some("/a".to_string()));
}

#[test]
fn extract_protocol_finds_protocol_texts_in_their_order() {
    let texts = ["/b", "", "/a", "hello", "na\n", "/b"];
    assert_eq!(
        extract_multistream_protocol(&records(&texts)),
        Some("/b /a na\n /b".to_string())
    );
}

#[test]
fn extract_protocol_drops_what_is_cut_off() {
    let mut data = records(&["/first", "/second"]);
    data.pop();
    assert_eq!(extract_multistream_protocol(&data), Some("/first".to_string()));
    // A length that is not ended.
    let mut data = records(&["/first"]);
    data.push(0x80);
    assert_eq!(extract_multistream_protocol(&data), Some("/first".to_string()));
    // A length that no data can have.
    let mut data = records(&["/first"]);
    data.extend_from_slice(&[0xFF, 0xFF, 0xFF, 0xFF, 0xFF, 0xFF, 0xFF, 0xFF, 0xFF, 0x01, 0x2F]);
    assert_eq!(extract_multistream_protocol(&data), Some("/first".to_string()));
}

#[test]
fn extract_protocol_in_parts() {
    // Whole records, one of them not text, and one behind a length that is longer than needed.
    let first = [vec![2u8, 0xC3, 0x28], records(&["/a", "x"]), vec![0x82, 0x00, b'n', b'a']].concat();
    let seconds = [vec![], records(&["/b"]), vec![0x80], vec![9, b'/'], records(&["y"])];
    assert_eq!(extract_multistream_protocol(&first), Some("/a na".to_string()));
    for second in seconds {
        let whole = [first.clone(), second.clone()].concat();
        let expected = match extract_multistream_protocol(&second) {
            Some(text) => format!("/a na {}", text),
            None => "/a na".to_string(),
        };
        assert_eq!(extract_multistream_protocol(&whole), Some(expected));
    }
    let none = records(&["x"]);
    let whole = [none, records(&["/b"])].concat();
    assert_eq!(extract_multistream_protocol(&whole), Some("/b".to_string()));
}
