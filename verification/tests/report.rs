use comfy_table::{presets::UTF8_FULL, Table};
use pcap_analyzer::args::{filter_messages, Args};
use pcap_analyzer::csv::{csv_header, csv_row, escape_csv_field, write_csv};
use pcap_analyzer::message::{Flag, Message, SctpEvent, Sender};
use pcap_analyzer::report::{display_results, Report};
use pcap_analyzer::rows::{column_names, message_cells};
use pcap_analyzer::table::{display_table, summary, table_rows, with_summary};
use pcap_analyzer::timestamp::Timestamp;

fn args() -> Args {
    Args {
        dialer_ip: None,
        all_messages: false,
        csv: false,
        show_payload: false,
        min_payload_size: None,
        dump_payload: false,
        analyze_payload: false,
    }
}

fn message(flag: Option<Flag>, protocol: Option<&str>, payload: Option<Vec<u8>>) -> Message {
    Message {
        packet_number: 12,
        timestamp: Timestamp::from_timestamp(1_700_000_000, 123_456_789).unwrap(),
        sender: Sender::Dialer,
        stream_id: 3,
        flag,
        protocol: protocol.map(|p| p.to_string()),
        payload_len: payload.as_ref().map_or(0, |p| p.len()),
        payload,
        sctp_event: None,
    }
}

fn reset(stream_ids: Vec<u16>) -> Message {
    let mut m = message(None, None, None);
    m.stream_id = stream_ids[0];
    m.sctp_event = Some(SctpEvent::OutgoingReset { stream_ids });
    m
}

fn kept(args: &Args) -> Vec<usize> {
    let mut all = vec![
        message(Some(Flag::Fin), None, None),
        message(None, None, Some(vec![1, 2, 3])),
        message(Some(Flag::FinAck), None, Some(vec![1, 2])),
        reset(vec![4]),
        message(None, None, None),
    ];
    for (i, m) in all.iter_mut().enumerate() {
        m.packet_number = i as u64;
    }
    let filtered = filter_messages(all, args);
    let numbers: Vec<usize> = filtered.iter().map(|m| m.packet_number as usize).collect();
    let again = filter_messages(filtered, args);
    assert_eq!(numbers, again.iter().map(|m| m.packet_number as usize).collect::<Vec<usize>>());
    numbers
}

#[test]
fn filter_by_flags() {
    assert_eq!(kept(&args()), vec![0, 2]);
}

#[test]
fn filter_keeps_resets_where_payloads_are_analyzed() {
    assert_eq!(kept(&Args { analyze_payload: true, ..args() }), vec![0, 2, 3]);
    assert_eq!(kept(&Args { show_payload: true, dump_payload: true, ..args() }), vec![0, 2]);
}

#[test]
fn filter_keeps_all() {
    assert_eq!(kept(&Args { all_messages: true, ..args() }), vec![0, 1, 2, 3, 4]);
}

#[test]
fn filter_by_size() {
    let sized = |size: usize| Args { all_messages: true, min_payload_size: Some(size), ..args() };
    // Only payloads larger than the size are kept.
    assert_eq!(kept(&sized(0)), vec![1, 2]);
    assert_eq!(kept(&sized(1)), vec![1, 2]);
    assert_eq!(kept(&sized(2)), vec![1]);
    assert_eq!(kept(&sized(3)), Vec::<usize>::new());
    assert_eq!(kept(&Args { min_payload_size: Some(1), ..args() }), vec![2]);
    assert_eq!(kept(&Args { min_payload_size: Some(2), ..args() }), Vec::<usize>::new());
    let resets = Args { analyze_payload: true, min_payload_size: Some(0), ..args() };
    assert_eq!(kept(&resets), vec![2]);
}

#[test]
fn columns_by_what_is_asked_for() {
    let six = "Packet,Timestamp,Sender,StreamID,Flag,Protocol";
    let cases = [
        (false, false, false, ""),
        (true, false, false, ",PayloadLen,First128Bytes"),
        (false, true, false, ",PayloadLen,First128Bytes"),
        (false, false, true, ",PayloadLen,PayloadType"),
        (true, true, true, ",PayloadLen,PayloadType,First128Bytes"),
    ];
    for (show_payload, dump_payload, analyze_payload, more) in cases {
        let args = Args { show_payload, dump_payload, analyze_payload, ..args() };
        assert_eq!(csv_header(&args), format!("{}{}", six, more));
        assert_eq!(column_names(&args).join(","), format!("{}{}", six, more));
        let m = message(None, None, None);
        assert_eq!(message_cells(&m, &args, "-").len(), column_names(&args).len());
    }
}

#[test]
fn cells_of_a_message() {
    let all = Args { show_payload: true, dump_payload: true, analyze_payload: true, ..args() };
    let m = message(Some(Flag::ResetStream), Some("/a /b"), Some(vec![0, 10, 255]));
    assert_eq!(
        message_cells(&m, &all, "-"),
        vec![
            "12",
            "2023-11-14 22:13:20.123",
            "Dialer",
            "3",
            "RESET_STREAM",
            "/a /b",
            "3",
            "Likely Handshake (3B)",
            "[00, 0a, ff]",
        ]
    );
    let m = message(None, None, None);
    assert_eq!(
        message_cells(&m, &all, "?"),
        vec![
            "12",
            "2023-11-14 22:13:20.123",
            "Dialer",
            "3",
            "?",
            "?",
            "0",
            "No payload",
            "?",
        ]
    );
    assert_eq!(
        message_cells(&reset(vec![5, 6]), &all, "-"),
        vec![
            "12",
            "2023-11-14 22:13:20.123",
            "Dialer",
            "5, 6",
            "-",
            "-",
            "0",
            "SCTP Outgoing Reset [5, 6]",
            "-",
        ]
    );
}

/// Reads the bytes of a payload back out of a cell.
fn read_bytes(cell: &str) -> Vec<u8> {
    let list = cell.strip_prefix('[').unwrap().strip_suffix(']').unwrap();
    if list.is_empty() {
        return Vec::new();
    }
    list.split(", ").map(|b| u8::from_str_radix(b, 16).unwrap()).collect()
}

#[test]
fn cells_dump_all_bytes() {
    for show_payload in [false, true] {
        let dump = Args { dump_payload: true, show_payload, ..args() };
        for len in [0usize, 1, 128, 129, 300] {
            let payload: Vec<u8> = (0..len).map(|i| (i * 7) as u8).collect();
            let m = message(None, None, Some(payload.clone()));
            let cells = message_cells(&m, &dump, "-");
            assert_eq!(cells.len(), 8);
            assert_eq!(cells[6], format!("{}", len));
            assert_eq!(read_bytes(&cells[7]), payload);
        }
        assert_eq!(message_cells(&message(None, None, None), &dump, "-")[7], "-");
    }
    let dump = Args { dump_payload: true, ..args() };
    let m = message(None, None, Some(vec![7; 129]));
    assert_eq!(message_cells(&m, &dump, "-")[7], format!("[{}]", vec!["07"; 129].join(", ")));
}

#[test]
fn cells_show_the_length_and_the_first_bytes() {
    let shown = Args { show_payload: true, ..args() };
    for len in [0usize, 1, 128, 129, 300] {
        let payload: Vec<u8> = (0..len).map(|i| (i * 11) as u8).collect();
        let m = message(None, None, Some(payload.clone()));
        let cells = message_cells(&m, &shown, "-");
        assert_eq!(cells.len(), 8);
        assert_eq!(cells[6], format!("{}", len));
        assert_eq!(read_bytes(&cells[7]), payload[..len.min(128)].to_vec());
    }
    assert_eq!(message_cells(&message(None, None, None), &shown, "-")[7], "-");
}

#[test]
fn cells_without_bytes_where_only_types_are_asked_for() {
    let types = Args { analyze_payload: true, ..args() };
    let m = message(None, None, Some(vec![1, 2]));
    assert_eq!(message_cells(&m, &types, "-")[6..], ["2", "Likely Handshake (2B)"]);
}

#[test]
fn csv_holds_payloads() {
    let payload: Vec<u8> = (0..200usize).map(|i| i as u8).collect();
    let messages = vec![message(None, None, Some(payload.clone()))];
    let rows = read_csv(&write_csv(&messages, &Args { dump_payload: true, ..args() }));
    assert_eq!(read_bytes(rows[1].last().unwrap()), payload);
    let rows = read_csv(&write_csv(&messages, &Args { show_payload: true, ..args() }));
    assert_eq!(read_bytes(rows[1].last().unwrap()), payload[..128].to_vec());
}

#[test]
fn csv_fields() {
    assert_eq!(escape_csv_field(""), "");
    assert_eq!(escape_csv_field("plain text /1.0"), "plain text /1.0");
    assert_eq!(escape_csv_field("a,b"), "\"a,b\"");
    assert_eq!(escape_csv_field("/a\n /b\n"), "\"/a\n /b\n\"");
    assert_eq!(escape_csv_field("say \"hi\""), "\"say \"\"hi\"\"\"");
    assert_eq!(escape_csv_field("\""), "\"\"\"\"");
    assert_eq!(escape_csv_field("cr\ris plain"), "cr\ris plain");
    assert_eq!(escape_csv_field("\u{e9},\u{1F600}"), "\"\u{e9},\u{1F600}\"");
}

/// Reads comma-separated values back.
fn read_csv(text: &str) -> Vec<Vec<String>> {
    let mut rows: Vec<Vec<String>> = Vec::new();
    let mut row: Vec<String> = Vec::new();
    let mut field = String::new();
    let mut quoted = false;
    let mut chars = text.chars().peekable();
    while let Some(c) = chars.next() {
        if quoted && c == '"' && chars.peek() == Some(&'"') {
            chars.next();
            field.push('"');
        } else if c == '"' {
            quoted = !quoted;
        } else if !quoted && (c == ',' || c == '\n') {
            row.push(std::mem::take(&mut field));
            if c == '\n' {
                rows.push(std::mem::take(&mut row));
            }
        } else {
            field.push(c);
        }
    }
    assert!(row.is_empty() && field.is_empty() && !quoted);
    rows
}

#[test]
fn csv_of_messages() {
    let all = Args { dump_payload: true, analyze_payload: true, ..args() };
    let messages = vec![
        message(Some(Flag::Fin), Some("/a\n na\n"), Some(vec![1, 2])),
        message(None, None, None),
        reset(vec![5, 6]),
        message(None, Some("/odd \"name\""), Some(vec![])),
    ];
    let text = write_csv(&messages, &all);
    assert_eq!(
        text,
        "Packet,Timestamp,Sender,StreamID,Flag,Protocol,PayloadLen,PayloadType,First128Bytes\n\
         12,2023-11-14 22:13:20.123,Dialer,3,FIN,\"/a\n na\n\",2,Likely Handshake (2B),\"[01, 02]\"\n\
         12,2023-11-14 22:13:20.123,Dialer,3,,,0,No payload,\n\
         12,2023-11-14 22:13:20.123,Dialer,\"5, 6\",,,0,\"SCTP Outgoing Reset [5, 6]\",\n\
         12,2023-11-14 22:13:20.123,Dialer,3,,\"/odd \"\"name\"\"\",0,Empty,[]\n"
    );
    let rows = read_csv(&text);
    assert_eq!(rows.len(), 5);
    assert_eq!(rows[0], column_names(&all));
    for (i, m) in messages.iter().enumerate() {
        assert_eq!(rows[i + 1], message_cells(m, &all, ""));
    }
}

#[test]
fn csv_row_without_payload() {
    let m = message(Some(Flag::StopSending), Some("/a"), Some(vec![1]));
    assert_eq!(
        csv_row(&m, &args()),
        "12,2023-11-14 22:13:20.123,Dialer,3,STOP_SENDING,/a"
    );
    let shown = Args { show_payload: true, ..args() };
    assert_eq!(
        csv_row(&m, &shown),
        "12,2023-11-14 22:13:20.123,Dialer,3,STOP_SENDING,/a,1,[01]"
    );
}

#[test]
fn csv_of_no_messages() {
    assert_eq!(
        write_csv(&vec![], &args()),
        "Packet,Timestamp,Sender,StreamID,Flag,Protocol\n"
    );
}

#[test]
fn summaries() {
    let messages = vec![
        message(Some(Flag::Fin), None, None),
        message(None, None, None),
        message(Some(Flag::FinAck), None, None),
    ];
    assert_eq!(
        summary(&messages, true, 100),
        "\nSummary: 3 total messages (2 with flags) in 100 packets\n"
    );
    assert_eq!(
        summary(&messages, false, 100),
        "\nSummary: 2 messages with flags found in 100 packets\n"
    );
    assert_eq!(
        with_summary("table".to_string(), &messages, false, 1),
        "table\n\nSummary: 2 messages with flags found in 1 packets\n"
    );
}

#[test]
fn table_rows_have_dashes() {
    let messages = vec![message(None, None, None), reset(vec![1])];
    let rows = table_rows(&messages, &args());
    assert_eq!(rows.len(), 2);
    assert_eq!(rows[0], vec!["12", "2023-11-14 22:13:20.123", "Dialer", "3", "-", "-"]);
    assert_eq!(rows[1], vec!["12", "2023-11-14 22:13:20.123", "Dialer", "1", "-", "-"]);
}

#[test]
fn table_of_a_message() {
    let messages = vec![message(Some(Flag::Fin), Some("/a"), None)];
    let lines = [
        "┌────────┬─────────────────────────┬────────┬──────────┬──────┬──────────┐",
        "│ Packet ┆ Timestamp               ┆ Sender ┆ StreamID ┆ Flag ┆ Protocol │",
        "╞════════╪═════════════════════════╪════════╪══════════╪══════╪══════════╡",
        "│ 12     ┆ 2023-11-14 22:13:20.123 ┆ Dialer ┆ 3        ┆ FIN  ┆ /a       │",
        "└────────┴─────────────────────────┴────────┴──────────┴──────┴──────────┘",
        "",
        "Summary: 1 messages with flags found in 9 packets",
        "",
    ];
    assert_eq!(display_table(&messages, false, 9, &args()), lines.join("\n"));
}

#[test]
fn table_of_many_messages() {
    let all = Args { all_messages: true, dump_payload: true, analyze_payload: true, ..args() };
    let messages = vec![
        message(Some(Flag::Fin), Some("/multistream/1.0.0\n na\n"), Some(vec![200; 150])),
        message(None, None, Some(vec![0; 250])),
        reset(vec![5, 6]),
    ];
    let mut table = Table::new();
    table.load_preset(UTF8_FULL);
    table.set_header(column_names(&all));
    for m in &messages {
        table.add_row(message_cells(m, &all, "-"));
    }
    assert_eq!(
        display_table(&messages, true, 77, &all),
        format!("{}\n\nSummary: 3 total messages (1 with flags) in 77 packets\n", table)
    );
}

#[test]
fn report_of_nothing() {
    match display_results(&vec![], &args(), 5) {
        Report::Text(text) => assert_eq!(text, "No messages with flags found in 5 packets\n"),
        Report::Csv(_) => panic!("a file"),
    }
    let all = Args { all_messages: true, csv: true, ..args() };
    match display_results(&vec![], &all, 0) {
        Report::Text(text) => assert_eq!(text, "No messages found in 0 packets\n"),
        Report::Csv(_) => panic!("a file"),
    }
}

#[test]
fn report_as_table_or_file() {
    let messages = vec![message(Some(Flag::Fin), None, None), message(None, None, None)];
    for all_messages in [false, true] {
        let table = Args { all_messages, ..args() };
        match display_results(&messages, &table, 5) {
            Report::Text(text) => {
                assert_eq!(text, display_table(&messages, all_messages, 5, &table));
            }
            Report::Csv(_) => panic!("a file"),
        }
        let file = Args { all_messages, csv: true, ..args() };
        match display_results(&messages, &file, 5) {
            Report::Csv(text) => assert_eq!(text, write_csv(&messages, &file)),
            Report::Text(_) => panic!("a text"),
        }
    }
}
