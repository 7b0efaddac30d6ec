//! The columns in which messages are shown, and what stands in them.
use vstd::prelude::*;
use vstd::string::*;
use crate::args::Args;
use crate::message::{Flag, Message, MessageView, Sender};
use crate::payload::{analyze_payload, payload_guess};
use crate::text::{decimal, decimal_text, hex2, hex2_text, hex_digit, hex_value, joined, push_part};
use crate::timestamp::{formatted_time, is_time_char};

verus! {

/// How many bytes of a payload are shown where not all are asked for.
pub const FIRST_BYTES_LEN: usize = 128;

/// The texts that `parts` hold.
pub open spec fn texts(parts: Seq<String>) -> Seq<Seq<char>> {
    parts.map_values(|part: String| part@)
}

/// The names of the columns. The one for bytes has the same name where all of them are shown.
pub open spec fn columns(args: Args) -> Seq<Seq<char>> {
    let all = seq![
        "Packet"@,
        "Timestamp"@,
        "Sender"@,
        "StreamID"@,
        "Flag"@,
        "Protocol"@,
    ];
    if args.spec_shows_payload() {
        let all = all.push("PayloadLen"@);
        let all = if args.analyze_payload {
            all.push("PayloadType"@)
        } else {
            all
        };
        if args.spec_shows_bytes() {
            all.push("First128Bytes"@)
        } else {
            all
        }
    } else {
        all
    }
}

/// The streams that a message is about: those of a reset, or else the one that it travels on.
pub open spec fn stream_text(m: MessageView) -> Seq<char> {
    match m.sctp_event {
        Some(event) => event.stream_ids_text(),
        None => decimal(m.stream_id as nat),
    }
}

/// The reset in words, or else the guess at what the payload is.
pub open spec fn type_text(m: MessageView) -> Seq<char> {
    match m.sctp_event {
        Some(event) => event.description_text(),
        None => match m.payload {
            Some(bytes) => payload_guess(bytes),
            None => "No payload"@,
        },
    }
}

/// `bytes` in hexadecimal digits, two each.
pub open spec fn byte_texts(bytes: Seq<u8>) -> Seq<Seq<char>> {
    bytes.map_values(|b: u8| hex2(b))
}

/// All of `bytes` in brackets, with commas between them.
pub open spec fn dump_text(bytes: Seq<u8>) -> Seq<char> {
    "["@ + joined(byte_texts(bytes), ", "@) + "]"@
}

/// The first bytes of a payload, or all where it has no more.
pub open spec fn first_bytes(payload: Seq<u8>) -> Seq<u8> {
    if payload.len() <= FIRST_BYTES_LEN {
        payload
    } else {
        payload.take(FIRST_BYTES_LEN as int)
    }
}

/// The bytes that are shown of a payload: all where that is asked for, and else the first.
pub open spec fn shown_bytes(payload: Seq<u8>, args: Args) -> Seq<u8> {
    if args.dump_payload {
        payload
    } else {
        first_bytes(payload)
    }
}

/// What stands in the columns for a message; `absent` stands for what a message does not have.
pub open spec fn cells(m: MessageView, args: Args, absent: Seq<char>) -> Seq<Seq<char>> {
    let all = seq![
        decimal(m.packet_number as nat),
        m.timestamp.spec_text(),
        m.sender.spec_text(),
        stream_text(m),
        match m.flag {
            Some(flag) => flag.spec_text(),
            None => absent,
        },
        match m.protocol {
            Some(text) => text,
            None => absent,
        },
    ];
    if args.spec_shows_payload() {
        let all = all.push(decimal(m.payload_len));
        let all = if args.analyze_payload {
            all.push(type_text(m))
        } else {
            all
        };
        if args.spec_shows_bytes() {
            all.push(
                match m.payload {
                    Some(bytes) => dump_text(shown_bytes(bytes, args)),
                    None => absent,
                },
            )
        } else {
            all
        }
    } else {
        all
    }
}

/// What stands in the columns for each of `messages`.
pub open spec fn all_cells(messages: Seq<MessageView>, args: Args, absent: Seq<char>) -> Seq<
    Seq<Seq<char>>,
> {
    messages.map_values(|m: MessageView| cells(m, args, absent))
}

/// The names of the columns: six, and up to three more for payloads.
pub fn column_names(args: &Args) -> (r: Vec<String>)
    ensures
        texts(r@) == columns(*args),
{
    let mut names: Vec<String> = Vec::new();
    names.push("Packet".to_owned());
    names.push("Timestamp".to_owned());
    names.push("Sender".to_owned());
    names.push("StreamID".to_owned());
    names.push("Flag".to_owned());
    names.push("Protocol".to_owned());
    if args.shows_payload() {
        names.push("PayloadLen".to_owned());
        if args.analyze_payload {
            names.push("PayloadType".to_owned());
        }
        if args.shows_bytes() {
            names.push("First128Bytes".to_owned());
        }
    }
    assert(texts(names@) =~= columns(*args));
    names
}

fn message_stream_text(m: &Message) -> (r: String)
    ensures
        r@ == stream_text(m@),
{
    match &m.sctp_event {
        Some(event) => event.stream_ids_str(),
        None => decimal_text(m.stream_id as u64),
    }
}

fn message_type_text(m: &Message) -> (r: String)
    ensures
        r@ == type_text(m@),
{
    match &m.sctp_event {
        Some(event) => event.description(),
        None => match &m.payload {
            Some(bytes) => analyze_payload(bytes.as_slice()),
            None => "No payload".to_owned(),
        },
    }
}

fn payload_dump_text(payload: &Vec<u8>, args: &Args) -> (r: String)
    ensures
        r@ == dump_text(shown_bytes(payload@, *args)),
{
    let shown: usize = if args.dump_payload || payload.len() <= FIRST_BYTES_LEN {
        payload.len()
    } else {
        FIRST_BYTES_LEN
    };
    let mut list = String::new();
    assert(byte_texts(payload@.take(0)) =~= Seq::<Seq<char>>::empty());
    assert(list@ =~= joined(byte_texts(payload@.take(0)), ", "@));
    let mut i: usize = 0;
    while i < shown
        invariant
            i <= shown <= payload@.len(),
            list@ == joined(byte_texts(payload@.take(i as int)), ", "@),
        decreases shown - i,
    {
        let byte = hex2_text(payload[i]);
        push_part(&mut list, byte.as_str(), ", ", Ghost(byte_texts(payload@.take(i as int))), i == 0);
        assert(byte_texts(payload@.take(i + 1)) =~= byte_texts(payload@.take(i as int)).push(byte@));
        i = i + 1;
    }
    assert(payload@.take(payload@.len() as int) =~= payload@);
    let mut text = "[".to_owned();
    text.append(list.as_str());
    text.append("]");
    text
}

/// What stands in the columns for a message.
pub fn message_cells(m: &Message, args: &Args, absent: &str) -> (r: Vec<String>)
    ensures
        texts(r@) == cells(m@, *args, absent@),
        forall|i: int|
            0 <= i < m@.timestamp.spec_text().len() ==> is_time_char(
                #[trigger] m@.timestamp.spec_text()[i],
            ),
{
    let mut all: Vec<String> = Vec::new();
    all.push(decimal_text(m.packet_number));
    all.push(m.timestamp.text());
    all.push(m.sender.to_string());
    all.push(message_stream_text(m));
    all.push(
        match &m.flag {
            Some(flag) => flag.to_string(),
            None => absent.to_owned(),
        },
    );
    all.push(
        match &m.protocol {
            Some(text) => text.clone(),
            None => absent.to_owned(),
        },
    );
    if args.shows_payload() {
        all.push(decimal_text(m.payload_len as u64));
        if args.analyze_payload {
            all.push(message_type_text(m));
        }
        if args.shows_bytes() {
            all.push(
                match &m.payload {
                    Some(bytes) => payload_dump_text(bytes, args),
                    None => absent.to_owned(),
                },
            );
        }
    }
    assert(texts(all@) =~= cells(m@, *args, absent@));
    all
}

/// Law: every message fills exactly the columns that there are.
pub proof fn law_cells_fill_columns(m: MessageView, args: Args, absent: Seq<char>)
    ensures
        cells(m, args, absent).len() == columns(args).len(),
        columns(args).len() == 6 + if args.spec_shows_payload() {
            1 + if args.analyze_payload {
                1int
            } else {
                0
            } + if args.spec_shows_bytes() {
                1int
            } else {
                0
            }
        } else {
            0
        },
{
}

/// The bytes that stand in a cell: every fourth and the next character behind the bracket are their
/// digits.
pub open spec fn read_dump(text: Seq<char>) -> Seq<u8> {
    Seq::new(
        text.len() / 4,
        |i: int| (hex_value(text[4 * i + 1]) * 16 + hex_value(text[4 * i + 2])) as u8,
    )
}

proof fn lemma_joined_bytes(bytes: Seq<u8>)
    ensures
        joined(byte_texts(bytes), ", "@).len() == if bytes.len() == 0 {
            0
        } else {
            4 * bytes.len() - 2
        },
        forall|i: int|
            0 <= i < bytes.len() ==> {
                &&& joined(byte_texts(bytes), ", "@)[4 * i] == hex_digit(
                    #[trigger] bytes[i] as nat / 16,
                )
                &&& joined(byte_texts(bytes), ", "@)[4 * i + 1] == hex_digit(bytes[i] as nat % 16)
                &&& i + 1 < bytes.len() ==> joined(byte_texts(bytes), ", "@)[4 * i + 2] == ','
                    && joined(byte_texts(bytes), ", "@)[4 * i + 3] == ' '
            },
    decreases bytes.len(),
{
    reveal_strlit(", ");
    let parts = byte_texts(bytes);
    let all = joined(parts, ", "@);
    if bytes.len() == 1 {
        assert(all == hex2(bytes[0]));
    } else if bytes.len() > 1 {
        let fewer = bytes.drop_last();
        let before = joined(byte_texts(fewer), ", "@);
        lemma_joined_bytes(fewer);
        assert(parts.drop_last() =~= byte_texts(fewer));
        assert(parts.last() == hex2(bytes.last()));
        assert(all == before + ", "@ + hex2(bytes.last()));
        assert forall|i: int| 0 <= i < bytes.len() implies {
            &&& all[4 * i] == hex_digit(#[trigger] bytes[i] as nat / 16)
            &&& all[4 * i + 1] == hex_digit(bytes[i] as nat % 16)
            &&& i + 1 < bytes.len() ==> all[4 * i + 2] == ',' && all[4 * i + 3] == ' '
        } by {
            if i < fewer.len() {
                assert(fewer[i] == bytes[i]);
                assert(all[4 * i] == before[4 * i]);
                assert(all[4 * i + 1] == before[4 * i + 1]);
                if i + 1 < fewer.len() {
                    assert(all[4 * i + 2] == before[4 * i + 2]);
                    assert(all[4 * i + 3] == before[4 * i + 3]);
                } else {
                    assert(all[4 * i + 2] == ", "@[0]);
                    assert(all[4 * i + 3] == ", "@[1]);
                }
            } else {
                assert(all[4 * i] == hex2(bytes.last())[0]);
                assert(all[4 * i + 1] == hex2(bytes.last())[1]);
            }
        }
    }
}

/// Law: bytes that are shown read back, all of them and in order.
pub proof fn law_dump_round_trip(bytes: Seq<u8>)
    ensures
        read_dump(dump_text(bytes)) == bytes,
{
    reveal_strlit("[");
    reveal_strlit("]");
    let list = joined(byte_texts(bytes), ", "@);
    let text = dump_text(bytes);
    lemma_joined_bytes(bytes);
    assert forall|i: int| 0 <= i < bytes.len() implies read_dump(text)[i] == #[trigger] bytes[i] by {
        assert(text[4 * i + 1] == list[4 * i]);
        assert(text[4 * i + 2] == list[4 * i + 1]);
        assert(hex_value(text[4 * i + 1]) == bytes[i] as nat / 16);
        assert(hex_value(text[4 * i + 2]) == bytes[i] as nat % 16);
    }
    assert(read_dump(text) =~= bytes);
}

/// Law: where all bytes are asked for, the last cell of a message reads back as its payload, however
/// long that is.
pub proof fn law_dumped_payload_reads_back(m: MessageView, args: Args, absent: Seq<char>)
    requires
        args.dump_payload,
        m.payload is Some,
    ensures
        read_dump(cells(m, args, absent).last()) == m.payload.unwrap(),
{
    law_dump_round_trip(m.payload.unwrap());
}

/// Law: where payloads are to be shown, but not all of their bytes, a message shows how long its
/// payload is, and its last cell reads back as the first bytes.
pub proof fn law_shown_payload_reads_back(m: MessageView, args: Args, absent: Seq<char>)
    requires
        args.show_payload,
        !args.dump_payload,
        m.payload is Some,
    ensures
        cells(m, args, absent)[6] == decimal(m.payload_len),
        read_dump(cells(m, args, absent).last()) == first_bytes(m.payload.unwrap()),
{
    law_dump_round_trip(first_bytes(m.payload.unwrap()));
}

/// Law: texts are seen one by one, all of them and in their order.
pub proof fn law_texts_show_all(parts: Seq<String>)
    ensures
        texts(parts).len() == parts.len(),
        forall|i: int| 0 <= i < parts.len() ==> #[trigger] texts(parts)[i] == parts[i]@,
{
}

/// Law: the columns are these six and, where anything of payloads is shown, their length, then the
/// guess where payloads are analyzed, then the bytes where any are shown.
pub proof fn law_columns_by_name(args: Args)
    ensures
        ({
            let six = seq![
                "Packet"@,
                "Timestamp"@,
                "Sender"@,
                "StreamID"@,
                "Flag"@,
                "Protocol"@,
            ];
            let bytes = args.show_payload || args.dump_payload;
            &&& !bytes && !args.analyze_payload ==> columns(args) == six
            &&& bytes && !args.analyze_payload ==> columns(args) == six + seq![
                "PayloadLen"@,
                "First128Bytes"@,
            ]
            &&& !bytes && args.analyze_payload ==> columns(args) == six + seq![
                "PayloadLen"@,
                "PayloadType"@,
            ]
            &&& bytes && args.analyze_payload ==> columns(args) == six + seq![
                "PayloadLen"@,
                "PayloadType"@,
                "First128Bytes"@,
            ]
        }),
{
    let six = seq!["Packet"@, "Timestamp"@, "Sender"@, "StreamID"@, "Flag"@, "Protocol"@];
    let bytes = args.show_payload || args.dump_payload;
    if bytes && !args.analyze_payload {
        assert(columns(args) =~= six + seq!["PayloadLen"@, "First128Bytes"@]);
    } else if !bytes && args.analyze_payload {
        assert(columns(args) =~= six + seq!["PayloadLen"@, "PayloadType"@]);
    } else if bytes {
        assert(columns(args) =~= six + seq!["PayloadLen"@, "PayloadType"@, "First128Bytes"@]);
    }
}

/// Law: what stands in each column shows in the fields of a message.
pub proof fn law_cells_by_fields(m: MessageView, args: Args, absent: Seq<char>)
    ensures
        ({
            let row = cells(m, args, absent);
            let bytes = args.show_payload || args.dump_payload;
            &&& row[0] == decimal(m.packet_number as nat)
            &&& row[1] == formatted_time(
                m.timestamp.spec_secs(),
                m.timestamp.spec_nanos(),
                "%Y-%m-%d %H:%M:%S%.3f"@,
            )
            &&& m.sender == Sender::Dialer ==> row[2] == "Dialer"@
            &&& m.sender == Sender::Listener ==> row[2] == "Listener"@
            &&& m.sender == Sender::Unknown ==> row[2] == "Unknown"@
            &&& m.sctp_event is None ==> row[3] == decimal(m.stream_id as nat)
            &&& m.sctp_event matches Some(event) ==> row[3] == event.stream_ids_text()
            &&& m.flag is None ==> row[4] == absent
            &&& m.flag == Some(Flag::Fin) ==> row[4] == "FIN"@
            &&& m.flag == Some(Flag::StopSending) ==> row[4] == "STOP_SENDING"@
            &&& m.flag == Some(Flag::ResetStream) ==> row[4] == "RESET_STREAM"@
            &&& m.flag == Some(Flag::FinAck) ==> row[4] == "FIN_ACK"@
            &&& m.protocol is None ==> row[5] == absent
            &&& m.protocol matches Some(text) ==> row[5] == text
            &&& bytes || args.analyze_payload ==> row[6] == decimal(m.payload_len)
            &&& args.analyze_payload ==> {
                &&& m.sctp_event matches Some(event) ==> row[7] == event.description_text()
                &&& m.sctp_event is None && m.payload is None ==> row[7] == "No payload"@
                &&& m.sctp_event is None ==> (m.payload matches Some(payload) ==> row[7]
                    == payload_guess(payload))
            }
            &&& bytes ==> {
                &&& m.payload is None ==> row.last() == absent
                &&& m.payload matches Some(payload) ==> {
                    &&& args.dump_payload || payload.len() <= 128 ==> row.last() == dump_text(
                        payload,
                    )
                    &&& !args.dump_payload && payload.len() > 128 ==> row.last() == dump_text(
                        payload.take(128),
                    )
                }
            }
            &&& row.len() == 6 + (if bytes || args.analyze_payload {
                1int
            } else {
                0
            }) + (if args.analyze_payload {
                1int
            } else {
                0
            }) + (if bytes {
                1int
            } else {
                0
            })
        }),
{
}

/// Law: every message has its row, in the order of the messages.
pub proof fn law_all_have_rows(messages: Seq<MessageView>, args: Args, absent: Seq<char>)
    ensures
        all_cells(messages, args, absent).len() == messages.len(),
        forall|i: int|
            0 <= i < messages.len() ==> #[trigger] all_cells(messages, args, absent)[i] == cells(
                messages[i],
                args,
                absent,
            ),
{
}

/// Law: bytes are shown in brackets, each as two digits of 0 to 9 and a to f, the higher first, with a
/// comma and a space between each two.
pub proof fn law_dump_layout(bytes: Seq<u8>)
    ensures
        ({
            let text = dump_text(bytes);
            let digits = seq![
                '0',
                '1',
                '2',
                '3',
                '4',
                '5',
                '6',
                '7',
                '8',
                '9',
                'a',
                'b',
                'c',
                'd',
                'e',
                'f',
            ];
            &&& text.len() == if bytes.len() == 0 {
                2
            } else {
                4 * bytes.len()
            }
            &&& text[0] == '[' && text.last() == ']'
            &&& forall|i: int|
                0 <= i < bytes.len() ==> {
                    &&& text[4 * i + 1] == digits[#[trigger] bytes[i] as int / 16]
                    &&& text[4 * i + 2] == digits[bytes[i] as int % 16]
                    &&& i + 1 < bytes.len() ==> text[4 * i + 3] == ',' && text[4 * i + 4] == ' '
                }
        }),
{
    reveal_strlit("[");
    reveal_strlit("]");
    let list = joined(byte_texts(bytes), ", "@);
    let text = dump_text(bytes);
    lemma_joined_bytes(bytes);
    assert forall|i: int| 0 <= i < bytes.len() implies {
        &&& text[4 * i + 1] == hex_digit(#[trigger] bytes[i] as nat / 16)
        &&& text[4 * i + 2] == hex_digit(bytes[i] as nat % 16)
        &&& i + 1 < bytes.len() ==> text[4 * i + 3] == ',' && text[4 * i + 4] == ' '
    } by {
        assert(text[4 * i + 1] == list[4 * i]);
        assert(text[4 * i + 2] == list[4 * i + 1]);
        if i + 1 < bytes.len() {
            assert(text[4 * i + 3] == list[4 * i + 2]);
            assert(text[4 * i + 4] == list[4 * i + 3]);
        }
    }
}

} // verus!
