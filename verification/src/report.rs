//! What an analysis gives out.
use vstd::prelude::*;
use vstd::string::*;
use crate::args::Args;
use crate::csv::{csv_lines, csv_rows, write_csv};
use crate::message::{views, Message};
use crate::rows::{all_cells, columns};
use crate::table::{display_table, rendered_table, table_report};
use crate::text::{decimal, push_decimal};

verus! {

/// The results, by where they go.
#[derive(Debug)]
pub enum Report {
    /// Text for the terminal.
    Text(String),
    /// The contents of a file of comma-separated values.
    Csv(String),
}

/// What is said where there is nothing to show.
pub open spec fn nothing_found_text(args: Args, total_packets: u64) -> Seq<char> {
    if args.all_messages {
        "No messages found in "@ + decimal(total_packets as nat) + " packets\n"@
    } else {
        "No messages with flags found in "@ + decimal(total_packets as nat) + " packets\n"@
    }
}

/// Shows `messages`: says so where there are none, and else gives a file or a table.
pub fn display_results(messages: &Vec<Message>, args: &Args, total_packets: u64) -> (r: Report)
    ensures
        match r {
            Report::Csv(text) => {
                &&& messages@.len() > 0 && args.csv
                &&& text@ == csv_lines(csv_rows(views(messages@), *args))
            },
            Report::Text(text) => if messages@.len() == 0 {
                text@ == nothing_found_text(*args, total_packets)
            } else {
                &&& !args.csv
                &&& text@ == table_report(
                    rendered_table(columns(*args), all_cells(views(messages@), *args, seq!['-'])),
                    views(messages@),
                    args.all_messages,
                    total_packets,
                )
            },
        },
{
    if messages.is_empty() {
        let mut text = if args.all_messages {
            "No messages found in ".to_owned()
        } else {
            "No messages with flags found in ".to_owned()
        };
        push_decimal(&mut text, total_packets);
        text.append(" packets\n");
        return Report::Text(text);
    }
    if args.csv {
        Report::Csv(write_csv(messages, args))
    } else {
        Report::Text(display_table(messages, args.all_messages, total_packets, args))
    }
}

/// Law: where nothing is found, these words say so, with the number of packets.
pub proof fn law_nothing_found_in_words(args: Args, total_packets: u64)
    ensures
        args.all_messages ==> nothing_found_text(args, total_packets) == "No messages found in "@
            + decimal(total_packets as nat) + " packets\n"@,
        !args.all_messages ==> nothing_found_text(args, total_packets)
            == "No messages with flags found in "@ + decimal(total_packets as nat) + " packets\n"@,
{
}

} // verus!
