//! A table of messages with a summary under it.
use vstd::prelude::*;
use vstd::string::*;
use comfy_table::{presets::UTF8_FULL, Table};
use crate::args::{kept, law_kept_were_there, Args};
use crate::message::{views, Message, MessageView};
use crate::rows::{all_cells, column_names, columns, message_cells, texts};
use crate::text::{decimal, push_decimal};

verus! {

/// The picture of a table with a header and rows.
pub uninterp spec fn rendered_table(header: Seq<Seq<char>>, rows: Seq<Seq<Seq<char>>>) -> Seq<char>;

/// The texts that `rows` hold.
pub open spec fn row_texts(rows: Seq<Vec<String>>) -> Seq<Seq<Seq<char>>> {
    rows.map_values(|row: Vec<String>| texts(row@))
}

/// `comfy_table::Table`, made of a header and rows in the preset `UTF8_FULL`, and turned into text.
/// Neither a terminal nor the environment is looked at, so the text depends on the header and the
/// rows alone; it is named, not described.
#[verifier::external_body]
fn render_table(header: &Vec<String>, rows: &Vec<Vec<String>>) -> (r: String)
    ensures
        r@ == rendered_table(texts(header@), row_texts(rows@)),
{
    let mut table = Table::new();
    table.load_preset(UTF8_FULL);
    table.set_header(header);
    table.add_rows(rows);
    table.to_string()
}

/// Those of `messages` that have a flag.
pub open spec fn flagged(messages: Seq<MessageView>) -> Seq<MessageView> {
    messages.filter(|m: MessageView| m.flag is Some)
}

/// The line that sums up `messages`, with an empty line before it.
pub open spec fn summary_text(
    messages: Seq<MessageView>,
    show_all: bool,
    total_packets: u64,
) -> Seq<char> {
    if show_all {
        "\nSummary: "@ + decimal(messages.len()) + " total messages ("@ + decimal(
            flagged(messages).len(),
        ) + " with flags) in "@ + decimal(total_packets as nat) + " packets\n"@
    } else {
        "\nSummary: "@ + decimal(flagged(messages).len()) + " messages with flags found in "@
            + decimal(total_packets as nat) + " packets\n"@
    }
}

/// What is shown of `messages` where `table` is the picture of their table.
pub open spec fn table_report(
    table: Seq<char>,
    messages: Seq<MessageView>,
    show_all: bool,
    total_packets: u64,
) -> Seq<char> {
    table + "\n"@ + summary_text(messages, show_all, total_packets)
}

fn count_flagged(messages: &Vec<Message>) -> (r: usize)
    ensures
        r == flagged(views(messages@)).len(),
{
    let mut count: usize = 0;
    let mut i: usize = 0;
    let ghost all = views(messages@);
    reveal(Seq::filter);
    assert(all.take(0) =~= Seq::<MessageView>::empty());
    while i < messages.len()
        invariant
            i <= messages@.len(),
            all == views(messages@),
            count == flagged(all.take(i as int)).len(),
            count <= i,
        decreases messages.len() - i,
    {
        reveal(Seq::filter);
        assert(all.take(i + 1).drop_last() =~= all.take(i as int));
        assert(all.take(i + 1).last() == messages@[i as int]@);
        if messages[i].flag.is_some() {
            count = count + 1;
        }
        i = i + 1;
    }
    assert(all.take(i as int) =~= all);
    count
}

/// The line that sums up `messages`, with an empty line before it.
pub fn summary(messages: &Vec<Message>, show_all: bool, total_packets: u64) -> (r: String)
    ensures
        r@ == summary_text(views(messages@), show_all, total_packets),
{
    let flag_count = count_flagged(messages);
    let mut text = "\nSummary: ".to_owned();
    if show_all {
        push_decimal(&mut text, messages.len() as u64);
        text.append(" total messages (");
        push_decimal(&mut text, flag_count as u64);
        text.append(" with flags) in ");
    } else {
        push_decimal(&mut text, flag_count as u64);
        text.append(" messages with flags found in ");
    }
    push_decimal(&mut text, total_packets);
    text.append(" packets\n");
    assert(views(messages@).len() == messages@.len());
    text
}

/// What is shown of `messages` where `table` is the picture of their table.
pub fn with_summary(
    table: String,
    messages: &Vec<Message>,
    show_all: bool,
    total_packets: u64,
) -> (r: String)
    ensures
        r@ == table_report(table@, views(messages@), show_all, total_packets),
{
    let mut text = table;
    text.append("\n");
    text.append(summary(messages, show_all, total_packets).as_str());
    text
}

/// The rows of the table: a dash stands for what a message does not have.
pub fn table_rows(messages: &Vec<Message>, args: &Args) -> (r: Vec<Vec<String>>)
    ensures
        row_texts(r@) == all_cells(views(messages@), *args, seq!['-']),
{
    let mut rows: Vec<Vec<String>> = Vec::new();
    let ghost all = all_cells(views(messages@), *args, seq!['-']);
    proof {
        reveal_strlit("-");
        assert("-"@ =~= seq!['-']);
    }
    assert(row_texts(rows@) =~= all.take(0));
    let mut i: usize = 0;
    while i < messages.len()
        invariant
            i <= messages@.len(),
            all == all_cells(views(messages@), *args, seq!['-']),
            row_texts(rows@) == all.take(i as int),
            "-"@ == seq!['-'],
        decreases messages.len() - i,
    {
        let ghost before = rows@;
        let row = message_cells(&messages[i], args, "-");
        let ghost row_view = texts(row@);
        rows.push(row);
        assert(row_texts(rows@) =~= row_texts(before).push(row_view));
        assert(all[i as int] == row_view);
        assert(all.take(i + 1) =~= all.take(i as int).push(row_view));
        i = i + 1;
    }
    assert(all.take(i as int) =~= all);
    rows
}

/// Shows `messages` in a table with a summary under it.
pub fn display_table(
    messages: &Vec<Message>,
    show_all: bool,
    total_packets: u64,
    args: &Args,
) -> (r: String)
    ensures
        r@ == table_report(
            rendered_table(columns(*args), all_cells(views(messages@), *args, seq!['-'])),
            views(messages@),
            show_all,
            total_packets,
        ),
{
    let header = column_names(args);
    let rows = table_rows(messages, args);
    let table = render_table(&header, &rows);
    with_summary(table, messages, show_all, total_packets)
}

/// Law: the summary never counts more flags than messages, and counts every message where only
/// those with flags were kept.
pub proof fn law_flag_count(messages: Seq<MessageView>)
    ensures
        flagged(messages).len() <= messages.len(),
        (forall|i: int| 0 <= i < messages.len() ==> (#[trigger] messages[i]).flag is Some)
            ==> flagged(messages) == messages,
    decreases messages.len(),
{
    reveal(Seq::filter);
    if messages.len() > 0 {
        law_flag_count(messages.drop_last());
        assert(messages.drop_last().push(messages.last()) =~= messages);
        assert(messages.last() == messages[messages.len() - 1]);
    } else {
        assert(flagged(messages) =~= messages);
    }
}

/// Law: where neither all messages nor resets are asked for, the summary counts every message that
/// is shown.
pub proof fn law_summary_counts_what_is_kept(messages: Seq<MessageView>, args: Args)
    requires
        !args.all_messages,
        !args.analyze_payload,
    ensures
        flagged(kept(messages, args)) == kept(messages, args),
{
    law_kept_were_there(messages, args);
    law_flag_count(kept(messages, args));
}

/// Law: rows are seen one by one, all of them and in their order.
pub proof fn law_row_texts_show_all(rows: Seq<Vec<String>>)
    ensures
        row_texts(rows).len() == rows.len(),
        forall|i: int| 0 <= i < rows.len() ==> #[trigger] row_texts(rows)[i] == texts(rows[i]@),
{
}

/// Law: every message with a flag is counted, whichever it is, and no other.
pub proof fn law_flags_are_counted(messages: Seq<MessageView>, m: MessageView)
    ensures
        flagged(Seq::empty()).len() == 0,
        m.flag is Some ==> flagged(messages.push(m)).len() == flagged(messages).len() + 1,
        m.flag is None ==> flagged(messages.push(m)).len() == flagged(messages).len(),
{
    reveal(Seq::filter);
    assert(messages.push(m).drop_last() =~= messages);
}

/// Law: the summary stands under the table, behind an empty line, in these words and with these
/// numbers.
pub proof fn law_summary_in_words(table: Seq<char>, messages: Seq<MessageView>, total_packets: u64)
    ensures
        table_report(table, messages, true, total_packets) == table + "\n"@ + ("\nSummary: "@
            + decimal(messages.len()) + " total messages ("@ + decimal(flagged(messages).len())
            + " with flags) in "@ + decimal(total_packets as nat) + " packets\n"@),
        table_report(table, messages, false, total_packets) == table + "\n"@ + ("\nSummary: "@
            + decimal(flagged(messages).len()) + " messages with flags found in "@ + decimal(
            total_packets as nat,
        ) + " packets\n"@),
{
}

} // verus!
