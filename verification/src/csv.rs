//! Comma-separated values.
use vstd::prelude::*;
use vstd::string::*;
use crate::args::Args;
use crate::message::{views, Message, MessageView};
use crate::rows::{all_cells, cells, column_names, columns, message_cells, texts};
use crate::rows::{first_bytes, read_dump};
use crate::rows::{law_cells_fill_columns, law_dumped_payload_reads_back, law_shown_payload_reads_back};
use crate::text::{joined, law_joined_alone, law_joined_in_parts, push_part};
use crate::timestamp::is_time_char;

verus! {

/// Whether a character cannot stand in a field without quotes around it.
pub open spec fn is_special(c: char) -> bool {
    c == ',' || c == '"' || c == '\n'
}

/// `text` with every quote written twice.
pub open spec fn quotes_doubled(text: Seq<char>) -> Seq<char>
    decreases text.len(),
{
    if text.len() == 0 {
        Seq::empty()
    } else if text[0] == '"' {
        seq!['"', '"'] + quotes_doubled(text.skip(1))
    } else {
        seq![text[0]] + quotes_doubled(text.skip(1))
    }
}

/// `text` as a field: in quotes, with its own quotes written twice, if it holds a comma, a quote or
/// a newline, and else as it is.
pub open spec fn escaped_field(text: Seq<char>) -> Seq<char> {
    if exists|i: int| 0 <= i < text.len() && is_special(#[trigger] text[i]) {
        seq!['"'] + quotes_doubled(text) + seq!['"']
    } else {
        text
    }
}

/// `fields` escaped.
pub open spec fn escaped_fields(fields: Seq<Seq<char>>) -> Seq<Seq<char>> {
    fields.map_values(|field: Seq<char>| escaped_field(field))
}

/// `fields` as a line, without the newline behind it.
pub open spec fn csv_line(fields: Seq<Seq<char>>) -> Seq<char> {
    joined(escaped_fields(fields), seq![','])
}

/// `rows` as lines, a newline behind each.
pub open spec fn csv_lines(rows: Seq<Seq<Seq<char>>>) -> Seq<char>
    decreases rows.len(),
{
    if rows.len() == 0 {
        Seq::empty()
    } else {
        csv_lines(rows.drop_last()) + csv_line(rows.last()) + seq!['\n']
    }
}

/// The rows that show `messages`: the names of the columns, and a row for each message, in which an
/// empty field stands for what the message does not have.
pub open spec fn csv_rows(messages: Seq<MessageView>, args: Args) -> Seq<Seq<Seq<char>>> {
    seq![columns(args)] + all_cells(messages, args, Seq::empty())
}

proof fn lemma_quotes_doubled_push(text: Seq<char>, c: char)
    ensures
        quotes_doubled(text.push(c)) == quotes_doubled(text) + (if c == '"' {
            seq!['"', '"']
        } else {
            seq![c]
        }),
    decreases text.len(),
{
    let last = if c == '"' {
        seq!['"', '"']
    } else {
        seq![c]
    };
    if text.len() == 0 {
        assert(text.push(c).skip(1) =~= Seq::<char>::empty());
        assert(quotes_doubled(Seq::empty()) =~= Seq::<char>::empty());
        assert(quotes_doubled(text.push(c)) =~= last);
        assert(quotes_doubled(text) + last =~= last);
    } else {
        lemma_quotes_doubled_push(text.skip(1), c);
        assert(text.push(c).skip(1) =~= text.skip(1).push(c));
        assert(quotes_doubled(text.push(c)) =~= quotes_doubled(text) + last);
    }
}

/// Writes `field` as a field: in quotes, with its own quotes written twice, if it holds a comma, a
/// quote or a newline, and else as it is.
pub fn escape_csv_field(field: &str) -> (r: String)
    ensures
        r@ == escaped_field(field@),
{
    let mut special: bool = false;
    let mut doubled = String::new();
    assert(field@.take(0) =~= Seq::<char>::empty());
    assert(doubled@ =~= quotes_doubled(field@.take(0)));
    for c in it: field.chars()
        invariant
            it.seq() == field@,
            doubled@ == quotes_doubled(field@.take(it.index() as int)),
            special <==> exists|i: int| 0 <= i < it.index() && is_special(#[trigger] field@[i]),
    {
        let ghost i = it.index() as int;
        proof {
            lemma_quotes_doubled_push(field@.take(i), c);
            assert(field@.take(i + 1) =~= field@.take(i).push(c));
            assert(field@[i] == c);
        }
        if c == ',' || c == '"' || c == '\n' {
            special = true;
        }
        if c == '"' {
            doubled.push('"');
        }
        doubled.push(c);
        assert(doubled@ =~= quotes_doubled(field@.take(i + 1)));
    }
    assert(field@.take(field@.len() as int) =~= field@);
    if special {
        let mut quoted = String::new();
        quoted.push('"');
        quoted.append(doubled.as_str());
        quoted.push('"');
        assert(quoted@ =~= escaped_field(field@));
        quoted
    } else {
        field.to_owned()
    }
}

/// Writes `fields` as a line, without the newline behind it.
fn fields_line(fields: &Vec<String>) -> (r: String)
    ensures
        r@ == csv_line(texts(fields@)),
{
    let mut line = String::new();
    let ghost escaped = escaped_fields(texts(fields@));
    assert(escaped.take(0) =~= Seq::<Seq<char>>::empty());
    assert(line@ =~= joined(escaped.take(0), seq![',']));
    proof {
        reveal_strlit(",");
        assert(","@ =~= seq![',']);
    }
    let mut i: usize = 0;
    while i < fields.len()
        invariant
            i <= fields@.len(),
            escaped == escaped_fields(texts(fields@)),
            line@ == joined(escaped.take(i as int), seq![',']),
            ","@ == seq![','],
        decreases fields.len() - i,
    {
        let field = escape_csv_field(fields[i].as_str());
        push_part(&mut line, field.as_str(), ",", Ghost(escaped.take(i as int)), i == 0);
        assert(escaped[i as int] == field@);
        assert(escaped.take(i + 1) =~= escaped.take(i as int).push(field@));
        i = i + 1;
    }
    assert(escaped.take(i as int) =~= escaped);
    line
}

/// The line with the names of the columns.
pub fn csv_header(args: &Args) -> (r: String)
    ensures
        r@ == csv_line(columns(*args)),
{
    fields_line(&column_names(args))
}

/// The line that shows a message. The time needs no quotes.
pub fn csv_row(m: &Message, args: &Args) -> (r: String)
    ensures
        r@ == csv_line(cells(m@, *args, Seq::empty())),
        escaped_field(m@.timestamp.spec_text()) == m@.timestamp.spec_text(),
{
    proof {
        reveal_strlit("");
        assert(""@ =~= Seq::<char>::empty());
    }
    let fields = message_cells(m, args, "");
    proof {
        let time = m@.timestamp.spec_text();
        assert forall|i: int| 0 <= i < time.len() implies !is_special(#[trigger] time[i]) by {
            assert(is_time_char(time[i]));
        }
    }
    fields_line(&fields)
}

/// The lines that show `messages` under the names of the columns.
pub fn write_csv(messages: &Vec<Message>, args: &Args) -> (r: String)
    ensures
        r@ == csv_lines(csv_rows(views(messages@), *args)),
{
    let ghost rows = csv_rows(views(messages@), *args);
    let mut text = csv_header(args);
    text.push('\n');
    proof {
        assert(rows.take(1).drop_last() =~= Seq::<Seq<Seq<char>>>::empty());
        assert(rows.take(1).last() == columns(*args));
        assert(csv_lines(Seq::empty()) =~= Seq::<char>::empty());
        assert(text@ =~= csv_lines(rows.take(1)));
    }
    let mut i: usize = 0;
    while i < messages.len()
        invariant
            i <= messages@.len(),
            rows == csv_rows(views(messages@), *args),
            text@ == csv_lines(rows.take(i + 1)),
        decreases messages.len() - i,
    {
        let row = csv_row(&messages[i], args);
        text.append(row.as_str());
        text.push('\n');
        proof {
            assert(rows.take(i + 2).drop_last() =~= rows.take(i + 1));
            assert(rows.take(i + 2).last() == cells(messages@[i as int]@, *args, Seq::empty()));
            assert(text@ =~= csv_lines(rows.take(i + 2)));
        }
        i = i + 1;
    }
    assert(rows.take(i + 1) =~= rows);
    text
}

/// Whether `text` is at the end of a field.
pub open spec fn at_field_end(text: Seq<char>) -> bool {
    text.len() == 0 || text[0] == ',' || text[0] == '\n'
}

/// Reads a field behind its opening quote: what it holds, and what follows its closing quote.
pub open spec fn read_quoted(text: Seq<char>) -> (Seq<char>, Seq<char>)
    decreases text.len(),
{
    if text.len() == 0 {
        (Seq::empty(), text)
    } else if text[0] == '"' {
        if text.len() > 1 && text[1] == '"' {
            let (field, rest) = read_quoted(text.skip(2));
            (seq!['"'] + field, rest)
        } else {
            (Seq::empty(), text.skip(1))
        }
    } else {
        let (field, rest) = read_quoted(text.skip(1));
        (seq![text[0]] + field, rest)
    }
}

/// Reads a field without quotes: what it holds, and what follows it.
pub open spec fn read_plain(text: Seq<char>) -> (Seq<char>, Seq<char>)
    decreases text.len(),
{
    if at_field_end(text) {
        (Seq::empty(), text)
    } else {
        let (field, rest) = read_plain(text.skip(1));
        (seq![text[0]] + field, rest)
    }
}

/// Reads a field: what it holds, and what follows it.
pub open spec fn read_field(text: Seq<char>) -> (Seq<char>, Seq<char>) {
    if text.len() > 0 && text[0] == '"' {
        read_quoted(text.skip(1))
    } else {
        read_plain(text)
    }
}

/// Reads a row up to and with the newline behind it: its fields, and what follows the row.
pub open spec fn read_row(text: Seq<char>) -> (Seq<Seq<char>>, Seq<char>)
    decreases text.len(),
{
    proof {
        lemma_read_field_shortens(text);
    }
    let (field, rest) = read_field(text);
    if rest.len() > 0 && rest[0] == ',' {
        let (fields, after) = read_row(rest.skip(1));
        (seq![field] + fields, after)
    } else if rest.len() > 0 && rest[0] == '\n' {
        (seq![field], rest.skip(1))
    } else {
        (seq![field], rest)
    }
}

/// Reads rows up to the end of `text`.
pub open spec fn read_rows(text: Seq<char>) -> Seq<Seq<Seq<char>>>
    decreases text.len(),
{
    if text.len() == 0 {
        Seq::empty()
    } else {
        proof {
            lemma_read_row_shortens(text);
        }
        let (fields, rest) = read_row(text);
        seq![fields] + read_rows(rest)
    }
}

proof fn lemma_read_quoted_shortens(text: Seq<char>)
    ensures
        read_quoted(text).1.len() <= text.len(),
    decreases text.len(),
{
    if text.len() > 0 {
        if text[0] == '"' {
            if text.len() > 1 && text[1] == '"' {
                lemma_read_quoted_shortens(text.skip(2));
            }
        } else {
            lemma_read_quoted_shortens(text.skip(1));
        }
    }
}

proof fn lemma_read_plain_shortens(text: Seq<char>)
    ensures
        read_plain(text).1.len() <= text.len(),
        !at_field_end(text) ==> read_plain(text).1.len() < text.len(),
    decreases text.len(),
{
    if !at_field_end(text) {
        lemma_read_plain_shortens(text.skip(1));
    }
}

/// Reading a field leaves no more than there was, and less where the field is not empty.
pub proof fn lemma_read_field_shortens(text: Seq<char>)
    ensures
        read_field(text).1.len() <= text.len(),
        !at_field_end(text) ==> read_field(text).1.len() < text.len(),
{
    if text.len() > 0 && text[0] == '"' {
        lemma_read_quoted_shortens(text.skip(1));
    } else {
        lemma_read_plain_shortens(text);
    }
}

/// Reading a row leaves less than there was.
pub proof fn lemma_read_row_shortens(text: Seq<char>)
    ensures
        text.len() > 0 ==> read_row(text).1.len() < text.len(),
        read_row(text).1.len() <= text.len(),
    decreases text.len(),
{
    lemma_read_field_shortens(text);
    let (field, rest) = read_field(text);
    if rest.len() > 0 && rest[0] == ',' {
        lemma_read_row_shortens(rest.skip(1));
    }
}

proof fn lemma_read_doubled(text: Seq<char>, rest: Seq<char>)
    requires
        at_field_end(rest),
    ensures
        read_quoted(quotes_doubled(text) + seq!['"'] + rest) == (text, rest),
    decreases text.len(),
{
    let written = quotes_doubled(text) + seq!['"'] + rest;
    if text.len() == 0 {
        assert(written =~= seq!['"'] + rest);
        assert(written.skip(1) =~= rest);
        assert(text =~= Seq::<char>::empty());
    } else {
        let more = quotes_doubled(text.skip(1)) + seq!['"'] + rest;
        lemma_read_doubled(text.skip(1), rest);
        if text[0] == '"' {
            assert(written =~= seq!['"', '"'] + more);
            assert(written.skip(2) =~= more);
        } else {
            assert(written =~= seq![text[0]] + more);
            assert(written.skip(1) =~= more);
        }
        assert(seq![text[0]] + text.skip(1) =~= text);
    }
}

proof fn lemma_read_unquoted(text: Seq<char>, rest: Seq<char>)
    requires
        at_field_end(rest),
        forall|i: int| 0 <= i < text.len() ==> !is_special(#[trigger] text[i]),
    ensures
        read_plain(text + rest) == (text, rest),
    decreases text.len(),
{
    if text.len() == 0 {
        assert(text + rest =~= rest);
        assert(text =~= Seq::<char>::empty());
    } else {
        assert(!is_special(text[0]));
        assert forall|i: int| 0 <= i < text.skip(1).len() implies !is_special(
            #[trigger] text.skip(1)[i],
        ) by {
            assert(!is_special(text[i + 1]));
        }
        lemma_read_unquoted(text.skip(1), rest);
        assert((text + rest).skip(1) =~= text.skip(1) + rest);
        assert(seq![text[0]] + text.skip(1) =~= text);
    }
}

/// Law: a field reads back as the text that was escaped, whatever the text holds, where a comma, a
/// newline or the end of the text follows it.
pub proof fn law_field_round_trip(text: Seq<char>, rest: Seq<char>)
    requires
        at_field_end(rest),
    ensures
        read_field(escaped_field(text) + rest) == (text, rest),
{
    let written = escaped_field(text) + rest;
    if exists|i: int| 0 <= i < text.len() && is_special(#[trigger] text[i]) {
        lemma_read_doubled(text, rest);
        assert(written.skip(1) =~= quotes_doubled(text) + seq!['"'] + rest);
    } else {
        lemma_read_unquoted(text, rest);
        if text.len() > 0 {
            assert(!is_special(text[0]));
            assert(written[0] == text[0]);
        } else {
            assert(written =~= rest);
        }
    }
}

/// Law: a text without a comma, a quote and a newline is written as it is, and every other text in
/// quotes.
pub proof fn law_plain_text_is_unchanged(text: Seq<char>)
    ensures
        (forall|i: int| 0 <= i < text.len() ==> !is_special(#[trigger] text[i]))
            ==> escaped_field(text) == text,
        (exists|i: int| 0 <= i < text.len() && is_special(#[trigger] text[i])) ==> (
        escaped_field(text).len() >= 2 && escaped_field(text)[0] == '"' && escaped_field(
            text,
        ).last() == '"'),
{
}

proof fn lemma_joined_front(parts: Seq<Seq<char>>, separator: Seq<char>)
    requires
        parts.len() > 1,
    ensures
        joined(parts, separator) == parts[0] + separator + joined(parts.skip(1), separator),
{
    law_joined_in_parts(seq![parts[0]], parts.skip(1), separator);
    assert(seq![parts[0]] + parts.skip(1) =~= parts);
}

/// Law: a row reads back as the fields that were written.
pub proof fn law_row_round_trip(fields: Seq<Seq<char>>, rest: Seq<char>)
    requires
        fields.len() > 0,
    ensures
        read_row(csv_line(fields) + seq!['\n'] + rest) == (fields, rest),
    decreases fields.len(),
{
    let written = csv_line(fields) + seq!['\n'] + rest;
    let parts = escaped_fields(fields);
    assert(parts[0] == escaped_field(fields[0]));
    if fields.len() == 1 {
        let after = seq!['\n'] + rest;
        law_field_round_trip(fields[0], after);
        assert(written =~= escaped_field(fields[0]) + after);
        assert(after.skip(1) =~= rest);
        assert(fields =~= seq![fields[0]]);
    } else {
        let more = csv_line(fields.skip(1)) + seq!['\n'] + rest;
        let after = seq![','] + more;
        lemma_joined_front(parts, seq![',']);
        assert(parts.skip(1) =~= escaped_fields(fields.skip(1)));
        law_field_round_trip(fields[0], after);
        assert(written =~= escaped_field(fields[0]) + after);
        assert(after.skip(1) =~= more);
        law_row_round_trip(fields.skip(1), rest);
        assert(fields =~= seq![fields[0]] + fields.skip(1));
    }
}

proof fn lemma_csv_lines_front(rows: Seq<Seq<Seq<char>>>)
    requires
        rows.len() > 0,
    ensures
        csv_lines(rows) == csv_line(rows[0]) + seq!['\n'] + csv_lines(rows.skip(1)),
    decreases rows.len(),
{
    let rest = rows.skip(1);
    if rows.len() == 1 {
        assert(csv_lines(rest) =~= Seq::<char>::empty());
        assert(csv_lines(rows.drop_last()) =~= Seq::<char>::empty());
        assert(csv_lines(rows) =~= csv_line(rows[0]) + seq!['\n'] + csv_lines(rest));
    } else {
        lemma_csv_lines_front(rows.drop_last());
        assert(rest.drop_last() =~= rows.drop_last().skip(1));
        assert(rest.last() == rows.last());
        assert(csv_lines(rows) =~= csv_line(rows[0]) + seq!['\n'] + csv_lines(rest));
    }
}

/// Law: rows read back as they were written, each with all its fields.
pub proof fn law_rows_round_trip(rows: Seq<Seq<Seq<char>>>)
    requires
        forall|i: int| 0 <= i < rows.len() ==> (#[trigger] rows[i]).len() > 0,
    ensures
        read_rows(csv_lines(rows)) == rows,
    decreases rows.len(),
{
    if rows.len() == 0 {
        assert(rows =~= Seq::<Seq<Seq<char>>>::empty());
    } else {
        lemma_csv_lines_front(rows);
        assert(rows[0].len() > 0);
        law_row_round_trip(rows[0], csv_lines(rows.skip(1)));
        law_rows_round_trip(rows.skip(1));
        assert(rows =~= seq![rows[0]] + rows.skip(1));
    }
}

/// Law: what is written for `messages` reads back as the names of the columns and, for each message
/// in order, a row with one field for each column.
pub proof fn law_csv_round_trip(messages: Seq<MessageView>, args: Args)
    ensures
        read_rows(csv_lines(csv_rows(messages, args))) == csv_rows(messages, args),
        csv_rows(messages, args).len() == messages.len() + 1,
        forall|i: int|
            0 <= i < csv_rows(messages, args).len() ==> (#[trigger] csv_rows(
                messages,
                args,
            )[i]).len() == columns(args).len(),
{
    let rows = csv_rows(messages, args);
    assert forall|i: int| 0 <= i < rows.len() implies (#[trigger] rows[i]).len() == columns(
        args,
    ).len() by {
        if i > 0 {
            law_cells_fill_columns(messages[i - 1], args, Seq::empty());
        }
    }
    law_rows_round_trip(rows);
}

/// Law: what is written for `messages` holds the bytes of their payloads: all of them where that is
/// asked for, and else the first where payloads are to be shown.
pub proof fn law_csv_holds_payloads(messages: Seq<MessageView>, args: Args, i: int)
    requires
        0 <= i < messages.len(),
        messages[i].payload is Some,
    ensures
        args.dump_payload ==> read_dump(
            read_rows(csv_lines(csv_rows(messages, args)))[i + 1].last(),
        ) == messages[i].payload.unwrap(),
        args.show_payload && !args.dump_payload ==> read_dump(
            read_rows(csv_lines(csv_rows(messages, args)))[i + 1].last(),
        ) == first_bytes(messages[i].payload.unwrap()),
{
    let m = messages[i];
    law_csv_round_trip(messages, args);
    assert(csv_rows(messages, args)[i + 1] == cells(m, args, Seq::empty()));
    if args.dump_payload {
        law_dumped_payload_reads_back(m, args, Seq::empty());
    } else if args.show_payload {
        law_shown_payload_reads_back(m, args, Seq::empty());
    }
}

/// Law: a field stays as it is if and only if no comma, quote or newline is in it; else it stands
/// between quotes, with every quote in it written twice and every other character once.
pub proof fn law_field_by_its_characters(text: Seq<char>, first: Seq<char>, c: char)
    ensures
        (forall|i: int|
            0 <= i < text.len() ==> #[trigger] text[i] != ',' && text[i] != '"' && text[i] != '\n')
            ==> escaped_field(text) == text,
        (exists|i: int|
            0 <= i < text.len() && (#[trigger] text[i] == ',' || text[i] == '"' || text[i] == '\n'))
            ==> escaped_field(text) == seq!['"'] + quotes_doubled(text) + seq!['"'],
        quotes_doubled(Seq::empty()).len() == 0,
        c == '"' ==> quotes_doubled(first.push(c)) == quotes_doubled(first) + seq!['"', '"'],
        c != '"' ==> quotes_doubled(first.push(c)) == quotes_doubled(first) + seq![c],
{
    lemma_quotes_doubled_push(first, c);
    if exists|i: int|
        0 <= i < text.len() && (#[trigger] text[i] == ',' || text[i] == '"' || text[i] == '\n') {
        let i = choose|i: int|
            0 <= i < text.len() && (#[trigger] text[i] == ',' || text[i] == '"' || text[i] == '\n');
        assert(is_special(text[i]));
    }
}

/// Law: a line is its fields, each escaped, with commas between them, and lines stand one after the
/// other, with a newline behind each.
pub proof fn law_lines_by_their_fields(
    field: Seq<char>,
    first: Seq<Seq<char>>,
    second: Seq<Seq<char>>,
    rows: Seq<Seq<Seq<char>>>,
)
    ensures
        csv_line(seq![field]) == escaped_field(field),
        first.len() > 0 && second.len() > 0 ==> csv_line(first + second) == csv_line(first) + seq![
            ',',
        ] + csv_line(second),
        csv_lines(Seq::empty()).len() == 0,
        csv_lines(rows.push(first)) == csv_lines(rows) + csv_line(first) + seq!['\n'],
{
    assert(escaped_fields(seq![field]) =~= seq![escaped_field(field)]);
    law_joined_alone(escaped_field(field), seq![',']);
    assert(escaped_fields(first + second) =~= escaped_fields(first) + escaped_fields(second));
    if first.len() > 0 && second.len() > 0 {
        law_joined_in_parts(escaped_fields(first), escaped_fields(second), seq![',']);
    }
    assert(rows.push(first).drop_last() =~= rows);
}

/// Law: the rows are the names of the columns and then one for each message, in order, with an empty
/// field for what the message does not have.
pub proof fn law_rows_by_message(messages: Seq<MessageView>, args: Args)
    ensures
        csv_rows(messages, args).len() == messages.len() + 1,
        csv_rows(messages, args)[0] == columns(args),
        forall|i: int|
            0 <= i < messages.len() ==> csv_rows(messages, args)[i + 1] == cells(
                #[trigger] messages[i],
                args,
                Seq::empty(),
            ),
{
}

} // verus!
