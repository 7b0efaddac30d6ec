//! The protocol names that multistream-select puts on a stream.
use vstd::prelude::*;
use vstd::string::*;
use vstd::utf8::{decode_utf8, encode_utf8, valid_utf8};
use crate::framing::{framed, frames, is_whole, next_frame};
use crate::framing::{law_frames_in_parts, law_frames_round_trip, law_record_behind_its_length};
use crate::text::{joined, law_joined_in_parts, push_part};
use crate::varint::{law_varint_round_trip, varint, varint_bytes};

verus! {

/// Whether a character has the Unicode property `White_Space`.
pub open spec fn is_white_space(c: char) -> bool {
    let u = c as u32;
    ||| 0x09 <= u <= 0x0D
    ||| u == 0x20
    ||| u == 0x85
    ||| u == 0xA0
    ||| u == 0x1680
    ||| 0x2000 <= u <= 0x200A
    ||| u == 0x2028
    ||| u == 0x2029
    ||| u == 0x202F
    ||| u == 0x205F
    ||| u == 0x3000
}

/// `text` without the white space at its end.
pub open spec fn trimmed_end(text: Seq<char>) -> Seq<char>
    decreases text.len(),
{
    if text.len() > 0 && is_white_space(text.last()) {
        trimmed_end(text.drop_last())
    } else {
        text
    }
}

/// Whether a character has the Unicode property `White_Space`.
fn is_space(c: char) -> (r: bool)
    ensures
        r == is_white_space(c),
{
    let u: u32 = c as u32;
    (0x09 <= u && u <= 0x0D) || u == 0x20 || u == 0x85 || u == 0xA0 || u == 0x1680 || (0x2000 <= u
        && u <= 0x200A) || u == 0x2028 || u == 0x2029 || u == 0x202F || u == 0x205F || u == 0x3000
}

/// How many characters `text` has without the white space at its end.
fn trimmed_len(text: &str) -> (r: usize)
    ensures
        r <= text@.len(),
        text@.take(r as int) == trimmed_end(text@),
{
    let mut end: usize = 0;
    let mut i: usize = 0;
    let len: usize = text.unicode_len();
    assert(text@.take(0) =~= trimmed_end(text@.take(0)));
    for c in it: text.chars()
        invariant
            it.seq() == text@,
            len == text@.len(),
            i == it.index(),
            end <= i <= len,
            text@.take(end as int) == trimmed_end(text@.take(i as int)),
    {
        let ghost before = text@.take(i as int);
        let ghost now = text@.take(i + 1);
        assert(now.drop_last() =~= before);
        assert(now.last() == c);
        i = i + 1;
        if !is_space(c) {
            end = i;
        }
    }
    assert(text@.take(i as int) =~= text@);
    end
}

/// `std::str::from_utf8`: bytes that are valid UTF-8 are the text that they encode, and no other
/// bytes are a text.
#[verifier::external_body]
fn utf8_text(bytes: &[u8]) -> (r: Option<&str>)
    ensures
        r is Some <==> valid_utf8(bytes@),
        r matches Some(text) ==> text@ == decode_utf8(bytes@),
{
    std::str::from_utf8(bytes).ok()
}

/// Whether `text` names a protocol, which starts with a slash, or answers that one is not
/// available, which is `na` with any white space behind it.
pub open spec fn is_protocol_text(text: Seq<char>) -> bool {
    ||| text.len() > 0 && text[0] == '/'
    ||| trimmed_end(text) == seq!['n', 'a']
}

/// The protocol text that a record holds, if it is UTF-8 and holds one.
pub open spec fn protocol_text(record: Seq<u8>) -> Option<Seq<char>> {
    if valid_utf8(record) && is_protocol_text(decode_utf8(record)) {
        Some(decode_utf8(record))
    } else {
        None
    }
}

/// The protocol texts among `records`, in their order.
pub open spec fn protocol_texts(records: Seq<Seq<u8>>) -> Seq<Seq<char>>
    decreases records.len(),
{
    if records.len() == 0 {
        Seq::empty()
    } else {
        match protocol_text(records.last()) {
            Some(text) => protocol_texts(records.drop_last()).push(text),
            None => protocol_texts(records.drop_last()),
        }
    }
}

/// All protocol texts of the records in `data` with spaces between them, if there are any.
pub open spec fn multistream_protocol(data: Seq<u8>) -> Option<Seq<char>> {
    let texts = protocol_texts(frames(data));
    if texts.len() == 0 {
        None
    } else {
        Some(joined(texts, seq![' ']))
    }
}

fn is_protocol(text: &str) -> (r: bool)
    ensures
        r == is_protocol_text(text@),
{
    if !text.is_empty() && text.get_char(0) == '/' {
        return true;
    }
    let len: usize = trimmed_len(text);
    proof {
        let trimmed = text@.take(len as int);
        assert(len == 2 ==> trimmed[0] == text@[0] && trimmed[1] == text@[1]);
        assert(trimmed.len() == len);
        assert(trimmed == seq!['n', 'a'] ==> len == 2 && trimmed[0] == 'n' && trimmed[1] == 'a');
        assert(len == 2 && text@[0] == 'n' && text@[1] == 'a' ==> trimmed =~= seq!['n', 'a']);
    }
    len == 2 && text.get_char(0) == 'n' && text.get_char(1) == 'a'
}

/// Collects the protocol texts of the records in `data`, one space between each two; `None` if
/// there is none.
pub fn extract_multistream_protocol(data: &[u8]) -> (r: Option<String>)
    ensures
        r is Some <==> multistream_protocol(data@) is Some,
        r matches Some(text) ==> multistream_protocol(data@) == Some(text@),
{
    let mut protocols = String::new();
    let mut found: bool = false;
    let mut offset: usize = 0;
    let ghost mut done: Seq<Seq<u8>> = Seq::empty();
    assert(data@.skip(0) =~= data@);
    assert(done + frames(data@) =~= frames(data@));
    assert(protocols@ =~= joined(protocol_texts(done), seq![' ']));
    while offset < data.len()
        invariant_except_break
            offset <= data@.len(),
            frames(data@) == done + frames(data@.skip(offset as int)),
        invariant
            found <==> protocol_texts(done).len() > 0,
            protocols@ == joined(protocol_texts(done), seq![' ']),
        ensures
            frames(data@) == done,
        decreases data.len() - offset,
    {
        match next_frame(data, offset) {
            None => {
                assert(done + Seq::<Seq<u8>>::empty() =~= done);
                break;
            },
            Some((start, end)) => {
                let record = vstd::slice::slice_subrange(data, start, end);
                let ghost before = done;
                proof {
                    done = done.push(record@);
                    assert(done.drop_last() =~= before);
                    assert(before + (seq![record@] + frames(data@.skip(end as int))) =~= done
                        + frames(data@.skip(end as int)));
                }
                if let Some(text) = utf8_text(record) {
                    if is_protocol(text) {
                        proof {
                            reveal_strlit(" ");
                            assert(" "@ =~= seq![' ']);
                        }
                        push_part(&mut protocols, text, " ", Ghost(protocol_texts(before)), !found);
                        found = true;
                    }
                }
                offset = end;
                proof {
                    if offset == data@.len() {
                        assert(data@.skip(offset as int).len() == 0);
                        assert(done + frames(data@.skip(offset as int)) =~= done);
                    }
                }
            },
        }
    }
    if found {
        Some(protocols)
    } else {
        None
    }
}

/// `texts` in UTF-8, one record each.
pub open spec fn text_records(texts: Seq<Seq<char>>) -> Seq<Seq<u8>> {
    texts.map_values(|text: Seq<char>| encode_utf8(text))
}

/// What is found in two parts of the same bytes: both, with a space between them.
pub open spec fn both_found(first: Option<Seq<char>>, second: Option<Seq<char>>) -> Option<
    Seq<char>,
> {
    match (first, second) {
        (Some(a), Some(b)) => Some(a + seq![' '] + b),
        (Some(a), None) => Some(a),
        (None, _) => second,
    }
}

/// Law: what whole records hold, text or not, is found whatever follows them, and behind it what is
/// found in that alone.
pub proof fn law_protocols_in_parts(first: Seq<u8>, second: Seq<u8>)
    requires
        is_whole(first),
    ensures
        multistream_protocol(first + second) == both_found(
            multistream_protocol(first),
            multistream_protocol(second),
        ),
{
    law_frames_in_parts(first, second);
    lemma_protocol_texts_add(frames(first), frames(second));
    let a = protocol_texts(frames(first));
    let b = protocol_texts(frames(second));
    if a.len() == 0 {
        assert(a + b =~= b);
    } else if b.len() == 0 {
        assert(a + b =~= a);
    } else {
        law_joined_in_parts(a, b, seq![' ']);
    }
}

proof fn lemma_protocol_texts_add(first: Seq<Seq<u8>>, second: Seq<Seq<u8>>)
    ensures
        protocol_texts(first + second) == protocol_texts(first) + protocol_texts(second),
    decreases second.len(),
{
    let all = first + second;
    if second.len() == 0 {
        assert(all =~= first);
        assert(protocol_texts(first) + protocol_texts(second) =~= protocol_texts(first));
    } else {
        lemma_protocol_texts_add(first, second.drop_last());
        assert(all.drop_last() =~= first + second.drop_last());
        assert(all.last() == second.last());
        assert(protocol_texts(all) =~= protocol_texts(first) + protocol_texts(second));
    }
}

/// Law: of texts that were sent as records, exactly the protocol texts are found, in the order
/// in which they were sent, whatever follows; what follows is read as it would be read alone.
pub proof fn law_protocol_texts_are_found(texts: Seq<Seq<char>>, tail: Seq<u8>)
    requires
        forall|i: int| 0 <= i < texts.len() ==> encode_utf8(#[trigger] texts[i]).len() <= u64::MAX,
    ensures
        protocol_texts(frames(framed(text_records(texts)) + tail)) == texts.filter(
            |text: Seq<char>| is_protocol_text(text),
        ) + protocol_texts(frames(tail)),
{
    let records = text_records(texts);
    assert forall|i: int| 0 <= i < records.len() implies (#[trigger] records[i]).len()
        <= u64::MAX by {
        assert(encode_utf8(texts[i]).len() <= u64::MAX);
    }
    law_frames_round_trip(records, tail);
    lemma_protocol_texts_add(records, frames(tail));
    lemma_texts_of_records(texts);
}

proof fn lemma_texts_of_records(texts: Seq<Seq<char>>)
    ensures
        protocol_texts(text_records(texts)) == texts.filter(
            |text: Seq<char>| is_protocol_text(text),
        ),
    decreases texts.len(),
{
    reveal(Seq::filter);
    let records = text_records(texts);
    if texts.len() > 0 {
        lemma_texts_of_records(texts.drop_last());
        assert(records.drop_last() =~= text_records(texts.drop_last()));
        assert(records.last() == encode_utf8(texts.last()));
        vstd::utf8::encode_utf8_valid_utf8(texts.last());
        vstd::utf8::encode_utf8_decode_utf8(texts.last());
    }
}

/// Law: what is found in a record and the bytes behind it. A record is found if and only if it is
/// UTF-8 and its first character is a slash, however long it is, or it is `na` with nothing but white
/// space behind it; a space then stands between it and what is found in the rest.
pub proof fn law_protocol_in_front(prefix: Seq<u8>, record: Seq<u8>, rest: Seq<u8>)
    requires
        varint(prefix) == Some((record.len(), prefix.len())),
    ensures
        ({
            let text = decode_utf8(record);
            let is_found = valid_utf8(record) && ((text.len() > 0 && text[0] == '/') || (text.len()
                >= 2 && text[0] == 'n' && text[1] == 'a' && forall|i: int|
                2 <= i < text.len() ==> ({
                    let u = #[trigger] text[i] as u32;
                    u == 0x20 || (9 <= u && u <= 13) || u == 0x85 || u == 0xA0 || u == 0x1680 || (
                    0x2000 <= u && u <= 0x200A) || u == 0x2028 || u == 0x2029 || u == 0x202F || u
                        == 0x205F || u == 0x3000
                })));
            let found = multistream_protocol(prefix + record + rest);
            if is_found {
                found == match multistream_protocol(rest) {
                    Some(more) => Some(text + seq![' '] + more),
                    None => Some(text),
                }
            } else {
                found == multistream_protocol(rest)
            }
        }),
{
    let text = decode_utf8(record);
    let one = seq![record];
    law_record_behind_its_length(prefix, record, rest);
    lemma_protocol_texts_add(one, frames(rest));
    assert(one.drop_last() =~= Seq::<Seq<u8>>::empty());
    assert(protocol_texts(one.drop_last()) =~= Seq::<Seq<char>>::empty());
    lemma_trimmed_end(text);
    let a = protocol_texts(one);
    let b = protocol_texts(frames(rest));
    if protocol_text(record) is Some {
        assert(a =~= seq![text]);
        if b.len() == 0 {
            assert(a + b =~= a);
        } else {
            law_joined_in_parts(a, b, seq![' ']);
        }
    } else {
        assert(a + b =~= b);
    }
    assert(forall|i: int| 2 <= i < text.len() ==> is_white_space(#[trigger] text[i]) == ({
        let u = text[i] as u32;
        u == 0x20 || (9 <= u && u <= 13) || u == 0x85 || u == 0xA0 || u == 0x1680 || (0x2000 <= u
            && u <= 0x200A) || u == 0x2028 || u == 0x2029 || u == 0x202F || u == 0x205F || u
            == 0x3000
    }));
}

/// Law: nothing is found where there is no length, or where fewer bytes are left than it says.
pub proof fn law_no_protocol_without_a_record(data: Seq<u8>)
    requires
        match varint(data) {
            Some((length, n)) => n + length > data.len(),
            None => true,
        },
    ensures
        multistream_protocol(data) is None,
{
}

proof fn lemma_trimmed_end(text: Seq<char>)
    ensures
        trimmed_end(text) == seq!['n', 'a'] <==> text.len() >= 2 && text[0] == 'n' && text[1] == 'a'
            && forall|i: int| 2 <= i < text.len() ==> is_white_space(#[trigger] text[i]),
    decreases text.len(),
{
    if text.len() > 0 && is_white_space(text.last()) {
        let shorter = text.drop_last();
        lemma_trimmed_end(shorter);
        if text.len() >= 2 && text[0] == 'n' && text[1] == 'a' {
            assert(text.len() > 2);
            if trimmed_end(text) == seq!['n', 'a'] {
                assert forall|i: int| 2 <= i < text.len() implies is_white_space(
                    #[trigger] text[i],
                ) by {
                    if i < shorter.len() {
                        assert(shorter[i] == text[i]);
                    }
                }
            }
            if forall|i: int| 2 <= i < text.len() ==> is_white_space(#[trigger] text[i]) {
                assert forall|i: int| 2 <= i < shorter.len() implies is_white_space(
                    #[trigger] shorter[i],
                ) by {
                    assert(is_white_space(text[i]));
                }
            }
        }
        if trimmed_end(text) == seq!['n', 'a'] {
            assert(text[0] == shorter[0] && text[1] == shorter[1]);
        }
    } else {
        if text.len() > 2 {
            assert(!is_white_space(text[text.len() - 1]));
        }
        if text.len() == 2 && text[0] == 'n' && text[1] == 'a' {
            assert(text =~= seq!['n', 'a']);
        }
        if text == seq!['n', 'a'] {
            assert(text[0] == 'n' && text[1] == 'a' && text.len() == 2);
        }
    }
}

/// Law: every text that starts with a slash, of any length, is found where it is sent as a record,
/// and so is `na`, alone or with a newline; a text that starts with neither is not.
pub proof fn law_names_are_found(text: Seq<char>, rest: Seq<u8>)
    requires
        encode_utf8(text).len() <= u64::MAX,
    ensures
        ({
            let sent = framed(seq![encode_utf8(text)]) + rest;
            let more = multistream_protocol(rest);
            &&& text.len() > 0 && text[0] == '/' ==> multistream_protocol(sent) == match more {
                Some(others) => Some(text + seq![' '] + others),
                None => Some(text),
            }
            &&& text == seq!['n', 'a'] || text == seq!['n', 'a', '\n'] ==> multistream_protocol(sent)
                == match more {
                Some(others) => Some(text + seq![' '] + others),
                None => Some(text),
            }
            &&& text.len() < 2 || text[0] != 'n' || text[1] != 'a' ==> (text.len() == 0 || text[0]
                != '/' ==> multistream_protocol(sent) == more)
        }),
{
    let record = encode_utf8(text);
    let prefix = varint_bytes(record.len());
    let one = seq![record];
    vstd::utf8::encode_utf8_valid_utf8(text);
    vstd::utf8::encode_utf8_decode_utf8(text);
    law_varint_round_trip(record.len() as u64, Seq::empty());
    assert(prefix + Seq::<u8>::empty() =~= prefix);
    law_protocol_in_front(prefix, record, rest);
    assert(one.skip(1) =~= Seq::<Seq<u8>>::empty());
    assert(framed(one.skip(1)) =~= Seq::<u8>::empty());
    assert(framed(one) + rest =~= prefix + record + rest);
    if text == seq!['n', 'a', '\n'] {
        assert(text[0] == 'n' && text[1] == 'a' && text[2] as u32 == 10);
    }
    if text == seq!['n', 'a'] {
        assert(text[0] == 'n' && text[1] == 'a');
    }
}

} // verus!
