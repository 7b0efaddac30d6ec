//! Records that each stand behind their own length.
use vstd::prelude::*;
use crate::varint::{decode_varint, varint, varint_bytes};
use crate::varint::{law_varint_reads_only_its_bytes, law_varint_round_trip, lemma_varint_bounds};

verus! {

/// The records of `data`: each is a variable length integer and as many bytes as it says. The
/// walk ends at the first record whose length cannot be read or runs past the end of `data`.
pub open spec fn frames(data: Seq<u8>) -> Seq<Seq<u8>>
    decreases data.len(),
{
    match varint(data) {
        Some((length, n)) if n + length <= data.len() => {
            seq![data.subrange(n as int, (n + length) as int)] + frames(
                data.skip((n + length) as int),
            )
        },
        _ => Seq::empty(),
    }
}

/// `records` written one after the other, each behind its length.
pub open spec fn framed(records: Seq<Seq<u8>>) -> Seq<u8>
    decreases records.len(),
{
    if records.len() == 0 {
        Seq::empty()
    } else {
        varint_bytes(records[0].len()) + records[0] + framed(records.skip(1))
    }
}

/// Where the record that starts at `offset` has its bytes, or `None` at the end of the walk.
pub fn next_frame(data: &[u8], offset: usize) -> (r: Option<(usize, usize)>)
    requires
        offset <= data@.len(),
    ensures
        match r {
            Some((start, end)) => {
                &&& offset < start <= end <= data@.len()
                &&& frames(data@.skip(offset as int)) == seq![
                    data@.subrange(start as int, end as int),
                ] + frames(data@.skip(end as int))
            },
            None => frames(data@.skip(offset as int)) == Seq::<Seq<u8>>::empty(),
        },
{
    let rest = vstd::slice::slice_subrange(data, offset, data.len());
    assert(rest@ =~= data@.skip(offset as int));
    proof {
        lemma_varint_bounds(rest@);
    }
    match decode_varint(rest) {
        Some((length, n)) => {
            if length > (rest.len() - n) as u64 {
                None
            } else {
                let start: usize = offset + n;
                let end: usize = start + length as usize;
                assert(rest@.subrange(n as int, n + length) =~= data@.subrange(
                    start as int,
                    end as int,
                ));
                assert(rest@.skip(n + length) =~= data@.skip(end as int));
                Some((start, end))
            }
        },
        None => None,
    }
}

/// Whether `data` is made of records up to its end.
pub open spec fn is_whole(data: Seq<u8>) -> bool
    decreases data.len(),
{
    ||| data.len() == 0
    ||| match varint(data) {
        Some((length, n)) => n + length <= data.len() && is_whole(
            data.skip((n + length) as int),
        ),
        None => false,
    }
}

/// Law: records come back as they were written, in order, and what follows them is read as it
/// would be read alone.
pub proof fn law_frames_round_trip(records: Seq<Seq<u8>>, tail: Seq<u8>)
    requires
        forall|i: int| 0 <= i < records.len() ==> (#[trigger] records[i]).len() <= u64::MAX,
    ensures
        is_whole(framed(records)),
        frames(framed(records) + tail) == records + frames(tail),
    decreases records.len(),
{
    if records.len() == 0 {
        assert(framed(records) + tail =~= tail);
        assert(records + frames(tail) =~= frames(tail));
    } else {
        let first = records[0];
        let more = framed(records.skip(1)) + tail;
        let data = framed(records) + tail;
        let prefix = varint_bytes(first.len());
        law_frames_round_trip(records.skip(1), tail);
        law_varint_round_trip(first.len() as u64, first + more);
        assert(data =~= prefix + (first + more));
        let n = prefix.len() as int;
        assert(data.subrange(n, n + first.len()) =~= first);
        assert(data.skip(n + first.len()) =~= more);
        assert(records + frames(tail) =~= seq![first] + (records.skip(1) + frames(tail)));
        law_varint_round_trip(first.len() as u64, first + framed(records.skip(1)));
        assert(framed(records) =~= prefix + (first + framed(records.skip(1))));
        assert(framed(records).skip(n + first.len()) =~= framed(records.skip(1)));
    }
}

/// Law: whole records, however their lengths are written, are read as they would be read alone, and
/// so is what follows them, whatever that is.
pub proof fn law_frames_in_parts(first: Seq<u8>, second: Seq<u8>)
    requires
        is_whole(first),
    ensures
        frames(first + second) == frames(first) + frames(second),
    decreases first.len(),
{
    let data = first + second;
    if first.len() == 0 {
        assert(data =~= second);
        assert(frames(first) + frames(second) =~= frames(second));
    } else {
        let (length, n) = varint(first).unwrap();
        let end = (n + length) as int;
        law_frames_in_parts(first.skip(end), second);
        law_varint_reads_only_its_bytes(first, first.skip(n as int) + second);
        assert(data =~= first.take(n as int) + (first.skip(n as int) + second));
        assert(data.subrange(n as int, end) =~= first.subrange(n as int, end));
        assert(data.skip(end) =~= first.skip(end) + second);
        assert(frames(data) =~= frames(first) + frames(second));
    }
}

/// Law: a record that promises more bytes than are left yields nothing, and takes nothing from
/// the records before it.
pub proof fn law_cut_off_record_is_dropped(records: Seq<Seq<u8>>, last: Seq<u8>, keep: int)
    requires
        forall|i: int| 0 <= i < records.len() ==> (#[trigger] records[i]).len() <= u64::MAX,
        last.len() <= u64::MAX,
        0 <= keep < last.len(),
    ensures
        frames(framed(records) + varint_bytes(last.len()) + last.take(keep)) == records,
{
    let tail = varint_bytes(last.len()) + last.take(keep);
    law_frames_round_trip(records, tail);
    law_varint_round_trip(last.len() as u64, last.take(keep));
    assert(framed(records) + varint_bytes(last.len()) + last.take(keep) =~= framed(records) + tail);
    assert(records + frames(tail) =~= records);
}

/// Law: bytes behind their length are a record, whatever they are and however the length is written,
/// and what follows them is read as it would be read alone.
pub proof fn law_record_behind_its_length(prefix: Seq<u8>, record: Seq<u8>, rest: Seq<u8>)
    requires
        varint(prefix) == Some((record.len(), prefix.len())),
    ensures
        frames(prefix + record + rest) == seq![record] + frames(rest),
{
    let data = prefix + record + rest;
    law_varint_reads_only_its_bytes(prefix, record + rest);
    assert(prefix.take(prefix.len() as int) =~= prefix);
    assert(data =~= prefix + (record + rest));
    let n = prefix.len() as int;
    assert(data.subrange(n, n + record.len()) =~= record);
    assert(data.skip(n + record.len()) =~= rest);
}

/// Law: there is no record where there is no length, or where fewer bytes are left than it says.
pub proof fn law_no_record_without_its_bytes(data: Seq<u8>)
    requires
        match varint(data) {
            Some((length, n)) => n + length > data.len(),
            None => true,
        },
    ensures
        frames(data).len() == 0,
{
}

} // verus!
