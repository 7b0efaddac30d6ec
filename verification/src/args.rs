//! What is asked of an analysis.
use vstd::prelude::*;
use crate::message::{views, Message, MessageView};

verus! {

/// The choices of the user.
#[derive(Debug)]
pub struct Args {
    /// The address of the dialer.
    pub dialer_ip: Option<String>,
    /// Keep all messages, not only those with flags.
    pub all_messages: bool,
    /// Give the results as comma-separated values.
    pub csv: bool,
    /// Show the lengths and the first bytes of payloads.
    pub show_payload: bool,
    /// Keep only messages with payloads larger than this.
    pub min_payload_size: Option<usize>,
    /// Show all bytes of payloads in hexadecimal digits.
    pub dump_payload: bool,
    /// Show guesses at what payloads are.
    pub analyze_payload: bool,
}

impl Args {
    /// Whether anything of payloads is shown.
    pub open spec fn spec_shows_payload(self) -> bool {
        self.show_payload || self.dump_payload || self.analyze_payload
    }

    /// Whether anything of payloads is shown.
    pub fn shows_payload(&self) -> (r: bool)
        ensures
            r == self.spec_shows_payload(),
    {
        self.show_payload || self.dump_payload || self.analyze_payload
    }

    /// Whether bytes of payloads are shown.
    pub open spec fn spec_shows_bytes(self) -> bool {
        self.show_payload || self.dump_payload
    }

    /// Whether bytes of payloads are shown.
    pub fn shows_bytes(&self) -> (r: bool)
        ensures
            r == self.spec_shows_bytes(),
    {
        self.show_payload || self.dump_payload
    }

    /// Whether a message is kept.
    pub open spec fn spec_keeps(self, m: MessageView) -> bool {
        &&& self.all_messages || m.flag is Some || (self.analyze_payload && m.sctp_event is Some)
        &&& self.min_payload_size matches Some(min_size) ==> m.payload_len > min_size
    }

    /// Whether a message is kept: all are if that is asked for, and else those with a flag, and
    /// resets where payloads are analyzed; of these, the ones whose payload is larger than the given
    /// size.
    pub fn keeps(&self, m: &Message) -> (r: bool)
        ensures
            r == self.spec_keeps(m@),
    {
        if !self.all_messages {
            if m.flag.is_none() && !(self.analyze_payload && m.sctp_event.is_some()) {
                return false;
            }
        }
        match self.min_payload_size {
            Some(min_size) => m.payload_len > min_size,
            None => true,
        }
    }
}

/// Those of `messages` that are kept, in their order.
pub open spec fn kept(messages: Seq<MessageView>, args: Args) -> Seq<MessageView> {
    messages.filter(|m: MessageView| args.spec_keeps(m))
}

/// Drops the messages that are not kept.
pub fn filter_messages(messages: Vec<Message>, args: &Args) -> (r: Vec<Message>)
    ensures
        views(r@) == kept(views(messages@), *args),
{
    let mut filtered: Vec<Message> = Vec::new();
    let ghost all = messages@;
    reveal(Seq::filter);
    assert(views(all).take(0) =~= Seq::<MessageView>::empty());
    assert(views(filtered@) =~= kept(views(all).take(0), *args));
    for m in it: messages
        invariant
            it.seq() == all,
            views(filtered@) == kept(views(all).take(it.index() as int), *args),
    {
        reveal(Seq::filter);
        let ghost i = it.index() as int;
        let ghost before = filtered@;
        assert(views(all).take(i + 1).drop_last() =~= views(all).take(i));
        assert(views(all).take(i + 1).last() == m@);
        if args.keeps(&m) {
            filtered.push(m);
            assert(views(filtered@) =~= views(before).push(m@));
        }
    }
    assert(views(all).take(all.len() as int) =~= views(all));
    filtered
}

/// Law: keeping is settled in one go; what was kept is kept again.
pub proof fn law_kept_again(messages: Seq<MessageView>, args: Args)
    ensures
        kept(kept(messages, args), args) == kept(messages, args),
    decreases messages.len(),
{
    reveal(Seq::filter);
    if messages.len() > 0 {
        law_kept_again(messages.drop_last(), args);
        let before = kept(messages.drop_last(), args);
        if args.spec_keeps(messages.last()) {
            assert(before.push(messages.last()).drop_last() =~= before);
        }
    }
}

/// Law: where all messages are asked for, of any length, none is dropped.
pub proof fn law_all_are_kept(messages: Seq<MessageView>, args: Args)
    requires
        args.all_messages,
        args.min_payload_size is None,
    ensures
        kept(messages, args) == messages,
    decreases messages.len(),
{
    reveal(Seq::filter);
    if messages.len() > 0 {
        law_all_are_kept(messages.drop_last(), args);
        assert(messages.drop_last().push(messages.last()) =~= messages);
    } else {
        assert(kept(messages, args) =~= messages);
    }
}

/// Law: nothing is kept that was not there, and what is kept passes the test.
pub proof fn law_kept_were_there(messages: Seq<MessageView>, args: Args)
    ensures
        kept(messages, args).len() <= messages.len(),
        forall|i: int|
            0 <= i < kept(messages, args).len() ==> args.spec_keeps(
                #[trigger] kept(messages, args)[i],
            ) && messages.contains(kept(messages, args)[i]),
    decreases messages.len(),
{
    reveal(Seq::filter);
    if messages.len() > 0 {
        let before = kept(messages.drop_last(), args);
        let all = kept(messages, args);
        law_kept_were_there(messages.drop_last(), args);
        assert forall|i: int| 0 <= i < all.len() implies args.spec_keeps(#[trigger] all[i])
            && messages.contains(all[i]) by {
            if i < before.len() {
                assert(all[i] == before[i]);
                let j = choose|j: int|
                    0 <= j < messages.drop_last().len() && messages.drop_last()[j] == before[i];
                assert(messages[j] == all[i]);
            } else {
                assert(messages[messages.len() - 1] == all[i]);
            }
        }
    }
}

/// Law: every message that passes the test is kept.
pub proof fn law_none_that_passes_is_dropped(messages: Seq<MessageView>, args: Args)
    ensures
        forall|i: int|
            0 <= i < messages.len() && args.spec_keeps(#[trigger] messages[i]) ==> kept(
                messages,
                args,
            ).contains(messages[i]),
    decreases messages.len(),
{
    reveal(Seq::filter);
    if messages.len() > 0 {
        let last = messages.last();
        let before = kept(messages.drop_last(), args);
        let all = kept(messages, args);
        law_none_that_passes_is_dropped(messages.drop_last(), args);
        assert forall|i: int|
            0 <= i < messages.len() && args.spec_keeps(#[trigger] messages[i]) implies all.contains(
            messages[i],
        ) by {
            if i < messages.len() - 1 {
                assert(messages.drop_last()[i] == messages[i]);
                let j = choose|j: int| 0 <= j < before.len() && before[j] == messages[i];
                assert(all[j] == messages[i]);
            } else {
                assert(all[before.len() as int] == last);
            }
        }
    }
}

/// Law: where a size is given, only messages with payloads larger than that are kept.
pub proof fn law_kept_payloads_are_larger(messages: Seq<MessageView>, args: Args)
    ensures
        args.min_payload_size matches Some(min_size) ==> forall|i: int|
            0 <= i < kept(messages, args).len() ==> (#[trigger] kept(messages, args)[i]).payload_len
                > min_size,
{
    law_kept_were_there(messages, args);
}

/// Law: one message after another can be put through the test, or many at once.
pub proof fn law_kept_in_parts(first: Seq<MessageView>, second: Seq<MessageView>, args: Args)
    ensures
        kept(first + second, args) == kept(first, args) + kept(second, args),
{
    Seq::filter_distributes_over_add(first, second, |m: MessageView| args.spec_keeps(m));
}

/// Law: whether one more message is kept shows in its fields alone. It is kept if all are asked for, or
/// it has a flag, whichever that is, or payloads are analyzed and it tells of a reset; and if its
/// payload is larger than the size that was given, where one was. It then stands behind the others.
pub proof fn law_kept_by_fields(messages: Seq<MessageView>, m: MessageView, args: Args)
    ensures
        kept(Seq::empty(), args).len() == 0,
        (args.all_messages || m.flag is Some || (args.analyze_payload && m.sctp_event is Some)) && (
        args.min_payload_size is None || m.payload_len > args.min_payload_size.unwrap()) ==> kept(
            messages.push(m),
            args,
        ) == kept(messages, args).push(m),
        !((args.all_messages || m.flag is Some || (args.analyze_payload && m.sctp_event is Some))
            && (args.min_payload_size is None || m.payload_len > args.min_payload_size.unwrap()))
            ==> kept(messages.push(m), args) == kept(messages, args),
{
    reveal(Seq::filter);
    assert(messages.push(m).drop_last() =~= messages);
}

/// Law: where no size is given, every message with a flag is kept, whichever of the four it is, every
/// reset where payloads are analyzed, and every message where all are asked for.
pub proof fn law_flags_and_resets_are_kept(messages: Seq<MessageView>, args: Args)
    requires
        args.min_payload_size is None,
    ensures
        forall|i: int|
            0 <= i < messages.len() && ((#[trigger] messages[i]).flag is Some || (
            args.analyze_payload && messages[i].sctp_event is Some) || args.all_messages) ==> kept(
                messages,
                args,
            ).contains(messages[i]),
{
    law_none_that_passes_is_dropped(messages, args);
}

/// Law: where neither all messages nor resets are asked for, every message that is kept has a flag.
pub proof fn law_only_flags_are_kept(messages: Seq<MessageView>, args: Args)
    requires
        !args.all_messages,
    ensures
        forall|i: int|
            0 <= i < kept(messages, args).len() ==> (#[trigger] kept(messages, args)[i]).flag is Some
                || (args.analyze_payload && kept(messages, args)[i].sctp_event is Some),
{
    law_kept_were_there(messages, args);
}

} // verus!
