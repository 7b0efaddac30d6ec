//! Points in time, as seconds and nanoseconds since 1970-01-01 00:00:00 UTC.
use vstd::prelude::*;
use chrono::{DateTime, Utc};

verus! {

/// The first second that a calendar date exists for: the start of the year -262143.
pub const MIN_SECS: i64 = -8_334_601_228_800;

/// The last second that a calendar date exists for: the end of the year 262142.
pub const MAX_SECS: i64 = 8_210_266_876_799;

/// The layout in which points in time are shown.
pub const TIMESTAMP_FORMAT: &'static str = "%Y-%m-%d %H:%M:%S%.3f";

/// Whether a point in time has a calendar date. Nanoseconds from one billion on stand for a leap
/// second, which only the last second of a minute can have.
pub open spec fn is_valid(secs: int, nanos: int) -> bool {
    &&& MIN_SECS <= secs <= MAX_SECS
    &&& 0 <= nanos < 2_000_000_000
    &&& nanos >= 1_000_000_000 ==> secs % 60 == 59
}

/// The number of seconds that 64 bits stand for when they are read as a signed number.
pub open spec fn signed_secs(secs: u64) -> int {
    if secs <= i64::MAX {
        secs as int
    } else {
        secs - 0x1_0000_0000_0000_0000
    }
}

/// The text for a point in time in a given layout.
pub uninterp spec fn formatted_time(secs: i64, nanos: u32, layout: Seq<char>) -> Seq<char>;

/// Whether a character can stand in the text for a point in time.
pub open spec fn is_time_char(c: char) -> bool {
    ||| '0' <= c <= '9'
    ||| c == '-'
    ||| c == '+'
    ||| c == ':'
    ||| c == '.'
    ||| c == ' '
}

/// `DateTime::from_timestamp`: the same seconds and nanoseconds where they have a calendar date,
/// and `None` where they have none.
#[verifier::external_body]
fn date_time_from_timestamp(secs: i64, nanos: u32) -> (r: Option<(i64, u32)>)
    ensures
        r == (if is_valid(secs as int, nanos as int) {
            Some((secs, nanos))
        } else {
            None
        }),
{
    DateTime::from_timestamp(secs, nanos).map(|t| (t.timestamp(), t.timestamp_subsec_nanos()))
}

/// `Utc::now`: some point in time that has a calendar date and is not inside a leap second. Nothing
/// is said of which: that is the clock's to tell. The call panics where the system clock stands
/// before 1970, which no argument can rule out.
#[verifier::external_body]
fn utc_now() -> (r: (i64, u32))
    ensures
        is_valid(r.0 as int, r.1 as int),
        r.1 < 1_000_000_000,
{
    let now: DateTime<Utc> = Utc::now();
    (now.timestamp(), now.timestamp_subsec_nanos())
}

/// `DateTime::format`: the text for a point in time in the layout for timestamps. It is named, and
/// of its characters only the kinds are stated: digits, signs, colons, the dot and the space.
#[verifier::external_body]
fn date_time_format(secs: i64, nanos: u32, layout: &str) -> (r: String)
    requires
        is_valid(secs as int, nanos as int),
        layout@ == TIMESTAMP_FORMAT@,
    ensures
        r@ == formatted_time(secs, nanos, layout@),
        forall|i: int| 0 <= i < r@.len() ==> is_time_char(#[trigger] r@[i]),
{
    let time: DateTime<Utc> = DateTime::from_timestamp(secs, nanos).unwrap();
    time.format(layout).to_string()
}

/// A point in time that has a calendar date.
#[derive(Debug, Clone, Copy, PartialEq, Eq, Structural)]
pub struct Timestamp {
    secs: i64,
    nanos: u32,
}

impl Timestamp {
    /// Seconds since 1970.
    pub closed spec fn spec_secs(self) -> i64 {
        self.secs
    }

    /// Nanoseconds behind the second.
    pub closed spec fn spec_nanos(self) -> u32 {
        self.nanos
    }

    #[verifier::type_invariant]
    spec fn has_date(self) -> bool {
        is_valid(self.secs as int, self.nanos as int)
    }

    /// The text for the point in time, to the millisecond.
    pub open spec fn spec_text(self) -> Seq<char> {
        formatted_time(self.spec_secs(), self.spec_nanos(), TIMESTAMP_FORMAT@)
    }

    /// The point in time so many seconds and nanoseconds after 1970, if it has a calendar date.
    pub fn from_timestamp(secs: i64, nanos: u32) -> (r: Option<Timestamp>)
        ensures
            r is Some <==> is_valid(secs as int, nanos as int),
            r matches Some(t) ==> t.spec_secs() == secs && t.spec_nanos() == nanos,
    {
        match date_time_from_timestamp(secs, nanos) {
            Some((secs, nanos)) => Some(Timestamp { secs, nanos }),
            None => None,
        }
    }

    /// The point in time that the clock shows.
    pub fn now() -> (r: Timestamp)
        ensures
            is_valid(r.spec_secs() as int, r.spec_nanos() as int),
            r.spec_nanos() < 1_000_000_000,
    {
        let (secs, nanos) = utc_now();
        Timestamp { secs, nanos }
    }

    /// Seconds since 1970.
    pub fn secs(&self) -> (r: i64)
        ensures
            r == self.spec_secs(),
            MIN_SECS <= r <= MAX_SECS,
    {
        proof {
            use_type_invariant(self);
        }
        self.secs
    }

    /// Nanoseconds behind the second.
    pub fn nanos(&self) -> (r: u32)
        ensures
            r == self.spec_nanos(),
            is_valid(self.spec_secs() as int, r as int),
    {
        proof {
            use_type_invariant(self);
        }
        self.nanos
    }

    /// The text for the point in time, to the millisecond.
    pub fn text(&self) -> (r: String)
        ensures
            r@ == self.spec_text(),
            forall|i: int| 0 <= i < r@.len() ==> is_time_char(#[trigger] r@[i]),
    {
        proof {
            use_type_invariant(self);
        }
        date_time_format(self.secs, self.nanos, TIMESTAMP_FORMAT)
    }
}

/// Law: a point in time is its seconds and nanoseconds, and nothing else.
pub proof fn law_timestamp_is_its_parts(a: Timestamp, b: Timestamp)
    requires
        a.spec_secs() == b.spec_secs(),
        a.spec_nanos() == b.spec_nanos(),
    ensures
        a == b,
{
}

/// The time of a packet that carries so many seconds, read as a signed number, and nanoseconds; `now`
/// where there is no date for them.
pub fn packet_timestamp_at(secs: u64, nanos: u32, now: Timestamp) -> (r: Timestamp)
    ensures
        is_valid(signed_secs(secs), nanos as int) ==> r.spec_secs() == signed_secs(secs)
            && r.spec_nanos() == nanos,
        !is_valid(signed_secs(secs), nanos as int) ==> r == now,
{
    match Timestamp::from_timestamp(as_signed(secs), nanos) {
        Some(t) => t,
        None => now,
    }
}

/// The number of seconds that 64 bits stand for when they are read as a signed number.
fn as_signed(secs: u64) -> (r: i64)
    ensures
        r == signed_secs(secs),
{
    assert(secs <= 0x7FFF_FFFF_FFFF_FFFF ==> secs as i64 == secs) by (bit_vector);
    assert(secs > 0x7FFF_FFFF_FFFF_FFFF ==> secs as i64 == secs - 0x1_0000_0000_0000_0000)
        by (bit_vector);
    secs as i64
}

/// The time of a packet that carries so many seconds, read as a signed number, and nanoseconds;
/// the time of the clock where there is no date for them.
pub fn packet_timestamp(secs: u64, nanos: u32) -> (r: Timestamp)
    ensures
        is_valid(r.spec_secs() as int, r.spec_nanos() as int),
        is_valid(signed_secs(secs), nanos as int) ==> r.spec_secs() == signed_secs(secs)
            && r.spec_nanos() == nanos,
{
    match Timestamp::from_timestamp(as_signed(secs), nanos) {
        Some(t) => t,
        // The clock is read only where it is needed.
        None => packet_timestamp_at(secs, nanos, Timestamp::now()),
    }
}

/// Law: a point in time has a date from the start of the year -262143 to the end of the year 262142,
/// with nanoseconds under one billion, or under two in the last second of a minute.
pub proof fn law_dates(secs: int, nanos: int)
    ensures
        0 <= nanos < 1_000_000_000 ==> (is_valid(secs, nanos) <==> -8_334_601_228_800 <= secs
            <= 8_210_266_876_799),
        1_000_000_000 <= nanos < 2_000_000_000 ==> (is_valid(secs, nanos) <==> -8_334_601_228_800
            <= secs <= 8_210_266_876_799 && secs % 60 == 59),
        nanos < 0 || nanos >= 2_000_000_000 ==> !is_valid(secs, nanos),
{
}

/// Law: 64 bits under 2^63 are the seconds that they stand for, and others lie 2^64 below that.
pub proof fn law_signed_secs(secs: u64)
    ensures
        secs < 0x8000_0000_0000_0000 ==> signed_secs(secs) == secs,
        secs >= 0x8000_0000_0000_0000 ==> signed_secs(secs) == secs - 0x1_0000_0000_0000_0000,
{
}

/// Law: the text for a point in time is that for all its seconds and nanoseconds, to the millisecond.
pub proof fn law_time_text(t: Timestamp)
    ensures
        t.spec_text() == formatted_time(t.spec_secs(), t.spec_nanos(), "%Y-%m-%d %H:%M:%S%.3f"@),
{
}

} // verus!
