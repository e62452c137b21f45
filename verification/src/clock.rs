//! Moments in time (UTC), written and read back as text by `chrono`.

use vstd::prelude::*;

verus! {

/// A UTC moment: whole seconds since the Unix epoch and the nanoseconds
/// past that second.
#[derive(Debug, Clone, Copy, PartialEq, Eq, Structural)]
pub struct Moment {
    pub secs: i64,
    pub nanos: u32,
}

/// The earliest timestamp that `chrono` can represent (January 1 of year
/// -262143, 00:00:00).
pub const MIN_TIMESTAMP: i64 = -8334601228800i64;

/// The latest whole-second timestamp that `chrono` can represent
/// (December 31 of year 262142, 23:59:59).
pub const MAX_TIMESTAMP: i64 = 8210266876799i64;

/// The largest number of seconds that `chrono::TimeDelta::seconds` accepts.
pub const MAX_DELTA_SECS: i64 = 9223372036854775i64;

/// A moment that `chrono` can represent, outside a leap second.
pub open spec fn representable(m: Moment) -> bool {
    MIN_TIMESTAMP <= m.secs <= MAX_TIMESTAMP && m.nanos < 1_000_000_000
}

/// `a` comes strictly before `b`.
pub open spec fn earlier(a: Moment, b: Moment) -> bool {
    a.secs < b.secs || (a.secs == b.secs && a.nanos < b.nanos)
}

/// Whether `a` comes strictly before `b`.
pub fn is_earlier(a: Moment, b: Moment) -> (r: bool)
    ensures
        r == earlier(a, b),
{
    a.secs < b.secs || (a.secs == b.secs && a.nanos < b.nanos)
}

/// What `chrono`'s `str::parse::<NaiveDateTime>` gives on a text, as the
/// (seconds, nanoseconds) timestamp of that date and time taken as UTC.
pub uninterp spec fn spec_parse_datetime(s: Seq<char>) -> Option<(i64, u32)>;

/// What `chrono` writes (`Debug` of `NaiveDateTime`) for the UTC moment
/// with the given timestamp.
pub uninterp spec fn spec_format_datetime(secs: i64, nanos: u32) -> Seq<char>;

/// `chrono`'s `str::parse::<NaiveDateTime>` (format `%Y-%m-%dT%H:%M:%S%.f`),
/// the parsed date and time read as a UTC timestamp. The contract only names
/// the result as a function of the text.
#[verifier::external_body]
pub fn parse_datetime(s: &str) -> (r: Option<Moment>)
    ensures
        match r {
            Some(m) => spec_parse_datetime(s@) == Some((m.secs, m.nanos)),
            None => spec_parse_datetime(s@).is_none(),
        },
{
    match s.parse::<chrono::NaiveDateTime>() {
        Ok(t) => Some(Moment { secs: t.and_utc().timestamp(), nanos: t.and_utc().timestamp_subsec_nanos() }),
        Err(_) => None,
    }
}

/// `chrono`'s `Debug` text of the `NaiveDateTime` of a UTC moment
/// (`format!("{:?}", DateTime::from_timestamp(..).naive_utc())`), that is
/// `%Y-%m-%dT%H:%M:%S%.f`. The contract names the text as a function of the
/// moment and states that it reads back: chrono documents that
/// `NaiveDateTime::from_str` takes "the same format ... as in `Debug`", and
/// the text holds the moment's second and nanoseconds exactly.
/// `from_timestamp` succeeds on every representable moment, which
/// `requires` asks.
#[verifier::external_body]
pub fn format_datetime(m: Moment) -> (r: String)
    requires
        representable(m),
    ensures
        r@ == spec_format_datetime(m.secs, m.nanos),
        spec_parse_datetime(r@) == Some((m.secs, m.nanos)),
{
    format!("{:?}", chrono::DateTime::from_timestamp(m.secs, m.nanos).unwrap().naive_utc())
}

/// What `chrono` writes (`Display` of `NaiveDateTime`) for the UTC moment
/// with the given timestamp.
pub uninterp spec fn spec_display_datetime(secs: i64, nanos: u32) -> Seq<char>;

/// `chrono`'s `Display` text of the `NaiveDateTime` of a UTC moment
/// (`DateTime::from_timestamp(..).naive_utc().to_string()`), that is
/// `%Y-%m-%d %H:%M:%S%.f`. The contract names the text as a function of the
/// moment. `from_timestamp` succeeds on every representable moment, which
/// `requires` asks.
#[verifier::external_body]
pub fn display_datetime(m: Moment) -> (r: String)
    requires
        representable(m),
    ensures
        r@ == spec_display_datetime(m.secs, m.nanos),
{
    chrono::DateTime::from_timestamp(m.secs, m.nanos).unwrap().naive_utc().to_string()
}

/// The value of `cooldown as i64` (two's complement wrap-around).
pub open spec fn wrapped_seconds(cooldown: u64) -> int {
    if cooldown <= i64::MAX {
        cooldown as int
    } else {
        cooldown as int - 0x1_0000_0000_0000_0000
    }
}

/// `now + TimeDelta::seconds(cooldown as i64)`, as `chrono` computes it;
/// `None` where chrono would panic (the delta or the sum out of range).
pub open spec fn deadline_after(now: Moment, cooldown: u64) -> Option<Moment> {
    let c = wrapped_seconds(cooldown);
    if -MAX_DELTA_SECS <= c <= MAX_DELTA_SECS && MIN_TIMESTAMP <= now.secs + c <= MAX_TIMESTAMP {
        Some(Moment { secs: (now.secs + c) as i64, nanos: now.nanos })
    } else {
        None
    }
}

/// The moment `cooldown` seconds after `now` (the seconds taken as `i64`).
pub fn deadline(now: Moment, cooldown: u64) -> (r: Option<Moment>)
    ensures
        r == deadline_after(now, cooldown),
        r matches Some(d) ==> (representable(now) ==> representable(d)),
{
    let c: i64 = if cooldown <= 9223372036854775807u64 {
        cooldown as i64
    } else {
        let k: u64 = cooldown - 9223372036854775808u64;
        // k < 2^63; cooldown - 2^64 == k - 2^63
        (k as i64) - 9223372036854775807i64 - 1
    };
    assert(c == wrapped_seconds(cooldown));
    if c > MAX_DELTA_SECS || c < -MAX_DELTA_SECS {
        return None;
    }
    match now.secs.checked_add(c) {
        Some(t) => {
            if MIN_TIMESTAMP <= t && t <= MAX_TIMESTAMP {
                Some(Moment { secs: t, nanos: now.nanos })
            } else {
                None
            }
        },
        None => None,
    }
}

} // verus!
