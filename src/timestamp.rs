//! Naive instants, counted in whole seconds, read and written through chrono.
use vstd::prelude::*;

verus! {

/// The earliest instant chrono represents, -262143-01-01 00:00:00, in seconds from the epoch.
pub const TS_MIN: i64 = -8334601228800;

/// The latest instant chrono represents, 262142-12-31 23:59:59, in seconds from the epoch.
pub const TS_MAX: i64 = 8210266876799;

/// A zone-less instant: whole seconds since 1970-01-01 00:00:00.
#[derive(Clone, Copy, Debug, PartialEq, Eq, Structural, Hash)]
pub struct Timestamp {
    pub secs: i64,
}

/// What chrono reads from a `%Y-%m-%d %H:%M:%S` text, in seconds from the epoch.
pub uninterp spec fn parsed_timestamp(s: Seq<char>) -> Option<i64>;

/// The `%Y-%m-%d %H:%M:%S` text chrono writes for an instant given in seconds.
pub uninterp spec fn formatted_timestamp(secs: i64) -> Seq<char>;

/// Relies on chrono's `NaiveDateTime::parse_from_str` with the format
/// `%Y-%m-%d %H:%M:%S`, counted in seconds by `and_utc().timestamp()`:
/// the result depends on the text alone.
#[verifier::external_body]
fn chrono_parse(s: &str) -> (r: Option<i64>)
    ensures
        r == parsed_timestamp(s@),
{
    match chrono::NaiveDateTime::parse_from_str(s, "%Y-%m-%d %H:%M:%S") {
        Ok(d) => Some(d.and_utc().timestamp()),
        Err(_) => None,
    }
}

/// Relies on chrono's `DateTime::from_timestamp` and `format("%Y-%m-%d %H:%M:%S")`:
/// the text depends on the seconds alone (empty outside chrono's range).
#[verifier::external_body]
fn chrono_format(secs: i64) -> (r: String)
    ensures
        r@ == formatted_timestamp(secs),
{
    match chrono::DateTime::from_timestamp(secs, 0) {
        Some(d) => d.naive_utc().format("%Y-%m-%d %H:%M:%S").to_string(),
        None => String::new(),
    }
}

/// Relies on chrono's `From<SystemTime> for DateTime<Utc>` and `timestamp()`:
/// the current instant in UTC, which nothing here can predict. The conversion
/// takes a clock set before 1970 as a negative count and never looks up a
/// time zone.
#[verifier::external_body]
fn chrono_now() -> (r: i64) {
    chrono::DateTime::<chrono::Utc>::from(std::time::SystemTime::now()).timestamp()
}

impl Timestamp {
    /// The earliest representable instant; a card at this instant is always due.
    pub open spec fn min_spec() -> Timestamp {
        Timestamp { secs: TS_MIN }
    }

    /// `now + secs`, held at the latest representable instant.
    pub open spec fn plus_spec(self, secs: u64) -> Timestamp {
        if self.secs + secs > TS_MAX {
            Timestamp { secs: TS_MAX }
        } else {
            Timestamp { secs: (self.secs + secs) as i64 }
        }
    }

    pub fn min() -> (r: Timestamp)
        ensures
            r == Timestamp::min_spec(),
    {
        Timestamp { secs: TS_MIN }
    }

    /// The instant `secs` seconds after `self`, saturating at the latest
    /// representable instant.
    pub fn plus_seconds(self, secs: u64) -> (r: Timestamp)
        ensures
            r == self.plus_spec(secs),
    {
        let sum: i128 = self.secs as i128 + secs as i128;
        if sum > TS_MAX as i128 {
            Timestamp { secs: TS_MAX }
        } else {
            Timestamp { secs: sum as i64 }
        }
    }

    /// Reads a `YYYY-MM-DD HH:MM:SS` text.
    pub fn parse(s: &str) -> (r: Option<Timestamp>)
        ensures
            r == (match parsed_timestamp(s@) {
                Some(secs) => Some(Timestamp { secs }),
                None => None,
            }),
    {
        match chrono_parse(s) {
            Some(secs) => Some(Timestamp { secs }),
            None => None,
        }
    }

    /// Writes the instant as `YYYY-MM-DD HH:MM:SS`.
    pub fn format(&self) -> (r: String)
        ensures
            r@ == formatted_timestamp(self.secs),
    {
        chrono_format(self.secs)
    }

    /// The current instant, read from the system clock.
    pub fn now() -> (r: Timestamp) {
        Timestamp { secs: chrono_now() }
    }
}

} // verus!
