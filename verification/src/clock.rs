//! Wall-clock readings, and what is made of them.

use vstd::prelude::*;

use crate::node::Timestamp;

verus! {

/// A reading of the system clock, which this crate only carries through.
#[verifier::external_type_specification]
#[verifier::external_body]
pub struct ExSystemTime(std::time::SystemTime);

/// `SystemTime::now` of the standard library. Nothing is claimed of the reading: it is the time.
#[verifier::external_body]
fn system_now() -> (r: std::time::SystemTime) {
    std::time::SystemTime::now()
}

/// `SystemTime::duration_since` of the standard library, from the Unix epoch: `None` for a reading
/// before the epoch. Nothing more is claimed, since the reading itself is not known.
#[verifier::external_body]
fn since_epoch(reading: std::time::SystemTime) -> (r: Option<std::time::Duration>) {
    reading.duration_since(std::time::UNIX_EPOCH).ok()
}

/// `Duration::as_secs` of the standard library. Nothing is claimed of the number.
#[verifier::external_body]
fn whole_seconds(span: &std::time::Duration) -> (r: u64) {
    span.as_secs()
}

/// `Duration::subsec_nanos` of the standard library: the part of a span below one second, which is
/// documented to be less than one second.
#[verifier::external_body]
fn nanoseconds(span: &std::time::Duration) -> (r: u32)
    ensures
        r < 1_000_000_000,
{
    span.subsec_nanos()
}

/// The wall clock in seconds and nanoseconds since the Unix epoch, or `None` where it stands
/// before the epoch.
pub fn unix_time() -> (r: Option<(u64, u32)>)
    ensures
        match r {
            Some((_, nanos)) => nanos < 1_000_000_000,
            None => true,
        },
{
    match since_epoch(system_now()) {
        Some(span) => Some((whole_seconds(&span), nanoseconds(&span))),
        None => None,
    }
}

/// The SOA serial for a clock reading: its low 32 bits, or 0 before the epoch.
pub open spec fn serial_of(reading: Option<(u64, u32)>) -> u32 {
    match reading {
        Some((secs, _)) => (secs % 0x1_0000_0000) as u32,
        None => 0,
    }
}

/// The SOA serial to publish at `reading`.
pub fn soa_serial_at(reading: Option<(u64, u32)>) -> (r: u32)
    ensures
        r == serial_of(reading),
{
    match reading {
        Some((secs, _)) => (secs % 0x1_0000_0000) as u32,
        None => 0,
    }
}

/// The SOA serial to publish now: the time in seconds.
///
/// Nothing reads it (there are no secondaries), so it need only move forward. Which serial comes
/// out depends on the clock alone; [`soa_serial_at`] says how.
pub fn soa_serial() -> (r: u32)
    ensures
        exists|reading: Option<(u64, u32)>| r == #[trigger] serial_of(reading),
{
    let reading = unix_time();
    soa_serial_at(reading)
}

/// Whether `secs` and `nanos` are a time that can be represented: the years -262143 to 262142, and
/// nanoseconds beyond one second only in the last second of a minute.
pub open spec fn representable(secs: i64, nanos: u32) -> bool {
    &&& -8_334_601_228_800 <= secs <= 8_210_266_876_799
    &&& nanos < 1_000_000_000 || (nanos < 2_000_000_000 && secs % 60 == 59)
}

/// `DateTime::<Utc>::from_timestamp` of the `chrono` crate, read back with `timestamp` and
/// `timestamp_subsec_nanos`: the same seconds and nanoseconds where they are representable, and
/// `None` elsewhere.
#[verifier::external_body]
fn chrono_timestamp(secs: i64, nanos: u32) -> (r: Option<Timestamp>)
    ensures
        r == (if representable(secs, nanos) {
            Some(Timestamp { secs, nanos })
        } else {
            None
        }),
{
    chrono::DateTime::<chrono::Utc>::from_timestamp(secs, nanos).map(
        |t| Timestamp { secs: t.timestamp(), nanos: t.timestamp_subsec_nanos() },
    )
}

/// The time of a clock reading; the epoch where the reading is none that can be represented.
pub open spec fn time_of(reading: Option<(u64, u32)>) -> Timestamp {
    match reading {
        Some((secs, nanos)) if representable(secs as i64, nanos) => Timestamp {
            secs: secs as i64,
            nanos,
        },
        _ => Timestamp { secs: 0, nanos: 0 },
    }
}

/// The time to record for something seen at `reading`.
pub fn seen_at(reading: Option<(u64, u32)>) -> (r: Timestamp)
    ensures
        r == time_of(reading),
{
    match reading {
        Some((secs, nanos)) => match chrono_timestamp(secs as i64, nanos) {
            Some(t) => t,
            None => Timestamp { secs: 0, nanos: 0 },
        },
        None => Timestamp { secs: 0, nanos: 0 },
    }
}

} // verus!
