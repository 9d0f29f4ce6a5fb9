//! The system clock and the generation of account identifiers.

use vstd::prelude::*;
use crate::number::{all_ascii_digits, decimal, i64_text, is_ascii_digit, lemma_decimal_shape, lemma_zero_pad_digits, signed_decimal, zero_pad, zero_padded_text};

verus! {

#[verifier::external_type_specification]
#[verifier::external_body]
pub struct ExSystemTime(std::time::SystemTime);

/// `SystemTime::now()`.
#[verifier::external_body]
fn system_time_now() -> std::time::SystemTime {
    std::time::SystemTime::now()
}

/// `t.duration_since(UNIX_EPOCH)`, `None` when `t` lies before the epoch.
#[verifier::external_body]
fn since_unix_epoch(t: &std::time::SystemTime) -> Option<core::time::Duration> {
    t.duration_since(std::time::UNIX_EPOCH).ok()
}

/// `Duration::as_secs`.
#[verifier::external_body]
fn whole_seconds(d: &core::time::Duration) -> u64 {
    d.as_secs()
}

/// Seconds since the Unix epoch by the system clock; 0 when the clock is set
/// before the epoch.
pub fn now_secs() -> u64 {
    let now = system_time_now();
    match since_unix_epoch(&now) {
        Some(d) => whole_seconds(&d),
        None => 0,
    }
}

/// `Duration::subsec_nanos`: the fractional part of the duration in nanoseconds,
/// which is always below one billion (as its documentation says).
#[verifier::external_body]
fn fraction_nanos(d: &core::time::Duration) -> (n: u32)
    ensures
        n < 1_000_000_000,
{
    d.subsec_nanos()
}

/// `chrono::DateTime::<Utc>::from_timestamp(secs, nanos)` then `timestamp_millis()`:
/// `None` when the instant lies outside chrono's range. Trusted: a result is the
/// millisecond count `secs * 1000 + nanos / 1_000_000` of that instant
/// (`timestamp_millis` is the timestamp in seconds times 1000 plus the whole
/// milliseconds of the fraction, and `from_timestamp` keeps both).
#[verifier::external_body]
fn timestamp_millis_at(secs: i64, nanos: u32) -> (m: Option<i64>)
    requires
        nanos < 1_000_000_000,
    ensures
        m matches Some(v) ==> v == secs * 1000 + nanos / 1_000_000,
{
    match chrono::DateTime::<chrono::Utc>::from_timestamp(secs, nanos) {
        Some(t) => Some(t.timestamp_millis()),
        None => None,
    }
}

/// Milliseconds since the Unix epoch by the system clock, through chrono; 0 when
/// the clock reads before the epoch or beyond chrono's range. Never negative.
fn now_millis() -> (m: i64)
    ensures
        m >= 0,
{
    let now = system_time_now();
    match since_unix_epoch(&now) {
        Some(d) => {
            let secs = whole_seconds(&d);
            if secs > i64::MAX as u64 {
                return 0;
            }
            match timestamp_millis_at(secs as i64, fraction_nanos(&d)) {
                Some(m) => m,
                None => 0,
            }
        },
        None => 0,
    }
}

/// Two random bytes from the operating system's source
/// (`rand::rngs::OsRng` through `RngCore::try_fill_bytes`), `None` when that source
/// fails. Nothing is promised of the values.
#[verifier::external_body]
fn os_random_bytes() -> Option<(u8, u8)> {
    let mut buf = [0u8; 2];
    match rand::RngCore::try_fill_bytes(&mut rand::rngs::OsRng, &mut buf) {
        Ok(()) => Some((buf[0], buf[1])),
        Err(_) => None,
    }
}

/// A random number from the operating system's source; 0 when it fails.
fn random_u16() -> u16 {
    match os_random_bytes() {
        Some((lo, hi)) => (hi as u16) * 256 + (lo as u16),
        None => 0,
    }
}

/// An account identifier made at time `millis` with random number `r`: the
/// decimal millisecond count followed by `r % 10000` as four digits.
pub open spec fn id_text(millis: i64, r: u16) -> Seq<char> {
    signed_decimal(millis as int) + zero_pad(decimal((r % 10000) as nat), 4)
}

/// An identifier as `unique_id` makes them: from a millisecond count that is
/// not negative.
pub open spec fn is_generated_id(id: Seq<char>) -> bool {
    exists|m: i64, r: u16| m >= 0 && id == id_text(m, r)
}

/// A generated identifier is a non-empty string of ASCII digits.
pub proof fn lemma_generated_id_digits(id: Seq<char>)
    requires
        is_generated_id(id),
    ensures
        id.len() >= 5,
        all_ascii_digits(id),
{
    let (m, r) = choose|m: i64, r: u16| m >= 0 && id == id_text(m, r);
    let a = decimal(m as nat);
    let b = zero_pad(decimal((r % 10000) as nat), 4);
    lemma_decimal_shape(m as nat, 0);
    lemma_decimal_shape((r % 10000) as nat, 0);
    lemma_zero_pad_digits(decimal((r % 10000) as nat), 4);
    assert(id == a + b);
    assert forall|i: int| 0 <= i < id.len() implies is_ascii_digit(#[trigger] id[i]) by {
        if i < a.len() {
            assert(id[i] == a[i]);
        } else {
            assert(id[i] == b[i - a.len()]);
        }
    }
}

/// `format!("{}{:04}", millis, r % 10000)`.
pub fn format_id(millis: i64, r: u16) -> (id: String)
    ensures
        id@ == id_text(millis, r),
{
    let head = i64_text(millis);
    let tail = zero_padded_text((r % 10000) as u64, 4);
    head.concat(tail.as_str())
}

/// A fresh account identifier from the clock and a random number.
pub fn unique_id() -> (id: String)
    ensures
        is_generated_id(id@),
        id@.len() >= 5,
        all_ascii_digits(id@),
{
    let millis = now_millis();
    let r = random_u16();
    let id = format_id(millis, r);
    proof {
        lemma_generated_id_digits(id@);
    }
    id
}

} // verus!
