//! Turning an epoch magnitude into its bracketed UTC date-time text.

use crate::digits::{all_digits, decimal_value, RunClass};
use chrono::{TimeZone, Utc};
use vstd::prelude::*;

verus! {

/// Nanoseconds in one millisecond.
pub const NANOS_PER_MILLISECOND: i64 = 1_000_000;

/// Milliseconds in one second.
pub const MILLIS_PER_SECOND: i64 = 1_000;

/// The last second of the year 9999, the latest instant whose year still has
/// four digits.
pub const MAX_EPOCH_SECONDS: i64 = 253_402_300_799;

/// The text that chrono gives for the UTC instant `secs` seconds and `nanos`
/// nanoseconds after the epoch under the strftime pattern `pattern`.
pub uninterp spec fn utc_format(secs: int, nanos: int, pattern: Seq<char>) -> Seq<u8>;

/// The strftime pattern of a date-time with whole seconds.
pub open spec fn second_pattern() -> Seq<char> {
    "%Y-%m-%d %H:%M:%S UTC"@
}

/// The strftime pattern of a date-time with three decimals of a second.
pub open spec fn millisecond_pattern() -> Seq<char> {
    "%Y-%m-%d %H:%M:%S%.3f UTC"@
}

/// The strftime pattern under which a timestamp of class `class` is written.
pub open spec fn pattern_of(class: RunClass) -> Seq<char> {
    match class {
        RunClass::MillisecondPrecision => millisecond_pattern(),
        _ => second_pattern(),
    }
}

/// Whole seconds since the epoch of the magnitude `m` read at class `class`.
pub open spec fn epoch_seconds(m: int, class: RunClass) -> int {
    match class {
        RunClass::MillisecondPrecision => m / 1000,
        _ => m,
    }
}

/// Nanoseconds past the whole second of the magnitude `m` read at class
/// `class`.
pub open spec fn subsecond_nanos(m: int, class: RunClass) -> int {
    match class {
        RunClass::MillisecondPrecision => (m % 1000) * 1_000_000,
        _ => 0,
    }
}

/// `text` between an opening and a closing square bracket.
pub open spec fn bracketed(text: Seq<u8>) -> Seq<u8> {
    seq![91u8] + text + seq![93u8]
}

/// The replacement text of the magnitude `m` read at class `class`.
pub open spec fn timestamp_text(m: int, class: RunClass) -> Seq<u8> {
    bracketed(utc_format(epoch_seconds(m, class), subsecond_nanos(m, class), pattern_of(class)))
}

/// Ten to the power `n`.
pub open spec fn pow10(n: nat) -> nat
    decreases n,
{
    if n == 0 {
        1
    } else {
        10 * pow10((n - 1) as nat)
    }
}

/// Ten to the power `n` grows with `n`.
pub proof fn lemma_pow10_monotonic(a: nat, b: nat)
    requires
        a <= b,
    ensures
        pow10(a) <= pow10(b),
    decreases b,
{
    if a < b {
        lemma_pow10_monotonic(a, (b - 1) as nat);
    }
}

/// A run of `n` decimal digits denotes a number below ten to the `n`.
pub proof fn lemma_decimal_value_bound(s: Seq<u8>)
    requires
        all_digits(s),
    ensures
        decimal_value(s) < pow10(s.len()),
    decreases s.len(),
{
    if s.len() > 0 {
        lemma_decimal_value_bound(s.drop_last());
    }
}

/// Calls chrono's `TimeZone::timestamp_opt` on `Utc` and writes the instant
/// with `DateTime::format` under `pattern`. The contract only names the text:
/// it is the one that chrono gives for these seconds, nanoseconds and pattern.
/// The instant must lie between the epoch and the end of the year 9999, which
/// chrono can represent, and the pattern must be one of the two that this
/// library writes, which chrono accepts.
#[verifier::external_body]
fn utc_text(secs: i64, nanos: u32, pattern: &str) -> (text: Vec<u8>)
    requires
        0 <= secs <= MAX_EPOCH_SECONDS,
        nanos < 1_000_000_000,
        pattern@ == second_pattern() || pattern@ == millisecond_pattern(),
    ensures
        text@ == utc_format(secs as int, nanos as int, pattern@),
{
    Utc.timestamp_opt(secs, nanos).unwrap().format(pattern).to_string().into_bytes()
}

/// Reads a run of at most eighteen ASCII digits as a decimal number.
pub fn parse_digits(run: &[u8]) -> (value: i64)
    requires
        all_digits(run@),
        run@.len() <= 18,
    ensures
        value == decimal_value(run@),
{
    let mut value: i64 = 0;
    let mut i: usize = 0;
    while i < run.len()
        invariant
            i <= run@.len() <= 18,
            all_digits(run@),
            value == decimal_value(run@.take(i as int)),
        decreases run@.len() - i,
    {
        proof {
            let next = run@.take(i + 1);
            assert(next.drop_last() == run@.take(i as int));
            assert(all_digits(next));
            lemma_decimal_value_bound(next);
            lemma_pow10_monotonic(next.len(), 18);
            reveal_with_fuel(pow10, 19);
        }
        value = value * 10 + (run[i] - 48) as i64;
        i += 1;
    }
    proof {
        assert(run@.take(i as int) == run@);
    }
    value
}

/// Puts `text` between square brackets.
pub fn bracket(text: &[u8]) -> (out: Vec<u8>)
    ensures
        out@ == bracketed(text@),
{
    let mut out: Vec<u8> = Vec::new();
    out.push(91u8);
    out.extend_from_slice(text);
    out.push(93u8);
    out
}

/// Formats the magnitude `m`, read as seconds or as milliseconds since the
/// epoch according to `class`, as `[YYYY-MM-DD HH:MM:SS UTC]` or
/// `[YYYY-MM-DD HH:MM:SS.mmm UTC]`.
pub fn format_timestamp(m: i64, class: RunClass) -> (text: Vec<u8>)
    requires
        class != RunClass::NotATimestamp,
        0 <= epoch_seconds(m as int, class) <= MAX_EPOCH_SECONDS,
    ensures
        text@ == timestamp_text(m as int, class),
{
    match class {
        RunClass::MillisecondPrecision => {
            let secs: i64 = m / MILLIS_PER_SECOND;
            let nanos: u32 = ((m % MILLIS_PER_SECOND) * NANOS_PER_MILLISECOND) as u32;
            let inner = utc_text(secs, nanos, "%Y-%m-%d %H:%M:%S%.3f UTC");
            bracket(inner.as_slice())
        },
        _ => {
            let inner = utc_text(m, 0, "%Y-%m-%d %H:%M:%S UTC");
            bracket(inner.as_slice())
        },
    }
}

} // verus!
