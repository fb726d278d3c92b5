//! How long to wait before connecting again.

use crate::text;
use vstd::prelude::*;
use vstd::string::StringExecFns;

verus! {

/// Shortest delay, in nanoseconds: 30 seconds.
pub const MIN_DELAY: u128 = 30_000_000_000;

/// Longest delay, in nanoseconds: 15 minutes.
pub const MAX_DELAY: u128 = 900_000_000_000;

/// A connection that lived longer, in nanoseconds, was working: 2 minutes.
pub const WORKED: u128 = 120_000_000_000;

/// The longest span of time that can be told, in nanoseconds.
pub const MAX_SPAN: u128 = 18_446_744_073_709_551_615_999_999_999;

/// The delay after a failed connection that lived for `lived`, where `prev` was the last one.
pub open spec fn delay_after(prev: Option<u128>, lived: u128) -> u128 {
    match prev {
        Some(p) if lived <= WORKED => if 2 * p <= MAX_DELAY {
            (2 * p) as u128
        } else {
            MAX_DELAY
        },
        _ => MIN_DELAY,
    }
}

/// Reconnect delay after a failed connection, in nanoseconds. `prev` is the delay used last
/// time (None on the first failure). A connection that lived a while was working, so start
/// over at the minimum; one that died at once (bad password, refused) doubles the previous
/// delay, so a wrong credential does not hammer the provider into a lockout.
pub fn next_delay(prev: Option<u128>, lived: u128) -> (r: u128)
    requires
        prev is Some && lived <= WORKED ==> 2 * prev->0 <= MAX_SPAN,
    ensures
        r == delay_after(prev, lived),
{
    match prev {
        Some(p) => if lived <= WORKED {
            let twice: u128 = p * 2;
            if twice <= MAX_DELAY {
                twice
            } else {
                MAX_DELAY
            }
        } else {
            MIN_DELAY
        },
        None => MIN_DELAY,
    }
}

/// What is said of a failed connection and the delay after it, which is told in whole seconds.
pub open spec fn failure_words(acc: Seq<char>, why: Seq<char>, delay: u128) -> Seq<char> {
    acc + ": error: "@ + why + "; reconnecting in "@ + text::decimal(
        (delay / 1_000_000_000) as nat,
    ) + "s"@
}

/// What to say of a failed connection and the delay after it.
pub fn reconnecting(acc: &str, why: &str, delay: u128) -> (r: String)
    ensures
        r@ == failure_words(acc@, why@, delay),
{
    let secs: u128 = delay / 1_000_000_000;
    acc.to_owned().concat(": error: ").concat(why).concat("; reconnecting in ").concat(
        text::to_decimal(secs).as_str(),
    ).concat("s")
}

/// The delays after connections that died at once, the `n`th of them (from 0).
pub open spec fn nth_delay(n: nat) -> u128
    decreases n,
{
    if n == 0 {
        delay_after(None, 0)
    } else {
        delay_after(Some(nth_delay((n - 1) as nat)), 0)
    }
}

/// However connections fail, every delay is between half a minute and a quarter of an hour, so
/// it can be handed back as the previous one, and a connection that died at once never
/// shortens it.
pub proof fn law_delays_stay_in_range(prev: Option<u128>, lived: u128)
    requires
        prev is Some ==> MIN_DELAY <= prev->0 <= MAX_DELAY,
    ensures
        MIN_DELAY <= delay_after(prev, lived) <= MAX_DELAY,
        2 * delay_after(prev, lived) <= MAX_SPAN,
        prev is Some && lived <= WORKED ==> delay_after(prev, lived) >= prev->0,
        lived > WORKED ==> delay_after(prev, lived) == MIN_DELAY,
{
}

/// Immediate failures double the delay from half a minute on until it stays at the maximum.
pub proof fn law_immediate_failures_back_off(n: nat)
    ensures
        n == 0 ==> nth_delay(n) == MIN_DELAY,
        n >= 5 ==> nth_delay(n) == MAX_DELAY,
        n < 5 ==> nth_delay(n) == MIN_DELAY * vstd::arithmetic::power2::pow2(n),
    decreases n,
{
    vstd::arithmetic::power2::lemma2_to64();
    if n > 0 {
        law_immediate_failures_back_off((n - 1) as nat);
    }
}

/// The delay in numbers: half a minute after a connection that lived for more than two minutes
/// and on the first failure, and otherwise twice the last delay, but no more than a quarter of
/// an hour.
pub proof fn law_delay_in_numbers(prev: u128, lived: u128)
    ensures
        delay_after(None, lived) == 30_000_000_000,
        lived > 120_000_000_000 ==> delay_after(Some(prev), lived) == 30_000_000_000,
        lived <= 120_000_000_000 && prev <= 450_000_000_000 ==> delay_after(Some(prev), lived)
            == prev + prev,
        lived <= 120_000_000_000 && prev > 450_000_000_000 ==> delay_after(Some(prev), lived)
            == 900_000_000_000,
{
}

/// A failure is told with its reason, and the delay in whole seconds.
pub proof fn law_words_for_a_failure(acc: Seq<char>, why: Seq<char>, secs: u64, nanos: u32)
    requires
        nanos < 1_000_000_000,
    ensures
        failure_words(acc, why, (secs * 1_000_000_000 + nanos) as u128) == acc + ": error: "@ + why
            + "; reconnecting in "@ + text::decimal(secs as nat) + "s"@,
{
    let d = (secs * 1_000_000_000 + nanos) as u128;
    assert(d == secs * 1_000_000_000 + nanos);
    assert(d / 1_000_000_000 == secs);
}

} // verus!
