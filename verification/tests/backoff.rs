//! Reconnect delays.

use mailarchive::backoff::{next_delay, reconnecting, MIN_DELAY};
use std::time::Duration;

#[test]
fn reconnect_backs_off_only_for_immediate_failures() {
    let s = |n: u64| Duration::from_secs(n).as_nanos();
    let mut prev = None;
    let mut seen = vec![];
    for _ in 0..8 {
        let d = next_delay(prev, s(1));
        seen.push(d / s(1));
        prev = Some(d);
    }
    assert_eq!(seen, [30, 60, 120, 240, 480, 900, 900, 900]);
    assert_eq!(next_delay(Some(s(900)), s(3600)), MIN_DELAY, "a long-lived connection resets the backoff");
}

#[test]
fn two_minutes_are_still_an_immediate_failure() {
    let s = |n: u64| Duration::from_secs(n).as_nanos();
    assert_eq!(next_delay(Some(s(60)), s(120)), s(120));
    assert_eq!(next_delay(Some(s(60)), s(120) + 1), s(30));
    assert_eq!(next_delay(None, s(0)), s(30));
}

#[test]
fn a_reconnect_is_announced_in_whole_seconds() {
    assert_eq!(
        reconnecting("acc", "No Response: [AUTHENTICATIONFAILED] bad password", MIN_DELAY),
        "acc: error: No Response: [AUTHENTICATIONFAILED] bad password; reconnecting in 30s"
    );
    assert_eq!(reconnecting("a", "e", 1_999_999_999), "a: error: e; reconnecting in 1s");
}
