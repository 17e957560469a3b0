use window_limiter::message::{MsgConfig, RateLimiter};

#[test]
fn full_window_rejects() {
    // max 3 per 10 ticks: three quick calls are admitted, the fourth is
    // rejected while the oldest entry is still inside the window.
    let mut rl = RateLimiter::new(MsgConfig { max_messages: 3, count_duration: 10 });
    assert_eq!(rl.check_new_message(0), false);
    assert_eq!(rl.check_new_message(1), false);
    assert_eq!(rl.check_new_message(2), false);
    assert_eq!(rl.check_new_message(3), true);
}

#[test]
fn pruning_frees_capacity() {
    // Same configuration: once t=0 has aged out (11 - 10 = 1 > 0), the log
    // holds {1, 2} and a fourth call is admitted.
    let mut rl = RateLimiter::new(MsgConfig { max_messages: 3, count_duration: 10 });
    assert_eq!(rl.check_new_message(0), false);
    assert_eq!(rl.check_new_message(1), false);
    assert_eq!(rl.check_new_message(2), false);
    assert_eq!(rl.check_new_message(11), false);
}

#[test]
fn zero_max_always_rejects() {
    let mut rl = RateLimiter::new(MsgConfig { max_messages: 0, count_duration: 10 });
    assert_eq!(rl.check_new_message(0), true);
    assert_eq!(rl.check_new_message(5), true);
    assert_eq!(rl.check_new_message(1_000_000), true);
    assert_eq!(rl.check_new_message(u64::MAX), true);
}

#[test]
fn zero_duration_gates_same_instant() {
    // count_duration = 0: pruning is strict-less-than, so entries at the
    // same instant stay; the limiter degenerates to a capacity gate.
    let mut rl = RateLimiter::new(MsgConfig { max_messages: 2, count_duration: 0 });
    assert_eq!(rl.check_new_message(7), false);
    assert_eq!(rl.check_new_message(7), false);
    assert_eq!(rl.check_new_message(7), true);
}

#[test]
fn zero_duration_decays_next_instant() {
    // With a zero window, one tick later the old entries are pruned.
    let mut rl = RateLimiter::new(MsgConfig { max_messages: 1, count_duration: 0 });
    assert_eq!(rl.check_new_message(7), false);
    assert_eq!(rl.check_new_message(7), true);
    assert_eq!(rl.check_new_message(8), false);
}

#[test]
fn spaced_calls_never_limited() {
    // Calls further than the window apart are never rejected, even with the
    // smallest positive maximum.
    let mut rl = RateLimiter::new(MsgConfig { max_messages: 1, count_duration: 10 });
    assert_eq!(rl.check_new_message(0), false);
    assert_eq!(rl.check_new_message(11), false);
    assert_eq!(rl.check_new_message(22), false);
    assert_eq!(rl.check_new_message(100), false);
}

#[test]
fn burst_over_max_rejected() {
    // max + 1 calls within one window: the first max are admitted, the
    // next is rejected.
    let mut rl = RateLimiter::new(MsgConfig { max_messages: 2, count_duration: 10 });
    assert_eq!(rl.check_new_message(0), false);
    assert_eq!(rl.check_new_message(1), false);
    assert_eq!(rl.check_new_message(2), true);
}

#[test]
fn stale_log_like_empty() {
    // When the cutoff passes every recorded instant, the call proceeds as
    // on a fresh limiter.
    let mut rl = RateLimiter::new(MsgConfig { max_messages: 1, count_duration: 5 });
    assert_eq!(rl.check_new_message(0), false);
    assert_eq!(rl.check_new_message(3), true);
    assert_eq!(rl.check_new_message(100), false);
    assert_eq!(rl.check_new_message(103), true);
}

#[test]
fn boundary_entry_still_counts() {
    // An entry exactly count_duration old sits exactly at the cutoff and is
    // not pruned: it still counts against the limit.
    let mut rl = RateLimiter::new(MsgConfig { max_messages: 1, count_duration: 10 });
    assert_eq!(rl.check_new_message(0), false);
    assert_eq!(rl.check_new_message(10), true);
    assert_eq!(rl.check_new_message(11), false);
}

#[test]
fn window_longer_than_clock() {
    // A window reaching back past the clock's origin prunes nothing.
    let mut rl = RateLimiter::new(MsgConfig { max_messages: 1, count_duration: u64::MAX });
    assert_eq!(rl.check_new_message(3), false);
    assert_eq!(rl.check_new_message(u64::MAX), true);
}

#[test]
fn latest_instants_admitted() {
    let mut rl = RateLimiter::new(MsgConfig { max_messages: 2, count_duration: 2 });
    assert_eq!(rl.check_new_message(u64::MAX - 1), false);
    assert_eq!(rl.check_new_message(u64::MAX), false);
    assert_eq!(rl.check_new_message(u64::MAX), true);
}
