use grimbot::limiter::{scope_key, BucketConfig, Decision, RateLimiter, Scope};

fn cfg(capacity: u32, window: u64, queue_depth: u32) -> BucketConfig {
    BucketConfig { capacity, window, queue_depth, post_delay: 0, scope: Scope::PerChannel }
}

#[test]
fn capacity_admissions_within_window_succeed() {
    // P5: C admissions within W proceed; the next is delayed or rejected.
    let mut lim = RateLimiter::new(cfg(3, 30, 1));
    for t in 0..3u64 {
        let (d, released) = lim.attempt(7, t, t);
        assert_eq!(d, Decision::Proceed);
        assert!(released.is_empty());
    }
    // Fourth caller: the queue has room, so it waits until the window refills.
    let (d, _) = lim.attempt(7, 3, 3);
    assert_eq!(d, Decision::Delay { retry_after: 27 });
    // Fifth caller: queue full, rejected with the retry hint, notified once.
    let (d, _) = lim.attempt(7, 4, 4);
    assert_eq!(d, Decision::Reject { retry_after: 26, notify: true });
    let (d, _) = lim.attempt(7, 5, 5);
    assert_eq!(d, Decision::Reject { retry_after: 25, notify: false });
}

#[test]
fn window_elapsing_refills_and_releases_fifo() {
    // P5: waiting >= W from the window start refills the tokens.
    let mut lim = RateLimiter::new(cfg(2, 10, 2));
    assert_eq!(lim.attempt(1, 0, 100).0, Decision::Proceed);
    assert_eq!(lim.attempt(1, 1, 101).0, Decision::Proceed);
    assert_eq!(lim.attempt(1, 2, 102).0, Decision::Delay { retry_after: 8 });
    assert_eq!(lim.attempt(1, 3, 103).0, Decision::Delay { retry_after: 7 });
    // At t = 10 the window rolls over: both waiters take the two fresh
    // tokens, in the order they queued, and the newcomer must wait again.
    let (d, released) = lim.attempt(1, 10, 104);
    assert_eq!(released, vec![102, 103]);
    assert_eq!(d, Decision::Delay { retry_after: 10 });
}

#[test]
fn refilled_window_admits_again() {
    let mut lim = RateLimiter::new(cfg(1, 10, 0));
    assert_eq!(lim.attempt(5, 0, 0).0, Decision::Proceed);
    assert_eq!(lim.attempt(5, 1, 1).0, Decision::Reject { retry_after: 9, notify: true });
    let (d, released) = lim.attempt(5, 10, 2);
    assert_eq!(d, Decision::Proceed);
    assert!(released.is_empty());
}

#[test]
fn zero_queue_depth_never_delays() {
    let mut lim = RateLimiter::new(cfg(1, 60, 0));
    assert_eq!(lim.attempt(9, 0, 0).0, Decision::Proceed);
    match lim.attempt(9, 1, 1).0 {
        Decision::Reject { retry_after, notify } => {
            assert_eq!(retry_after, 59);
            assert!(notify);
        },
        other => panic!("expected rejection, got {:?}", other),
    }
}

#[test]
fn rejection_notice_resets_with_tokens() {
    let mut lim = RateLimiter::new(cfg(1, 10, 0));
    assert_eq!(lim.attempt(2, 0, 0).0, Decision::Proceed);
    assert_eq!(lim.attempt(2, 1, 1).0, Decision::Reject { retry_after: 9, notify: true });
    assert_eq!(lim.attempt(2, 2, 2).0, Decision::Reject { retry_after: 8, notify: false });
    // A fresh window gives tokens back; the next episode notifies anew.
    assert_eq!(lim.attempt(2, 10, 3).0, Decision::Proceed);
    assert_eq!(lim.attempt(2, 11, 4).0, Decision::Reject { retry_after: 9, notify: true });
}

#[test]
fn scope_keys_are_isolated() {
    // P6: exhausting one scope key never affects another.
    let mut lim = RateLimiter::new(cfg(1, 30, 0));
    assert_eq!(lim.attempt(1, 0, 0).0, Decision::Proceed);
    assert!(matches!(lim.attempt(1, 1, 1).0, Decision::Reject { .. }));
    // Key 2 is untouched by key 1's exhaustion.
    assert_eq!(lim.attempt(2, 2, 2).0, Decision::Proceed);
    // And key 1 is still exhausted afterwards.
    assert!(matches!(lim.attempt(1, 3, 3).0, Decision::Reject { .. }));
}

#[test]
fn cancelled_waiter_frees_its_slot() {
    let mut lim = RateLimiter::new(cfg(1, 30, 1));
    assert_eq!(lim.attempt(4, 0, 50).0, Decision::Proceed);
    assert_eq!(lim.attempt(4, 1, 51).0, Decision::Delay { retry_after: 29 });
    // The queue is full now, so a third caller would be rejected...
    assert!(matches!(lim.attempt(4, 2, 52).0, Decision::Reject { .. }));
    // ...but cancelling the waiter frees the slot at once.
    lim.cancel(4, 51);
    assert_eq!(lim.attempt(4, 3, 53).0, Decision::Delay { retry_after: 27 });
    // And the cancelled id is never released when the window rolls over.
    let (_, released) = lim.attempt(4, 30, 54);
    assert_eq!(released, vec![53]);
}

#[test]
fn scope_key_derivation() {
    assert_eq!(scope_key(Scope::Global, 10, 20, Some(30)), 0);
    assert_eq!(scope_key(Scope::PerChannel, 10, 20, Some(30)), 20);
    assert_eq!(scope_key(Scope::PerUser, 10, 20, Some(30)), 10);
    assert_eq!(scope_key(Scope::PerGuild, 10, 20, Some(30)), 30);
    // A missing guild falls back to the channel.
    assert_eq!(scope_key(Scope::PerGuild, 10, 20, None), 20);
}
