use soroban_notify::notification_rate_limit::{
    admits, take_event, AcquireEvent, Acquisition, ChannelRateLimiter, RateLimitConfig, Window,
};

#[test]
fn disabled_config_builds_no_limiter() {
    let cfg = RateLimitConfig::default();
    assert!(!cfg.is_enabled());
    assert!(ChannelRateLimiter::from_config(&cfg).is_none());
}

#[test]
fn per_minute_limit_admits_up_to_quota_then_blocks() {
    let cfg = RateLimitConfig::new(Some(3), None);
    let limiter = ChannelRateLimiter::from_config(&cfg).expect("limiter");

    assert!(limiter.check());
    assert!(limiter.check());
    assert!(limiter.check());
    assert!(!limiter.check());
}

#[test]
fn both_limits_must_allow() {
    let cfg = RateLimitConfig::new(Some(5), Some(1));
    let limiter = ChannelRateLimiter::from_config(&cfg).expect("limiter");

    assert!(limiter.check());
    assert!(!limiter.check());
}

#[test]
fn acquire_reports_rate_limited_when_over_budget() {
    let cfg = RateLimitConfig::new(Some(1), None);
    let limiter = ChannelRateLimiter::from_config(&cfg).expect("limiter");

    assert_eq!(limiter.acquire(limiter.start_acquire()), Acquisition::Done(false));
    let waiting = limiter.acquire(limiter.start_acquire());
    assert_eq!(waiting, Acquisition::Wait(Window::Minute));
    let done = limiter.advance(waiting, AcquireEvent::Given);
    assert_eq!(limiter.acquire(done), Acquisition::Done(true));
}

#[test]
fn a_check_takes_from_each_bucket() {
    let cfg = RateLimitConfig::new(Some(1), Some(2));
    let limiter = ChannelRateLimiter::from_config(&cfg).expect("limiter");
    assert!(limiter.check());
    // The minute's bucket is empty, and the hour's gives its last token all the same.
    assert!(!limiter.check());
    let hour = Acquisition::Take(Window::Hour, false);
    assert_eq!(limiter.acquire(hour), Acquisition::Wait(Window::Hour));
}

#[test]
fn bursts_pass_up_to_the_smaller_limit() {
    for (minute, hour, admitted) in
        [(Some(2), Some(3), 2), (Some(3), Some(2), 2), (Some(0), Some(2), 2), (None, Some(1), 1)]
    {
        let cfg = RateLimitConfig::new(minute, hour);
        let limiter = ChannelRateLimiter::from_config(&cfg).expect("limiter");
        for k in 1..5 {
            assert_eq!(limiter.check(), k <= admitted);
        }
    }
}

#[test]
fn limiters_share_no_tokens() {
    let cfg = RateLimitConfig::new(Some(1), None);
    let one = ChannelRateLimiter::from_config(&cfg).expect("limiter");
    let other = ChannelRateLimiter::from_config(&cfg).expect("limiter");
    assert!(one.check());
    assert!(!one.check());
    assert!(other.check());
}

#[test]
fn a_limit_of_zero_is_no_limit() {
    let cfg = RateLimitConfig::new(Some(0), None);
    assert!(cfg.is_enabled());
    let limiter = ChannelRateLimiter::from_config(&cfg).expect("limiter");
    assert!(limiter.per_minute.is_none());
    assert!(limiter.per_hour.is_none());
    for _ in 0..10 {
        assert!(limiter.check());
    }
    assert_eq!(limiter.start_acquire(), Acquisition::Done(false));
}

#[test]
fn per_hour_limit_alone() {
    let cfg = RateLimitConfig::new(None, Some(2));
    let limiter = ChannelRateLimiter::from_config(&cfg).expect("limiter");
    assert!(limiter.per_minute.is_none());
    assert_eq!(limiter.start_acquire(), Acquisition::Take(Window::Hour, false));
    assert!(limiter.check());
    assert_eq!(limiter.acquire(limiter.start_acquire()), Acquisition::Done(false));
    assert_eq!(limiter.acquire(limiter.start_acquire()), Acquisition::Wait(Window::Hour));
}

#[test]
fn a_wait_for_the_minute_is_followed_by_the_hour() {
    let cfg = RateLimitConfig::new(Some(1), Some(1));
    let limiter = ChannelRateLimiter::from_config(&cfg).expect("limiter");
    assert!(limiter.check());
    let state = limiter.acquire(limiter.start_acquire());
    assert_eq!(state, Acquisition::Wait(Window::Minute));
    let state = limiter.advance(state, AcquireEvent::Given);
    assert_eq!(state, Acquisition::Take(Window::Hour, true));
    let state = limiter.acquire(state);
    assert_eq!(state, Acquisition::Wait(Window::Hour));
    let state = limiter.advance(state, AcquireEvent::Given);
    assert_eq!(state, Acquisition::Done(true));
    assert_eq!(limiter.acquire(state), state);
    assert_eq!(limiter.advance(state, AcquireEvent::Refused), state);
}

#[test]
fn steps_of_an_acquisition() {
    let cfg = RateLimitConfig::new(Some(1), Some(1));
    let limiter = ChannelRateLimiter::from_config(&cfg).expect("limiter");
    let minute = limiter.start_acquire();
    assert_eq!(minute, Acquisition::Take(Window::Minute, false));
    let hour = limiter.advance(minute, AcquireEvent::Taken);
    assert_eq!(hour, Acquisition::Take(Window::Hour, false));
    assert_eq!(limiter.advance(hour, AcquireEvent::Taken), Acquisition::Done(false));
    assert_eq!(limiter.advance(hour, AcquireEvent::Given), hour);
}

#[test]
fn both_outcomes_decide() {
    assert!(admits(None, None));
    assert!(admits(Some(true), None));
    assert!(admits(Some(true), Some(true)));
    assert!(!admits(Some(true), Some(false)));
    assert!(!admits(Some(false), None));
}

#[test]
fn outcomes_become_events() {
    assert_eq!(take_event(Some(true)), AcquireEvent::Taken);
    assert_eq!(take_event(Some(false)), AcquireEvent::Refused);
    assert_eq!(take_event(None), AcquireEvent::Taken);
}
