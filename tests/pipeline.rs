use joining_proxy::config::{
    default_add_forwarded_from_header, default_host, default_https, default_ic_local, default_port,
    default_show_hit_miss, default_upstream_connect_timeout, default_upstream_read_timeout,
    default_upstream_total_timeout, extract_duration,
};
use joining_proxy::errors::{InvalidHeaderNameError, InvalidHeaderValueError, MyCorruptedDBError, MyError};
use joining_proxy::pipeline::{
    after_slot, callback_step, check_secret, obtain_upstream_base_url, upstream_url, CallbackOutcome,
    CallbackPacing, CallbackStep, SlotAction,
};

#[test]
fn secret_check() {
    let secret = Some("s3".to_string());
    assert!(check_secret(&None, None));
    assert!(check_secret(&None, Some(b"anything")));
    assert!(check_secret(&secret, Some(b"Bearer s3")));
    assert!(!check_secret(&secret, Some(b"Bearer s4")));
    assert!(!check_secret(&secret, Some(b"s3")));
    assert!(!check_secret(&secret, None));
}

#[test]
fn upstream_urls() {
    assert_eq!(obtain_upstream_base_url(Some(b"example.com")), Ok(b"https://example.com".to_vec()));
    assert_eq!(obtain_upstream_base_url(None), Err(MyError::MissingHost));
    assert_eq!(obtain_upstream_base_url(Some(&[0x80u8])), Err(MyError::HeaderToStr));
    assert_eq!(upstream_url(None, Some(b"h.org"), b"/p?q"), Ok(b"https://h.org/p?q".to_vec()));
    assert_eq!(upstream_url(Some(b"http://fixed:1"), None, b"/p"), Ok(b"http://fixed:1/p".to_vec()));
    assert_eq!(upstream_url(None, None, b"/p"), Err(MyError::MissingHost));
}

#[test]
fn durations() {
    assert_eq!(extract_duration("2d"), Ok(172_800_000));
    assert_eq!(extract_duration("3h"), Ok(10_800_000));
    assert_eq!(extract_duration("5m"), Ok(300_000));
    assert_eq!(extract_duration("90s"), Ok(90_000));
    assert_eq!(extract_duration("250ms"), Ok(250));
    assert_eq!(extract_duration("0s"), Ok(0));
    for bad in ["", "s", "10", "10x", "10 s", "+5s", "1.5s", "99999999999999999999s", "18446744073709551615s"] {
        assert_eq!(extract_duration(bad), Err(MyError::InvalidDuration), "{}", bad);
    }
    assert_eq!(extract_duration("18446744073709551615ms"), Ok(u64::MAX));
}

#[test]
fn defaults() {
    assert_eq!(default_host(), "localhost");
    assert_eq!(default_port(), 8080);
    assert!(!default_https());
    assert!(!default_show_hit_miss());
    assert!(!default_add_forwarded_from_header());
    assert!(!default_ic_local());
    assert_eq!(default_upstream_connect_timeout(), Some(10_000));
    assert_eq!(default_upstream_read_timeout(), Some(60_000));
    assert_eq!(default_upstream_total_timeout(), Some(120_000));
}

#[test]
fn callback_pacing() {
    let p = CallbackPacing { pause_at_start: 100, pause_between_calls: 500, timing_out_calls_after: 2000 };
    assert_eq!(callback_step(CallbackOutcome::Authorized, 0, 10, p), CallbackStep::Proceed);
    assert_eq!(callback_step(CallbackOutcome::Refused, 0, 10, p), CallbackStep::Refuse);
    assert_eq!(callback_step(CallbackOutcome::TransportFailure, 0, 2000, p), CallbackStep::RetryAfter(500));
    assert_eq!(callback_step(CallbackOutcome::TransportFailure, 0, 2001, p), CallbackStep::TimedOut);
}

#[test]
fn error_messages() {
    assert_eq!(MyCorruptedDBError {}.message(), "Wrong data in DB.");
    assert_eq!(InvalidHeaderNameError {}.message(), "Invalid header name.");
    assert_eq!(InvalidHeaderValueError {}.message(), "Invalid header value.");
}

#[test]
fn only_a_miss_reaches_callback_and_upstream() {
    assert_eq!(after_slot(true, true), SlotAction::Replay);
    assert_eq!(after_slot(true, false), SlotAction::Replay);
    assert_eq!(after_slot(false, true), SlotAction::AskCallback);
    assert_eq!(after_slot(false, false), SlotAction::Fetch);
}
