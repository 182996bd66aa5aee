use dirge_agent::recovery::{
    classify_error, pseudo_random, retry_after_from_error_msg, user_facing_error, ErrorKind,
    RecoveryPolicy,
};

#[test]
fn test_classify_context_length() {
    assert_eq!(
        classify_error("context_length_exceeded: prompt too long"),
        ErrorKind::ContextLength
    );
    assert_eq!(
        classify_error("reduce the length of the messages"),
        ErrorKind::ContextLength
    );
    assert_eq!(
        classify_error("request too large for model"),
        ErrorKind::ContextLength
    );
}

#[test]
fn test_classify_network() {
    assert_eq!(classify_error("connection refused"), ErrorKind::Network);
    assert_eq!(
        classify_error("connection reset by peer"),
        ErrorKind::Network
    );
    assert_eq!(classify_error("request timed out"), ErrorKind::Network);
    assert_eq!(
        classify_error("503 service unavailable"),
        ErrorKind::Network
    );
    assert_eq!(
        classify_error(
            "CompletionError: ProviderError: Http client error: error decoding response body"
        ),
        ErrorKind::Network
    );
    assert_eq!(classify_error("decode error: EOF"), ErrorKind::Network);
}

#[test]
fn user_facing_error_includes_cause() {
    let raw = "CompletionError: ProviderError: Http client error: error decoding response body";
    let pretty = user_facing_error(raw, 1);
    assert!(pretty.contains("lost the response stream"));
    assert!(pretty.contains("hint:"));
    assert!(pretty.contains("cause:"));
    assert!(pretty.contains(raw));
}

#[test]
fn user_facing_error_classifies_auth() {
    let pretty = user_facing_error("401 unauthorized", 1);
    assert!(pretty.contains("authentication failed"));
    assert!(pretty.contains("API key"));
}

#[test]
fn user_facing_error_classifies_context_length() {
    let pretty = user_facing_error("maximum context length exceeded", 1);
    assert!(pretty.contains("/compress"));
}

#[test]
fn test_classify_rate_limit() {
    assert_eq!(classify_error("rate limit exceeded"), ErrorKind::RateLimit);
    assert_eq!(
        classify_error("429 too many requests"),
        ErrorKind::RateLimit
    );
}

#[test]
fn classify_anthropic_overloaded_error_as_retryable() {
    assert_eq!(
        classify_error("overloaded_error: Anthropic API is overloaded"),
        ErrorKind::RateLimit,
    );
    assert_eq!(
        classify_error("Provider overloaded; please retry later"),
        ErrorKind::RateLimit,
    );
}

#[test]
fn test_classify_auth() {
    assert_eq!(classify_error("401 unauthorized"), ErrorKind::Auth);
    assert_eq!(classify_error("invalid api key"), ErrorKind::Auth);
}

#[test]
fn test_classify_other() {
    assert_eq!(classify_error("something else"), ErrorKind::Other);
    assert_eq!(classify_error("file not found"), ErrorKind::Other);
    assert_eq!(
        classify_error("database connection closed"),
        ErrorKind::Other
    );
    assert_eq!(classify_error("form reset successful"), ErrorKind::Other);
    assert_eq!(classify_error("processed 500 items"), ErrorKind::Other);
}

#[test]
fn test_retry_policy() {
    let policy = RecoveryPolicy::default();

    assert!(policy.should_retry(0, ErrorKind::Network));
    assert!(policy.should_retry(1, ErrorKind::Network));
    assert!(policy.should_retry(2, ErrorKind::Network));
    assert!(!policy.should_retry(3, ErrorKind::Network));

    assert!(policy.should_retry(0, ErrorKind::RateLimit));

    assert!(!policy.should_retry(0, ErrorKind::ContextLength));

    assert!(!policy.should_retry(0, ErrorKind::Auth));

    assert!(!policy.should_retry(0, ErrorKind::Other));
}

#[test]
fn test_backoff_duration() {
    let policy = RecoveryPolicy::default();
    let d0 = policy.backoff_duration(0);
    let d1 = policy.backoff_duration(1);
    let d2 = policy.backoff_duration(2);

    assert!(d0 >= 1000);
    assert!(d1 >= 2000);
    assert!(d2 >= 4000);
}

#[test]
fn test_backoff_overflow_guard() {
    let policy = RecoveryPolicy::default();
    let d = policy.backoff_duration(20); // capped at attempts=6 via min()
    assert!(d >= 64000);
    assert!(d < 81000);
}

#[test]
fn retry_after_parses_anthropic_ms() {
    let msg = "rate limited: retry-after-ms: 5000";
    assert_eq!(
        retry_after_from_error_msg(msg),
        Some(5000),
    );
}

#[test]
fn retry_after_parses_standard_seconds() {
    let msg = "HTTP 429 Too Many Requests\nRetry-After: 30";
    assert_eq!(
        retry_after_from_error_msg(msg),
        Some(30000),
    );
}

#[test]
fn retry_after_parses_json_body() {
    let msg = r#"{"error":"rate_limit","retry_after":12}"#;
    assert_eq!(
        retry_after_from_error_msg(msg),
        Some(12000),
    );
}

#[test]
fn retry_after_parses_no_colon() {
    let msg = "got 429, retry-after 7 next time";
    assert_eq!(
        retry_after_from_error_msg(msg),
        Some(7000),
    );
}

#[test]
fn retry_after_returns_none_when_absent() {
    let msg = "generic network error: connection reset";
    assert_eq!(retry_after_from_error_msg(msg), None);
}

#[test]
fn retry_after_handles_unicode_before_label() {
    let msg = "İoError: Retry-After: 8";
    assert_eq!(
        retry_after_from_error_msg(msg),
        Some(8000),
    );
}

#[test]
fn retry_after_label_match_is_case_insensitive() {
    assert_eq!(
        retry_after_from_error_msg("rate limited: RETRY-AFTER-MS: 750"),
        Some(750),
    );
    assert_eq!(
        retry_after_from_error_msg("Retry-After-Ms: 750"),
        Some(750),
    );
}

#[test]
fn retry_after_caps_pathological_digit_run() {
    let msg = "Retry-After: 99999999999999999999999";
    let parsed = retry_after_from_error_msg(msg);
    assert!(parsed.is_some(), "must parse, not return None");
    let policy = RecoveryPolicy::default();
    let d = policy.backoff_duration_for_msg(0, msg);
    assert!(
        d <= 300000,
        "backoff must cap at 5min; got {:?}",
        d,
    );
}

#[test]
fn backoff_duration_for_msg_prefers_longer_value() {
    let policy = RecoveryPolicy::default();
    let d = policy.backoff_duration_for_msg(0, "Retry-After: 10");
    assert!(d >= 10000 && d < 11000);

    let d = policy.backoff_duration_for_msg(3, "retry-after-ms: 50");
    assert!(d >= 8000);
}

#[test]
fn backoff_duration_for_msg_caps_at_5_minutes() {
    let policy = RecoveryPolicy::default();
    let d = policy.backoff_duration_for_msg(0, "Retry-After: 9999");
    assert!(d <= 300000);
}

#[test]
fn test_backoff_jitter_present() {
    let policy = RecoveryPolicy::default();
    let mut seen = std::collections::HashSet::new();
    // The clock moves on between the calls, if not between every two of them.
    for _ in 0..100_000 {
        seen.insert(policy.backoff_duration(3));
        if seen.len() > 1 {
            break;
        }
    }
    assert!(seen.len() > 1, "expected jittered backoff to vary across calls");
    for d in seen {
        assert!(d >= 8000 && d < 10000);
    }
}

#[test]
fn dispersed_numbers_are_those_of_the_published_generator() {
    assert_eq!(pseudo_random(0, 0), 0xE220_A839_7B1D_CDAF);
}

#[test]
fn waits_double_up_to_the_sixth_attempt() {
    let policy = RecoveryPolicy::default();
    let mut least = 1000;
    for attempts in 0..7 {
        let d = policy.backoff_at(attempts, 0);
        assert!(d >= least && d < least + least / 4);
        least *= 2;
    }
    assert!(policy.backoff_at(7, 0) < 80000);
}

#[test]
fn failure_is_explained_with_the_number_of_attempts() {
    let once = user_facing_error("Rate Limit exceeded", 1);
    let twice = user_facing_error("Rate Limit exceeded", 2);
    assert!(once.starts_with("provider rate-limited the request\n"));
    assert!(twice.starts_with("provider rate-limited the request (after 2 attempt(s))\n"), "{twice}");
    assert!(twice.ends_with("cause: Rate Limit exceeded"));
}

#[test]
fn letters_of_any_case_are_understood() {
    assert_eq!(classify_error("UNAUTHORIZED"), ErrorKind::Auth);
    assert_eq!(classify_error("Connection REFUSED"), ErrorKind::Network);
}

#[test]
fn waits_vary_with_the_clock_reading() {
    let policy = RecoveryPolicy::default();
    let seen: std::collections::HashSet<u64> = (0..8).map(|n| policy.backoff_at(3, n)).collect();
    assert!(seen.len() > 1);
}

#[test]
fn a_requested_wait_that_is_longer_is_kept_to_exactly() {
    let policy = RecoveryPolicy::default();
    assert_eq!(policy.backoff_duration_for_msg(0, "Retry-After: 10"), 10_000);
    assert_eq!(policy.backoff_duration_for_msg(0, "Retry-After: 9999"), 300_000);
    let d = policy.backoff_duration_for_msg(6, "no such request");
    assert!(d >= 64_000 && d < 80_000);
}

#[test]
fn later_waits_are_longer() {
    let policy = RecoveryPolicy::default();
    for attempts in 0..6 {
        assert!(policy.backoff_duration(attempts) < policy.backoff_duration(attempts + 1));
    }
    assert!(policy.backoff_duration(usize::MAX) < 80_000);
}
