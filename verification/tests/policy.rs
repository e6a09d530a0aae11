use retrycheck::policy::{growth_exponent, Jitter, RetryPolicy};

fn policy() -> RetryPolicy {
    RetryPolicy { max_attempts: 5, base_delay_ms: 100, max_delay_ms: 10_000, jitter: Jitter::Off }
}

/// The base delay multiplied by 2.0 for every attempt after the second.
fn grown(p: &RetryPolicy, attempt: u32) -> Option<u64> {
    grown_by(p, 2.0, attempt)
}

fn grown_by(p: &RetryPolicy, multiplier: f64, attempt: u32) -> Option<u64> {
    let product = p.base_delay_ms as f64 * multiplier.powi(growth_exponent(attempt));
    let product_ms = if product.is_finite() { Some(product.max(0.0) as u64) } else { None };
    p.grown_ms(product_ms, multiplier.is_finite())
}

fn expected(p: &RetryPolicy, attempt: u32) -> u64 {
    p.expected_delay_ms(attempt, grown(p, attempt))
}

fn accepts(p: &RetryPolicy, attempt: u32, observed_ms: u64) -> bool {
    p.accepts_gap(attempt, grown(p, attempt), observed_ms)
}

#[test]
fn first_attempt_has_no_delay() {
    assert_eq!(expected(&policy(), 1), 0);
}

#[test]
fn delay_doubles_per_attempt() {
    let p = policy();
    assert_eq!(expected(&p, 2), 100);
    assert_eq!(expected(&p, 3), 200);
    assert_eq!(expected(&p, 4), 400);
}

#[test]
fn delay_is_capped() {
    let p = policy();
    assert_eq!(expected(&p, 20), 10_000);
}

#[test]
fn full_jitter_only_bounds_from_above() {
    let mut p = policy();
    p.jitter = Jitter::Full;
    assert!(accepts(&p, 3, 0));
    assert!(accepts(&p, 3, 200));
    assert!(!accepts(&p, 3, 201));
}

#[test]
fn attempt_zero_has_no_delay_either() {
    assert_eq!(policy().expected_delay_ms(0, Some(7)), 0);
    assert_eq!(policy().expected_delay_ms(1, None), 0);
}

#[test]
fn second_attempt_waits_for_the_base_delay_whatever_the_growth() {
    let mut p = policy();
    assert_eq!(p.expected_delay_ms(2, None), 100);
    assert_eq!(p.expected_delay_ms(2, Some(9_999)), 100);
    p.base_delay_ms = 20_000;
    assert_eq!(p.expected_delay_ms(2, Some(20_000)), 10_000);
}

#[test]
fn endless_growth_is_capped() {
    assert_eq!(policy().expected_delay_ms(3, None), 10_000);
    assert_eq!(policy().expected_delay_ms(3, Some(u64::MAX)), 10_000);
    assert_eq!(policy().expected_delay_ms(3, Some(9_999)), 9_999);
    assert_eq!(expected(&policy(), 2_000), 10_000);
}

#[test]
fn tolerance_is_five_milliseconds_both_ways() {
    let p = policy();
    assert!(!accepts(&p, 3, 194));
    assert!(accepts(&p, 3, 195));
    assert!(accepts(&p, 3, 205));
    assert!(!accepts(&p, 3, 206));
}

#[test]
fn tolerance_does_not_overflow_at_either_end() {
    let p = RetryPolicy {
        max_attempts: 5,
        base_delay_ms: u64::MAX,
        max_delay_ms: u64::MAX,
        jitter: Jitter::Off,
    };
    assert!(p.accepts_gap(2, None, u64::MAX));
    assert!(p.accepts_gap(2, None, u64::MAX - 5));
    assert!(!p.accepts_gap(2, None, u64::MAX - 6));
    assert!(p.accepts_gap(1, None, 0));
    assert!(p.accepts_gap(1, None, 5));
    assert!(!p.accepts_gap(1, None, 6));
    assert!(!policy().accepts_gap(2, None, u64::MAX));
}

#[test]
fn prescribed_delay_is_accepted_with_and_without_jitter() {
    let mut p = policy();
    for attempt in 1..40 {
        p.jitter = Jitter::Off;
        assert!(accepts(&p, attempt, expected(&p, attempt)));
        p.jitter = Jitter::Full;
        assert!(accepts(&p, attempt, expected(&p, attempt)));
    }
}

#[test]
fn further_growth_never_shortens_the_delay() {
    let p = policy();
    for attempt in 1..40 {
        assert!(expected(&p, attempt) <= expected(&p, attempt + 1));
        assert!(expected(&p, attempt) <= p.max_delay_ms);
    }
}

#[test]
fn growth_starts_behind_the_second_attempt_and_its_exponent_stays_in_range() {
    assert_eq!(growth_exponent(0), 0);
    assert_eq!(growth_exponent(1), 0);
    assert_eq!(growth_exponent(2), 0);
    assert_eq!(growth_exponent(3), 1);
    assert_eq!(growth_exponent(20), 18);
    assert_eq!(growth_exponent(2_147_483_649), i32::MAX);
    assert_eq!(growth_exponent(2_147_483_650), i32::MAX);
    assert_eq!(growth_exponent(u32::MAX), i32::MAX);
}

#[test]
fn base_delay_of_zero_never_grows_by_a_finite_factor() {
    let mut p = policy();
    p.base_delay_ms = 0;
    assert!(!(0.0 * 2.0f64.powi(growth_exponent(1026))).is_finite());
    for attempt in [1, 2, 3, 1026] {
        assert_eq!(expected(&p, attempt), 0);
    }
    assert!(accepts(&p, 1026, 5));
    assert!(!accepts(&p, 1026, 6));
}

#[test]
fn factors_that_are_not_finite_lead_to_the_cap() {
    for base_delay_ms in [0, 100] {
        let mut p = policy();
        p.base_delay_ms = base_delay_ms;
        for multiplier in [f64::NAN, f64::INFINITY, f64::NEG_INFINITY] {
            assert_eq!(p.expected_delay_ms(1, grown_by(&p, multiplier, 1)), 0);
            assert_eq!(p.expected_delay_ms(2, grown_by(&p, multiplier, 2)), base_delay_ms);
            assert_eq!(p.expected_delay_ms(3, grown_by(&p, multiplier, 3)), 10_000);
            assert_eq!(p.expected_delay_ms(4, grown_by(&p, multiplier, 4)), 10_000);
        }
    }
}

#[test]
fn negative_growth_is_no_delay() {
    let p = policy();
    assert_eq!(p.expected_delay_ms(3, grown_by(&p, -2.0, 3)), 0);
    assert_eq!(p.expected_delay_ms(4, grown_by(&p, -2.0, 4)), 400);
}

#[test]
fn whole_factors_raise_the_delay_to_the_cap() {
    let p = policy();
    for factor in 1..5u64 {
        let delay = |attempt: u32| {
            let grown_ms = factor
                .checked_pow(growth_exponent(attempt) as u32)
                .and_then(|power| power.checked_mul(p.base_delay_ms));
            p.expected_delay_ms(attempt, grown_ms)
        };
        for a in 1..70 {
            for b in a..70 {
                assert!(delay(a) <= delay(b));
            }
        }
        assert_eq!(delay(4), 100 * factor * factor);
    }
}
