//! A retry policy is the thing a client is *supposed* to follow: given an attempt
//! number, what delay the policy prescribes before that attempt fires, and which
//! observed delays it accepts.
//!
//! The growth of the delay, `base_delay_ms` times a growth factor raised to the
//! power of [`growth_exponent`], is computed by the caller, who may use a
//! fractional factor. It reaches this module as `grown_ms`: the grown delay in
//! whole milliseconds, or `None` where it is not a finite number, be it that it
//! has outgrown them all or that the factor made no number of it. What is not
//! finite is taken for the greatest delay there is, and so comes to the cap.

use vstd::arithmetic::power::pow;
use vstd::prelude::*;

verus! {

/// How far an observed delay may stray from the expected one, in milliseconds,
/// under a policy without jitter.
pub const TOLERANCE_MS: u64 = 5;

/// How a policy spreads its delays.
#[derive(Debug, Clone, Copy, PartialEq, Eq, Structural)]
pub enum Jitter {
    /// No jitter: the delay before an attempt is a single deterministic value.
    Off,
    /// Full jitter: the delay is drawn uniformly between zero and the computed
    /// cap, so an observed gap is only wrong if it exceeds the cap.
    Full,
}

/// The parts of a backoff policy that a log is held against.
#[derive(Debug, Clone, Copy, PartialEq, Eq, Structural)]
pub struct RetryPolicy {
    /// Attempts allowed before the policy gives up.
    pub max_attempts: u32,
    /// Delay before the second attempt.
    pub base_delay_ms: u64,
    /// Cap on the computed delay.
    pub max_delay_ms: u64,
    /// How the delays are spread.
    pub jitter: Jitter,
}

/// The lesser of two numbers.
pub open spec fn lesser(a: int, b: int) -> int {
    if a <= b {
        a
    } else {
        b
    }
}

impl RetryPolicy {
    /// The delay prescribed before `attempt`, counting attempts from 1: none
    /// before the first, the base delay before the second, the grown delay before
    /// every later one, and never more than the cap.
    pub open spec fn delay(self, attempt: int, grown_ms: Option<u64>) -> int {
        if attempt <= 1 {
            0
        } else if attempt == 2 {
            lesser(self.base_delay_ms as int, self.max_delay_ms as int)
        } else {
            match grown_ms {
                Some(ms) => lesser(ms as int, self.max_delay_ms as int),
                None => self.max_delay_ms as int,
            }
        }
    }

    /// What the delay has grown to, where multiplying the base delay by the power
    /// of the growth factor gave `product_ms`. A base delay of zero stays zero
    /// under every finite factor, even where the power has outgrown every finite
    /// number and the product is none.
    pub open spec fn grown(self, product_ms: Option<u64>, factor_is_finite: bool) -> Option<u64> {
        if self.base_delay_ms == 0 && factor_is_finite {
            Some(0)
        } else {
            product_ms
        }
    }

    /// Whether a gap of `observed_ms` before `attempt` is consistent with the
    /// policy.
    pub open spec fn accepts(
        self,
        attempt: int,
        grown_ms: Option<u64>,
        observed_ms: int,
    ) -> bool {
        let expected = self.delay(attempt, grown_ms);
        match self.jitter {
            Jitter::Off => expected - TOLERANCE_MS <= observed_ms <= expected + TOLERANCE_MS,
            Jitter::Full => observed_ms <= expected,
        }
    }

    /// Delay the policy prescribes before running `attempt` (attempts are
    /// 1-indexed, so there is no delay before attempt 1), where the delay has
    /// grown to `grown_ms`. Capped at `max_delay_ms`.
    pub fn expected_delay_ms(&self, attempt: u32, grown_ms: Option<u64>) -> (res: u64)
        ensures
            res == self.delay(attempt as int, grown_ms),
            res <= self.max_delay_ms,
    {
        if attempt <= 1 {
            return 0;
        }
        let uncapped = if attempt == 2 {
            Some(self.base_delay_ms)
        } else {
            grown_ms
        };
        match uncapped {
            Some(ms) => if ms <= self.max_delay_ms {
                ms
            } else {
                self.max_delay_ms
            },
            None => self.max_delay_ms,
        }
    }

    /// What the delay has grown to, as [`RetryPolicy::expected_delay_ms`] takes it,
    /// where multiplying the base delay by the power of the growth factor gave
    /// `product_ms` in whole milliseconds, or `None` where the product is not
    /// finite.
    pub fn grown_ms(&self, product_ms: Option<u64>, factor_is_finite: bool) -> (res: Option<u64>)
        ensures
            res == self.grown(product_ms, factor_is_finite),
    {
        if self.base_delay_ms == 0 && factor_is_finite {
            Some(0)
        } else {
            product_ms
        }
    }

    /// Whether an observed gap, in milliseconds, before `attempt` is consistent
    /// with this policy. Deterministic policies get a small fixed tolerance to
    /// absorb clock and scheduler skew; jittered policies only bound the delay
    /// from above.
    pub fn accepts_gap(&self, attempt: u32, grown_ms: Option<u64>, observed_ms: u64) -> (res: bool)
        ensures
            res == self.accepts(attempt as int, grown_ms, observed_ms as int),
    {
        let expected = self.expected_delay_ms(attempt, grown_ms);
        match self.jitter {
            Jitter::Off => observed_ms >= expected.saturating_sub(TOLERANCE_MS) && observed_ms
                <= expected.saturating_add(TOLERANCE_MS),
            Jitter::Full => observed_ms <= expected,
        }
    }
}

/// The power to which the growth factor is raised before `attempt`, whatever its
/// size.
pub open spec fn exponent(attempt: int) -> int {
    if attempt <= 2 {
        0
    } else {
        attempt - 2
    }
}

/// The power to which the growth factor is raised before `attempt`: the growth
/// starts behind the second attempt. Beyond the greatest exponent it stays there.
pub fn growth_exponent(attempt: u32) -> (res: i32)
    ensures
        res == lesser(
            if attempt <= 2 {
                0
            } else {
                attempt - 2
            },
            i32::MAX as int,
        ),
        res == exponent(attempt as int) || (res == i32::MAX && exponent(attempt as int) > res),
{
    if attempt <= 2 {
        0
    } else if attempt - 2 <= 0x7fff_ffff {
        (attempt - 2) as i32
    } else {
        i32::MAX
    }
}

/// No attempt waits longer than the cap, and the first waits for nothing.
pub proof fn delay_never_exceeds_the_cap(
    policy: RetryPolicy,
    attempt: int,
    grown_ms: Option<u64>,
)
    ensures
        0 <= policy.delay(attempt, grown_ms) <= policy.max_delay_ms,
        attempt <= 1 ==> policy.delay(attempt, grown_ms) == 0,
{
}

/// A delay that has grown further is never prescribed shorter. A delay beyond
/// every finite number counts as grown furthest.
pub proof fn delay_follows_growth(policy: RetryPolicy, attempt: int, less: u64, more: Option<u64>)
    requires
        more matches Some(ms) ==> less <= ms,
    ensures
        policy.delay(attempt, Some(less)) <= policy.delay(attempt, more),
{
}

/// A base delay of zero never grows by a finite factor.
pub proof fn zero_delay_never_grows(policy: RetryPolicy, attempt: int, product_ms: Option<u64>)
    requires
        policy.base_delay_ms == 0,
    ensures
        policy.delay(attempt, policy.grown(product_ms, true)) == 0,
{
}

/// Whether one growth is no greater than another. A growth that is not finite is
/// the greatest.
pub open spec fn grown_no_further(one: Option<u64>, other: Option<u64>) -> bool {
    match (one, other) {
        (_, None) => true,
        (Some(a), Some(b)) => a <= b,
        (None, Some(_)) => false,
    }
}

/// A later attempt never waits shorter than an earlier one, where the delay does
/// not shrink from the one to the other and has not shrunk below the base delay.
pub proof fn later_attempts_never_wait_shorter(
    policy: RetryPolicy,
    a: int,
    b: int,
    grown_before_a: Option<u64>,
    grown_before_b: Option<u64>,
)
    requires
        1 <= a <= b,
        grown_no_further(grown_before_a, grown_before_b),
        grown_no_further(Some(policy.base_delay_ms), grown_before_a),
    ensures
        policy.delay(a, grown_before_a) <= policy.delay(b, grown_before_b),
{
}

/// What the base delay has grown to before `attempt` by a whole factor, or `None`
/// where that is more milliseconds than can be counted.
pub open spec fn growth_by(base_delay_ms: u64, factor: nat, attempt: int) -> Option<u64> {
    let grown = base_delay_ms * pow(
        factor as int,
        if attempt <= 2 {
            0
        } else {
            (attempt - 2) as nat
        },
    );
    if grown <= u64::MAX {
        Some(grown as u64)
    } else {
        None
    }
}

/// Under a whole growth factor the delay is the base delay times the factor raised
/// to the number of attempts behind the second, capped.
pub proof fn delay_grows_exponentially(policy: RetryPolicy, factor: nat, attempt: int)
    requires
        attempt >= 2,
    ensures
        policy.delay(attempt, growth_by(policy.base_delay_ms, factor, attempt)) == lesser(
            policy.base_delay_ms * pow(factor as int, (attempt - 2) as nat),
            policy.max_delay_ms as int,
        ),
{
    let base = policy.base_delay_ms as int;
    let power = pow(factor as int, (attempt - 2) as nat);
    vstd::arithmetic::power::lemma_pow0(factor as int);
    assert(base * 1 == base);
    lemma_pow_is_not_negative(factor, (attempt - 2) as nat);
    assert(base * power >= 0) by (nonlinear_arith)
        requires
            base >= 0,
            power >= 0,
    ;
}

/// Under a whole growth factor of at least 1 a later attempt never waits shorter.
pub proof fn whole_factors_never_shorten_the_delay(
    policy: RetryPolicy,
    factor: nat,
    a: int,
    b: int,
)
    requires
        factor >= 1,
        a <= b,
    ensures
        policy.delay(a, growth_by(policy.base_delay_ms, factor, a)) <= policy.delay(
            b,
            growth_by(policy.base_delay_ms, factor, b),
        ),
{
    if a >= 2 {
        let base = policy.base_delay_ms as int;
        let less = pow(factor as int, (a - 2) as nat);
        let more = pow(factor as int, (b - 2) as nat);
        delay_grows_exponentially(policy, factor, a);
        delay_grows_exponentially(policy, factor, b);
        vstd::arithmetic::power::lemma_pow_increases(factor, (a - 2) as nat, (b - 2) as nat);
        assert(base * less <= base * more) by (nonlinear_arith)
            requires
                base >= 0,
                less <= more,
        ;
    } else {
        delay_never_exceeds_the_cap(
            policy,
            b,
            growth_by(policy.base_delay_ms, factor, b),
        );
    }
}

proof fn lemma_pow_is_not_negative(factor: nat, exponent: nat)
    ensures
        pow(factor as int, exponent) >= 0,
    decreases exponent,
{
    vstd::arithmetic::power::lemma_pow0(factor as int);
    if exponent > 0 {
        let rest = pow(factor as int, (exponent - 1) as nat);
        lemma_pow_is_not_negative(factor, (exponent - 1) as nat);
        reveal(pow);
        assert(factor * rest >= 0) by (nonlinear_arith)
            requires
                factor >= 0,
                rest >= 0,
        ;
    }
}

/// Waiting exactly as long as prescribed is always accepted.
pub proof fn prescribed_delay_is_accepted(
    policy: RetryPolicy,
    attempt: int,
    grown_ms: Option<u64>,
)
    ensures
        policy.accepts(attempt, grown_ms, policy.delay(attempt, grown_ms)),
{
}

/// Full jitter only bounds the delay from above: whatever is shorter than an
/// accepted gap is accepted too.
pub proof fn full_jitter_bounds_only_from_above(
    policy: RetryPolicy,
    attempt: int,
    grown_ms: Option<u64>,
    shorter_ms: int,
    observed_ms: int,
)
    requires
        policy.jitter == Jitter::Full,
        shorter_ms <= observed_ms,
        policy.accepts(attempt, grown_ms, observed_ms),
    ensures
        policy.accepts(attempt, grown_ms, shorter_ms),
{
}

/// Without jitter the tolerance is the same in both directions.
pub proof fn tolerance_is_symmetric(
    policy: RetryPolicy,
    attempt: int,
    grown_ms: Option<u64>,
    skew_ms: int,
)
    requires
        policy.jitter == Jitter::Off,
    ensures
        policy.accepts(attempt, grown_ms, policy.delay(attempt, grown_ms) + skew_ms)
            == policy.accepts(attempt, grown_ms, policy.delay(attempt, grown_ms) - skew_ms),
        policy.accepts(attempt, grown_ms, policy.delay(attempt, grown_ms) + skew_ms) <==> -TOLERANCE_MS
            <= skew_ms <= TOLERANCE_MS,
{
}

/// Nothing is raised before the second attempt, and every attempt behind it raises
/// the growth factor to one power more.
pub proof fn every_attempt_grows_once_more(attempt: int)
    ensures
        attempt <= 2 ==> exponent(attempt) == 0,
        attempt >= 2 ==> exponent(attempt + 1) == exponent(attempt) + 1,
{
}

/// A delay is what is asked for or the cap, whichever comes first: it exceeds
/// neither and is one of them. What is asked for is nothing before the first
/// attempt, the base delay before the second, and the growth before later ones; a
/// growth that is not finite asks for more than any cap.
pub proof fn delay_is_what_is_asked_for_or_the_cap(
    policy: RetryPolicy,
    attempt: int,
    grown_ms: Option<u64>,
)
    ensures
        ({
            let delay = policy.delay(attempt, grown_ms);
            let cap = policy.max_delay_ms;
            let base = policy.base_delay_ms;
            &&& attempt <= 1 ==> delay == 0
            &&& attempt == 2 ==> delay <= base && delay <= cap && (delay == base || delay == cap)
            &&& attempt >= 3 ==> (grown_ms matches Some(ms) ==> delay <= ms && delay <= cap && (
            delay == ms || delay == cap))
            &&& attempt >= 3 && grown_ms is None ==> delay == cap
        }),
{
}

/// Under full jitter a gap is accepted exactly when it is no longer than the delay
/// prescribed before that very attempt.
pub proof fn full_jitter_accepts_up_to_the_delay(
    policy: RetryPolicy,
    attempt: int,
    grown_ms: Option<u64>,
    observed_ms: int,
)
    requires
        policy.jitter == Jitter::Full,
    ensures
        observed_ms <= policy.delay(attempt, grown_ms) ==> policy.accepts(
            attempt,
            grown_ms,
            observed_ms,
        ),
        observed_ms > policy.delay(attempt, grown_ms) ==> !policy.accepts(
            attempt,
            grown_ms,
            observed_ms,
        ),
{
}

/// Under full jitter no gap is accepted that is longer than the growth handed in,
/// than the cap, or, before the second attempt, than the base delay.
pub proof fn full_jitter_rejects_longer_gaps(
    policy: RetryPolicy,
    attempt: int,
    grown_ms: Option<u64>,
    observed_ms: int,
)
    requires
        policy.jitter == Jitter::Full,
        policy.accepts(attempt, grown_ms, observed_ms),
    ensures
        observed_ms <= policy.max_delay_ms,
        attempt <= 1 ==> observed_ms <= 0,
        attempt == 2 ==> observed_ms <= policy.base_delay_ms,
        attempt >= 3 ==> (grown_ms matches Some(ms) ==> observed_ms <= ms),
{
}

/// Without jitter a gap is accepted exactly when it misses the prescribed delay by
/// no more than five milliseconds.
pub proof fn fixed_delays_are_met_within_five_milliseconds(
    policy: RetryPolicy,
    attempt: int,
    grown_ms: Option<u64>,
    observed_ms: int,
)
    requires
        policy.jitter == Jitter::Off,
    ensures
        policy.accepts(attempt, grown_ms, observed_ms) <==> {
            let missed_by = observed_ms - policy.delay(attempt, grown_ms);
            -5 <= missed_by <= 5
        },
{
}

/// The growth is what the multiplication gave, but for a base delay of zero, which
/// no finite factor raises.
pub proof fn growth_is_the_product_unless_the_base_is_zero(
    policy: RetryPolicy,
    product_ms: Option<u64>,
    factor_is_finite: bool,
)
    ensures
        policy.base_delay_ms > 0 ==> policy.grown(product_ms, factor_is_finite) == product_ms,
        !factor_is_finite ==> policy.grown(product_ms, factor_is_finite) == product_ms,
        policy.base_delay_ms == 0 && factor_is_finite ==> policy.grown(
            product_ms,
            factor_is_finite,
        ) == Some(0u64),
{
}

} // verus!
