//! One retry sequence: the attempts of a single request, judged one at a time.
//!
//! A sequence is specified by its history, the attempts recorded so far. What is
//! kept of them at run time is the first and the latest timestamp and three
//! numbers.

use crate::parse::Attempt;
use crate::policy::RetryPolicy;
use crate::text;
use vstd::prelude::*;
use vstd::string::*;

verus! {

/// An attempt together with what the backoff delay had grown to before it.
pub struct Event {
    pub attempt: Attempt,
    pub grown_ms: Option<u64>,
}

/// One way in which an attempt departs from the policy. Attempts are counted
/// from 1.
#[derive(Debug, Clone, Copy, PartialEq, Eq, Structural)]
pub enum Violation {
    /// The attempt fired although an earlier one had succeeded.
    AfterSuccess { attempt: u32, finished_at: u32 },
    /// The attempt is one more than the policy allows.
    TooMany { attempt: u32, max_attempts: u32 },
    /// The attempt is stamped earlier than the one before it.
    OutOfOrder { timestamp_ms: u64, previous_ms: u64 },
    /// The gap before the attempt is not what the policy prescribes.
    WrongGap { attempt: u32, waited_ms: u64, expected_ms: u64 },
}

/// The number of the latest attempt that succeeded.
pub open spec fn last_success(history: Seq<Event>) -> Option<nat>
    decreases history.len(),
{
    if history.len() == 0 {
        None
    } else if history.last().attempt.ok {
        Some(history.len())
    } else {
        last_success(history.drop_last())
    }
}

/// The complaint about an attempt that follows a success.
pub open spec fn success_findings(history: Seq<Event>) -> Seq<Violation> {
    match last_success(history) {
        Some(n) => seq![
            Violation::AfterSuccess { attempt: (history.len() + 1) as u32, finished_at: n as u32 },
        ],
        None => seq![],
    }
}

/// The complaint about an attempt past the policy's maximum.
pub open spec fn count_findings(policy: RetryPolicy, history: Seq<Event>) -> Seq<Violation> {
    if history.len() + 1 > policy.max_attempts {
        seq![
            Violation::TooMany {
                attempt: (history.len() + 1) as u32,
                max_attempts: policy.max_attempts,
            },
        ]
    } else {
        seq![]
    }
}

/// The complaint about when an attempt fired.
pub open spec fn timing_findings(
    policy: RetryPolicy,
    history: Seq<Event>,
    next: Event,
) -> Seq<Violation> {
    if history.len() == 0 {
        seq![]
    } else {
        let now = next.attempt.timestamp_ms;
        let previous = history.last().attempt.timestamp_ms;
        let number = (history.len() + 1) as int;
        if now < previous {
            seq![Violation::OutOfOrder { timestamp_ms: now, previous_ms: previous }]
        } else if !policy.accepts(number, next.grown_ms, now - previous) {
            seq![
                Violation::WrongGap {
                    attempt: number as u32,
                    waited_ms: (now - previous) as u64,
                    expected_ms: policy.delay(number, next.grown_ms) as u64,
                },
            ]
        } else {
            seq![]
        }
    }
}

/// Every way in which the attempt `next` departs from the policy, coming after
/// the attempts of `history`.
pub open spec fn findings(policy: RetryPolicy, history: Seq<Event>, next: Event) -> Seq<Violation> {
    success_findings(history) + count_findings(policy, history) + timing_findings(
        policy,
        history,
        next,
    )
}

/// How many violations a whole history holds.
pub open spec fn total(policy: RetryPolicy, history: Seq<Event>) -> nat
    decreases history.len(),
{
    if history.len() == 0 {
        0
    } else {
        total(policy, history.drop_last()) + findings(
            policy,
            history.drop_last(),
            history.last(),
        ).len()
    }
}

/// The time between the first and the last attempt. A history that ends before
/// it began has lasted for no time.
pub open spec fn elapsed(history: Seq<Event>) -> nat {
    if history.len() == 0 || history.last().attempt.timestamp_ms
        < history[0].attempt.timestamp_ms {
        0
    } else {
        (history.last().attempt.timestamp_ms - history[0].attempt.timestamp_ms) as nat
    }
}

/// Whether a history does what the policy prescribes: it has no more attempts
/// than allowed, only its last attempt may succeed, time does not run backwards,
/// and every gap is acceptable.
pub open spec fn follows(policy: RetryPolicy, history: Seq<Event>) -> bool {
    &&& history.len() <= policy.max_attempts
    &&& forall|i: int| 0 <= i < history.len() - 1 ==> !(#[trigger] history[i]).attempt.ok
    &&& forall|i: int| 1 <= i < history.len() ==> #[trigger] well_timed(policy, history, i)
}

/// Whether the attempt at index `i` fired when the policy wanted it to, seen from
/// the attempt before it.
pub open spec fn well_timed(policy: RetryPolicy, history: Seq<Event>, i: int) -> bool {
    let gap = history[i].attempt.timestamp_ms - history[i - 1].attempt.timestamp_ms;
    gap >= 0 && policy.accepts(i + 1, history[i].grown_ms, gap)
}

/// The wording of a violation.
pub open spec fn wording(violation: Violation) -> Seq<char> {
    match violation {
        Violation::AfterSuccess { attempt, finished_at } => "attempt "@ + text::decimal(
            attempt as nat,
        ) + " fired after attempt "@ + text::decimal(finished_at as nat) + " already succeeded"@,
        Violation::TooMany { attempt, max_attempts } => "attempt "@ + text::decimal(attempt as nat)
            + " exceeds the policy's max of "@ + text::decimal(max_attempts as nat),
        Violation::OutOfOrder { timestamp_ms, previous_ms } => "timestamp "@ + text::decimal(
            timestamp_ms as nat,
        ) + " is before the previous attempt's "@ + text::decimal(previous_ms as nat),
        Violation::WrongGap { attempt, waited_ms, expected_ms } => "attempt "@ + text::decimal(
            attempt as nat,
        ) + " waited "@ + text::decimal(waited_ms as nat) + "ms, policy expected ~"@
            + text::decimal(expected_ms as nat) + "ms"@,
    }
}

/// The wording of a history's outcome.
pub open spec fn outcome_wording(policy: RetryPolicy, history: Seq<Event>) -> Seq<char> {
    text::decimal(history.len()) + " attempts, "@ + text::decimal(elapsed(history))
        + "ms elapsed, "@ + text::decimal(total(policy, history)) + " violation(s)"@
}

impl Violation {
    /// Puts the violation into words.
    pub fn message(&self) -> (res: String)
        ensures
            res@ == wording(*self),
    {
        let mut res: String;
        match self {
            Violation::AfterSuccess { attempt, finished_at } => {
                res = "attempt ".to_owned();
                text::push_decimal(&mut res, *attempt as u128);
                res.append(" fired after attempt ");
                text::push_decimal(&mut res, *finished_at as u128);
                res.append(" already succeeded");
            },
            Violation::TooMany { attempt, max_attempts } => {
                res = "attempt ".to_owned();
                text::push_decimal(&mut res, *attempt as u128);
                res.append(" exceeds the policy's max of ");
                text::push_decimal(&mut res, *max_attempts as u128);
            },
            Violation::OutOfOrder { timestamp_ms, previous_ms } => {
                res = "timestamp ".to_owned();
                text::push_decimal(&mut res, *timestamp_ms as u128);
                res.append(" is before the previous attempt's ");
                text::push_decimal(&mut res, *previous_ms as u128);
            },
            Violation::WrongGap { attempt, waited_ms, expected_ms } => {
                res = "attempt ".to_owned();
                text::push_decimal(&mut res, *attempt as u128);
                res.append(" waited ");
                text::push_decimal(&mut res, *waited_ms as u128);
                res.append("ms, policy expected ~");
                text::push_decimal(&mut res, *expected_ms as u128);
                res.append("ms");
            },
        }
        res
    }
}

/// The state of one retry sequence, judged by one policy throughout.
pub struct RetrySequence {
    policy: RetryPolicy,
    attempt_num: u32,
    prev_timestamp_ms: Option<u64>,
    first_timestamp_ms: Option<u64>,
    succeeded_at: Option<u32>,
    violations: u64,
    history: Ghost<Seq<Event>>,
}

impl View for RetrySequence {
    type V = Seq<Event>;

    /// The attempts recorded so far.
    closed spec fn view(&self) -> Seq<Event> {
        self.history@
    }
}

impl RetrySequence {
    /// The policy that the sequence is judged by.
    pub closed spec fn policy(&self) -> RetryPolicy {
        self.policy
    }

    /// Whether the state is that of its history.
    pub closed spec fn wf(&self) -> bool {
        let history = self.history@;
        &&& self.attempt_num == history.len()
        &&& self.prev_timestamp_ms == if history.len() == 0 {
            None
        } else {
            Some(history.last().attempt.timestamp_ms)
        }
        &&& self.first_timestamp_ms == if history.len() == 0 {
            None
        } else {
            Some(history[0].attempt.timestamp_ms)
        }
        &&& match (self.succeeded_at, last_success(history)) {
            (Some(a), Some(b)) => a == b,
            (None, None) => true,
            _ => false,
        }
        &&& self.violations == total(self.policy, history)
        &&& self.violations <= 3 * history.len()
    }

    /// A sequence without attempts.
    pub fn new(policy: RetryPolicy) -> (res: Self)
        ensures
            res.wf(),
            res@ == Seq::<Event>::empty(),
            res.policy() == policy,
    {
        RetrySequence {
            policy,
            attempt_num: 0,
            prev_timestamp_ms: None,
            first_timestamp_ms: None,
            succeeded_at: None,
            violations: 0,
            history: Ghost(Seq::empty()),
        }
    }

    /// How many attempts were recorded.
    pub fn attempts(&self) -> (res: u32)
        requires
            self.wf(),
        ensures
            res == self@.len(),
    {
        self.attempt_num
    }

    /// How many violations the attempts recorded so far hold.
    pub fn violations(&self) -> (res: u64)
        requires
            self.wf(),
        ensures
            res == total(self.policy(), self@),
            res <= 3 * self@.len(),
    {
        self.violations
    }

    /// The time between the first and the latest attempt. Where the latest is
    /// stamped earlier than the first, no time has elapsed.
    pub fn elapsed_ms(&self) -> (res: u64)
        requires
            self.wf(),
        ensures
            res == elapsed(self@),
    {
        match (self.first_timestamp_ms, self.prev_timestamp_ms) {
            (Some(first), Some(last)) => last.saturating_sub(first),
            _ => 0,
        }
    }

    /// Records the next attempt, before which the delay had grown to `grown_ms`,
    /// and tells every way in which it departs from the policy.
    pub fn record(&mut self, attempt: Attempt, grown_ms: Option<u64>) -> (res: Vec<Violation>)
        requires
            old(self).wf(),
            old(self)@.len() < u32::MAX,
        ensures
            final(self).wf(),
            final(self).policy() == old(self).policy(),
            final(self)@ == old(self)@.push(Event { attempt, grown_ms }),
            res@ == findings(old(self).policy(), old(self)@, Event { attempt, grown_ms }),
    {
        let ghost before = self.history@;
        let ghost event = Event { attempt, grown_ms };
        let mut found: Vec<Violation> = Vec::new();
        self.attempt_num = self.attempt_num + 1;
        if self.first_timestamp_ms.is_none() {
            self.first_timestamp_ms = Some(attempt.timestamp_ms);
        }
        if let Some(finished_at) = self.succeeded_at {
            found.push(Violation::AfterSuccess { attempt: self.attempt_num, finished_at });
        }
        assert(found@ =~= success_findings(before));
        if self.attempt_num > self.policy.max_attempts {
            found.push(
                Violation::TooMany {
                    attempt: self.attempt_num,
                    max_attempts: self.policy.max_attempts,
                },
            );
        }
        assert(found@ =~= success_findings(before) + count_findings(self.policy, before));
        if let Some(previous_ms) = self.prev_timestamp_ms {
            if attempt.timestamp_ms < previous_ms {
                found.push(
                    Violation::OutOfOrder { timestamp_ms: attempt.timestamp_ms, previous_ms },
                );
            } else {
                let waited_ms: u64 = attempt.timestamp_ms - previous_ms;
                if !self.policy.accepts_gap(self.attempt_num, grown_ms, waited_ms) {
                    found.push(
                        Violation::WrongGap {
                            attempt: self.attempt_num,
                            waited_ms,
                            expected_ms: self.policy.expected_delay_ms(self.attempt_num, grown_ms),
                        },
                    );
                }
            }
        }
        assert(found@ =~= findings(self.policy, before, event));
        self.violations = self.violations + found.len() as u64;
        if attempt.ok {
            self.succeeded_at = Some(self.attempt_num);
        }
        self.prev_timestamp_ms = Some(attempt.timestamp_ms);
        self.history = Ghost(before.push(event));
        assert(self.history@.drop_last() =~= before);
        found
    }

    /// Puts the outcome of the sequence so far into words.
    pub fn outcome(&self) -> (res: String)
        requires
            self.wf(),
        ensures
            res@ == outcome_wording(self.policy(), self@),
    {
        let mut res = String::new();
        text::push_decimal(&mut res, self.attempts() as u128);
        res.append(" attempts, ");
        text::push_decimal(&mut res, self.elapsed_ms() as u128);
        res.append("ms elapsed, ");
        text::push_decimal(&mut res, self.violations() as u128);
        res.append(" violation(s)");
        assert(res@ =~= outcome_wording(self.policy(), self@));
        res
    }
}

/// An attempt departs from the policy in at most three ways.
pub proof fn at_most_three_findings(policy: RetryPolicy, history: Seq<Event>, next: Event)
    ensures
        findings(policy, history, next).len() <= 3,
{
}

/// A history holds no violation exactly when it follows the policy.
pub proof fn no_violation_means_policy_followed(policy: RetryPolicy, history: Seq<Event>)
    ensures
        total(policy, history) == 0 <==> follows(policy, history),
    decreases history.len(),
{
    if history.len() > 0 {
        let before = history.drop_last();
        no_violation_means_policy_followed(policy, before);
        latest_success_is_remembered(before);
        let i = history.len() - 1;
        assert(forall|k: int| 0 <= k < before.len() ==> before[k] == history[k]);
        assert forall|k: int| 1 <= k < before.len() implies well_timed(policy, before, k)
            == well_timed(policy, history, k) by {}
        if total(policy, history) == 0 {
            assert forall|k: int| 0 <= k < history.len() - 1 implies !(
            #[trigger] history[k]).attempt.ok by {
                assert(before[k] == history[k]);
            }
            assert forall|k: int| 1 <= k < history.len() implies #[trigger] well_timed(
                policy,
                history,
                k,
            ) by {
                if k < i {
                    assert(well_timed(policy, before, k));
                }
            }
        }
        if follows(policy, history) {
            assert forall|k: int| 0 <= k < before.len() implies !(
            #[trigger] before[k]).attempt.ok by {
                assert(before[k] == history[k]);
            }
            assert forall|k: int| 1 <= k < before.len() implies #[trigger] well_timed(
                policy,
                before,
                k,
            ) by {
                assert(well_timed(policy, history, k));
            }
            assert(i >= 1 ==> well_timed(policy, history, i));
        }
    }
}

/// The latest success is a success, and no later attempt is one; where there is no
/// latest success, no attempt succeeded.
pub proof fn latest_success_is_remembered(history: Seq<Event>)
    ensures
        match last_success(history) {
            Some(n) => 1 <= n <= history.len() && history[n - 1].attempt.ok && (forall|k: int|
                n <= k < history.len() ==> !(#[trigger] history[k]).attempt.ok),
            None => forall|k: int|
                0 <= k < history.len() ==> !(#[trigger] history[k]).attempt.ok,
        },
    decreases history.len(),
{
    if history.len() > 0 {
        let before = history.drop_last();
        latest_success_is_remembered(before);
        assert(forall|k: int| 0 <= k < before.len() ==> before[k] == history[k]);
    }
}

/// Whatever follows the policy followed it all along.
pub proof fn beginnings_follow_too(policy: RetryPolicy, history: Seq<Event>, n: int)
    requires
        follows(policy, history),
        0 <= n <= history.len(),
    ensures
        follows(policy, history.take(n)),
{
    let beginning = history.take(n);
    assert forall|i: int| 0 <= i < beginning.len() - 1 implies !(
    #[trigger] beginning[i]).attempt.ok by {
        assert(beginning[i] == history[i]);
    }
    assert forall|i: int| 1 <= i < beginning.len() implies #[trigger] well_timed(
        policy,
        beginning,
        i,
    ) by {
        assert(well_timed(policy, history, i));
    }
}

/// A violation once found is never taken back.
pub proof fn violations_only_accumulate(policy: RetryPolicy, history: Seq<Event>, n: int)
    requires
        0 <= n <= history.len(),
    ensures
        total(policy, history.take(n)) <= total(policy, history) <= 3 * history.len(),
    decreases history.len(),
{
    if n == history.len() {
        assert(history.take(n) =~= history);
        if n > 0 {
            violations_only_accumulate(policy, history.drop_last(), n - 1);
        }
    } else {
        violations_only_accumulate(policy, history.drop_last(), n);
        assert(history.drop_last().take(n) =~= history.take(n));
    }
}

/// Where time never runs backwards, the elapsed time is the difference between
/// the last timestamp and the first.
pub proof fn elapsed_is_last_minus_first(history: Seq<Event>)
    requires
        history.len() > 0,
        forall|i: int|
            1 <= i < history.len() ==> history[i - 1].attempt.timestamp_ms
                <= (#[trigger] history[i]).attempt.timestamp_ms,
    ensures
        elapsed(history) == history.last().attempt.timestamp_ms - history[0].attempt.timestamp_ms,
    decreases history.len(),
{
    if history.len() > 1 {
        let before = history.drop_last();
        assert forall|i: int| 1 <= i < before.len() implies before[i - 1].attempt.timestamp_ms <= (
        #[trigger] before[i]).attempt.timestamp_ms by {
            assert(before[i] == history[i]);
        }
        elapsed_is_last_minus_first(before);
        assert(history[history.len() - 1 - 1].attempt.timestamp_ms
            <= history[history.len() - 1].attempt.timestamp_ms);
    }
}

/// An attempt is found to come after a success exactly when an earlier attempt
/// succeeded, and the latest of those is named.
pub proof fn attempts_after_a_success_are_found(
    policy: RetryPolicy,
    history: Seq<Event>,
    next: Event,
    attempt: u32,
    finished_at: u32,
)
    requires
        history.len() < u32::MAX,
    ensures
        findings(policy, history, next).contains(
            Violation::AfterSuccess { attempt, finished_at },
        ) <==> {
            &&& attempt == history.len() + 1
            &&& 1 <= finished_at <= history.len()
            &&& history[finished_at - 1].attempt.ok
            &&& forall|k: int| finished_at <= k < history.len() ==> !(#[trigger] history[k]).attempt.ok
        },
{
    let found = findings(policy, history, next);
    let it = Violation::AfterSuccess { attempt, finished_at };
    latest_success_is_remembered(history);
    lemma_what_is_found(policy, history, next);
    if last_success(history) is Some {
        let n = last_success(history).unwrap();
        assert(found[0] == (Violation::AfterSuccess {
            attempt: (history.len() + 1) as u32,
            finished_at: n as u32,
        }));
        if 1 <= finished_at <= history.len() && history[finished_at - 1].attempt.ok && (forall|k:
            int|
            finished_at <= k < history.len() ==> !(#[trigger] history[k]).attempt.ok) {
            if finished_at < n {
                assert(!history[n - 1].attempt.ok);
            }
            if n < finished_at {
                assert(!history[finished_at - 1].attempt.ok);
            }
        }
        if attempt == history.len() + 1 && finished_at == n {
            assert(found[0] == it);
        }
    }
}

/// An attempt is found to be one too many exactly when its number is greater than
/// what the policy allows.
pub proof fn attempts_past_the_maximum_are_found(
    policy: RetryPolicy,
    history: Seq<Event>,
    next: Event,
    attempt: u32,
    max_attempts: u32,
)
    requires
        history.len() < u32::MAX,
    ensures
        findings(policy, history, next).contains(
            Violation::TooMany { attempt, max_attempts },
        ) <==> {
            &&& attempt == history.len() + 1
            &&& max_attempts == policy.max_attempts
            &&& attempt > max_attempts
        },
{
    let found = findings(policy, history, next);
    lemma_what_is_found(policy, history, next);
    if history.len() + 1 > policy.max_attempts {
        let k = success_findings(history).len() as int;
        assert(found[k] == (Violation::TooMany {
            attempt: (history.len() + 1) as u32,
            max_attempts: policy.max_attempts,
        }));
    }
}

/// An attempt is found to be out of order exactly when it is stamped earlier than
/// the one before it, and both stamps are named.
pub proof fn attempts_out_of_order_are_found(
    policy: RetryPolicy,
    history: Seq<Event>,
    next: Event,
    timestamp_ms: u64,
    previous_ms: u64,
)
    ensures
        findings(policy, history, next).contains(
            Violation::OutOfOrder { timestamp_ms, previous_ms },
        ) <==> {
            &&& history.len() > 0
            &&& timestamp_ms == next.attempt.timestamp_ms
            &&& previous_ms == history[history.len() - 1].attempt.timestamp_ms
            &&& timestamp_ms < previous_ms
        },
{
    let found = findings(policy, history, next);
    lemma_what_is_found(policy, history, next);
    let k = (success_findings(history) + count_findings(policy, history)).len() as int;
    if timing_findings(policy, history, next).len() > 0 {
        assert(found[k] == timing_findings(policy, history, next)[0]);
    }
}

/// An attempt is found to have waited wrongly exactly when it is in order and the
/// policy does not accept the gap since the one before it; the gap and the delay
/// prescribed are named.
pub proof fn wrong_gaps_are_found(
    policy: RetryPolicy,
    history: Seq<Event>,
    next: Event,
    attempt: u32,
    waited_ms: u64,
    expected_ms: u64,
)
    requires
        history.len() < u32::MAX,
    ensures
        findings(policy, history, next).contains(
            Violation::WrongGap { attempt, waited_ms, expected_ms },
        ) <==> {
            &&& history.len() > 0
            &&& attempt == history.len() + 1
            &&& history[history.len() - 1].attempt.timestamp_ms + waited_ms
                == next.attempt.timestamp_ms
            &&& expected_ms == policy.delay(attempt as int, next.grown_ms)
            &&& !policy.accepts(attempt as int, next.grown_ms, waited_ms as int)
        },
{
    let found = findings(policy, history, next);
    lemma_what_is_found(policy, history, next);
    crate::policy::delay_never_exceeds_the_cap(policy, (history.len() + 1) as int, next.grown_ms);
    let k = (success_findings(history) + count_findings(policy, history)).len() as int;
    if timing_findings(policy, history, next).len() > 0 {
        assert(found[k] == timing_findings(policy, history, next)[0]);
    }
}

/// The place of a kind of violation among those of one attempt.
pub open spec fn place(violation: Violation) -> int {
    match violation {
        Violation::AfterSuccess { .. } => 0,
        Violation::TooMany { .. } => 1,
        Violation::OutOfOrder { .. } => 2,
        Violation::WrongGap { .. } => 2,
    }
}

/// What is found of an attempt comes in a fixed order, each kind at most once: that
/// it follows a success, that it is one too many, when it fired.
pub proof fn findings_come_in_order(
    policy: RetryPolicy,
    history: Seq<Event>,
    next: Event,
    i: int,
    j: int,
)
    requires
        0 <= i < j < findings(policy, history, next).len(),
    ensures
        place(findings(policy, history, next)[i]) < place(findings(policy, history, next)[j]),
{
}

/// Everything found stands in one of the three groups.
proof fn lemma_what_is_found(policy: RetryPolicy, history: Seq<Event>, next: Event)
    ensures
        ({
            let found = findings(policy, history, next);
            let a = success_findings(history);
            let b = count_findings(policy, history);
            let c = timing_findings(policy, history, next);
            &&& found.len() == a.len() + b.len() + c.len()
            &&& forall|k: int| #![trigger found[k]]
                0 <= k < found.len() ==> found[k] == if k < a.len() {
                    a[k]
                } else if k < a.len() + b.len() {
                    b[k - a.len()]
                } else {
                    c[k - a.len() - b.len()]
                }
            &&& a.len() <= 1 && b.len() <= 1 && c.len() <= 1
        }),
{
}

/// An attempt adds to the violations of a history what is found of it, and a
/// history without attempts holds none.
pub proof fn violations_add_up(policy: RetryPolicy, history: Seq<Event>, next: Event)
    ensures
        total(policy, Seq::<Event>::empty()) == 0,
        total(policy, history.push(next)) == total(policy, history) + findings(
            policy,
            history,
            next,
        ).len(),
{
    assert(history.push(next).drop_last() =~= history);
}

/// The elapsed time reaches from the first timestamp to the last, and is nothing
/// where the last comes before the first or there is none.
pub proof fn elapsed_reaches_from_first_to_last(history: Seq<Event>)
    ensures
        history.len() == 0 ==> elapsed(history) == 0,
        history.len() > 0 ==> ({
            let first = history[0].attempt.timestamp_ms;
            let last = history[history.len() - 1].attempt.timestamp_ms;
            &&& first <= last ==> first + elapsed(history) == last
            &&& last < first ==> elapsed(history) == 0
        }),
{
}

} // verus!
