//! Checking a log that holds a single retry sequence.

use crate::parse;
use crate::parse::Attempt;
use crate::policy::RetryPolicy;
use crate::sequence;
use crate::sequence::{Event, RetrySequence, Violation};
use crate::text;
use vstd::prelude::*;
use vstd::string::*;

verus! {

/// How a message about the line at `line_index`, counted from 0, begins. Lines
/// are numbered from 1.
pub open spec fn line_label(line_index: int) -> Seq<char> {
    "line "@ + text::decimal((line_index + 1) as nat) + ": "@
}

/// The messages about the violations found on one line, each with `tag` between
/// the line number and the wording.
pub open spec fn messages(line_index: int, tag: Seq<char>, found: Seq<Violation>) -> Seq<
    Seq<char>,
> {
    found.map_values(|v: Violation| line_label(line_index) + tag + sequence::wording(v))
}

/// The text that stands for a log without attempts.
pub open spec fn nothing_found() -> Seq<char> {
    "no attempts found in input"@
}

/// What is said of a whole log in the end.
pub open spec fn summary_text(policy: RetryPolicy, history: Seq<Event>) -> Seq<char> {
    if history.len() == 0 {
        nothing_found()
    } else {
        sequence::outcome_wording(policy, history)
    }
}

/// Begins a message about a line.
pub fn label(line_index: usize) -> (res: String)
    ensures
        res@ == line_label(line_index as int),
{
    let mut res = "line ".to_owned();
    text::push_decimal(&mut res, line_index as u128 + 1);
    res.append(": ");
    res
}

/// Words the violations found on one line.
pub fn report(line_index: usize, tag: &str, found: &Vec<Violation>) -> (res: Vec<String>)
    ensures
        res.deep_view() == messages(line_index as int, tag@, found@),
{
    let mut res: Vec<String> = Vec::new();
    let mut i: usize = 0;
    while i < found.len()
        invariant
            i <= found.len(),
            res.len() == i,
            forall|j: int|
                0 <= j < i ==> (#[trigger] res[j])@ == line_label(line_index as int) + tag@
                    + sequence::wording(found[j]),
        decreases found.len() - i,
    {
        let mut message = label(line_index);
        message.append(tag);
        message.append(found[i].message().as_str());
        res.push(message);
        i += 1;
    }
    assert(res.deep_view() =~= messages(line_index as int, tag@, found@));
    res
}

/// Reads one line of a plain log. A complaint names the line.
pub fn read_attempt(line_index: usize, line: &str) -> (res: Result<Option<Attempt>, String>)
    ensures
        match (res, parse::line_meaning(line@)) {
            (Ok(attempt), Ok(meaning)) => attempt == meaning,
            (Err(e), Err(complaint)) => e@ == line_label(line_index as int) + complaint,
            _ => false,
        },
{
    match parse::parse_line(line) {
        Ok(attempt) => Ok(attempt),
        Err(complaint) => {
            let mut e = label(line_index);
            e.append(complaint.as_str());
            Err(e)
        },
    }
}

/// A check of a plain log in progress.
pub struct Check {
    sequence: RetrySequence,
}

impl View for Check {
    type V = Seq<Event>;

    /// The attempts recorded so far.
    closed spec fn view(&self) -> Seq<Event> {
        self.sequence@
    }
}

impl Check {
    /// The policy that the log is held against.
    pub closed spec fn policy(&self) -> RetryPolicy {
        self.sequence.policy()
    }

    /// Whether the state is that of its history.
    pub closed spec fn wf(&self) -> bool {
        self.sequence.wf()
    }

    /// A check that has seen no attempt.
    pub fn new(policy: RetryPolicy) -> (res: Self)
        ensures
            res.wf(),
            res@ == Seq::<Event>::empty(),
            res.policy() == policy,
    {
        Check { sequence: RetrySequence::new(policy) }
    }

    /// Whether another attempt can still be counted.
    pub fn has_room(&self) -> (res: bool)
        requires
            self.wf(),
        ensures
            res == (self@.len() < u32::MAX),
    {
        self.sequence.attempts() < u32::MAX
    }

    /// The number that the next attempt will have.
    pub fn next_attempt(&self) -> (res: u32)
        requires
            self.wf(),
            self@.len() < u32::MAX,
        ensures
            res == self@.len() + 1,
    {
        self.sequence.attempts() + 1
    }

    /// Records the attempt read from the line at `line_index`, before which the
    /// delay had grown to `grown_ms`, and words every violation it commits.
    pub fn record(&mut self, line_index: usize, attempt: Attempt, grown_ms: Option<u64>) -> (res:
        Vec<String>)
        requires
            old(self).wf(),
            old(self)@.len() < u32::MAX,
        ensures
            final(self).wf(),
            final(self).policy() == old(self).policy(),
            final(self)@ == old(self)@.push(Event { attempt, grown_ms }),
            res.deep_view() == messages(
                line_index as int,
                Seq::<char>::empty(),
                sequence::findings(old(self).policy(), old(self)@, Event { attempt, grown_ms }),
            ),
    {
        let found = self.sequence.record(attempt, grown_ms);
        proof {
            reveal_strlit("");
            assert(""@ =~= Seq::<char>::empty());
        }
        report(line_index, "", &found)
    }

    /// How many violations were found.
    pub fn violations(&self) -> (res: u64)
        requires
            self.wf(),
        ensures
            res == sequence::total(self.policy(), self@),
    {
        self.sequence.violations()
    }

    /// Sums up the log.
    pub fn summary(&self) -> (res: String)
        requires
            self.wf(),
        ensures
            res@ == summary_text(self.policy(), self@),
    {
        if self.sequence.attempts() == 0 {
            "no attempts found in input".to_owned()
        } else {
            self.sequence.outcome()
        }
    }
}

/// Whether no line of a log is malformed.
pub open spec fn readable(lines: Seq<Seq<char>>) -> bool {
    forall|i: int| 0 <= i < lines.len() ==> parse::line_meaning(#[trigger] lines[i]) is Ok
}

/// The attempts that the lines of a log hold before the first malformed one, in
/// their order.
pub open spec fn attempts_in(lines: Seq<Seq<char>>) -> Seq<Attempt>
    decreases lines.len(),
{
    if lines.len() == 0 {
        seq![]
    } else {
        match parse::line_meaning(lines.last()) {
            Ok(Some(attempt)) if readable(lines.drop_last()) => attempts_in(
                lines.drop_last(),
            ).push(attempt),
            _ => attempts_in(lines.drop_last()),
        }
    }
}

/// What has come of a log after some of its lines.
pub struct Run {
    /// The attempts recorded.
    pub history: Seq<Event>,
    /// The messages about violations.
    pub printed: Seq<Seq<char>>,
    /// The complaint about the first malformed line, at which reading ends.
    pub complaint: Option<Seq<char>>,
}

/// What comes of the lines of a log, where the delay before the attempt numbered
/// `n` has grown to `growth[n - 1]`.
pub open spec fn run(
    policy: RetryPolicy,
    growth: Seq<Option<u64>>,
    lines: Seq<Seq<char>>,
) -> Run
    decreases lines.len(),
{
    if lines.len() == 0 {
        Run { history: seq![], printed: seq![], complaint: None }
    } else {
        let before = run(policy, growth, lines.drop_last());
        let line_index = lines.len() - 1;
        if before.complaint is Some {
            before
        } else {
            match parse::line_meaning(lines.last()) {
                Err(complaint) => Run {
                    complaint: Some(line_label(line_index) + complaint),
                    ..before
                },
                Ok(None) => before,
                Ok(Some(attempt)) => {
                    let event = Event { attempt, grown_ms: growth[before.history.len() as int] };
                    Run {
                        history: before.history.push(event),
                        printed: before.printed + messages(
                            line_index,
                            Seq::<char>::empty(),
                            sequence::findings(policy, before.history, event),
                        ),
                        complaint: None,
                    }
                },
            }
        }
    }
}

/// What a finished check has to say.
pub struct Report {
    /// The lines to print: a message for every violation and, where the log could
    /// be read to its end, the summary.
    pub lines: Vec<String>,
    /// The number of violations, or the complaint about the first malformed line.
    pub violations: Result<u64, String>,
}

/// Walks the lines of a plain log and checks each gap against the policy. The
/// delay before the attempt numbered `n` has grown to `growth[n - 1]`.
pub fn check(policy: RetryPolicy, growth: &Vec<Option<u64>>, lines: &Vec<String>) -> (res: Report)
    requires
        attempts_in(lines.deep_view()).len() <= growth.len(),
        attempts_in(lines.deep_view()).len() <= u32::MAX,
    ensures
        ({
            let end = run(policy, growth@, lines.deep_view());
            match end.complaint {
                Some(complaint) => {
                    &&& res.lines.deep_view() == end.printed
                    &&& res.violations matches Err(e) && e@ == complaint
                },
                None => {
                    &&& res.lines.deep_view() == end.printed.push(summary_text(policy, end.history))
                    &&& res.violations == Ok::<u64, String>(
                        sequence::total(policy, end.history) as u64,
                    )
                    &&& sequence::total(policy, end.history) <= u64::MAX
                },
            }
        }),
{
    let mut check = Check::new(policy);
    let mut printed: Vec<String> = Vec::new();
    let ghost all = lines.deep_view();
    let mut i: usize = 0;
    assert(printed.deep_view() =~= Seq::<Seq<char>>::empty());
    while i < lines.len()
        invariant
            i <= lines.len(),
            all == lines.deep_view(),
            attempts_in(all).len() <= growth.len(),
            attempts_in(all).len() <= u32::MAX,
            check.wf(),
            check.policy() == policy,
            check@.len() == attempts_in(all.take(i as int)).len(),
            readable(all.take(i as int)),
            run(policy, growth@, all.take(i as int)) == (Run {
                history: check@,
                printed: printed.deep_view(),
                complaint: None,
            }),
        decreases lines.len() - i,
    {
        let ghost so_far = all.take(i + 1);
        assert(so_far.drop_last() =~= all.take(i as int));
        assert(so_far.last() == lines[i as int]@);
        proof {
            lemma_fewer_attempts_in_beginning(all, i + 1);
            lemma_readable_line_by_line(so_far);
        }
        match read_attempt(i, lines[i].as_str()) {
            Err(e) => {
                proof {
                    lemma_complaint_stays(policy, growth@, all, i + 1);
                }
                return Report { lines: printed, violations: Err(e) };
            },
            Ok(None) => {},
            Ok(Some(attempt)) => {
                let ghost earlier = printed.deep_view();
                let grown_ms = growth[check.next_attempt() as usize - 1];
                let mut found = check.record(i, attempt, grown_ms);
                let ghost new = found.deep_view();
                printed.append(&mut found);
                assert(printed.deep_view() =~= earlier + new);
            },
        }
        i += 1;
    }
    assert(all.take(i as int) =~= all);
    let violations = check.violations();
    let ghost earlier = printed.deep_view();
    printed.push(check.summary());
    assert(printed.deep_view() =~= earlier.push(summary_text(policy, check@)));
    Report { lines: printed, violations: Ok(violations) }
}

/// The beginning of a log holds no more attempts than the whole.
proof fn lemma_fewer_attempts_in_beginning(lines: Seq<Seq<char>>, n: int)
    requires
        0 <= n <= lines.len(),
    ensures
        attempts_in(lines.take(n)).len() <= attempts_in(lines).len(),
    decreases lines.len(),
{
    if n == lines.len() {
        assert(lines.take(n) =~= lines);
    } else {
        assert(lines.drop_last().take(n) =~= lines.take(n));
        lemma_fewer_attempts_in_beginning(lines.drop_last(), n);
    }
}

/// Reading ends at the first malformed line.
proof fn lemma_complaint_stays(
    policy: RetryPolicy,
    growth: Seq<Option<u64>>,
    lines: Seq<Seq<char>>,
    n: int,
)
    requires
        0 <= n <= lines.len(),
        run(policy, growth, lines.take(n)).complaint is Some,
    ensures
        run(policy, growth, lines) == run(policy, growth, lines.take(n)),
    decreases lines.len(),
{
    if n == lines.len() {
        assert(lines.take(n) =~= lines);
    } else {
        assert(lines.drop_last().take(n) =~= lines.take(n));
        lemma_complaint_stays(policy, growth, lines.drop_last(), n);
    }
}

/// Every violation is reported exactly once.
pub proof fn every_violation_is_reported(
    policy: RetryPolicy,
    growth: Seq<Option<u64>>,
    lines: Seq<Seq<char>>,
)
    ensures
        run(policy, growth, lines).printed.len() == sequence::total(
            policy,
            run(policy, growth, lines).history,
        ),
    decreases lines.len(),
{
    if lines.len() > 0 {
        every_violation_is_reported(policy, growth, lines.drop_last());
        let before = run(policy, growth, lines.drop_last());
        let after = run(policy, growth, lines);
        if after.history.len() > before.history.len() {
            assert(after.history.drop_last() =~= before.history);
        }
    }
}

/// A log that can be read to its end is reported without a violation exactly when
/// its attempts follow the policy.
pub proof fn silence_means_policy_followed(
    policy: RetryPolicy,
    growth: Seq<Option<u64>>,
    lines: Seq<Seq<char>>,
)
    ensures
        run(policy, growth, lines).printed.len() == 0 <==> sequence::follows(
            policy,
            run(policy, growth, lines).history,
        ),
{
    every_violation_is_reported(policy, growth, lines);
    sequence::no_violation_means_policy_followed(policy, run(policy, growth, lines).history);
}

/// A line that holds no attempt changes nothing but the numbers of the lines
/// behind it: the attempts, how many violations are reported and whether the log
/// can be read stay the same.
pub proof fn quiet_lines_change_nothing(
    policy: RetryPolicy,
    growth: Seq<Option<u64>>,
    before: Seq<Seq<char>>,
    quiet: Seq<char>,
    after: Seq<Seq<char>>,
)
    requires
        parse::line_meaning(quiet) == Ok::<Option<Attempt>, Seq<char>>(None),
    ensures
        ({
            let with = run(policy, growth, before + seq![quiet] + after);
            let without = run(policy, growth, before + after);
            &&& with.history == without.history
            &&& with.printed.len() == without.printed.len()
            &&& with.complaint is Some == without.complaint is Some
        }),
    decreases after.len(),
{
    let with = before + seq![quiet] + after;
    let without = before + after;
    if after.len() == 0 {
        assert(with.drop_last() =~= before);
        assert(without =~= before);
    } else {
        quiet_lines_change_nothing(policy, growth, before, quiet, after.drop_last());
        assert(with.drop_last() =~= before + seq![quiet] + after.drop_last());
        assert(without.drop_last() =~= before + after.drop_last());
        assert(with.last() == without.last());
    }
}

/// A log can be read to its end exactly when no line is malformed. The attempts
/// recorded are those that its lines hold before the first malformed one, in their
/// order, each with the growth that belongs to its number.
pub proof fn history_is_what_the_lines_hold(
    policy: RetryPolicy,
    growth: Seq<Option<u64>>,
    lines: Seq<Seq<char>>,
)
    ensures
        ({
            let end = run(policy, growth, lines);
            &&& end.complaint is None <==> readable(lines)
            &&& end.history =~= Seq::new(
                attempts_in(lines).len(),
                |i: int| Event { attempt: attempts_in(lines)[i], grown_ms: growth[i] },
            )
        }),
    decreases lines.len(),
{
    if lines.len() > 0 {
        history_is_what_the_lines_hold(policy, growth, lines.drop_last());
        lemma_readable_line_by_line(lines);
    }
}

/// A log is readable where its last line is and the log before it.
proof fn lemma_readable_line_by_line(lines: Seq<Seq<char>>)
    requires
        lines.len() > 0,
    ensures
        readable(lines) <==> readable(lines.drop_last()) && parse::line_meaning(lines.last()) is Ok,
{
    let before = lines.drop_last();
    assert(forall|i: int| 0 <= i < before.len() ==> before[i] == lines[i]);
    assert(lines.last() == lines[lines.len() - 1]);
    if readable(lines) {
        assert forall|i: int| 0 <= i < before.len() implies parse::line_meaning(
            #[trigger] before[i],
        ) is Ok by {
            assert(parse::line_meaning(lines[i]) is Ok);
        }
    }
    if readable(before) && parse::line_meaning(lines.last()) is Ok {
        assert forall|i: int| 0 <= i < lines.len() implies parse::line_meaning(
            #[trigger] lines[i],
        ) is Ok by {
            if i < before.len() {
                assert(parse::line_meaning(before[i]) is Ok);
            }
        }
    }
}

} // verus!
