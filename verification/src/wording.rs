//! What the messages say, read back from their text.
//!
//! The laws here take a message apart: they name the fixed words it is made of and
//! the numbers between them, read in base ten.

use crate::check;
use crate::grouped;
use crate::grouped::GroupedEvent;
use crate::parse;
use crate::parse::{Attempt, GroupedAttemptView};
use crate::policy::RetryPolicy;
use crate::sequence;
use crate::sequence::{Event, Violation};
use crate::text;
use vstd::prelude::*;

verus! {

/// Whether `s` is two numbers between three fixed texts.
pub open spec fn tells_two(
    s: Seq<char>,
    before: Seq<char>,
    m: int,
    between: Seq<char>,
    n: int,
    after: Seq<char>,
) -> bool {
    exists|a: Seq<char>, b: Seq<char>|
        #![trigger text::writes(a, m), text::writes(b, n)]
        text::writes(a, m) && text::writes(b, n) && s == before + a + between + b + after
}

/// Whether `s` is three numbers between four fixed texts.
pub open spec fn tells_three(
    s: Seq<char>,
    before: Seq<char>,
    l: int,
    first: Seq<char>,
    m: int,
    second: Seq<char>,
    n: int,
    after: Seq<char>,
) -> bool {
    exists|a: Seq<char>, b: Seq<char>, c: Seq<char>|
        #![trigger text::writes(a, l), text::writes(b, m), text::writes(c, n)]
        text::writes(a, l) && text::writes(b, m) && text::writes(c, n) && s == before + a + first
            + b + second + c + after
}

/// Whether `s` says of a sequence how many attempts it had, how long it lasted and
/// how many violations it held.
pub open spec fn tells_outcome(s: Seq<char>, attempts: int, elapsed: int, violations: int) -> bool {
    tells_three(
        s,
        Seq::empty(),
        attempts,
        " attempts, "@,
        elapsed,
        "ms elapsed, "@,
        violations,
        " violation(s)"@,
    )
}

/// Whether `s` is a message about the line numbered `n` that goes on with `rest`.
pub open spec fn is_about_line(s: Seq<char>, n: int, rest: Seq<char>) -> bool {
    exists|a: Seq<char>| #[trigger] text::writes(a, n) && s == "line "@ + a + ": "@ + rest
}

/// Every violation is told by its own words and by the numbers it holds.
pub proof fn violations_tell_their_numbers(violation: Violation)
    ensures
        match violation {
            Violation::AfterSuccess { attempt, finished_at } => tells_two(
                sequence::wording(violation),
                "attempt "@,
                attempt as int,
                " fired after attempt "@,
                finished_at as int,
                " already succeeded"@,
            ),
            Violation::TooMany { attempt, max_attempts } => tells_two(
                sequence::wording(violation),
                "attempt "@,
                attempt as int,
                " exceeds the policy's max of "@,
                max_attempts as int,
                Seq::empty(),
            ),
            Violation::OutOfOrder { timestamp_ms, previous_ms } => tells_two(
                sequence::wording(violation),
                "timestamp "@,
                timestamp_ms as int,
                " is before the previous attempt's "@,
                previous_ms as int,
                Seq::empty(),
            ),
            Violation::WrongGap { attempt, waited_ms, expected_ms } => tells_three(
                sequence::wording(violation),
                "attempt "@,
                attempt as int,
                " waited "@,
                waited_ms as int,
                "ms, policy expected ~"@,
                expected_ms as int,
                "ms"@,
            ),
        },
{
    let none = Seq::<char>::empty();
    let said = sequence::wording(violation);
    match violation {
        Violation::AfterSuccess { attempt, finished_at } => {
            text::decimal_writes_its_number(attempt as nat);
            text::decimal_writes_its_number(finished_at as nat);
        },
        Violation::TooMany { attempt, max_attempts } => {
            text::decimal_writes_its_number(attempt as nat);
            text::decimal_writes_its_number(max_attempts as nat);
            assert(said =~= said + none);
        },
        Violation::OutOfOrder { timestamp_ms, previous_ms } => {
            text::decimal_writes_its_number(timestamp_ms as nat);
            text::decimal_writes_its_number(previous_ms as nat);
            assert(said =~= said + none);
        },
        Violation::WrongGap { attempt, waited_ms, expected_ms } => {
            text::decimal_writes_its_number(attempt as nat);
            text::decimal_writes_its_number(waited_ms as nat);
            text::decimal_writes_its_number(expected_ms as nat);
        },
    }
}

/// Every violation found on a line has one message, in the same place, that names
/// the line, counted from 1, and goes on with the tag and the violation's wording.
pub proof fn messages_name_the_line(
    line_index: int,
    tag: Seq<char>,
    found: Seq<Violation>,
    k: int,
)
    requires
        line_index >= 0,
        0 <= k < found.len(),
    ensures
        check::messages(line_index, tag, found).len() == found.len(),
        is_about_line(
            check::messages(line_index, tag, found)[k],
            line_index + 1,
            tag + sequence::wording(found[k]),
        ),
{
    lemma_label(line_index, tag + sequence::wording(found[k]));
    assert(check::messages(line_index, tag, found)[k] =~= check::line_label(line_index) + (tag
        + sequence::wording(found[k])));
}

proof fn lemma_label(line_index: int, rest: Seq<char>)
    requires
        line_index >= 0,
    ensures
        is_about_line(check::line_label(line_index) + rest, line_index + 1, rest),
{
    text::decimal_writes_its_number((line_index + 1) as nat);
}

/// The outcome of a sequence tells how many attempts it had, the last timestamp
/// minus the first, or nothing where that would be less, and how many violations it
/// held.
pub proof fn outcomes_tell_attempts_span_and_violations(policy: RetryPolicy, history: Seq<Event>)
    requires
        history.len() > 0,
    ensures
        ({
            let said = sequence::outcome_wording(policy, history);
            let first = history[0].attempt.timestamp_ms;
            let last = history[history.len() - 1].attempt.timestamp_ms;
            let held = sequence::total(policy, history) as int;
            &&& first <= last ==> tells_outcome(said, history.len() as int, last - first, held)
            &&& last < first ==> tells_outcome(said, history.len() as int, 0, held)
        }),
{
    let said = sequence::outcome_wording(policy, history);
    text::decimal_writes_its_number(history.len());
    text::decimal_writes_its_number(sequence::elapsed(history));
    text::decimal_writes_its_number(sequence::total(policy, history));
    assert(said =~= Seq::<char>::empty() + text::decimal(history.len()) + " attempts, "@
        + text::decimal(sequence::elapsed(history)) + "ms elapsed, "@ + text::decimal(
        sequence::total(policy, history),
    ) + " violation(s)"@);
}

/// The attempts of a log are those of its lines one after the other: a line that
/// holds an attempt adds it, one that holds none adds nothing, and behind a
/// malformed line nothing is added any more.
pub proof fn attempts_come_line_by_line(
    before: Seq<Seq<char>>,
    line: Seq<char>,
    attempt: Attempt,
)
    ensures
        check::attempts_in(Seq::<Seq<char>>::empty()) == Seq::<Attempt>::empty(),
        ({
            let readable = forall|i: int|
                0 <= i < before.len() ==> parse::line_meaning(#[trigger] before[i]) is Ok;
            let holds = parse::line_meaning(line) == Ok::<Option<Attempt>, Seq<char>>(
                Some(attempt),
            );
            &&& readable && holds ==> check::attempts_in(before.push(line)) == check::attempts_in(
                before,
            ).push(attempt)
            &&& !readable || parse::line_meaning(line) is Err || parse::line_meaning(line) == Ok::<
                Option<Attempt>,
                Seq<char>,
            >(None) ==> check::attempts_in(before.push(line)) == check::attempts_in(before)
        }),
{
    assert(before.push(line).drop_last() =~= before);
}

/// A line that holds an attempt is judged against the attempts before it: its
/// messages join those of the earlier lines, one for each thing found of it, and
/// name its line.
pub proof fn attempts_are_reported_where_they_stand(
    policy: RetryPolicy,
    growth: Seq<Option<u64>>,
    before: Seq<Seq<char>>,
    line: Seq<char>,
    attempt: Attempt,
)
    requires
        forall|i: int| 0 <= i < before.len() ==> parse::line_meaning(#[trigger] before[i]) is Ok,
        parse::line_meaning(line) == Ok::<Option<Attempt>, Seq<char>>(Some(attempt)),
    ensures
        ({
            let then = check::run(policy, growth, before);
            let now = check::run(policy, growth, before.push(line));
            let next = Event { attempt, grown_ms: growth[then.history.len() as int] };
            let found = sequence::findings(policy, then.history, next);
            &&& now.history == then.history.push(next)
            &&& now.printed.len() == then.printed.len() + found.len()
            &&& now.printed.take(then.printed.len() as int) == then.printed
            &&& forall|k: int|
                0 <= k < found.len() ==> is_about_line(
                    now.printed[then.printed.len() + k],
                    before.len() as int + 1,
                    sequence::wording(#[trigger] found[k]),
                )
            &&& now.complaint is None
        }),
{
    let lines = before.push(line);
    assert(lines.drop_last() =~= before);
    assert(check::readable(before));
    check::history_is_what_the_lines_hold(policy, growth, before);
    let then = check::run(policy, growth, before);
    let now = check::run(policy, growth, lines);
    let next = Event { attempt, grown_ms: growth[then.history.len() as int] };
    let found = sequence::findings(policy, then.history, next);
    let none = Seq::<char>::empty();
    let added = check::messages(before.len() as int, none, found);
    assert(now.printed == then.printed + added);
    assert(now.printed.take(then.printed.len() as int) =~= then.printed);
    assert forall|k: int| 0 <= k < found.len() implies is_about_line(
        now.printed[then.printed.len() + k],
        before.len() as int + 1,
        sequence::wording(#[trigger] found[k]),
    ) by {
        messages_name_the_line(before.len() as int, none, found, k);
        assert(none + sequence::wording(found[k]) =~= sequence::wording(found[k]));
        assert(now.printed[then.printed.len() + k] == added[k]);
    }
}

/// The first malformed line ends the walk: what was recorded and reported before it
/// stays, what comes behind it is not looked at, and the complaint names the line.
pub proof fn malformed_lines_end_the_walk(
    policy: RetryPolicy,
    growth: Seq<Option<u64>>,
    before: Seq<Seq<char>>,
    bad: Seq<char>,
    after: Seq<Seq<char>>,
    complaint: Seq<char>,
)
    requires
        forall|i: int| 0 <= i < before.len() ==> parse::line_meaning(#[trigger] before[i]) is Ok,
        parse::line_meaning(bad) == Err::<Option<Attempt>, Seq<char>>(complaint),
    ensures
        ({
            let then = check::run(policy, growth, before);
            let end = check::run(policy, growth, before.push(bad) + after);
            &&& end.history == then.history
            &&& end.printed == then.printed
            &&& end.complaint is Some
            &&& is_about_line(end.complaint.unwrap(), before.len() as int + 1, complaint)
        }),
    decreases after.len(),
{
    let lines = before.push(bad) + after;
    if after.len() == 0 {
        assert(lines =~= before.push(bad));
        assert(lines.drop_last() =~= before);
        assert(check::readable(before));
        check::history_is_what_the_lines_hold(policy, growth, before);
        lemma_label(before.len() as int, complaint);
    } else {
        malformed_lines_end_the_walk(policy, growth, before, bad, after.drop_last(), complaint);
        assert(lines.drop_last() =~= before.push(bad) + after.drop_last());
    }
}

/// The summary of a log without a malformed line tells how many attempts its lines
/// hold, the last timestamp minus the first, or nothing where that would be less,
/// and how many messages were printed before it.
pub proof fn summaries_tell_what_the_log_holds(
    policy: RetryPolicy,
    growth: Seq<Option<u64>>,
    lines: Seq<Seq<char>>,
)
    requires
        forall|i: int| 0 <= i < lines.len() ==> parse::line_meaning(#[trigger] lines[i]) is Ok,
    ensures
        ({
            let end = check::run(policy, growth, lines);
            let said = check::summary_text(policy, end.history);
            let attempts = check::attempts_in(lines);
            let count = attempts.len() as int;
            let printed = end.printed.len() as int;
            let first = attempts[0].timestamp_ms;
            let last = attempts[count - 1].timestamp_ms;
            &&& end.complaint is None
            &&& count == 0 ==> said == "no attempts found in input"@
            &&& count > 0 && first <= last ==> tells_outcome(said, count, last - first, printed)
            &&& count > 0 && last < first ==> tells_outcome(said, count, 0, printed)
        }),
{
    let end = check::run(policy, growth, lines);
    assert(check::readable(lines));
    check::history_is_what_the_lines_hold(policy, growth, lines);
    check::every_violation_is_reported(policy, growth, lines);
    if end.history.len() > 0 {
        outcomes_tell_attempts_span_and_violations(policy, end.history);
    }
}

/// The attempts of a grouped log are those of its lines one after the other.
pub proof fn grouped_attempts_come_line_by_line(
    before: Seq<Seq<char>>,
    line: Seq<char>,
    attempt: GroupedAttemptView,
)
    ensures
        grouped::grouped_attempts_in(Seq::<Seq<char>>::empty()) == Seq::<
            GroupedAttemptView,
        >::empty(),
        ({
            let readable = forall|i: int|
                0 <= i < before.len() ==> parse::grouped_line_meaning(#[trigger] before[i]) is Ok;
            let said = parse::grouped_line_meaning(line);
            let holds = said == Ok::<Option<GroupedAttemptView>, Seq<char>>(Some(attempt));
            let quiet = said == Ok::<Option<GroupedAttemptView>, Seq<char>>(None);
            let earlier = grouped::grouped_attempts_in(before);
            &&& readable && holds ==> grouped::grouped_attempts_in(before.push(line))
                == earlier.push(attempt)
            &&& !readable || said is Err || quiet ==> grouped::grouped_attempts_in(
                before.push(line),
            ) == earlier
        }),
{
    assert(before.push(line).drop_last() =~= before);
}

/// A request's attempts are those of the log that bear its id.
pub proof fn own_attempts_bear_the_id(
    attempts: Seq<GroupedAttemptView>,
    next: GroupedAttemptView,
    request_id: Seq<char>,
)
    ensures
        grouped::own_attempts(Seq::<GroupedAttemptView>::empty(), request_id) == Seq::<
            Attempt,
        >::empty(),
        next.request_id == request_id ==> grouped::own_attempts(attempts.push(next), request_id)
            == grouped::own_attempts(attempts, request_id).push(
            Attempt { timestamp_ms: next.timestamp_ms, ok: next.ok },
        ),
        next.request_id != request_id ==> grouped::own_attempts(attempts.push(next), request_id)
            == grouped::own_attempts(attempts, request_id),
{
    assert(attempts.push(next).drop_last() =~= attempts);
}

/// A grouped line that holds an attempt is judged against the earlier attempts of
/// its own request: its messages join those of the earlier lines, one for each
/// thing found of it, and name its line and its request.
pub proof fn grouped_attempts_are_reported_where_they_stand(
    policy: RetryPolicy,
    growth: Seq<Option<u64>>,
    before: Seq<Seq<char>>,
    line: Seq<char>,
    attempt: GroupedAttemptView,
)
    requires
        forall|i: int|
            0 <= i < before.len() ==> parse::grouped_line_meaning(#[trigger] before[i]) is Ok,
        parse::grouped_line_meaning(line) == Ok::<Option<GroupedAttemptView>, Seq<char>>(
            Some(attempt),
        ),
    ensures
        ({
            let then = grouped::grouped_run(policy, growth, before);
            let now = grouped::grouped_run(policy, growth, before.push(line));
            let own = grouped::of_request(then.history, attempt.request_id);
            let next = Event {
                attempt: Attempt { timestamp_ms: attempt.timestamp_ms, ok: attempt.ok },
                grown_ms: growth[own.len() as int],
            };
            let found = sequence::findings(policy, own, next);
            &&& now.history == then.history.push(
                GroupedEvent { request_id: attempt.request_id, event: next },
            )
            &&& now.printed.len() == then.printed.len() + found.len()
            &&& now.printed.take(then.printed.len() as int) == then.printed
            &&& forall|k: int|
                0 <= k < found.len() ==> is_about_line(
                    now.printed[then.printed.len() + k],
                    before.len() as int + 1,
                    "["@ + attempt.request_id + "] "@ + sequence::wording(#[trigger] found[k]),
                )
            &&& now.complaint is None
        }),
{
    let lines = before.push(line);
    let id = attempt.request_id;
    assert(lines.drop_last() =~= before);
    assert(grouped::grouped_readable(before));
    grouped::history_is_what_the_lines_hold(policy, growth, before, id);
    let then = grouped::grouped_run(policy, growth, before);
    let now = grouped::grouped_run(policy, growth, lines);
    let own = grouped::of_request(then.history, id);
    let next = grouped::grouped_event(attempt, growth[own.len() as int]);
    let found = sequence::findings(policy, own, next.event);
    let added = check::messages(before.len() as int, grouped::tag(id), found);
    assert(now.printed == then.printed + added);
    assert(now.printed.take(then.printed.len() as int) =~= then.printed);
    assert forall|k: int| 0 <= k < found.len() implies is_about_line(
        now.printed[then.printed.len() + k],
        before.len() as int + 1,
        "["@ + id + "] "@ + sequence::wording(#[trigger] found[k]),
    ) by {
        messages_name_the_line(before.len() as int, grouped::tag(id), found, k);
        assert(now.printed[then.printed.len() + k] == added[k]);
    }
}

/// The first malformed line ends the walk of a grouped log in the same way.
pub proof fn malformed_grouped_lines_end_the_walk(
    policy: RetryPolicy,
    growth: Seq<Option<u64>>,
    before: Seq<Seq<char>>,
    bad: Seq<char>,
    after: Seq<Seq<char>>,
    complaint: Seq<char>,
)
    requires
        forall|i: int|
            0 <= i < before.len() ==> parse::grouped_line_meaning(#[trigger] before[i]) is Ok,
        parse::grouped_line_meaning(bad) == Err::<Option<GroupedAttemptView>, Seq<char>>(complaint),
    ensures
        ({
            let then = grouped::grouped_run(policy, growth, before);
            let end = grouped::grouped_run(policy, growth, before.push(bad) + after);
            &&& end.history == then.history
            &&& end.printed == then.printed
            &&& end.complaint is Some
            &&& is_about_line(end.complaint.unwrap(), before.len() as int + 1, complaint)
        }),
    decreases after.len(),
{
    let lines = before.push(bad) + after;
    if after.len() == 0 {
        assert(lines =~= before.push(bad));
        assert(lines.drop_last() =~= before);
        assert(grouped::grouped_readable(before));
        grouped::history_is_what_the_lines_hold(policy, growth, before, Seq::empty());
        lemma_label(before.len() as int, complaint);
    } else {
        malformed_grouped_lines_end_the_walk(
            policy,
            growth,
            before,
            bad,
            after.drop_last(),
            complaint,
        );
        assert(lines.drop_last() =~= before.push(bad) + after.drop_last());
    }
}

/// The summary of a grouped log has a line for every request, in the order in which
/// the requests are listed, and one more. A request's line tells its id, how many
/// attempts it had, its last timestamp minus its first, or nothing where that would
/// be less, and how many violations it held.
pub proof fn summaries_tell_of_every_request(
    policy: RetryPolicy,
    history: Seq<GroupedEvent>,
    k: int,
)
    requires
        0 <= k < grouped::requests(history).len(),
    ensures
        ({
            let lines = grouped::summary_lines(policy, history);
            let id = grouped::requests(history)[k];
            let own = grouped::of_request(history, id);
            let opening = id + ": "@;
            let rest = lines[k].skip(opening.len() as int);
            let first = own[0].attempt.timestamp_ms;
            let last = own[own.len() - 1].attempt.timestamp_ms;
            let held = sequence::total(policy, own) as int;
            &&& lines.len() == grouped::requests(history).len() + 1
            &&& own.len() > 0
            &&& lines[k] == opening + rest
            &&& first <= last ==> tells_outcome(rest, own.len() as int, last - first, held)
            &&& last < first ==> tells_outcome(rest, own.len() as int, 0, held)
        }),
{
    let id = grouped::requests(history)[k];
    let own = grouped::of_request(history, id);
    let line = grouped::summary_lines(policy, history)[k];
    let said = sequence::outcome_wording(policy, own);
    grouped::listed_requests_have_attempts(history, id);
    assert(line == id + ": "@ + said);
    assert(line.skip((id + ": "@).len() as int) =~= said);
    outcomes_tell_attempts_span_and_violations(policy, own);
}

/// The last line of a grouped summary tells how many attempts there were, of how
/// many requests, and the sum of the violations of all requests listed.
pub proof fn closing_lines_tell_the_sums(policy: RetryPolicy, history: Seq<GroupedEvent>)
    ensures
        ({
            let lines = grouped::summary_lines(policy, history);
            let said = lines[lines.len() - 1];
            let ids = grouped::requests(history);
            &&& history.len() == 0 ==> said == "no attempts found in input"@
            &&& history.len() > 0 ==> tells_three(
                said,
                Seq::empty(),
                history.len() as int,
                " attempts across "@,
                ids.len() as int,
                " request(s), "@,
                grouped::total_of(policy, history, ids) as int,
                " violation(s)"@,
            )
        }),
{
    let ids = grouped::requests(history);
    let all = grouped::total_of(policy, history, ids);
    let said = grouped::closing_line(policy, history);
    if history.len() > 0 {
        let id = history[history.len() - 1].request_id;
        grouped::listed_requests_have_attempts(history, id);
        text::decimal_writes_its_number(history.len());
        text::decimal_writes_its_number(ids.len());
        text::decimal_writes_its_number(all);
        assert(said =~= Seq::<char>::empty() + text::decimal(history.len()) + " attempts across "@
            + text::decimal(ids.len()) + " request(s), "@ + text::decimal(all) + " violation(s)"@);
    }
}

/// The sum over several requests takes in every one of them.
pub proof fn sums_take_in_every_request(
    policy: RetryPolicy,
    history: Seq<GroupedEvent>,
    ids: Seq<Seq<char>>,
    id: Seq<char>,
)
    ensures
        grouped::total_of(policy, history, Seq::<Seq<char>>::empty()) == 0,
        grouped::total_of(policy, history, ids.push(id)) == grouped::total_of(policy, history, ids)
            + sequence::total(policy, grouped::of_request(history, id)),
{
    assert(ids.push(id).drop_last() =~= ids);
}

/// The last line of the summary of a grouped log without a malformed line tells how
/// many attempts its lines hold and how many messages were printed before the
/// summary.
pub proof fn closing_lines_tell_what_was_printed(
    policy: RetryPolicy,
    growth: Seq<Option<u64>>,
    lines: Seq<Seq<char>>,
)
    requires
        forall|i: int|
            0 <= i < lines.len() ==> parse::grouped_line_meaning(#[trigger] lines[i]) is Ok,
        grouped::grouped_attempts_in(lines).len() > 0,
    ensures
        ({
            let end = grouped::grouped_run(policy, growth, lines);
            let summary = grouped::summary_lines(policy, end.history);
            &&& end.complaint is None
            &&& tells_three(
                summary[summary.len() - 1],
                Seq::empty(),
                grouped::grouped_attempts_in(lines).len() as int,
                " attempts across "@,
                summary.len() - 1,
                " request(s), "@,
                end.printed.len() as int,
                " violation(s)"@,
            )
        }),
{
    let end = grouped::grouped_run(policy, growth, lines);
    assert(grouped::grouped_readable(lines));
    grouped::history_is_what_the_lines_hold(policy, growth, lines, Seq::empty());
    grouped::every_violation_is_reported(policy, growth, lines);
    closing_lines_tell_the_sums(policy, end.history);
}

/// A request is listed behind those that came before it, when its first attempt
/// comes, and stays where it is.
pub proof fn requests_are_listed_as_they_come(history: Seq<GroupedEvent>, next: GroupedEvent)
    ensures
        grouped::requests(Seq::<GroupedEvent>::empty()) == Seq::<Seq<char>>::empty(),
        ({
            let before = grouped::requests(history);
            let came = exists|i: int|
                0 <= i < history.len() && (#[trigger] history[i]).request_id == next.request_id;
            &&& came ==> grouped::requests(history.push(next)) == before
            &&& !came ==> grouped::requests(history.push(next)) == before.push(next.request_id)
        }),
{
    assert(history.push(next).drop_last() =~= history);
    lemma_listed_when_it_came(history, next.request_id);
}

proof fn lemma_listed_when_it_came(history: Seq<GroupedEvent>, id: Seq<char>)
    ensures
        grouped::requests(history).contains(id) <==> exists|i: int|
            0 <= i < history.len() && (#[trigger] history[i]).request_id == id,
    decreases history.len(),
{
    if history.len() > 0 {
        let before = history.drop_last();
        let last = history.last();
        let ids = grouped::requests(before);
        lemma_listed_when_it_came(before, id);
        assert(before.push(last) =~= history);
        grouped::listed_requests_have_attempts(before, id);
        grouped::listed_requests_have_attempts(history, id);
        grouped::others_leave_a_request_alone(before, last, id);
        assert(history[history.len() - 1] == last);
        if exists|i: int| 0 <= i < before.len() && (#[trigger] before[i]).request_id == id {
            let i = choose|i: int| 0 <= i < before.len() && (#[trigger] before[i]).request_id == id;
            assert(history[i].request_id == id);
        }
        if exists|i: int| 0 <= i < history.len() && (#[trigger] history[i]).request_id == id {
            let i = choose|i: int|
                0 <= i < history.len() && (#[trigger] history[i]).request_id == id;
            if i < before.len() {
                assert(before[i].request_id == id);
            }
        }
    }
}

/// A log without lines comes to nothing, and a line that holds no attempt leaves
/// everything as it was, in either format.
pub proof fn quiet_lines_leave_everything_as_it_was(
    policy: RetryPolicy,
    growth: Seq<Option<u64>>,
    before: Seq<Seq<char>>,
    quiet: Seq<char>,
)
    requires
        text::trimmed(quiet).len() == 0 || text::trimmed(quiet)[0] == '#',
    ensures
        ({
            let none = check::run(policy, growth, Seq::<Seq<char>>::empty());
            &&& none.history.len() == 0
            &&& none.printed.len() == 0
            &&& none.complaint is None
        }),
        ({
            let none = grouped::grouped_run(policy, growth, Seq::<Seq<char>>::empty());
            &&& none.history.len() == 0
            &&& none.printed.len() == 0
            &&& none.complaint is None
        }),
        check::run(policy, growth, before.push(quiet)) == check::run(policy, growth, before),
        grouped::grouped_run(policy, growth, before.push(quiet)) == grouped::grouped_run(
            policy,
            growth,
            before,
        ),
{
    parse::only_blank_lines_and_comments_say_nothing(quiet);
    assert(before.push(quiet).drop_last() =~= before);
}

} // verus!
