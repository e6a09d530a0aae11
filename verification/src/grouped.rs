//! Checking a log that interleaves the retry sequences of many requests.
//!
//! Every request id has a sequence of its own, so that one request's attempt
//! count and timing never leak into another's. What is kept grows with the number
//! of distinct request ids, not with the length of the log.

use crate::check;
use crate::check::Report;
use crate::parse;
use crate::parse::{Attempt, GroupedAttempt, GroupedAttemptView};
use crate::policy::RetryPolicy;
use crate::sequence;
use crate::sequence::{Event, RetrySequence};
use crate::text;
use vstd::hash_map::StringHashMap;
use vstd::prelude::*;
use vstd::string::*;

verus! {

/// An attempt of one of several requests.
pub struct GroupedEvent {
    pub request_id: Seq<char>,
    pub event: Event,
}

/// The attempts of one request, in their order.
pub open spec fn of_request(history: Seq<GroupedEvent>, request_id: Seq<char>) -> Seq<Event>
    decreases history.len(),
{
    if history.len() == 0 {
        seq![]
    } else {
        let before = of_request(history.drop_last(), request_id);
        if history.last().request_id == request_id {
            before.push(history.last().event)
        } else {
            before
        }
    }
}

/// The distinct request ids, in the order of their first attempts.
pub open spec fn requests(history: Seq<GroupedEvent>) -> Seq<Seq<char>>
    decreases history.len(),
{
    if history.len() == 0 {
        seq![]
    } else {
        let before = requests(history.drop_last());
        if before.contains(history.last().request_id) {
            before
        } else {
            before.push(history.last().request_id)
        }
    }
}

/// How many violations the given requests have committed together.
pub open spec fn total_of(
    policy: RetryPolicy,
    history: Seq<GroupedEvent>,
    ids: Seq<Seq<char>>,
) -> nat
    decreases ids.len(),
{
    if ids.len() == 0 {
        0
    } else {
        total_of(policy, history, ids.drop_last()) + sequence::total(
            policy,
            of_request(history, ids.last()),
        )
    }
}

/// How many violations all requests have committed together.
pub open spec fn grouped_total(policy: RetryPolicy, history: Seq<GroupedEvent>) -> nat {
    total_of(policy, history, requests(history))
}

/// What stands before the wording of a violation: the request id in brackets.
pub open spec fn tag(request_id: Seq<char>) -> Seq<char> {
    "["@ + request_id + "] "@
}

/// What is said of one request in the end.
pub open spec fn request_line(
    policy: RetryPolicy,
    history: Seq<GroupedEvent>,
    request_id: Seq<char>,
) -> Seq<char> {
    request_id + ": "@ + sequence::outcome_wording(policy, of_request(history, request_id))
}

/// What is said of all requests together in the end.
pub open spec fn closing_line(policy: RetryPolicy, history: Seq<GroupedEvent>) -> Seq<char> {
    if requests(history).len() == 0 {
        check::nothing_found()
    } else {
        text::decimal(history.len()) + " attempts across "@ + text::decimal(requests(history).len())
            + " request(s), "@ + text::decimal(grouped_total(policy, history)) + " violation(s)"@
    }
}

/// What is said of a whole log in the end: a line for every request, in the order
/// of their first attempts, and one for all of them.
pub open spec fn summary_lines(policy: RetryPolicy, history: Seq<GroupedEvent>) -> Seq<Seq<char>> {
    requests(history).map_values(
        |id: Seq<char>| request_line(policy, history, id),
    ).push(closing_line(policy, history))
}

/// Every request is listed once.
pub proof fn requests_are_distinct(history: Seq<GroupedEvent>)
    ensures
        requests(history).no_duplicates(),
    decreases history.len(),
{
    if history.len() > 0 {
        requests_are_distinct(history.drop_last());
    }
}

/// A request id that has not occurred has no attempts.
proof fn lemma_unseen_request_is_empty(history: Seq<GroupedEvent>, request_id: Seq<char>)
    requires
        !requests(history).contains(request_id),
    ensures
        of_request(history, request_id) == Seq::<Event>::empty(),
    decreases history.len(),
{
    if history.len() > 0 {
        let before = history.drop_last();
        let ids = requests(before);
        let last = history.last().request_id;
        if ids.contains(request_id) {
            let k = choose|k: int| 0 <= k < ids.len() && ids[k] == request_id;
            assert(requests(history)[k] == request_id);
        }
        if last == request_id {
            assert(!ids.contains(last));
            assert(requests(history)[ids.len() as int] == request_id);
        }
        lemma_unseen_request_is_empty(before, request_id);
    }
}

/// No request has more attempts than the whole log.
proof fn lemma_request_is_no_longer(history: Seq<GroupedEvent>, request_id: Seq<char>)
    ensures
        of_request(history, request_id).len() <= history.len(),
    decreases history.len(),
{
    if history.len() > 0 {
        lemma_request_is_no_longer(history.drop_last(), request_id);
    }
}

/// A sequence without duplicates holds an item as its last or among the others,
/// never both.
proof fn lemma_contains_last_or_others(ids: Seq<Seq<char>>, id: Seq<char>)
    requires
        ids.len() > 0,
        ids.no_duplicates(),
    ensures
        ids.contains(id) <==> ids.last() == id || ids.drop_last().contains(id),
        !(ids.last() == id && ids.drop_last().contains(id)),
{
    let others = ids.drop_last();
    assert(ids[ids.len() - 1] == ids.last());
    if ids.contains(id) {
        let k = choose|k: int| 0 <= k < ids.len() && ids[k] == id;
        if k < others.len() {
            assert(others[k] == id);
        }
    }
    if others.contains(id) {
        let k = choose|k: int| 0 <= k < others.len() && others[k] == id;
        assert(ids[k] == id);
    }
}

/// An attempt adds its violations to those of its own request and leaves the
/// others alone.
proof fn lemma_total_of_grows(
    policy: RetryPolicy,
    history: Seq<GroupedEvent>,
    next: GroupedEvent,
    ids: Seq<Seq<char>>,
)
    requires
        ids.no_duplicates(),
    ensures
        total_of(policy, history.push(next), ids) == total_of(policy, history, ids) + if ids.contains(
            next.request_id,
        ) {
            sequence::findings(policy, of_request(history, next.request_id), next.event).len()
        } else {
            0
        },
    decreases ids.len(),
{
    let longer = history.push(next);
    assert(longer.drop_last() =~= history);
    if ids.len() > 0 {
        let id = ids.last();
        let others = ids.drop_last();
        lemma_total_of_grows(policy, history, next, others);
        lemma_contains_last_or_others(ids, next.request_id);
        if id == next.request_id {
            assert(of_request(longer, id).drop_last() =~= of_request(history, id));
        }
    }
}

/// An attempt adds exactly the violations that it commits in its own request's
/// sequence.
pub proof fn total_grows_by_findings(
    policy: RetryPolicy,
    history: Seq<GroupedEvent>,
    next: GroupedEvent,
)
    ensures
        grouped_total(policy, history.push(next)) == grouped_total(policy, history)
            + sequence::findings(policy, of_request(history, next.request_id), next.event).len(),
{
    let longer = history.push(next);
    assert(longer.drop_last() =~= history);
    let ids = requests(history);
    let id = next.request_id;
    requests_are_distinct(history);
    requests_are_distinct(longer);
    lemma_total_of_grows(policy, history, next, ids);
    if !ids.contains(id) {
        assert(requests(longer).drop_last() =~= ids);
        lemma_unseen_request_is_empty(history, id);
        let sub = of_request(longer, id);
        assert(sub.drop_last() =~= Seq::<Event>::empty());
        assert(sequence::total(policy, sub.drop_last()) == 0);
    }
}

/// Violations are at most three times as many as attempts.
proof fn lemma_total_bound(policy: RetryPolicy, history: Seq<GroupedEvent>)
    ensures
        grouped_total(policy, history) <= 3 * history.len(),
    decreases history.len(),
{
    if history.len() > 0 {
        let before = history.drop_last();
        lemma_total_bound(policy, before);
        assert(before.push(history.last()) =~= history);
        total_grows_by_findings(policy, before, history.last());
        sequence::at_most_three_findings(
            policy,
            of_request(before, history.last().request_id),
            history.last().event,
        );
    }
}

/// Some of the requests have committed no more violations than all.
proof fn lemma_partial_total(
    policy: RetryPolicy,
    history: Seq<GroupedEvent>,
    ids: Seq<Seq<char>>,
    n: int,
)
    requires
        0 <= n <= ids.len(),
    ensures
        total_of(policy, history, ids.take(n)) <= total_of(policy, history, ids),
    decreases ids.len(),
{
    if n == ids.len() {
        assert(ids.take(n) =~= ids);
    } else {
        assert(ids.drop_last().take(n) =~= ids.take(n));
        lemma_partial_total(policy, history, ids.drop_last(), n);
    }
}

/// Reads one line of a grouped log. A complaint names the line.
pub fn read_grouped_attempt(line_index: usize, line: &str) -> (res: Result<
    Option<GroupedAttempt>,
    String,
>)
    ensures
        match (res, parse::grouped_line_meaning(line@)) {
            (Ok(Some(attempt)), Ok(Some(meaning))) => attempt@ == meaning,
            (Ok(None), Ok(None)) => true,
            (Err(e), Err(complaint)) => e@ == check::line_label(line_index as int) + complaint,
            _ => false,
        },
{
    match parse::parse_grouped_line(line) {
        Ok(attempt) => Ok(attempt),
        Err(complaint) => {
            let mut e = check::label(line_index);
            e.append(complaint.as_str());
            Err(e)
        },
    }
}

/// One request and its retry sequence.
struct Group {
    request_id: String,
    sequence: RetrySequence,
}

/// A check of a grouped log in progress.
pub struct GroupedCheck {
    policy: RetryPolicy,
    total_attempts: u32,
    /// The requests, in the order of their first attempts.
    groups: Vec<Group>,
    /// Where in `groups` a request stands.
    places: StringHashMap<usize>,
    history: Ghost<Seq<GroupedEvent>>,
}

impl View for GroupedCheck {
    type V = Seq<GroupedEvent>;

    /// The attempts recorded so far.
    closed spec fn view(&self) -> Seq<GroupedEvent> {
        self.history@
    }
}

/// The event that an attempt is in the history of a grouped log.
pub open spec fn grouped_event(
    attempt: GroupedAttemptView,
    grown_ms: Option<u64>,
) -> GroupedEvent {
    GroupedEvent {
        request_id: attempt.request_id,
        event: Event {
            attempt: Attempt { timestamp_ms: attempt.timestamp_ms, ok: attempt.ok },
            grown_ms,
        },
    }
}

impl GroupedCheck {
    /// The policy that the log is held against.
    pub closed spec fn policy(&self) -> RetryPolicy {
        self.policy
    }

    /// Whether the group at index `k` is in the state of its request's attempts.
    spec fn group_wf(&self, k: int) -> bool {
        let group = self.groups@[k];
        let id = requests(self.history@)[k];
        &&& group.request_id@ == id
        &&& group.sequence.wf()
        &&& group.sequence.policy() == self.policy
        &&& group.sequence@ == of_request(self.history@, id)
        &&& self.places@.contains_key(id)
        &&& self.places@[id] == k
    }

    /// Whether the state is that of its history: every request that has occurred
    /// has one sequence, and that holds the request's own attempts.
    pub closed spec fn wf(&self) -> bool {
        &&& self.total_attempts == self.history@.len()
        &&& self.groups@.len() == requests(self.history@).len()
        &&& forall|k: int| 0 <= k < self.groups@.len() ==> #[trigger] self.group_wf(k)
        &&& forall|id: Seq<char>| #[trigger]
            self.places@.contains_key(id) ==> requests(self.history@).contains(id)
    }

    /// A check that has seen no attempt.
    pub fn new(policy: RetryPolicy) -> (res: Self)
        ensures
            res.wf(),
            res@ == Seq::<GroupedEvent>::empty(),
            res.policy() == policy,
    {
        GroupedCheck {
            policy,
            total_attempts: 0,
            groups: Vec::new(),
            places: StringHashMap::new(),
            history: Ghost(Seq::empty()),
        }
    }

    /// Whether another attempt can still be counted.
    pub fn has_room(&self) -> (res: bool)
        requires
            self.wf(),
        ensures
            res == (self@.len() < u32::MAX),
    {
        self.total_attempts < u32::MAX
    }

    /// The number that the next attempt of a request will have.
    pub fn next_attempt(&self, request_id: &str) -> (res: u32)
        requires
            self.wf(),
            self@.len() < u32::MAX,
        ensures
            res == of_request(self@, request_id@).len() + 1,
    {
        match self.places.get(request_id) {
            Some(place) => {
                let k: usize = *place;
                proof {
                    self.lemma_place(request_id@);
                    lemma_request_is_no_longer(self.history@, request_id@);
                }
                self.groups[k].sequence.attempts() + 1
            },
            None => {
                proof {
                    self.lemma_no_place(request_id@);
                }
                1
            },
        }
    }

    /// A request that has a place stands there.
    proof fn lemma_place(&self, id: Seq<char>)
        requires
            self.wf(),
            self.places@.contains_key(id),
        ensures
            self.places@[id] < self.groups@.len(),
            requests(self.history@)[self.places@[id] as int] == id,
            self.group_wf(self.places@[id] as int),
    {
        let ids = requests(self.history@);
        let k = choose|k: int| 0 <= k < ids.len() && ids[k] == id;
        assert(self.group_wf(k));
    }

    /// A request that has no place has not occurred.
    proof fn lemma_no_place(&self, id: Seq<char>)
        requires
            self.wf(),
            !self.places@.contains_key(id),
        ensures
            !requests(self.history@).contains(id),
            of_request(self.history@, id) == Seq::<Event>::empty(),
    {
        let ids = requests(self.history@);
        if ids.contains(id) {
            let k = choose|k: int| 0 <= k < ids.len() && ids[k] == id;
            assert(self.group_wf(k));
        }
        lemma_unseen_request_is_empty(self.history@, id);
    }

    /// Records the attempt read from the line at `line_index`, before which its
    /// request's delay had grown to `grown_ms`, and words every violation it
    /// commits in its request's sequence.
    pub fn record(
        &mut self,
        line_index: usize,
        attempt: GroupedAttempt,
        grown_ms: Option<u64>,
    ) -> (res: Vec<String>)
        requires
            old(self).wf(),
            old(self)@.len() < u32::MAX,
        ensures
            final(self).wf(),
            final(self).policy() == old(self).policy(),
            final(self)@ == old(self)@.push(grouped_event(attempt@, grown_ms)),
            res.deep_view() == check::messages(
                line_index as int,
                tag(attempt@.request_id),
                sequence::findings(
                    old(self).policy(),
                    of_request(old(self)@, attempt@.request_id),
                    grouped_event(attempt@, grown_ms).event,
                ),
            ),
    {
        let ghost before = *self;
        let ghost id = attempt.request_id@;
        let ghost event = grouped_event(attempt@, grown_ms);
        let ghost after = self.history@.push(event);
        assert(after.drop_last() =~= self.history@);
        let mut opening = "[".to_owned();
        opening.append(attempt.request_id.as_str());
        opening.append("] ");
        let seen: Option<usize> = match self.places.get(attempt.request_id.as_str()) {
            Some(place) => Some(*place),
            None => None,
        };
        let k: usize = match seen {
            Some(place) => {
                proof {
                    self.lemma_place(id);
                }
                place
            },
            None => {
                proof {
                    self.lemma_no_place(id);
                }
                let place: usize = self.groups.len();
                self.places.insert(attempt.request_id.clone(), place);
                self.groups.push(
                    Group {
                        request_id: attempt.request_id,
                        sequence: RetrySequence::new(self.policy),
                    },
                );
                place
            },
        };
        proof {
            lemma_request_is_no_longer(before.history@, id);
        }
        let found = self.groups[k].sequence.record(
            Attempt { timestamp_ms: attempt.timestamp_ms, ok: attempt.ok },
            grown_ms,
        );
        self.total_attempts = self.total_attempts + 1;
        self.history = Ghost(after);
        assert(self.wf()) by {
            let ids = requests(before.history@);
            assert(requests(after)[k as int] == id);
            assert(requests(after).contains(id));
            requests_are_distinct(after);
            assert forall|j: int| 0 <= j < self.groups@.len() implies #[trigger] self.group_wf(
                j,
            ) by {
                if j < before.groups@.len() {
                    assert(before.group_wf(j));
                    assert(requests(after)[j] == ids[j]);
                }
                if j != k {
                    assert(requests(after)[j] != id);
                }
            }
            assert forall|other: Seq<char>| #[trigger]
                self.places@.contains_key(other) implies requests(after).contains(other) by {
                if other != id {
                    assert(before.places@.contains_key(other));
                    let j = choose|j: int| 0 <= j < ids.len() && ids[j] == other;
                    assert(requests(after)[j] == other);
                }
            }
        }
        check::report(line_index, opening.as_str(), &found)
    }

    /// How many violations were found in all requests together.
    pub fn violations(&self) -> (res: u64)
        requires
            self.wf(),
        ensures
            res == grouped_total(self.policy(), self@),
            res <= 3 * self@.len(),
    {
        let ghost ids = requests(self.history@);
        let mut sum: u64 = 0;
        let mut k: usize = 0;
        proof {
            lemma_total_bound(self.policy, self.history@);
        }
        assert(ids.take(0) =~= Seq::<Seq<char>>::empty());
        while k < self.groups.len()
            invariant
                k <= self.groups.len(),
                self.wf(),
                ids == requests(self.history@),
                sum == total_of(self.policy, self.history@, ids.take(k as int)),
                grouped_total(self.policy, self.history@) <= 3 * self.history@.len(),
            decreases self.groups.len() - k,
        {
            assert(self.group_wf(k as int));
            assert(ids.take(k + 1).drop_last() =~= ids.take(k as int));
            proof {
                lemma_partial_total(self.policy, self.history@, ids, k + 1);
            }
            sum = sum + self.groups[k].sequence.violations();
            k += 1;
        }
        assert(ids.take(k as int) =~= ids);
        sum
    }

    /// Sums up the log: a line for every request and one for all of them.
    pub fn summary(&self) -> (res: Vec<String>)
        requires
            self.wf(),
        ensures
            res.deep_view() == summary_lines(self.policy(), self@),
    {
        let ghost ids = requests(self.history@);
        let mut res: Vec<String> = Vec::new();
        let mut k: usize = 0;
        while k < self.groups.len()
            invariant
                k <= self.groups.len(),
                self.wf(),
                ids == requests(self.history@),
                res.len() == k,
                forall|j: int|
                    0 <= j < k ==> (#[trigger] res[j])@ == request_line(
                        self.policy,
                        self.history@,
                        ids[j],
                    ),
            decreases self.groups.len() - k,
        {
            assert(self.group_wf(k as int));
            let group = &self.groups[k];
            let mut line = group.request_id.clone();
            line.append(": ");
            line.append(group.sequence.outcome().as_str());
            res.push(line);
            k += 1;
        }
        res.push(self.closing());
        assert(res.deep_view() =~= summary_lines(self.policy, self.history@));
        res
    }

    /// Sums up all requests together.
    fn closing(&self) -> (res: String)
        requires
            self.wf(),
        ensures
            res@ == closing_line(self.policy(), self@),
    {
        if self.groups.len() == 0 {
            return "no attempts found in input".to_owned();
        }
        let mut res = String::new();
        text::push_decimal(&mut res, self.total_attempts as u128);
        res.append(" attempts across ");
        text::push_decimal(&mut res, self.groups.len() as u128);
        res.append(" request(s), ");
        text::push_decimal(&mut res, self.violations() as u128);
        res.append(" violation(s)");
        assert(res@ =~= closing_line(self.policy, self.history@));
        res
    }
}

/// Whether no line of a grouped log is malformed.
pub open spec fn grouped_readable(lines: Seq<Seq<char>>) -> bool {
    forall|i: int| 0 <= i < lines.len() ==> parse::grouped_line_meaning(#[trigger] lines[i]) is Ok
}

/// The attempts that the lines of a grouped log hold before the first malformed
/// one, in their order.
pub open spec fn grouped_attempts_in(lines: Seq<Seq<char>>) -> Seq<GroupedAttemptView>
    decreases lines.len(),
{
    if lines.len() == 0 {
        seq![]
    } else {
        match parse::grouped_line_meaning(lines.last()) {
            Ok(Some(attempt)) if grouped_readable(lines.drop_last()) => grouped_attempts_in(
                lines.drop_last(),
            ).push(attempt),
            _ => grouped_attempts_in(lines.drop_last()),
        }
    }
}

/// The attempts of one request among those of a grouped log, in their order.
pub open spec fn own_attempts(attempts: Seq<GroupedAttemptView>, request_id: Seq<char>) -> Seq<
    Attempt,
>
    decreases attempts.len(),
{
    if attempts.len() == 0 {
        seq![]
    } else {
        let before = own_attempts(attempts.drop_last(), request_id);
        let last = attempts.last();
        if last.request_id == request_id {
            before.push(Attempt { timestamp_ms: last.timestamp_ms, ok: last.ok })
        } else {
            before
        }
    }
}

/// What has come of a grouped log after some of its lines.
pub struct GroupedRun {
    /// The attempts recorded.
    pub history: Seq<GroupedEvent>,
    /// The messages about violations.
    pub printed: Seq<Seq<char>>,
    /// The complaint about the first malformed line, at which reading ends.
    pub complaint: Option<Seq<char>>,
}

/// What comes of the lines of a grouped log, where the delay before a request's
/// attempt numbered `n` has grown to `growth[n - 1]`.
pub open spec fn grouped_run(
    policy: RetryPolicy,
    growth: Seq<Option<u64>>,
    lines: Seq<Seq<char>>,
) -> GroupedRun
    decreases lines.len(),
{
    if lines.len() == 0 {
        GroupedRun { history: seq![], printed: seq![], complaint: None }
    } else {
        let before = grouped_run(policy, growth, lines.drop_last());
        let line_index = lines.len() - 1;
        if before.complaint is Some {
            before
        } else {
            match parse::grouped_line_meaning(lines.last()) {
                Err(complaint) => GroupedRun {
                    complaint: Some(check::line_label(line_index) + complaint),
                    ..before
                },
                Ok(None) => before,
                Ok(Some(attempt)) => {
                    let own = of_request(before.history, attempt.request_id);
                    let next = grouped_event(attempt, growth[own.len() as int]);
                    GroupedRun {
                        history: before.history.push(next),
                        printed: before.printed + check::messages(
                            line_index,
                            tag(attempt.request_id),
                            sequence::findings(policy, own, next.event),
                        ),
                        complaint: None,
                    }
                },
            }
        }
    }
}

/// Walks the lines of a grouped log and checks every request against the policy
/// on its own. The delay before a request's attempt numbered `n` has grown to
/// `growth[n - 1]`.
pub fn check_grouped(policy: RetryPolicy, growth: &Vec<Option<u64>>, lines: &Vec<String>) -> (res:
    Report)
    requires
        forall|id: Seq<char>|
            #[trigger] own_attempts(grouped_attempts_in(lines.deep_view()), id).len()
                <= growth.len(),
        grouped_attempts_in(lines.deep_view()).len() <= u32::MAX,
    ensures
        ({
            let end = grouped_run(policy, growth@, lines.deep_view());
            match end.complaint {
                Some(complaint) => {
                    &&& res.lines.deep_view() == end.printed
                    &&& res.violations matches Err(e) && e@ == complaint
                },
                None => {
                    &&& res.lines.deep_view() == end.printed + summary_lines(policy, end.history)
                    &&& res.violations == Ok::<u64, String>(
                        grouped_total(policy, end.history) as u64,
                    )
                    &&& grouped_total(policy, end.history) <= u64::MAX
                },
            }
        }),
{
    let mut check = GroupedCheck::new(policy);
    let mut printed: Vec<String> = Vec::new();
    let ghost all = lines.deep_view();
    let mut i: usize = 0;
    assert(printed.deep_view() =~= Seq::<Seq<char>>::empty());
    while i < lines.len()
        invariant
            i <= lines.len(),
            all == lines.deep_view(),
            forall|id: Seq<char>|
                #[trigger] own_attempts(grouped_attempts_in(all), id).len() <= growth.len(),
            grouped_attempts_in(all).len() <= u32::MAX,
            check.wf(),
            check.policy() == policy,
            grouped_run(policy, growth@, all.take(i as int)) == (GroupedRun {
                history: check@,
                printed: printed.deep_view(),
                complaint: None,
            }),
        decreases lines.len() - i,
    {
        let ghost so_far = all.take(i + 1);
        assert(so_far.drop_last() =~= all.take(i as int));
        assert(so_far.last() == lines[i as int]@);
        match read_grouped_attempt(i, lines[i].as_str()) {
            Err(e) => {
                proof {
                    lemma_complaint_stays(policy, growth@, all, i + 1);
                }
                return Report { lines: printed, violations: Err(e) };
            },
            Ok(None) => {},
            Ok(Some(attempt)) => {
                let ghost earlier = printed.deep_view();
                proof {
                    let id = attempt@.request_id;
                    history_is_what_the_lines_hold(policy, growth@, all.take(i as int), id);
                    history_is_what_the_lines_hold(policy, growth@, so_far, id);
                    others_leave_a_request_alone(
                        check@,
                        grouped_event(attempt@, growth@[of_request(check@, id).len() as int]),
                        id,
                    );
                    lemma_fewer_attempts_in_beginning(all, i + 1, id);
                }
                let number: u32 = check.next_attempt(attempt.request_id.as_str());
                let mut found = check.record(i, attempt, growth[number as usize - 1]);
                let ghost new = found.deep_view();
                printed.append(&mut found);
                assert(printed.deep_view() =~= earlier + new);
            },
        }
        i += 1;
    }
    assert(all.take(i as int) =~= all);
    let violations: u64 = check.violations();
    let ghost earlier = printed.deep_view();
    let mut summary = check.summary();
    let ghost last = summary.deep_view();
    printed.append(&mut summary);
    assert(printed.deep_view() =~= earlier + last);
    Report { lines: printed, violations: Ok(violations) }
}

/// The beginning of a log holds no more attempts than the whole, altogether and of
/// each request.
proof fn lemma_fewer_attempts_in_beginning(
    lines: Seq<Seq<char>>,
    n: int,
    request_id: Seq<char>,
)
    requires
        0 <= n <= lines.len(),
    ensures
        grouped_attempts_in(lines.take(n)).len() <= grouped_attempts_in(lines).len(),
        own_attempts(grouped_attempts_in(lines.take(n)), request_id).len() <= own_attempts(
            grouped_attempts_in(lines),
            request_id,
        ).len(),
    decreases lines.len(),
{
    if n == lines.len() {
        assert(lines.take(n) =~= lines);
    } else {
        let earlier = lines.drop_last();
        assert(earlier.take(n) =~= lines.take(n));
        lemma_fewer_attempts_in_beginning(earlier, n, request_id);
        if grouped_attempts_in(lines).len() > grouped_attempts_in(earlier).len() {
            assert(grouped_attempts_in(lines).drop_last() =~= grouped_attempts_in(earlier));
        }
    }
}

/// Reading ends at the first malformed line.
proof fn lemma_complaint_stays(
    policy: RetryPolicy,
    growth: Seq<Option<u64>>,
    lines: Seq<Seq<char>>,
    n: int,
)
    requires
        0 <= n <= lines.len(),
        grouped_run(policy, growth, lines.take(n)).complaint is Some,
    ensures
        grouped_run(policy, growth, lines) == grouped_run(policy, growth, lines.take(n)),
    decreases lines.len(),
{
    if n == lines.len() {
        assert(lines.take(n) =~= lines);
    } else {
        assert(lines.drop_last().take(n) =~= lines.take(n));
        lemma_complaint_stays(policy, growth, lines.drop_last(), n);
    }
}

/// An attempt of one request leaves the sequences of all others alone.
pub proof fn others_leave_a_request_alone(
    history: Seq<GroupedEvent>,
    next: GroupedEvent,
    request_id: Seq<char>,
)
    ensures
        of_request(Seq::<GroupedEvent>::empty(), request_id) == Seq::<Event>::empty(),
        of_request(history.push(next), request_id) == if next.request_id == request_id {
            of_request(history, request_id).push(next.event)
        } else {
            of_request(history, request_id)
        },
{
    assert(history.push(next).drop_last() =~= history);
}

/// What is found about a request's next attempt and what is said of the request in
/// the end depend on its own attempts alone, whatever else the log holds.
pub proof fn requests_are_independent(
    policy: RetryPolicy,
    one: Seq<GroupedEvent>,
    other: Seq<GroupedEvent>,
    request_id: Seq<char>,
    next: Event,
)
    requires
        of_request(one, request_id) == of_request(other, request_id),
    ensures
        sequence::findings(policy, of_request(one, request_id), next) == sequence::findings(
            policy,
            of_request(other, request_id),
            next,
        ),
        request_line(policy, one, request_id) == request_line(policy, other, request_id),
{
}

/// A request is listed exactly when it has an attempt.
pub proof fn listed_requests_have_attempts(history: Seq<GroupedEvent>, request_id: Seq<char>)
    ensures
        requests(history).contains(request_id) <==> of_request(history, request_id).len() > 0,
    decreases history.len(),
{
    if history.len() > 0 {
        let before = history.drop_last();
        let ids = requests(before);
        listed_requests_have_attempts(before, request_id);
        if ids.contains(request_id) {
            let k = choose|k: int| 0 <= k < ids.len() && ids[k] == request_id;
            assert(requests(history)[k] == request_id);
        }
        if !ids.contains(history.last().request_id) {
            assert(requests(history)[ids.len() as int] == history.last().request_id);
        }
    }
}

/// How many attempts the given requests have together.
pub open spec fn attempts_of(history: Seq<GroupedEvent>, ids: Seq<Seq<char>>) -> nat
    decreases ids.len(),
{
    if ids.len() == 0 {
        0
    } else {
        attempts_of(history, ids.drop_last()) + of_request(history, ids.last()).len()
    }
}

/// Every attempt belongs to exactly one request: the requests' attempts add up to
/// those of the whole log.
pub proof fn attempts_add_up(history: Seq<GroupedEvent>)
    ensures
        attempts_of(history, requests(history)) == history.len(),
    decreases history.len(),
{
    if history.len() > 0 {
        let before = history.drop_last();
        let next = history.last();
        let ids = requests(before);
        attempts_add_up(before);
        requests_are_distinct(before);
        assert(before.push(next) =~= history);
        lemma_attempts_of_grows(before, next, ids);
        if !ids.contains(next.request_id) {
            assert(requests(history).drop_last() =~= ids);
            lemma_unseen_request_is_empty(before, next.request_id);
        }
    }
}

proof fn lemma_attempts_of_grows(
    history: Seq<GroupedEvent>,
    next: GroupedEvent,
    ids: Seq<Seq<char>>,
)
    requires
        ids.no_duplicates(),
    ensures
        attempts_of(history.push(next), ids) == attempts_of(history, ids) + if ids.contains(
            next.request_id,
        ) {
            1nat
        } else {
            0
        },
    decreases ids.len(),
{
    if ids.len() > 0 {
        let others = ids.drop_last();
        lemma_attempts_of_grows(history, next, others);
        others_leave_a_request_alone(history, next, ids.last());
        lemma_contains_last_or_others(ids, next.request_id);
    }
}

/// A grouped history holds no violation exactly when every request follows the
/// policy.
pub proof fn no_violation_means_every_request_follows(
    policy: RetryPolicy,
    history: Seq<GroupedEvent>,
)
    ensures
        grouped_total(policy, history) == 0 <==> forall|id: Seq<char>|
            sequence::follows(policy, #[trigger] of_request(history, id)),
{
    let ids = requests(history);
    lemma_total_of_is_zero(policy, history, ids);
    if grouped_total(policy, history) == 0 {
        assert forall|id: Seq<char>| sequence::follows(
            policy,
            #[trigger] of_request(history, id),
        ) by {
            sequence::no_violation_means_policy_followed(policy, of_request(history, id));
            if ids.contains(id) {
                let k = choose|k: int| 0 <= k < ids.len() && ids[k] == id;
                assert(sequence::total(policy, of_request(history, ids[k])) == 0);
            } else {
                lemma_unseen_request_is_empty(history, id);
            }
        }
    }
    if forall|id: Seq<char>| sequence::follows(policy, #[trigger] of_request(history, id)) {
        assert forall|k: int| 0 <= k < ids.len() implies sequence::total(
            policy,
            of_request(history, #[trigger] ids[k]),
        ) == 0 by {
            sequence::no_violation_means_policy_followed(policy, of_request(history, ids[k]));
        }
    }
}

proof fn lemma_total_of_is_zero(
    policy: RetryPolicy,
    history: Seq<GroupedEvent>,
    ids: Seq<Seq<char>>,
)
    ensures
        total_of(policy, history, ids) == 0 <==> forall|k: int|
            0 <= k < ids.len() ==> sequence::total(policy, of_request(history, #[trigger] ids[k]))
                == 0,
    decreases ids.len(),
{
    if ids.len() > 0 {
        let others = ids.drop_last();
        lemma_total_of_is_zero(policy, history, others);
        assert(forall|k: int| 0 <= k < others.len() ==> others[k] == ids[k]);
        assert(ids.last() == ids[ids.len() - 1]);
        if total_of(policy, history, ids) == 0 {
            assert forall|k: int| 0 <= k < ids.len() implies sequence::total(
                policy,
                of_request(history, #[trigger] ids[k]),
            ) == 0 by {
                if k < others.len() {
                    assert(sequence::total(policy, of_request(history, others[k])) == 0);
                }
            }
        }
    }
}

/// Every violation is reported exactly once.
pub proof fn every_violation_is_reported(
    policy: RetryPolicy,
    growth: Seq<Option<u64>>,
    lines: Seq<Seq<char>>,
)
    ensures
        grouped_run(policy, growth, lines).printed.len() == grouped_total(
            policy,
            grouped_run(policy, growth, lines).history,
        ),
    decreases lines.len(),
{
    if lines.len() > 0 {
        every_violation_is_reported(policy, growth, lines.drop_last());
        let before = grouped_run(policy, growth, lines.drop_last());
        let after = grouped_run(policy, growth, lines);
        if after.history.len() > before.history.len() {
            total_grows_by_findings(policy, before.history, after.history.last());
            assert(before.history.push(after.history.last()) =~= after.history);
        }
    }
}

/// A line that holds no attempt changes nothing but the numbers of the lines
/// behind it.
pub proof fn quiet_lines_change_nothing(
    policy: RetryPolicy,
    growth: Seq<Option<u64>>,
    before: Seq<Seq<char>>,
    quiet: Seq<char>,
    after: Seq<Seq<char>>,
)
    requires
        parse::grouped_line_meaning(quiet) == Ok::<Option<GroupedAttemptView>, Seq<char>>(None),
    ensures
        ({
            let with = grouped_run(policy, growth, before + seq![quiet] + after);
            let without = grouped_run(policy, growth, before + after);
            &&& with.history == without.history
            &&& with.printed.len() == without.printed.len()
            &&& with.complaint is Some == without.complaint is Some
        }),
    decreases after.len(),
{
    let with = before + seq![quiet] + after;
    let without = before + after;
    if after.len() == 0 {
        assert(with.drop_last() =~= before);
        assert(without =~= before);
    } else {
        quiet_lines_change_nothing(policy, growth, before, quiet, after.drop_last());
        assert(with.drop_last() =~= before + seq![quiet] + after.drop_last());
        assert(without.drop_last() =~= before + after.drop_last());
        assert(with.last() == without.last());
    }
}

/// The lines that hold an attempt of one request, in their order.
pub open spec fn lines_of(lines: Seq<Seq<char>>, request_id: Seq<char>) -> Seq<Seq<char>>
    decreases lines.len(),
{
    if lines.len() == 0 {
        seq![]
    } else {
        let before = lines_of(lines.drop_last(), request_id);
        match parse::grouped_line_meaning(lines.last()) {
            Ok(Some(attempt)) if attempt.request_id == request_id => before.push(lines.last()),
            _ => before,
        }
    }
}

/// Checking an interleaved log gives every request the sequence that checking the
/// request's own lines alone would give it.
pub proof fn interleaving_does_not_matter(
    policy: RetryPolicy,
    growth: Seq<Option<u64>>,
    lines: Seq<Seq<char>>,
    request_id: Seq<char>,
)
    requires
        grouped_run(policy, growth, lines).complaint is None,
    ensures
        ({
            let together = grouped_run(policy, growth, lines).history;
            let alone = grouped_run(policy, growth, lines_of(lines, request_id));
            &&& alone.complaint is None
            &&& of_request(together, request_id) == of_request(alone.history, request_id)
            &&& grouped_total(policy, alone.history) == sequence::total(
                policy,
                of_request(together, request_id),
            )
        }),
    decreases lines.len(),
{
    if lines.len() > 0 {
        let earlier = lines.drop_last();
        let own = lines_of(lines, request_id);
        let own_earlier = lines_of(earlier, request_id);
        interleaving_does_not_matter(policy, growth, earlier, request_id);
        let before = grouped_run(policy, growth, earlier);
        let before_alone = grouped_run(policy, growth, own_earlier);
        match parse::grouped_line_meaning(lines.last()) {
            Ok(Some(attempt)) => {
                let own_so_far = of_request(before.history, attempt.request_id);
                let next = grouped_event(attempt, growth[own_so_far.len() as int]);
                others_leave_a_request_alone(before.history, next, request_id);
                if attempt.request_id == request_id {
                    assert(own.drop_last() =~= own_earlier);
                    others_leave_a_request_alone(before_alone.history, next, request_id);
                    total_grows_by_findings(policy, before_alone.history, next);
                    let longer = own_so_far.push(next.event);
                    assert(longer.drop_last() =~= own_so_far);
                }
            },
            _ => {},
        }
    } else {
        assert(requests(Seq::<GroupedEvent>::empty()) =~= Seq::<Seq<char>>::empty());
    }
}

/// Whether a plain line and a grouped line of the given request hold the same
/// attempt, or both hold none.
pub open spec fn same_attempt(
    plain: Seq<char>,
    grouped: Seq<char>,
    request_id: Seq<char>,
) -> bool {
    match (parse::line_meaning(plain), parse::grouped_line_meaning(grouped)) {
        (Ok(None), Ok(None)) => true,
        (Ok(Some(a)), Ok(Some(b))) => b == (GroupedAttemptView {
            timestamp_ms: a.timestamp_ms,
            request_id,
            ok: a.ok,
        }),
        _ => false,
    }
}

/// A grouped log of a single request is walked as the plain log of the same
/// attempts is: the same sequence, judged the same way.
pub proof fn single_request_is_walked_like_a_plain_log(
    policy: RetryPolicy,
    growth: Seq<Option<u64>>,
    plain: Seq<Seq<char>>,
    grouped: Seq<Seq<char>>,
    request_id: Seq<char>,
)
    requires
        plain.len() == grouped.len(),
        forall|i: int|
            0 <= i < plain.len() ==> same_attempt(
                #[trigger] plain[i],
                #[trigger] grouped[i],
                request_id,
            ),
    ensures
        ({
            let one = check::run(policy, growth, plain);
            let many = grouped_run(policy, growth, grouped);
            &&& one.complaint is None
            &&& many.complaint is None
            &&& of_request(many.history, request_id) == one.history
            &&& grouped_total(policy, many.history) == sequence::total(policy, one.history)
        }),
    decreases plain.len(),
{
    if plain.len() > 0 {
        let p = plain.drop_last();
        let g = grouped.drop_last();
        assert forall|i: int| 0 <= i < p.len() implies same_attempt(
            #[trigger] p[i],
            #[trigger] g[i],
            request_id,
        ) by {
            assert(same_attempt(plain[i], grouped[i], request_id));
        }
        single_request_is_walked_like_a_plain_log(policy, growth, p, g, request_id);
        assert(same_attempt(plain[plain.len() - 1], grouped[plain.len() - 1], request_id));
        let many = grouped_run(policy, growth, g);
        match parse::grouped_line_meaning(grouped.last()) {
            Ok(Some(attempt)) => {
                let own = of_request(many.history, request_id);
                let next = grouped_event(attempt, growth[own.len() as int]);
                others_leave_a_request_alone(many.history, next, request_id);
                total_grows_by_findings(policy, many.history, next);
                assert(own.push(next.event).drop_last() =~= own);
            },
            _ => {},
        }
    } else {
        assert(requests(Seq::<GroupedEvent>::empty()) =~= Seq::<Seq<char>>::empty());
    }
}

/// A grouped log can be read to its end exactly when no line is malformed. The
/// attempts recorded for a request are those that its lines hold before the first
/// malformed one, in their order, each with the growth that belongs to its number
/// within the request.
pub proof fn history_is_what_the_lines_hold(
    policy: RetryPolicy,
    growth: Seq<Option<u64>>,
    lines: Seq<Seq<char>>,
    request_id: Seq<char>,
)
    ensures
        ({
            let end = grouped_run(policy, growth, lines);
            let own = own_attempts(grouped_attempts_in(lines), request_id);
            &&& end.complaint is None <==> grouped_readable(lines)
            &&& end.history.len() == grouped_attempts_in(lines).len()
            &&& of_request(end.history, request_id) =~= Seq::new(
                own.len(),
                |i: int| Event { attempt: own[i], grown_ms: growth[i] },
            )
        }),
    decreases lines.len(),
{
    if lines.len() > 0 {
        let earlier = lines.drop_last();
        history_is_what_the_lines_hold(policy, growth, earlier, request_id);
        lemma_readable_line_by_line(lines);
        let before = grouped_run(policy, growth, earlier).history;
        match parse::grouped_line_meaning(lines.last()) {
            Ok(Some(attempt)) if grouped_readable(earlier) => {
                let own = of_request(before, attempt.request_id);
                let next = grouped_event(attempt, growth[own.len() as int]);
                others_leave_a_request_alone(before, next, request_id);
                assert(grouped_attempts_in(lines).drop_last() =~= grouped_attempts_in(earlier));
            },
            _ => {},
        }
    }
}

/// A log is readable where its last line is and the log before it.
proof fn lemma_readable_line_by_line(lines: Seq<Seq<char>>)
    requires
        lines.len() > 0,
    ensures
        grouped_readable(lines) <==> grouped_readable(lines.drop_last())
            && parse::grouped_line_meaning(lines.last()) is Ok,
{
    let before = lines.drop_last();
    assert(forall|i: int| 0 <= i < before.len() ==> before[i] == lines[i]);
    assert(lines.last() == lines[lines.len() - 1]);
    if grouped_readable(lines) {
        assert forall|i: int| 0 <= i < before.len() implies parse::grouped_line_meaning(
            #[trigger] before[i],
        ) is Ok by {
            assert(parse::grouped_line_meaning(lines[i]) is Ok);
        }
    }
    if grouped_readable(before) && parse::grouped_line_meaning(lines.last()) is Ok {
        assert forall|i: int| 0 <= i < lines.len() implies parse::grouped_line_meaning(
            #[trigger] lines[i],
        ) is Ok by {
            if i < before.len() {
                assert(parse::grouped_line_meaning(before[i]) is Ok);
            }
        }
    }
}

} // verus!
