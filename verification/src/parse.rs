//! Lines of a retry log.
//!
//! A plain line reads `timestamp_ms,outcome`; a grouped line carries a request id
//! in between, `timestamp_ms,request_id,outcome`. The outcome is `ok` or `err`.
//! Blank lines and lines that start with `#` hold no attempt. White space around
//! a line and around each of its fields is ignored.

use crate::text;
use vstd::prelude::*;
use vstd::string::*;

verus! {

/// One parsed line of input: a timestamp and whether the attempt succeeded.
#[derive(Debug, Clone, Copy, PartialEq, Eq, Structural)]
pub struct Attempt {
    pub timestamp_ms: u64,
    pub ok: bool,
}

/// One parsed line of grouped input: a timestamp, the request id it belongs to,
/// and whether the attempt succeeded.
#[derive(Debug, PartialEq, Eq)]
pub struct GroupedAttempt {
    pub timestamp_ms: u64,
    pub request_id: String,
    pub ok: bool,
}

/// What a grouped attempt says, with its request id as a sequence of characters.
pub struct GroupedAttemptView {
    pub timestamp_ms: u64,
    pub request_id: Seq<char>,
    pub ok: bool,
}

impl View for GroupedAttempt {
    type V = GroupedAttemptView;

    open spec fn view(&self) -> GroupedAttemptView {
        GroupedAttemptView {
            timestamp_ms: self.timestamp_ms,
            request_id: self.request_id@,
            ok: self.ok,
        }
    }
}

/// Whether a trimmed line holds no attempt: it is blank or a comment.
pub open spec fn holds_no_attempt(trimmed: Seq<char>) -> bool {
    trimmed.len() == 0 || trimmed[0] == '#'
}

/// The timestamp that a field holds, or the complaint about it.
pub open spec fn timestamp_field(field: Seq<char>) -> Result<u64, Seq<char>> {
    match text::number_up_to(text::trimmed(field), u64::MAX as nat) {
        Some(n) => Ok(n as u64),
        None => Err("bad timestamp '"@ + text::trimmed(field) + "'"@),
    }
}

/// The outcome that a field holds, or the complaint about it.
pub open spec fn outcome_field(field: Seq<char>) -> Result<bool, Seq<char>> {
    let outcome = text::trimmed(field);
    if outcome == "ok"@ {
        Ok(true)
    } else if outcome == "err"@ {
        Ok(false)
    } else {
        Err("bad outcome '"@ + outcome + "', expected 'ok' or 'err'"@)
    }
}

/// What a plain line says: an attempt, nothing, or the complaint about it. A
/// missing field is complained about first, then the fields from left to right.
pub open spec fn line_meaning(line: Seq<char>) -> Result<Option<Attempt>, Seq<char>> {
    let trimmed = text::trimmed(line);
    if holds_no_attempt(trimmed) {
        Ok(None)
    } else {
        match text::split_comma(trimmed) {
            None => Err("expected 'timestamp_ms,outcome', got '"@ + trimmed + "'"@),
            Some((timestamp, outcome)) => match timestamp_field(timestamp) {
                Err(complaint) => Err(complaint),
                Ok(timestamp_ms) => match outcome_field(outcome) {
                    Err(complaint) => Err(complaint),
                    Ok(ok) => Ok(Some(Attempt { timestamp_ms, ok })),
                },
            },
        }
    }
}

/// The three fields of a trimmed grouped line, or `None` where one is missing.
/// Commas behind the second belong to the last field.
pub open spec fn grouped_fields(trimmed: Seq<char>) -> Option<(Seq<char>, Seq<char>, Seq<char>)> {
    match text::split_comma(trimmed) {
        None => None,
        Some((timestamp, rest)) => match text::split_comma(rest) {
            None => None,
            Some((request_id, outcome)) => Some((timestamp, request_id, outcome)),
        },
    }
}

/// What a grouped line says: an attempt, nothing, or the complaint about it. A
/// missing field is complained about first, then the fields from left to right.
pub open spec fn grouped_line_meaning(line: Seq<char>) -> Result<
    Option<GroupedAttemptView>,
    Seq<char>,
> {
    let trimmed = text::trimmed(line);
    if holds_no_attempt(trimmed) {
        Ok(None)
    } else {
        match grouped_fields(trimmed) {
            None => Err("expected 'timestamp_ms,request_id,outcome', got '"@ + trimmed + "'"@),
            Some((timestamp, id_field, outcome)) => match timestamp_field(timestamp) {
                Err(complaint) => Err(complaint),
                Ok(timestamp_ms) => {
                    let request_id = text::trimmed(id_field);
                    if request_id.len() == 0 {
                        Err("request id must not be empty"@)
                    } else {
                        match outcome_field(outcome) {
                            Err(complaint) => Err(complaint),
                            Ok(ok) => Ok(Some(GroupedAttemptView { timestamp_ms, request_id, ok })),
                        }
                    }
                },
            },
        }
    }
}

/// Puts a text between two others.
fn enclose(before: &str, middle: &str, after: &str) -> (res: String)
    ensures
        res@ == before@ + middle@ + after@,
{
    let mut res = before.to_owned();
    res.append(middle);
    res.append(after);
    res
}

/// Reads the timestamp field of a line.
fn parse_timestamp(field: &str) -> (res: Result<u64, String>)
    ensures
        match (res, timestamp_field(field@)) {
            (Ok(n), Ok(m)) => n == m,
            (Err(e), Err(complaint)) => e@ == complaint,
            _ => false,
        },
{
    let trimmed = text::trim(field);
    match text::parse_number(trimmed, u64::MAX) {
        Some(n) => Ok(n),
        None => Err(enclose("bad timestamp '", trimmed, "'")),
    }
}

/// Reads the outcome field of a line.
fn parse_outcome(field: &str) -> (res: Result<bool, String>)
    ensures
        match (res, outcome_field(field@)) {
            (Ok(a), Ok(b)) => a == b,
            (Err(e), Err(complaint)) => e@ == complaint,
            _ => false,
        },
{
    let trimmed = text::trim(field);
    if text::same(trimmed, "ok") {
        Ok(true)
    } else if text::same(trimmed, "err") {
        Ok(false)
    } else {
        Err(enclose("bad outcome '", trimmed, "', expected 'ok' or 'err'"))
    }
}

/// Reads a plain line: the attempt it holds, or `None` where it is blank or a
/// comment.
pub fn parse_line(line: &str) -> (res: Result<Option<Attempt>, String>)
    ensures
        match (res, line_meaning(line@)) {
            (Ok(attempt), Ok(meaning)) => attempt == meaning,
            (Err(e), Err(complaint)) => e@ == complaint,
            _ => false,
        },
{
    let trimmed = text::trim(line);
    if trimmed.is_empty() || text::begins_with(trimmed, '#') {
        return Ok(None);
    }
    match text::split_at_comma(trimmed) {
        None => Err(enclose("expected 'timestamp_ms,outcome', got '", trimmed, "'")),
        Some((timestamp, outcome)) => match parse_timestamp(timestamp) {
            Err(e) => Err(e),
            Ok(timestamp_ms) => match parse_outcome(outcome) {
                Err(e) => Err(e),
                Ok(ok) => Ok(Some(Attempt { timestamp_ms, ok })),
            },
        },
    }
}

/// Splits a trimmed grouped line into its three fields.
fn split_grouped(trimmed: &str) -> (res: Option<(&str, &str, &str)>)
    ensures
        match (res, grouped_fields(trimmed@)) {
            (Some((a, b, c)), Some((x, y, z))) => a@ == x && b@ == y && c@ == z,
            (None, None) => true,
            _ => false,
        },
{
    match text::split_at_comma(trimmed) {
        None => None,
        Some((timestamp, rest)) => match text::split_at_comma(rest) {
            None => None,
            Some((request_id, outcome)) => Some((timestamp, request_id, outcome)),
        },
    }
}

/// Reads a grouped line: the attempt it holds, or `None` where it is blank or a
/// comment.
pub fn parse_grouped_line(line: &str) -> (res: Result<Option<GroupedAttempt>, String>)
    ensures
        match (res, grouped_line_meaning(line@)) {
            (Ok(Some(attempt)), Ok(Some(meaning))) => attempt@ == meaning,
            (Ok(None), Ok(None)) => true,
            (Err(e), Err(complaint)) => e@ == complaint,
            _ => false,
        },
{
    let trimmed = text::trim(line);
    if trimmed.is_empty() || text::begins_with(trimmed, '#') {
        return Ok(None);
    }
    let (timestamp, id_field, outcome) = match split_grouped(trimmed) {
        None => {
            return Err(enclose("expected 'timestamp_ms,request_id,outcome', got '", trimmed, "'"));
        },
        Some(fields) => fields,
    };
    let timestamp_ms = match parse_timestamp(timestamp) {
        Err(e) => {
            return Err(e);
        },
        Ok(n) => n,
    };
    let request_id = text::trim(id_field);
    if request_id.is_empty() {
        return Err("request id must not be empty".to_owned());
    }
    match parse_outcome(outcome) {
        Err(e) => Err(e),
        Ok(ok) => Ok(Some(GroupedAttempt { timestamp_ms, request_id: request_id.to_owned(), ok })),
    }
}

/// The two outcomes as a line spells them.
pub open spec fn outcome_text(ok: bool) -> Seq<char> {
    if ok {
        "ok"@
    } else {
        "err"@
    }
}

/// Every attempt can be written down as a line that reads back as that attempt,
/// whatever white space surrounds its two fields.
pub proof fn written_attempt_reads_back(
    attempt: Attempt,
    s1: Seq<char>,
    s2: Seq<char>,
    s3: Seq<char>,
    s4: Seq<char>,
)
    requires
        text::is_blank(s1),
        text::is_blank(s2),
        text::is_blank(s3),
        text::is_blank(s4),
    ensures
        line_meaning(
            s1 + text::decimal(attempt.timestamp_ms as nat) + s2 + seq![','] + s3 + outcome_text(
                attempt.ok,
            ) + s4,
        ) == Ok::<Option<Attempt>, Seq<char>>(Some(attempt)),
{
    let digits = text::decimal(attempt.timestamp_ms as nat);
    let outcome = outcome_text(attempt.ok);
    let first = digits + s2;
    let second = s3 + outcome;
    let core = first + seq![','] + second;
    lemma_timestamp_reads_back(attempt.timestamp_ms, s2);
    lemma_outcome_reads_back(attempt.ok, s3);
    text::decimal_denotes_its_number(attempt.timestamp_ms as nat);
    assert(core[0] == digits[0]);
    assert(text::is_digit(digits[0]));
    assert(core.last() == outcome.last());
    text::trimming_recovers_padded_text(s1, core, s4);
    assert(s1 + digits + s2 + seq![','] + s3 + outcome + s4 =~= s1 + core + s4);
    text::splitting_undoes_joining(first, second);
}

/// Every grouped attempt whose request id is not empty, holds no comma and
/// neither begins nor ends with white space can be written down as a grouped line
/// that reads back as that attempt, whatever white space surrounds its fields.
pub proof fn written_grouped_attempt_reads_back(
    attempt: GroupedAttemptView,
    s1: Seq<char>,
    s2: Seq<char>,
    s3: Seq<char>,
    s4: Seq<char>,
    s5: Seq<char>,
    s6: Seq<char>,
)
    requires
        text::is_blank(s1),
        text::is_blank(s2),
        text::is_blank(s3),
        text::is_blank(s4),
        text::is_blank(s5),
        text::is_blank(s6),
        attempt.request_id.len() > 0,
        !attempt.request_id.contains(','),
        !text::is_white_space(attempt.request_id[0]),
        !text::is_white_space(attempt.request_id.last()),
    ensures
        grouped_line_meaning(
            s1 + text::decimal(attempt.timestamp_ms as nat) + s2 + seq![','] + s3
                + attempt.request_id + s4 + seq![','] + s5 + outcome_text(attempt.ok) + s6,
        ) == Ok::<Option<GroupedAttemptView>, Seq<char>>(Some(attempt)),
{
    let digits = text::decimal(attempt.timestamp_ms as nat);
    let id = attempt.request_id;
    let outcome = outcome_text(attempt.ok);
    let first = digits + s2;
    let second = s3 + id + s4;
    let third = s5 + outcome;
    let rest = second + seq![','] + third;
    let core = first + seq![','] + rest;
    lemma_timestamp_reads_back(attempt.timestamp_ms, s2);
    lemma_outcome_reads_back(attempt.ok, s5);
    text::decimal_denotes_its_number(attempt.timestamp_ms as nat);
    assert(core[0] == digits[0]);
    assert(text::is_digit(digits[0]));
    assert(core.last() == outcome.last());
    text::trimming_recovers_padded_text(s1, core, s6);
    assert(s1 + digits + s2 + seq![','] + s3 + id + s4 + seq![','] + s5 + outcome + s6 =~= s1 + core
        + s6);
    text::splitting_undoes_joining(first, rest);
    assert(!second.contains(',')) by {
        if second.contains(',') {
            let i = choose|i: int| 0 <= i < second.len() && second[i] == ',';
            if i < s3.len() {
                assert(second[i] == s3[i]);
            } else if i < s3.len() + id.len() {
                assert(second[i] == id[i - s3.len()]);
                assert(id.contains(','));
            } else {
                assert(second[i] == s4[i - s3.len() - id.len()]);
            }
        }
    }
    text::splitting_undoes_joining(second, third);
    text::trimming_recovers_padded_text(s3, id, s4);
}

proof fn lemma_timestamp_reads_back(timestamp_ms: u64, after: Seq<char>)
    requires
        text::is_blank(after),
    ensures
        !(text::decimal(timestamp_ms as nat) + after).contains(','),
        timestamp_field(text::decimal(timestamp_ms as nat) + after) == Ok::<u64, Seq<char>>(
            timestamp_ms,
        ),
{
    let digits = text::decimal(timestamp_ms as nat);
    let field = digits + after;
    text::decimal_denotes_its_number(timestamp_ms as nat);
    assert(text::is_digit(digits[0]));
    assert(text::is_digit(digits[digits.len() - 1]));
    text::trimming_recovers_padded_text(Seq::empty(), digits, after);
    assert(field =~= Seq::<char>::empty() + digits + after);
    if field.contains(',') {
        let i = choose|i: int| 0 <= i < field.len() && field[i] == ',';
        if i < digits.len() {
            assert(text::is_digit(digits[i]));
        } else {
            assert(field[i] == after[i - digits.len()]);
        }
    }
}

proof fn lemma_outcome_reads_back(ok: bool, before: Seq<char>)
    requires
        text::is_blank(before),
    ensures
        outcome_text(ok).len() > 0,
        !text::is_white_space(outcome_text(ok).last()),
        outcome_field(before + outcome_text(ok)) == Ok::<bool, Seq<char>>(ok),
{
    let outcome = outcome_text(ok);
    reveal_strlit("ok");
    reveal_strlit("err");
    assert("ok"@.len() != "err"@.len());
    text::trimming_recovers_padded_text(before, outcome, Seq::empty());
    assert(before + outcome =~= before + outcome + Seq::<char>::empty());
}

/// A blank line says nothing, in either format.
pub proof fn blank_lines_are_ignored(line: Seq<char>)
    requires
        text::is_blank(line),
    ensures
        line_meaning(line) == Ok::<Option<Attempt>, Seq<char>>(None),
        grouped_line_meaning(line) == Ok::<Option<GroupedAttemptView>, Seq<char>>(None),
{
    text::trimming_recovers_padded_text(line, Seq::empty(), Seq::empty());
    assert(line =~= line + Seq::<char>::empty() + Seq::<char>::empty());
}

/// A line whose first character other than white space is `#` says nothing, in
/// either format.
pub proof fn comments_are_ignored(before: Seq<char>, comment: Seq<char>)
    requires
        text::is_blank(before),
    ensures
        line_meaning(before + seq!['#'] + comment) == Ok::<Option<Attempt>, Seq<char>>(None),
        grouped_line_meaning(before + seq!['#'] + comment) == Ok::<
            Option<GroupedAttemptView>,
            Seq<char>,
        >(None),
{
    text::trimming_keeps_a_visible_start(before, '#', comment);
}

/// White space around a line does not change what it says, in either format.
pub proof fn outer_white_space_is_ignored(before: Seq<char>, line: Seq<char>, after: Seq<char>)
    requires
        text::is_blank(before),
        text::is_blank(after),
    ensures
        line_meaning(before + line + after) == line_meaning(line),
        grouped_line_meaning(before + line + after) == grouped_line_meaning(line),
{
    text::trimming_drops_surrounding_white_space(before, line, after);
}

/// A request id that was read is not empty, holds no comma, and neither begins
/// nor ends with white space.
pub proof fn request_ids_are_clean(line: Seq<char>, attempt: GroupedAttemptView)
    requires
        grouped_line_meaning(line) == Ok::<Option<GroupedAttemptView>, Seq<char>>(Some(attempt)),
    ensures
        attempt.request_id.len() > 0,
        !attempt.request_id.contains(','),
        !text::is_white_space(attempt.request_id[0]),
        !text::is_white_space(attempt.request_id.last()),
{
    let rest = text::split_comma(text::trimmed(line)).unwrap().1;
    text::parts_make_up_the_whole(rest);
    text::trimmed_text_has_no_outer_white_space(text::split_comma(rest).unwrap().0);
}

/// A line says nothing exactly when it is blank or its first visible character is
/// `#`, in either format.
pub proof fn only_blank_lines_and_comments_say_nothing(line: Seq<char>)
    ensures
        ({
            let visible = text::trimmed(line);
            let quiet = visible.len() == 0 || visible[0] == '#';
            &&& line_meaning(line) == Ok::<Option<Attempt>, Seq<char>>(None) <==> quiet
            &&& grouped_line_meaning(line) == Ok::<Option<GroupedAttemptView>, Seq<char>>(None)
                <==> quiet
        }),
{
}

/// A line without a comma that says something is complained about as a whole.
pub proof fn lines_without_fields_are_complained_about(line: Seq<char>)
    requires
        text::trimmed(line).len() > 0,
        text::trimmed(line)[0] != '#',
        !text::trimmed(line).contains(','),
    ensures
        line_meaning(line) == Err::<Option<Attempt>, Seq<char>>(
            "expected 'timestamp_ms,outcome', got '"@ + text::trimmed(line) + "'"@,
        ),
        grouped_line_meaning(line) == Err::<Option<GroupedAttemptView>, Seq<char>>(
            "expected 'timestamp_ms,request_id,outcome', got '"@ + text::trimmed(line) + "'"@,
        ),
{
    text::only_a_comma_splits(text::trimmed(line));
}

/// A line of two fields holds an attempt exactly when the first field is a number
/// of 64 bits, which is then the timestamp, and the second is `ok` or `err`, which
/// is then the outcome. Otherwise the first field that is no good is quoted.
pub proof fn fields_decide_what_a_line_says(
    line: Seq<char>,
    timestamp: Seq<char>,
    outcome: Seq<char>,
    attempt: Attempt,
)
    requires
        text::trimmed(line) == timestamp + seq![','] + outcome,
        text::trimmed(line)[0] != '#',
        !timestamp.contains(','),
    ensures
        ({
            let said = line_meaning(line);
            let number = text::number(text::trimmed(timestamp));
            let word = text::trimmed(outcome);
            let stamped = number is Some && number.unwrap() <= u64::MAX;
            &&& said == Ok::<Option<Attempt>, Seq<char>>(Some(attempt)) <==> number == Some(
                attempt.timestamp_ms as nat,
            ) && (attempt.ok ==> word == "ok"@) && (!attempt.ok ==> word == "err"@)
            &&& !stamped ==> said == Err::<Option<Attempt>, Seq<char>>(
                "bad timestamp '"@ + text::trimmed(timestamp) + "'"@,
            )
            &&& stamped && word != "ok"@ && word != "err"@ ==> said == Err::<
                Option<Attempt>,
                Seq<char>,
            >("bad outcome '"@ + word + "', expected 'ok' or 'err'"@)
        }),
{
    text::splitting_undoes_joining(timestamp, outcome);
    reveal_strlit("ok");
    reveal_strlit("err");
    assert("ok"@.len() != "err"@.len());
}

/// A grouped line of a single comma is complained about as a whole.
pub proof fn grouped_lines_of_two_fields_are_complained_about(
    line: Seq<char>,
    first: Seq<char>,
    second: Seq<char>,
)
    requires
        text::trimmed(line) == first + seq![','] + second,
        text::trimmed(line)[0] != '#',
        !first.contains(','),
        !second.contains(','),
    ensures
        grouped_line_meaning(line) == Err::<Option<GroupedAttemptView>, Seq<char>>(
            "expected 'timestamp_ms,request_id,outcome', got '"@ + text::trimmed(line) + "'"@,
        ),
{
    text::splitting_undoes_joining(first, second);
    text::only_a_comma_splits(second);
}

/// A grouped line of three fields holds an attempt exactly when the first field is
/// a number of 64 bits, the second is not blank and the third is `ok` or `err`; the
/// attempt has them for timestamp, request id and outcome. Otherwise the first
/// field that is no good is complained about.
pub proof fn fields_decide_what_a_grouped_line_says(
    line: Seq<char>,
    timestamp: Seq<char>,
    id_field: Seq<char>,
    outcome: Seq<char>,
    attempt: GroupedAttemptView,
)
    requires
        text::trimmed(line) == timestamp + seq![','] + (id_field + seq![','] + outcome),
        text::trimmed(line)[0] != '#',
        !timestamp.contains(','),
        !id_field.contains(','),
    ensures
        ({
            let said = grouped_line_meaning(line);
            let number = text::number(text::trimmed(timestamp));
            let id = text::trimmed(id_field);
            let word = text::trimmed(outcome);
            let stamped = number is Some && number.unwrap() <= u64::MAX;
            &&& said == Ok::<Option<GroupedAttemptView>, Seq<char>>(Some(attempt)) <==> number
                == Some(attempt.timestamp_ms as nat) && attempt.request_id == id && id.len() > 0 && (
            attempt.ok ==> word == "ok"@) && (!attempt.ok ==> word == "err"@)
            &&& !stamped ==> said == Err::<Option<GroupedAttemptView>, Seq<char>>(
                "bad timestamp '"@ + text::trimmed(timestamp) + "'"@,
            )
            &&& stamped && id.len() == 0 ==> said == Err::<Option<GroupedAttemptView>, Seq<char>>(
                "request id must not be empty"@,
            )
            &&& stamped && id.len() > 0 && word != "ok"@ && word != "err"@ ==> said == Err::<
                Option<GroupedAttemptView>,
                Seq<char>,
            >("bad outcome '"@ + word + "', expected 'ok' or 'err'"@)
        }),
{
    text::splitting_undoes_joining(timestamp, id_field + seq![','] + outcome);
    text::splitting_undoes_joining(id_field, outcome);
    reveal_strlit("ok");
    reveal_strlit("err");
    assert("ok"@.len() != "err"@.len());
}

/// What a grouped attempt shows is what it holds.
pub proof fn grouped_attempts_show_what_they_hold(attempt: GroupedAttempt)
    ensures
        attempt@.timestamp_ms == attempt.timestamp_ms,
        attempt@.request_id == attempt.request_id@,
        attempt@.ok == attempt.ok,
{
}

} // verus!
