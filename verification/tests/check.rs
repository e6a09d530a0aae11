use retrycheck::cli::exit_code;
use retrycheck::check::{check, read_attempt, Check, Report};
use retrycheck::grouped::{check_grouped, read_grouped_attempt, GroupedCheck};
use retrycheck::policy::{growth_exponent, Jitter, RetryPolicy};

fn policy() -> RetryPolicy {
    RetryPolicy { max_attempts: 5, base_delay_ms: 100, max_delay_ms: 30_000, jitter: Jitter::Off }
}

/// The base delay multiplied by 2.0 for every attempt after the second.
fn grown(p: &RetryPolicy, attempt: u32) -> Option<u64> {
    grown_by(p, 2.0, attempt)
}

fn grown_by(p: &RetryPolicy, multiplier: f64, attempt: u32) -> Option<u64> {
    let product = p.base_delay_ms as f64 * multiplier.powi(growth_exponent(attempt));
    let product_ms = if product.is_finite() { Some(product.max(0.0) as u64) } else { None };
    p.grown_ms(product_ms, multiplier.is_finite())
}

fn lines_of(input: &str) -> Vec<String> {
    input.lines().map(String::from).collect()
}

fn growth_for(lines: &[String], p: &RetryPolicy) -> Vec<Option<u64>> {
    (1..=lines.len() as u32).map(|attempt| grown(p, attempt)).collect()
}

fn report(input: &str, p: &RetryPolicy) -> Report {
    let lines = lines_of(input);
    check(*p, &growth_for(&lines, p), &lines)
}

fn report_grouped(input: &str, p: &RetryPolicy) -> Report {
    let lines = lines_of(input);
    check_grouped(*p, &growth_for(&lines, p), &lines)
}

fn check_str(input: &str, p: &RetryPolicy) -> u64 {
    report(input, p).violations.expect("check should not error on valid input")
}

fn check_grouped_str(input: &str, p: &RetryPolicy) -> u64 {
    report_grouped(input, p)
        .violations
        .expect("check_grouped should not error on valid input")
}

#[test]
fn check_reports_no_violations_for_a_compliant_log() {
    let log = "1717000000000,err\n1717000000101,err\n1717000000305,err\n1717000000709,ok\n";
    assert_eq!(check_str(log, &policy()), 0);
}

#[test]
fn check_flags_a_gap_that_is_too_short_or_too_long() {
    let log = "1717000000000,err\n1717000000050,err\n1717000000900,ok\n";
    assert_eq!(check_str(log, &policy()), 2);
}

#[test]
fn check_flags_attempts_past_max_attempts() {
    let mut p = policy();
    p.max_attempts = 2;
    let log = "1717000000000,err\n1717000000100,err\n1717000000300,ok\n";
    assert_eq!(check_str(log, &p), 1);
}

#[test]
fn check_flags_an_attempt_after_success() {
    let log = "1717000000000,err\n1717000000100,ok\n1717000000300,err\n";
    assert_eq!(check_str(log, &policy()), 1);
}

#[test]
fn check_flags_out_of_order_timestamps() {
    let log = "1717000000100,err\n1717000000000,err\n";
    assert_eq!(check_str(log, &policy()), 1);
}

#[test]
fn check_ignores_blank_lines_and_comments() {
    let log = "# order 88213\n1717000000000,err\n\n1717000000101,err\n";
    assert_eq!(check_str(log, &policy()), 0);
}

#[test]
fn check_returns_zero_violations_for_empty_input() {
    assert_eq!(check_str("", &policy()), 0);
}

#[test]
fn check_grouped_tracks_interleaved_requests_independently() {
    let log = "\
1717000000000,a,err\n\
1717000000000,b,err\n\
1717000000101,a,err\n\
1717000000101,b,err\n\
1717000000305,a,ok\n\
1717000000305,b,ok\n";
    assert_eq!(check_grouped_str(log, &policy()), 0);
}

#[test]
fn check_grouped_flags_a_violation_in_only_the_request_that_has_it() {
    let log = "\
1717000000000,a,err\n\
1717000000050,a,err\n\
1717000000000,b,err\n\
1717000000101,b,err\n";
    assert_eq!(check_grouped_str(log, &policy()), 1);
}

#[test]
fn check_grouped_counts_attempts_per_request_not_globally() {
    let mut p = policy();
    p.max_attempts = 1;
    let log = "1717000000000,a,err\n1717000000000,b,err\n1717000000101,a,err\n";
    assert_eq!(check_grouped_str(log, &p), 1);
}

#[test]
fn check_grouped_returns_zero_violations_for_empty_input() {
    assert_eq!(check_grouped_str("", &policy()), 0);
}

#[test]
fn compliant_log_is_summed_up() {
    let log = "# checkout-service, order 88213\n1717000000000,err\n1717000000101,err\n\
               1717000000305,err\n1717000000709,ok\n";
    assert_eq!(report(log, &policy()).lines, vec!["4 attempts, 709ms elapsed, 0 violation(s)"]);
}

#[test]
fn departing_log_is_reported_line_by_line() {
    let log = "1717000000000,err\n1717000000050,err\n1717000000900,ok\n";
    assert_eq!(
        report(log, &policy()).lines,
        vec![
            "line 2: attempt 2 waited 50ms, policy expected ~100ms",
            "line 3: attempt 3 waited 850ms, policy expected ~200ms",
            "3 attempts, 900ms elapsed, 2 violation(s)",
        ]
    );
}

#[test]
fn every_kind_of_violation_is_worded() {
    let mut p = policy();
    p.max_attempts = 1;
    let log = "500,ok\n\n#\n400,ok\n400,err\n";
    assert_eq!(
        report(log, &p).lines,
        vec![
            "line 4: attempt 2 fired after attempt 1 already succeeded",
            "line 4: attempt 2 exceeds the policy's max of 1",
            "line 4: timestamp 400 is before the previous attempt's 500",
            "line 5: attempt 3 fired after attempt 2 already succeeded",
            "line 5: attempt 3 exceeds the policy's max of 1",
            "line 5: attempt 3 waited 0ms, policy expected ~200ms",
            "3 attempts, 0ms elapsed, 6 violation(s)",
        ]
    );
    assert_eq!(report(log, &p).violations, Ok(6));
}

#[test]
fn empty_logs_are_summed_up() {
    assert_eq!(report("", &policy()).lines, vec!["no attempts found in input"]);
    assert_eq!(report_grouped("# x\n\n", &policy()).lines, vec!["no attempts found in input"]);
}

#[test]
fn reading_ends_at_the_first_malformed_line() {
    let log = "0,err\n1,err\nboom\n2,err\n";
    let plain = report(log, &policy());
    assert_eq!(plain.lines, vec!["line 2: attempt 2 waited 1ms, policy expected ~100ms"]);
    assert_eq!(
        plain.violations,
        Err(String::from("line 3: expected 'timestamp_ms,outcome', got 'boom'"))
    );
    let grouped = report_grouped("0,a,err\n1,a,err\n2,,ok\n3,a,ok\n", &policy());
    assert_eq!(grouped.lines, vec!["line 2: [a] attempt 2 waited 1ms, policy expected ~100ms"]);
    assert_eq!(grouped.violations, Err(String::from("line 3: request id must not be empty")));
}

#[test]
fn grouped_log_is_reported_by_request() {
    let mut p = policy();
    p.max_attempts = 1;
    let log = "500,b,ok\n10,a,err\n400,b,err\n110,a,ok\n400,b,ok\n";
    assert_eq!(
        report_grouped(log, &p).lines,
        vec![
            "line 3: [b] attempt 2 fired after attempt 1 already succeeded",
            "line 3: [b] attempt 2 exceeds the policy's max of 1",
            "line 3: [b] timestamp 400 is before the previous attempt's 500",
            "line 4: [a] attempt 2 exceeds the policy's max of 1",
            "line 5: [b] attempt 3 fired after attempt 1 already succeeded",
            "line 5: [b] attempt 3 exceeds the policy's max of 1",
            "line 5: [b] attempt 3 waited 0ms, policy expected ~200ms",
            "b: 3 attempts, 0ms elapsed, 6 violation(s)",
            "a: 2 attempts, 100ms elapsed, 1 violation(s)",
            "5 attempts across 2 request(s), 7 violation(s)",
        ]
    );
    assert_eq!(report_grouped(log, &p).violations, Ok(7));
}

#[test]
fn full_jitter_accepts_early_attempts() {
    let mut p = policy();
    p.jitter = Jitter::Full;
    assert_eq!(check_str("0,err\n0,err\n150,err\n", &p), 0);
    assert_eq!(check_str("0,err\n101,err\n", &p), 1);
}

#[test]
fn delay_stops_growing_at_the_cap() {
    let mut p = policy();
    p.max_delay_ms = 150;
    assert_eq!(check_str("0,err\n100,err\n250,err\n400,ok\n", &p), 0);
    assert_eq!(
        report("0,err\n100,err\n300,err\n", &p).lines[0],
        "line 3: attempt 3 waited 200ms, policy expected ~150ms"
    );
}

#[test]
fn extreme_gaps_are_judged() {
    let log = format!("0,err\n{},err\n", u64::MAX);
    assert_eq!(
        report(&log, &policy()).lines[0],
        "line 2: attempt 2 waited 18446744073709551615ms, policy expected ~100ms"
    );
}

#[test]
fn quiet_lines_only_shift_line_numbers() {
    let dense = "0,err\n1,err\n";
    let sparse = "# a\n0,err\n   \n# b\n1,err\n\n";
    assert_eq!(report(dense, &policy()).violations, report(sparse, &policy()).violations);
    assert_eq!(
        report(sparse, &policy()).lines,
        vec![
            "line 5: attempt 2 waited 1ms, policy expected ~100ms",
            "2 attempts, 1ms elapsed, 1 violation(s)",
        ]
    );
}

#[test]
fn a_request_fares_alone_as_it_does_among_others() {
    let together = "0,a,err\n7,b,err\n50,a,err\n107,b,ok\n250,a,ok\n";
    let alone = "0,a,err\n50,a,err\n250,a,ok\n";
    let plain = "0,err\n50,err\n250,ok\n";
    assert_eq!(check_grouped_str(together, &policy()), 1);
    assert_eq!(check_grouped_str(alone, &policy()), 1);
    assert_eq!(check_str(plain, &policy()), 1);
    assert!(report_grouped(together, &policy())
        .lines
        .contains(&String::from("a: 3 attempts, 250ms elapsed, 1 violation(s)")));
}

#[test]
fn beginnings_of_a_compliant_log_comply() {
    let lines = lines_of("0,err\n100,err\n300,err\n700,err\n1500,ok\n");
    let p = policy();
    let growth = growth_for(&lines, &p);
    for n in 0..=lines.len() {
        assert_eq!(check(p, &growth, &lines[..n].to_vec()).violations, Ok(0));
    }
}

#[test]
fn line_by_line_gives_what_the_whole_log_gives() {
    let p = policy();
    let input = "0,err\n# x\n50,ok\n250,err\n";
    let mut state = Check::new(p);
    let mut printed = Vec::new();
    for (i, line) in input.lines().enumerate() {
        if let Some(attempt) = read_attempt(i, line).unwrap() {
            assert!(state.has_room());
            let grown_ms = grown(&p, state.next_attempt());
            printed.extend(state.record(i, attempt, grown_ms));
        }
    }
    printed.push(state.summary());
    assert_eq!(printed, report(input, &p).lines);
    assert_eq!(Ok(state.violations()), report(input, &p).violations);
}

#[test]
fn grouped_line_by_line_gives_what_the_whole_log_gives() {
    let p = policy();
    let input = "0,a,err\n0,b,ok\n50,a,ok\n\n9,b,err\n";
    let mut state = GroupedCheck::new(p);
    let mut printed = Vec::new();
    let mut numbers = Vec::new();
    for (i, line) in input.lines().enumerate() {
        if let Some(attempt) = read_grouped_attempt(i, line).unwrap() {
            assert!(state.has_room());
            let number = state.next_attempt(&attempt.request_id);
            numbers.push(number);
            printed.extend(state.record(i, attempt, grown(&p, number)));
        }
    }
    printed.extend(state.summary());
    assert_eq!(numbers, vec![1, 1, 2, 2]);
    assert_eq!(printed, report_grouped(input, &p).lines);
    assert_eq!(Ok(state.violations()), report_grouped(input, &p).violations);
}

#[test]
fn exit_code_is_zero_only_for_logs_that_follow() {
    let p = policy();
    assert_eq!(exit_code(&report("0,err\n100,ok\n", &p).violations), 0);
    assert_eq!(exit_code(&report("0,err\n300,ok\n", &p).violations), 1);
    assert_eq!(exit_code(&report("0,err\n100\n", &p).violations), 2);
    assert_eq!(exit_code(&report_grouped("0,a,err\n0,b,ok\n100,a,ok\n", &p).violations), 0);
    assert_eq!(exit_code(&report_grouped("0,a,err\n0,b,ok\n100,b,ok\n", &p).violations), 1);
    assert_eq!(exit_code(&report_grouped("0,a\n", &p).violations), 2);
}

#[test]
fn grouped_quiet_lines_only_shift_line_numbers() {
    let dense = report_grouped("0,a,err\n1,a,err\n", &policy());
    let sparse = report_grouped("\n0,a,err\n# a,b,ok\n1,a,err\n", &policy());
    assert_eq!(dense.violations, sparse.violations);
    assert_eq!(dense.lines[0], "line 2: [a] attempt 2 waited 1ms, policy expected ~100ms");
    assert_eq!(sparse.lines[0], "line 4: [a] attempt 2 waited 1ms, policy expected ~100ms");
    assert_eq!(dense.lines[1..], sparse.lines[1..]);
}

#[test]
fn requests_are_listed_once_in_order_of_first_attempt_and_add_up() {
    let log = "0,c,err\n0,a,err\n100,c,ok\n0,b,ok\n100,a,err\n300,a,ok\n";
    assert_eq!(
        report_grouped(log, &policy()).lines,
        vec![
            "c: 2 attempts, 100ms elapsed, 0 violation(s)",
            "a: 3 attempts, 300ms elapsed, 0 violation(s)",
            "b: 1 attempts, 0ms elapsed, 0 violation(s)",
            "6 attempts across 3 request(s), 0 violation(s)",
        ]
    );
}

#[test]
fn every_violation_is_printed_once() {
    let mut p = policy();
    p.max_attempts = 2;
    let log = "9,ok\n5,err\n5,ok\n400,err\n";
    let plain = report(log, &p);
    assert_eq!(plain.violations, Ok(plain.lines.len() as u64 - 1));
    let grouped = report_grouped("9,a,ok\n5,a,err\n5,b,ok\n6,b,ok\n400,a,err\n", &p);
    assert_eq!(grouped.violations, Ok(grouped.lines.len() as u64 - 3));
}

#[test]
fn violations_only_accumulate_with_the_log() {
    let lines = lines_of("9,ok\n5,err\n5,ok\n105,err\n400,err\n7,err\n");
    let p = policy();
    let growth = growth_for(&lines, &p);
    let mut latest = 0;
    for n in 0..=lines.len() {
        let violations = check(p, &growth, &lines[..n].to_vec()).violations.unwrap();
        assert!(latest <= violations && violations <= 3 * n as u64);
        latest = violations;
    }
}

#[test]
fn growth_is_needed_only_for_attempts_that_are_walked() {
    let p = policy();
    let growth = vec![None, None];
    let interleaved = lines_of("0,a,err\n0,b,err\n0,c,err\n100,a,ok\n100,b,ok\n100,c,ok\n");
    assert_eq!(check_grouped(p, &growth, &interleaved).violations, Ok(0));
    let cut = lines_of("0,err\n100,err\nboom\n300,err\n700,ok\n");
    assert_eq!(
        check(p, &growth, &cut).violations,
        Err(String::from("line 3: expected 'timestamp_ms,outcome', got 'boom'"))
    );
    let cut = lines_of("0,a,err\n100,a,err\n200,,err\n300,a,err\n");
    assert_eq!(
        check_grouped(p, &growth, &cut).violations,
        Err(String::from("line 3: request id must not be empty"))
    );
}
