use retrycheck::parse::{parse_grouped_line, parse_line, Attempt};

#[test]
fn parse_line_skips_blank_and_comment_lines() {
    assert!(parse_line("").unwrap().is_none());
    assert!(parse_line("   ").unwrap().is_none());
    assert!(parse_line("# checkout-service, order 88213").unwrap().is_none());
}

#[test]
fn parse_line_reads_a_valid_attempt() {
    let attempt = parse_line("1717000000101,err").unwrap().unwrap();
    assert_eq!(attempt.timestamp_ms, 1717000000101);
    assert!(!attempt.ok);

    let attempt = parse_line("1717000000709,ok").unwrap().unwrap();
    assert!(attempt.ok);
}

#[test]
fn parse_line_rejects_malformed_input() {
    assert!(parse_line("not-a-line").is_err());
    assert!(parse_line("abc,err").is_err());
    assert!(parse_line("1717000000101,maybe").is_err());
}

#[test]
fn parse_grouped_line_reads_a_valid_attempt() {
    let attempt = parse_grouped_line("1717000000101,order-88213,err").unwrap().unwrap();
    assert_eq!(attempt.timestamp_ms, 1717000000101);
    assert_eq!(attempt.request_id, "order-88213");
    assert!(!attempt.ok);
}

#[test]
fn parse_grouped_line_rejects_a_missing_request_id() {
    assert!(parse_grouped_line("1717000000101,,err").is_err());
}

#[test]
fn parse_grouped_line_rejects_a_missing_column() {
    assert!(parse_grouped_line("1717000000101,err").is_err());
}

#[test]
fn plain_complaints_are_worded_exactly() {
    assert_eq!(
        parse_line("  not-a-line ").unwrap_err(),
        "expected 'timestamp_ms,outcome', got 'not-a-line'"
    );
    assert_eq!(parse_line(" abc ,err").unwrap_err(), "bad timestamp 'abc'");
    assert_eq!(parse_line(",ok").unwrap_err(), "bad timestamp ''");
    assert_eq!(
        parse_line("1717000000101, maybe ").unwrap_err(),
        "bad outcome 'maybe', expected 'ok' or 'err'"
    );
    assert_eq!(parse_line("1,").unwrap_err(), "bad outcome '', expected 'ok' or 'err'");
    assert_eq!(parse_line("1,OK").unwrap_err(), "bad outcome 'OK', expected 'ok' or 'err'");
    assert_eq!(parse_line("1,ok,err").unwrap_err(), "bad outcome 'ok,err', expected 'ok' or 'err'");
}

#[test]
fn grouped_complaints_are_worded_exactly() {
    assert_eq!(
        parse_grouped_line("x").unwrap_err(),
        "expected 'timestamp_ms,request_id,outcome', got 'x'"
    );
    assert_eq!(
        parse_grouped_line(" 1,ok ").unwrap_err(),
        "expected 'timestamp_ms,request_id,outcome', got '1,ok'"
    );
    assert_eq!(parse_grouped_line("x, ,maybe").unwrap_err(), "bad timestamp 'x'");
    assert_eq!(parse_grouped_line("1, ,maybe").unwrap_err(), "request id must not be empty");
    assert_eq!(
        parse_grouped_line("1,a,maybe").unwrap_err(),
        "bad outcome 'maybe', expected 'ok' or 'err'"
    );
    assert_eq!(
        parse_grouped_line("1,a,b,ok").unwrap_err(),
        "bad outcome 'b,ok', expected 'ok' or 'err'"
    );
}

#[test]
fn white_space_around_fields_is_ignored() {
    assert_eq!(
        parse_line("\t 42 , ok \u{3000}").unwrap(),
        Some(Attempt { timestamp_ms: 42, ok: true })
    );
    assert_eq!(parse_line(" \u{a0}# note").unwrap(), None);
    let attempt = parse_grouped_line(" 42 ,\u{2003}my id\t, err\r").unwrap().unwrap();
    assert_eq!(attempt.timestamp_ms, 42);
    assert_eq!(attempt.request_id, "my id");
    assert!(!attempt.ok);
    assert!(parse_grouped_line(" # a,b,c").unwrap().is_none());
    assert!(parse_grouped_line("\u{2028}").unwrap().is_none());
}

#[test]
fn timestamps_cover_all_of_sixty_four_bits() {
    assert_eq!(
        parse_line("18446744073709551615,ok").unwrap(),
        Some(Attempt { timestamp_ms: u64::MAX, ok: true })
    );
    assert_eq!(
        parse_line("18446744073709551616,ok").unwrap_err(),
        "bad timestamp '18446744073709551616'"
    );
    assert_eq!(parse_line("+007,ok").unwrap(), Some(Attempt { timestamp_ms: 7, ok: true }));
    assert!(parse_line("-7,ok").is_err());
    assert!(parse_line("+,ok").is_err());
    assert!(parse_line("++7,ok").is_err());
    assert!(parse_line("\u{661},ok").is_err());
}

#[test]
fn written_attempts_read_back() {
    for timestamp_ms in [0, 9, 10, 1717000000101, u64::MAX] {
        for ok in [true, false] {
            let outcome = if ok { "ok" } else { "err" };
            assert_eq!(
                parse_line(&format!(" {timestamp_ms}\t,  {outcome} ")).unwrap(),
                Some(Attempt { timestamp_ms, ok })
            );
            let attempt =
                parse_grouped_line(&format!("{timestamp_ms} , r-1 ,{outcome}")).unwrap().unwrap();
            assert_eq!(attempt.timestamp_ms, timestamp_ms);
            assert_eq!(attempt.request_id, "r-1");
            assert_eq!(attempt.ok, ok);
        }
    }
}
