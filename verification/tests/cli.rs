use retrycheck::cli::{exit_code, next_value, parse_args, Args, Invocation};
use retrycheck::policy::{Jitter, RetryPolicy};

fn argv(words: &[&str]) -> Vec<String> {
    words.iter().map(|w| String::from(*w)).collect()
}

fn args(words: &[&str]) -> Args {
    match parse_args(&argv(words)) {
        Ok(Invocation::Check(args)) => args,
        Ok(Invocation::Help) => panic!("asked for help"),
        Err(e) => panic!("{}", e),
    }
}

fn complaint(words: &[&str]) -> String {
    match parse_args(&argv(words)) {
        Ok(_) => panic!("accepted"),
        Err(e) => e,
    }
}

fn asks_for_help(words: &[&str]) -> bool {
    matches!(parse_args(&argv(words)), Ok(Invocation::Help))
}

#[test]
fn defaults_are_those_of_the_option_table() {
    let a = args(&[]);
    assert_eq!(
        a.policy,
        RetryPolicy {
            max_attempts: 5,
            base_delay_ms: 100,
            max_delay_ms: 30_000,
            jitter: Jitter::Off,
        }
    );
    assert_eq!(a.multiplier, "2.0");
    assert_eq!(a.multiplier.parse::<f64>(), Ok(2.0));
    assert_eq!(a.input_path, None);
    assert!(!a.grouped);
}

#[test]
fn every_option_is_read() {
    let a = args(&[
        "--max-attempts", "7", "--base-delay-ms", "250", "attempts.log", "--multiplier", "1.5",
        "--max-delay-ms", "9000", "--jitter", "full", "--grouped",
    ]);
    assert_eq!(
        a.policy,
        RetryPolicy { max_attempts: 7, base_delay_ms: 250, max_delay_ms: 9000, jitter: Jitter::Full }
    );
    assert_eq!(a.multiplier, "1.5");
    assert_eq!(a.input_path, Some(String::from("attempts.log")));
    assert!(a.grouped);
}

#[test]
fn later_settings_replace_earlier_ones() {
    let a = args(&["--jitter", "full", "--max-attempts", "7", "--jitter", "none", "--max-attempts", "8"]);
    assert_eq!(a.policy.jitter, Jitter::Off);
    assert_eq!(a.policy.max_attempts, 8);
}

#[test]
fn help_is_given_at_once() {
    assert!(asks_for_help(&["-h"]));
    assert!(asks_for_help(&["--help", "--bogus"]));
    assert!(asks_for_help(&["a.log", "--jitter", "full", "-h"]));
    assert_eq!(complaint(&["--bogus", "-h"]), "unknown option '--bogus'");
    assert_eq!(complaint(&["--max-attempts", "-h"]), "--max-attempts expects an integer");
}

#[test]
fn faults_are_worded_exactly() {
    for option in ["--max-attempts", "--base-delay-ms", "--max-delay-ms"] {
        assert_eq!(complaint(&[option]), format!("{option} expects a value"));
        assert_eq!(complaint(&[option, "x"]), format!("{option} expects an integer"));
        assert_eq!(complaint(&[option, "-1"]), format!("{option} expects an integer"));
        assert_eq!(complaint(&[option, " 1"]), format!("{option} expects an integer"));
    }
    assert_eq!(complaint(&["--multiplier"]), "--multiplier expects a value");
    assert_eq!(complaint(&["--multiplier", "fast", "--bogus"]), "--multiplier expects a number");
    assert_eq!(complaint(&["--jitter"]), "--jitter expects a value");
    assert_eq!(
        complaint(&["--jitter", "some"]),
        "unknown jitter mode 'some', expected 'none' or 'full'"
    );
    assert_eq!(complaint(&["--bogus"]), "unknown option '--bogus'");
    assert_eq!(complaint(&["-"]), "unknown option '-'");
    assert_eq!(complaint(&["a", "b"]), "only one input file may be given");
}

#[test]
fn integers_are_bounded_by_their_width() {
    assert_eq!(args(&["--max-attempts", "4294967295"]).policy.max_attempts, u32::MAX);
    assert_eq!(
        complaint(&["--max-attempts", "4294967296"]),
        "--max-attempts expects an integer"
    );
    assert_eq!(
        args(&["--max-delay-ms", "18446744073709551615"]).policy.max_delay_ms,
        u64::MAX
    );
    assert_eq!(
        complaint(&["--base-delay-ms", "18446744073709551616"]),
        "--base-delay-ms expects an integer"
    );
}

#[test]
fn accepted_multipliers_are_numbers() {
    for text in ["2", "-0.5", "1e3", ".5", "5.", "inf", "NaN"] {
        let a = args(&["--multiplier", text]);
        assert_eq!(a.multiplier, text);
        assert!(a.multiplier.parse::<f64>().is_ok());
    }
}

#[test]
fn values_are_taken_in_turn() {
    let words = argv(&["a", "b"]);
    let mut next = 0;
    assert_eq!(next_value(&words, &mut next, "--x"), Ok(String::from("a")));
    assert_eq!(next_value(&words, &mut next, "--x"), Ok(String::from("b")));
    assert_eq!(next, 2);
    assert_eq!(next_value(&words, &mut next, "--x"), Err(String::from("--x expects a value")));
    assert_eq!(next, 2);
}

#[test]
fn exit_codes_answer_the_outcome() {
    assert_eq!(exit_code(&Ok(0)), 0);
    assert_eq!(exit_code(&Ok(1)), 1);
    assert_eq!(exit_code(&Ok(u64::MAX)), 1);
    assert_eq!(exit_code(&Err(String::from("x"))), 2);
}
