//! The command line: what it asks for, and what the program answers with.

use crate::check;
use crate::factor;
use crate::grouped;
use crate::policy::{Jitter, RetryPolicy};
use crate::sequence;
use crate::text;
use vstd::prelude::*;
use vstd::string::*;

verus! {

/// What a check was asked for.
pub struct Args {
    pub policy: RetryPolicy,
    /// The growth factor applied per attempt, as it was written.
    pub multiplier: String,
    /// The file to read, or `None` for the standard input.
    pub input_path: Option<String>,
    /// Whether lines carry a request id.
    pub grouped: bool,
}

/// What the command line asks for.
pub enum Invocation {
    /// To print the usage.
    Help,
    /// To check a log.
    Check(Args),
}

/// What a check was asked for, with texts as sequences of characters.
pub struct ArgsView {
    pub policy: RetryPolicy,
    pub multiplier: Seq<char>,
    pub input_path: Option<Seq<char>>,
    pub grouped: bool,
}

/// What the command line asks for, with texts as sequences of characters.
pub enum InvocationView {
    Help,
    Check(ArgsView),
}

impl View for Args {
    type V = ArgsView;

    open spec fn view(&self) -> ArgsView {
        ArgsView {
            policy: self.policy,
            multiplier: self.multiplier@,
            input_path: match self.input_path {
                Some(path) => Some(path@),
                None => None,
            },
            grouped: self.grouped,
        }
    }
}

impl View for Invocation {
    type V = InvocationView;

    open spec fn view(&self) -> InvocationView {
        match self {
            Invocation::Help => InvocationView::Help,
            Invocation::Check(args) => InvocationView::Check(args@),
        }
    }
}

/// What is checked where the command line says nothing.
pub open spec fn defaults() -> ArgsView {
    ArgsView {
        policy: RetryPolicy {
            max_attempts: 5,
            base_delay_ms: 100,
            max_delay_ms: 30_000,
            jitter: Jitter::Off,
        },
        multiplier: "2.0"@,
        input_path: None,
        grouped: false,
    }
}

/// Whether an option is followed by a value.
pub open spec fn takes_value(option: Seq<char>) -> bool {
    ||| option == "--max-attempts"@
    ||| option == "--base-delay-ms"@
    ||| option == "--multiplier"@
    ||| option == "--max-delay-ms"@
    ||| option == "--jitter"@
}

/// `args` with an option that takes a value set to that value, or the complaint
/// about the value.
pub open spec fn with_option(args: ArgsView, option: Seq<char>, value: Seq<char>) -> Result<
    ArgsView,
    Seq<char>,
> {
    if option == "--max-attempts"@ {
        match text::number_up_to(value, u32::MAX as nat) {
            Some(n) => Ok(
                ArgsView {
                    policy: RetryPolicy { max_attempts: n as u32, ..args.policy },
                    ..args
                },
            ),
            None => Err(option + " expects an integer"@),
        }
    } else if option == "--base-delay-ms"@ {
        match text::number_up_to(value, u64::MAX as nat) {
            Some(n) => Ok(
                ArgsView {
                    policy: RetryPolicy { base_delay_ms: n as u64, ..args.policy },
                    ..args
                },
            ),
            None => Err(option + " expects an integer"@),
        }
    } else if option == "--multiplier"@ {
        if factor::is_factor(value) {
            Ok(ArgsView { multiplier: value, ..args })
        } else {
            Err(option + " expects a number"@)
        }
    } else if option == "--max-delay-ms"@ {
        match text::number_up_to(value, u64::MAX as nat) {
            Some(n) => Ok(
                ArgsView {
                    policy: RetryPolicy { max_delay_ms: n as u64, ..args.policy },
                    ..args
                },
            ),
            None => Err(option + " expects an integer"@),
        }
    } else if value == "none"@ {
        Ok(ArgsView { policy: RetryPolicy { jitter: Jitter::Off, ..args.policy }, ..args })
    } else if value == "full"@ {
        Ok(ArgsView { policy: RetryPolicy { jitter: Jitter::Full, ..args.policy }, ..args })
    } else {
        Err("unknown jitter mode '"@ + value + "', expected 'none' or 'full'"@)
    }
}

/// What a command line asks for, read from left to right on top of `args`, or the
/// complaint about its first fault.
pub open spec fn invocation(argv: Seq<Seq<char>>, args: ArgsView) -> Result<
    InvocationView,
    Seq<char>,
>
    decreases argv.len(),
{
    if argv.len() == 0 {
        Ok(InvocationView::Check(args))
    } else {
        let arg = argv[0];
        if arg == "-h"@ || arg == "--help"@ {
            Ok(InvocationView::Help)
        } else if takes_value(arg) {
            if argv.len() < 2 {
                Err(arg + " expects a value"@)
            } else {
                match with_option(args, arg, argv[1]) {
                    Ok(more) => invocation(argv.skip(2), more),
                    Err(complaint) => Err(complaint),
                }
            }
        } else if arg == "--grouped"@ {
            invocation(argv.skip(1), ArgsView { grouped: true, ..args })
        } else if arg.len() > 0 && arg[0] == '-' {
            Err("unknown option '"@ + arg + "'"@)
        } else if args.input_path is Some {
            Err("only one input file may be given"@)
        } else {
            invocation(argv.skip(1), ArgsView { input_path: Some(arg), ..args })
        }
    }
}

/// Appends one text to another.
fn join(before: &str, after: &str) -> (res: String)
    ensures
        res@ == before@ + after@,
{
    let mut res = before.to_owned();
    res.append(after);
    res
}

/// Takes the value that belongs to `flag` from the command line, where `next` is
/// the index of the first argument not yet read.
pub fn next_value(argv: &Vec<String>, next: &mut usize, flag: &str) -> (res: Result<
    String,
    String,
>)
    ensures
        *old(next) < argv.len() ==> {
            &&& *final(next) == *old(next) + 1
            &&& res matches Ok(value) && value@ == argv[*old(next) as int]@
        },
        *old(next) >= argv.len() ==> {
            &&& *final(next) == *old(next)
            &&& res matches Err(e) && e@ == flag@ + " expects a value"@
        },
{
    if *next < argv.len() {
        let value = argv[*next].clone();
        *next = *next + 1;
        Ok(value)
    } else {
        Err(join(flag, " expects a value"))
    }
}

/// Tests whether an option is followed by a value.
fn is_followed_by_value(option: &str) -> (res: bool)
    ensures
        res == takes_value(option@),
{
    text::same(option, "--max-attempts") || text::same(option, "--base-delay-ms") || text::same(
        option,
        "--multiplier",
    ) || text::same(option, "--max-delay-ms") || text::same(option, "--jitter")
}

/// Reads the integer value of an option.
fn integer_value(option: &str, value: &str, limit: u64) -> (res: Result<u64, String>)
    ensures
        match (res, text::number_up_to(value@, limit as nat)) {
            (Ok(n), Some(m)) => n == m,
            (Err(e), None) => e@ == option@ + " expects an integer"@,
            _ => false,
        },
{
    match text::parse_number(value, limit) {
        Some(n) => Ok(n),
        None => Err(join(option, " expects an integer")),
    }
}

impl Args {
    /// What is checked where the command line says nothing.
    pub fn new() -> (res: Self)
        ensures
            res@ == defaults(),
    {
        Args {
            policy: RetryPolicy {
                max_attempts: 5,
                base_delay_ms: 100,
                max_delay_ms: 30_000,
                jitter: Jitter::Off,
            },
            multiplier: "2.0".to_owned(),
            input_path: None,
            grouped: false,
        }
    }

    /// Sets an option that takes a value. A value that is no good for the option
    /// is complained about and changes nothing.
    fn set_option(&mut self, option: &str, value: String) -> (res: Result<(), String>)
        requires
            takes_value(option@),
        ensures
            match (res, with_option(old(self)@, option@, value@)) {
                (Ok(_), Ok(args)) => final(self)@ == args,
                (Err(e), Err(complaint)) => e@ == complaint && *final(self) == *old(self),
                _ => false,
            },
    {
        if text::same(option, "--max-attempts") {
            match integer_value(option, value.as_str(), 0xffff_ffff) {
                Ok(n) => {
                    self.policy.max_attempts = n as u32;
                },
                Err(e) => {
                    return Err(e);
                },
            }
        } else if text::same(option, "--base-delay-ms") {
            match integer_value(option, value.as_str(), u64::MAX) {
                Ok(n) => {
                    self.policy.base_delay_ms = n;
                },
                Err(e) => {
                    return Err(e);
                },
            }
        } else if text::same(option, "--multiplier") {
            if !factor::denotes_factor(value.as_str()) {
                return Err(join(option, " expects a number"));
            }
            self.multiplier = value;
        } else if text::same(option, "--max-delay-ms") {
            match integer_value(option, value.as_str(), u64::MAX) {
                Ok(n) => {
                    self.policy.max_delay_ms = n;
                },
                Err(e) => {
                    return Err(e);
                },
            }
        } else if text::same(value.as_str(), "none") {
            self.policy.jitter = Jitter::Off;
        } else if text::same(value.as_str(), "full") {
            self.policy.jitter = Jitter::Full;
        } else {
            let opening = join("unknown jitter mode '", value.as_str());
            return Err(join(opening.as_str(), "', expected 'none' or 'full'"));
        }
        Ok(())
    }
}

/// Reads a command line, without the name of the program.
pub fn parse_args(argv: &Vec<String>) -> (res: Result<Invocation, String>)
    ensures
        match (res, invocation(argv.deep_view(), defaults())) {
            (Ok(asked), Ok(meaning)) => asked@ == meaning,
            (Err(e), Err(complaint)) => e@ == complaint,
            _ => false,
        },
{
    let ghost all = argv.deep_view();
    let mut args = Args::new();
    let mut next: usize = 0;
    assert(all.skip(0) =~= all);
    while next < argv.len()
        invariant
            next <= argv.len(),
            all == argv.deep_view(),
            invocation(all, defaults()) == invocation(all.skip(next as int), args@),
        decreases argv.len() - next,
    {
        let ghost rest = all.skip(next as int);
        let arg = argv[next].as_str();
        assert(rest[0] == arg@);
        assert(rest.skip(1) =~= all.skip(next + 1));
        next += 1;
        if text::same(arg, "-h") || text::same(arg, "--help") {
            return Ok(Invocation::Help);
        }
        if is_followed_by_value(arg) {
            let value = match next_value(argv, &mut next, arg) {
                Ok(value) => value,
                Err(e) => {
                    return Err(e);
                },
            };
            assert(rest[1] == value@);
            assert(rest.skip(2) =~= all.skip(next as int));
            match args.set_option(arg, value) {
                Ok(_) => {},
                Err(e) => {
                    return Err(e);
                },
            }
        } else if text::same(arg, "--grouped") {
            args.grouped = true;
        } else if text::begins_with(arg, '-') {
            let opening = join("unknown option '", arg);
            return Err(join(opening.as_str(), "'"));
        } else if args.input_path.is_some() {
            return Err("only one input file may be given".to_owned());
        } else {
            args.input_path = Some(arg.to_owned());
        }
    }
    assert(all.skip(next as int) =~= Seq::<Seq<char>>::empty());
    Ok(Invocation::Check(args))
}

/// The number that answers the outcome of a check: 0 where the log matches the
/// policy, 1 where violations were found, 2 where the command line or the log
/// could not be read.
pub open spec fn code(outcome: Result<u64, String>) -> u8 {
    match outcome {
        Ok(violations) => if violations == 0 {
            0
        } else {
            1
        },
        Err(_) => 2,
    }
}

/// The exit code that answers the outcome of a check: 0 where the log matches the
/// policy, 1 where violations were found, 2 where the command line or the log
/// could not be read.
pub fn exit_code(outcome: &Result<u64, String>) -> (res: u8)
    ensures
        res == code(*outcome),
{
    match outcome {
        Ok(violations) => if *violations == 0 {
            0
        } else {
            1
        },
        Err(_) => 2,
    }
}

/// A command line is read from left to right: what its beginning asks for is the
/// starting point of the rest, so a later setting replaces an earlier one, and
/// nothing behind a call for help is looked at.
pub proof fn command_lines_are_read_in_order(
    first: Seq<Seq<char>>,
    second: Seq<Seq<char>>,
    args: ArgsView,
)
    ensures
        invocation(first, args) matches Ok(InvocationView::Check(more)) ==> invocation(
            first + second,
            args,
        ) == invocation(second, more),
        invocation(first, args) matches Ok(InvocationView::Help) ==> invocation(
            first + second,
            args,
        ) == invocation(first, args),
    decreases first.len(),
{
    let whole = first + second;
    if first.len() == 0 {
        assert(whole =~= second);
    } else {
        assert(whole[0] == first[0]);
        assert(whole.skip(1) =~= first.skip(1) + second);
        if first.len() >= 2 {
            assert(whole[1] == first[1]);
            assert(whole.skip(2) =~= first.skip(2) + second);
            match with_option(args, first[0], first[1]) {
                Ok(more) => command_lines_are_read_in_order(first.skip(2), second, more),
                Err(_) => {},
            }
        }
        command_lines_are_read_in_order(
            first.skip(1),
            second,
            ArgsView { grouped: true, ..args },
        );
        command_lines_are_read_in_order(
            first.skip(1),
            second,
            ArgsView { input_path: Some(first[0]), ..args },
        );
    }
}

/// The growth factor of a check that was asked for is one.
pub proof fn multiplier_is_always_a_factor(argv: Seq<Seq<char>>)
    ensures
        invocation(argv, defaults()) matches Ok(InvocationView::Check(args)) ==> factor::is_factor(
            args.multiplier,
        ),
{
    reveal_strlit("2.0");
    let s = "2.0"@;
    assert(s[1] == '.');
    assert(text::all_digits(s.take(1)));
    assert(text::all_digits(s.skip(2)));
    assert(factor::is_mantissa(s));
    lemma_multiplier_stays_a_factor(argv, defaults());
}

proof fn lemma_multiplier_stays_a_factor(argv: Seq<Seq<char>>, args: ArgsView)
    requires
        factor::is_factor(args.multiplier),
    ensures
        invocation(argv, args) matches Ok(InvocationView::Check(more)) ==> factor::is_factor(
            more.multiplier,
        ),
    decreases argv.len(),
{
    if argv.len() > 0 {
        if argv.len() >= 2 {
            match with_option(args, argv[0], argv[1]) {
                Ok(more) => lemma_multiplier_stays_a_factor(argv.skip(2), more),
                Err(_) => {},
            }
        }
        lemma_multiplier_stays_a_factor(argv.skip(1), ArgsView { grouped: true, ..args });
        lemma_multiplier_stays_a_factor(
            argv.skip(1),
            ArgsView { input_path: Some(argv[0]), ..args },
        );
    }
}

/// A check of a plain log is answered with 0 exactly when every line could be read
/// and the attempts follow the policy.
pub proof fn zero_means_policy_followed(
    policy: RetryPolicy,
    growth: Seq<Option<u64>>,
    lines: Seq<Seq<char>>,
    outcome: Result<u64, String>,
)
    requires
        ({
            let end = check::run(policy, growth, lines);
            match outcome {
                Ok(n) => end.complaint is None && n == sequence::total(policy, end.history),
                Err(_) => end.complaint is Some,
            }
        }),
    ensures
        ({
            let end = check::run(policy, growth, lines);
            code(outcome) == 0 <==> end.complaint is None && sequence::follows(policy, end.history)
        }),
{
    sequence::no_violation_means_policy_followed(
        policy,
        check::run(policy, growth, lines).history,
    );
}

/// A check of a grouped log is answered with 0 exactly when every line could be
/// read and the attempts of every request follow the policy.
pub proof fn zero_means_every_request_follows(
    policy: RetryPolicy,
    growth: Seq<Option<u64>>,
    lines: Seq<Seq<char>>,
    outcome: Result<u64, String>,
)
    requires
        ({
            let end = grouped::grouped_run(policy, growth, lines);
            match outcome {
                Ok(n) => end.complaint is None && n == grouped::grouped_total(policy, end.history),
                Err(_) => end.complaint is Some,
            }
        }),
    ensures
        ({
            let end = grouped::grouped_run(policy, growth, lines);
            code(outcome) == 0 <==> end.complaint is None && forall|id: Seq<char>|
                sequence::follows(policy, #[trigger] grouped::of_request(end.history, id))
        }),
{
    grouped::no_violation_means_every_request_follows(
        policy,
        grouped::grouped_run(policy, growth, lines).history,
    );
}

} // verus!
