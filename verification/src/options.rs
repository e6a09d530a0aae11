//! What a command line comes to, told by the items it is written from.

use crate::cli;
use crate::cli::{Args, ArgsView, Invocation, InvocationView};
use crate::factor;
use crate::policy::Jitter;
use crate::text;
use vstd::prelude::*;

verus! {

/// Something that a command line may hold.
pub enum Item {
    MaxAttempts(Seq<char>),
    BaseDelay(Seq<char>),
    Multiplier(Seq<char>),
    MaxDelay(Seq<char>),
    Jitter(Seq<char>),
    Grouped,
    File(Seq<char>),
}

/// The words that an item is written with.
pub open spec fn words(item: Item) -> Seq<Seq<char>> {
    match item {
        Item::MaxAttempts(value) => seq!["--max-attempts"@, value],
        Item::BaseDelay(value) => seq!["--base-delay-ms"@, value],
        Item::Multiplier(value) => seq!["--multiplier"@, value],
        Item::MaxDelay(value) => seq!["--max-delay-ms"@, value],
        Item::Jitter(value) => seq!["--jitter"@, value],
        Item::Grouped => seq!["--grouped"@],
        Item::File(path) => seq![path],
    }
}

/// The words that several items are written with.
pub open spec fn written(items: Seq<Item>) -> Seq<Seq<char>>
    decreases items.len(),
{
    if items.len() == 0 {
        seq![]
    } else {
        written(items.drop_last()) + words(items.last())
    }
}

/// Whether a text is a number of at most `limit`.
pub open spec fn is_integer(value: Seq<char>, limit: int) -> bool {
    text::number(value) is Some && text::number(value).unwrap() <= limit
}

/// Whether an item's value is of use to it.
pub open spec fn is_good(item: Item) -> bool {
    match item {
        Item::MaxAttempts(value) => is_integer(value, u32::MAX as int),
        Item::BaseDelay(value) => is_integer(value, u64::MAX as int),
        Item::Multiplier(value) => factor::is_factor(value),
        Item::MaxDelay(value) => is_integer(value, u64::MAX as int),
        Item::Jitter(value) => value == "none"@ || value == "full"@,
        Item::Grouped => true,
        Item::File(path) => path.len() == 0 || path[0] != '-',
    }
}

/// Whether all items are good, with one file among them at most.
pub open spec fn are_good(items: Seq<Item>) -> bool {
    &&& forall|i: int| 0 <= i < items.len() ==> is_good(#[trigger] items[i])
    &&& forall|i: int, j: int|
        0 <= i < j < items.len() ==> !((#[trigger] items[i]) is File && (
        #[trigger] items[j]) is File)
}

/// What kind of item it is.
pub open spec fn kind(item: Item) -> int {
    match item {
        Item::MaxAttempts(_) => 0,
        Item::BaseDelay(_) => 1,
        Item::Multiplier(_) => 2,
        Item::MaxDelay(_) => 3,
        Item::Jitter(_) => 4,
        Item::Grouped => 5,
        Item::File(_) => 6,
    }
}

/// Whether no item of the kind `k` is among those from the index `from` on.
pub open spec fn none_from(items: Seq<Item>, from: int, k: int) -> bool {
    forall|i: int| from <= i < items.len() ==> kind(#[trigger] items[i]) != k
}

/// Whether an item holds in what was asked for.
pub open spec fn holds(item: Item, args: ArgsView) -> bool {
    match item {
        Item::MaxAttempts(value) => text::number(value) == Some(args.policy.max_attempts as nat),
        Item::BaseDelay(value) => text::number(value) == Some(args.policy.base_delay_ms as nat),
        Item::Multiplier(value) => args.multiplier == value,
        Item::MaxDelay(value) => text::number(value) == Some(args.policy.max_delay_ms as nat),
        Item::Jitter(value) => if value == "full"@ {
            args.policy.jitter == Jitter::Full
        } else {
            args.policy.jitter == Jitter::Off
        },
        Item::Grouped => args.grouped,
        Item::File(path) => args.input_path == Some(path),
    }
}

/// Whether every item holds that no later one of its kind replaces, and what no
/// item speaks of is as it is by default.
pub open spec fn all_hold(items: Seq<Item>, args: ArgsView) -> bool {
    &&& forall|i: int|
        0 <= i < items.len() && none_from(items, i + 1, kind(items[i])) ==> holds(
            #[trigger] items[i],
            args,
        )
    &&& none_from(items, 0, 0) ==> args.policy.max_attempts == 5
    &&& none_from(items, 0, 1) ==> args.policy.base_delay_ms == 100
    &&& none_from(items, 0, 2) ==> args.multiplier == "2.0"@
    &&& none_from(items, 0, 3) ==> args.policy.max_delay_ms == 30_000
    &&& none_from(items, 0, 4) ==> args.policy.jitter == Jitter::Off
    &&& none_from(items, 0, 5) <==> !args.grouped
    &&& none_from(items, 0, 6) <==> args.input_path is None
}

/// No two options are spelled alike, and all begin with a dash.
proof fn lemma_options_differ()
    ensures
        "-h"@.len() == 2,
        "--help"@.len() == 6,
        "--max-attempts"@.len() == 14,
        "--base-delay-ms"@.len() == 15,
        "--multiplier"@.len() == 12,
        "--max-delay-ms"@.len() == 14,
        "--jitter"@.len() == 8,
        "--grouped"@.len() == 9,
        "--max-attempts"@[6] != "--max-delay-ms"@[6],
        "-h"@[0] == '-',
        "--help"@[0] == '-',
        "--max-attempts"@[0] == '-',
        "--base-delay-ms"@[0] == '-',
        "--multiplier"@[0] == '-',
        "--max-delay-ms"@[0] == '-',
        "--jitter"@[0] == '-',
        "--grouped"@[0] == '-',
        "none"@ != "full"@,
{
    reveal_strlit("-h");
    reveal_strlit("--help");
    reveal_strlit("--max-attempts");
    reveal_strlit("--base-delay-ms");
    reveal_strlit("--multiplier");
    reveal_strlit("--max-delay-ms");
    reveal_strlit("--jitter");
    reveal_strlit("--grouped");
    reveal_strlit("none");
    reveal_strlit("full");
    assert("none"@[0] != "full"@[0]);
}

/// One more item is taken in and changes what it speaks of, nothing else.
proof fn lemma_one_item(item: Item, args: ArgsView) -> (more: ArgsView)
    requires
        is_good(item),
        item is File ==> args.input_path is None,
    ensures
        cli::invocation(words(item), args) == Ok::<InvocationView, Seq<char>>(
            InvocationView::Check(more),
        ),
        holds(item, more),
        kind(item) != 0 ==> more.policy.max_attempts == args.policy.max_attempts,
        kind(item) != 1 ==> more.policy.base_delay_ms == args.policy.base_delay_ms,
        kind(item) != 2 ==> more.multiplier == args.multiplier,
        kind(item) != 3 ==> more.policy.max_delay_ms == args.policy.max_delay_ms,
        kind(item) != 4 ==> more.policy.jitter == args.policy.jitter,
        kind(item) != 5 ==> more.grouped == args.grouped,
        kind(item) != 6 ==> more.input_path == args.input_path,
{
    lemma_options_differ();
    let argv = words(item);
    let none = Seq::<Seq<char>>::empty();
    let more = match item {
        Item::Grouped => ArgsView { grouped: true, ..args },
        Item::File(path) => ArgsView { input_path: Some(path), ..args },
        _ => cli::with_option(args, argv[0], argv[1])->Ok_0,
    };
    assert(argv.skip(argv.len() as int) =~= none);
    assert(cli::invocation(none, more) == Ok::<InvocationView, Seq<char>>(
        InvocationView::Check(more),
    ));
    more
}

/// A command line written from good items is accepted. In whatever order they come,
/// every item holds in the end that no later one of its kind replaces, and what no
/// item speaks of is as it is by default. In particular lines are grouped exactly
/// when that was asked for, wherever the file is named.
pub proof fn every_item_holds_in_the_end(items: Seq<Item>) -> (args: ArgsView)
    requires
        are_good(items),
    ensures
        cli::invocation(written(items), cli::defaults()) == Ok::<InvocationView, Seq<char>>(
            InvocationView::Check(args),
        ),
        all_hold(items, args),
    decreases items.len(),
{
    if items.len() == 0 {
        cli::defaults()
    } else {
        let before = items.drop_last();
        let last = items.last();
        assert(items[items.len() - 1] == last);
        assert(are_good(before)) by {
            assert forall|i: int| 0 <= i < before.len() implies is_good(#[trigger] before[i]) by {
                assert(before[i] == items[i]);
            }
            assert forall|i: int, j: int| 0 <= i < j < before.len() implies !((
            #[trigger] before[i]) is File && (#[trigger] before[j]) is File) by {
                assert(before[i] == items[i] && before[j] == items[j]);
            }
        }
        let args = every_item_holds_in_the_end(before);
        if last is File {
            assert forall|i: int| 0 <= i < before.len() implies kind(#[trigger] before[i]) != 6 by {
                assert(before[i] == items[i]);
            }
            assert(none_from(before, 0, 6));
        }
        let more = lemma_one_item(last, args);
        cli::command_lines_are_read_in_order(written(before), words(last), cli::defaults());
        assert forall|k: int|
            #![trigger none_from(items, 0, k)]
            none_from(items, 0, k) == (none_from(before, 0, k) && kind(last) != k) by {
            if none_from(items, 0, k) {
                assert forall|i: int| 0 <= i < before.len() implies kind(#[trigger] before[i])
                    != k by {
                    assert(before[i] == items[i]);
                }
            }
            if none_from(before, 0, k) && kind(last) != k {
                assert forall|i: int| 0 <= i < items.len() implies kind(#[trigger] items[i])
                    != k by {
                    if i < before.len() {
                        assert(before[i] == items[i]);
                    }
                }
            }
        }
        assert forall|i: int|
            0 <= i < items.len() && none_from(items, i + 1, kind(items[i])) implies holds(
            #[trigger] items[i],
            more,
        ) by {
            if i < before.len() {
                let k = kind(items[i]);
                assert(before[i] == items[i]);
                assert(kind(last) != k);
                assert forall|j: int| i + 1 <= j < before.len() implies kind(#[trigger] before[j])
                    != k by {
                    assert(before[j] == items[j]);
                }
                assert(none_from(before, i + 1, k));
                assert(holds(before[i], args));
            }
        }
        more
    }
}

/// Whatever is accepted as a check was written from good items.
pub proof fn checks_are_written_from_good_items(argv: Seq<Seq<char>>, args: ArgsView) -> (items:
    Seq<Item>)
    requires
        cli::invocation(argv, cli::defaults()) == Ok::<InvocationView, Seq<char>>(
            InvocationView::Check(args),
        ),
    ensures
        are_good(items),
        written(items) == argv,
{
    lemma_written_from_good_items(argv, cli::defaults())
}

/// The words of several items are those of the first and those of the others.
proof fn lemma_written_first(first: Item, others: Seq<Item>)
    ensures
        written(seq![first] + others) == words(first) + written(others),
    decreases others.len(),
{
    let items = seq![first] + others;
    if others.len() == 0 {
        assert(items.drop_last() =~= Seq::<Item>::empty());
        assert(items.last() == first);
        assert(written(items.drop_last()) =~= Seq::<Seq<char>>::empty());
        assert(written(others) =~= Seq::<Seq<char>>::empty());
        assert(written(items) =~= words(first) + written(others));
    } else {
        lemma_written_first(first, others.drop_last());
        assert(items.drop_last() =~= seq![first] + others.drop_last());
        assert(items.last() == others.last());
        assert(written(items) =~= words(first) + written(others));
    }
}

proof fn lemma_written_from_good_items(argv: Seq<Seq<char>>, args: ArgsView) -> (items: Seq<Item>)
    requires
        cli::invocation(argv, args) matches Ok(InvocationView::Check(_)),
    ensures
        are_good(items),
        written(items) == argv,
        args.input_path is Some ==> none_from(items, 0, 6),
    decreases argv.len(),
{
    lemma_options_differ();
    if argv.len() == 0 {
        assert(written(Seq::<Item>::empty()) =~= argv);
        Seq::empty()
    } else {
        let arg = argv[0];
        let first = if cli::takes_value(arg) {
            let value = argv[1];
            if arg == "--max-attempts"@ {
                Item::MaxAttempts(value)
            } else if arg == "--base-delay-ms"@ {
                Item::BaseDelay(value)
            } else if arg == "--multiplier"@ {
                Item::Multiplier(value)
            } else if arg == "--max-delay-ms"@ {
                Item::MaxDelay(value)
            } else {
                Item::Jitter(value)
            }
        } else if arg == "--grouped"@ {
            Item::Grouped
        } else {
            Item::File(arg)
        };
        let more = if cli::takes_value(arg) {
            cli::with_option(args, arg, argv[1])->Ok_0
        } else if arg == "--grouped"@ {
            ArgsView { grouped: true, ..args }
        } else {
            ArgsView { input_path: Some(arg), ..args }
        };
        let n = words(first).len() as int;
        let others = lemma_written_from_good_items(argv.skip(n), more);
        let items = seq![first] + others;
        lemma_written_first(first, others);
        assert(words(first) =~= argv.take(n));
        assert(argv =~= argv.take(n) + argv.skip(n));
        assert(is_good(first));
        assert forall|i: int| 0 <= i < items.len() implies is_good(#[trigger] items[i]) by {
            if i > 0 {
                assert(items[i] == others[i - 1]);
            }
        }
        assert forall|i: int, j: int| 0 <= i < j < items.len() implies !((
        #[trigger] items[i]) is File && (#[trigger] items[j]) is File) by {
            assert(items[j] == others[j - 1]);
            if i > 0 {
                assert(items[i] == others[i - 1]);
            } else if first is File {
                assert(none_from(others, 0, 6));
                assert(kind(others[j - 1]) != 6);
            }
        }
        if args.input_path is Some {
            assert forall|i: int| 0 <= i < items.len() implies kind(#[trigger] items[i]) != 6 by {
                if i > 0 {
                    assert(items[i] == others[i - 1]);
                }
            }
        }
        items
    }
}

/// The first fault of a command line is complained about, and a call for help is
/// heard, whatever comes behind. What stands before it is good and says `args`.
pub proof fn first_faults_are_complained_about(
    before: Seq<Seq<char>>,
    args: ArgsView,
    rest: Seq<Seq<char>>,
)
    requires
        cli::invocation(before, cli::defaults()) == Ok::<InvocationView, Seq<char>>(
            InvocationView::Check(args),
        ),
        rest.len() > 0,
    ensures
        ({
            let said = cli::invocation(before + rest, cli::defaults());
            let word = rest[0];
            let value = rest[1];
            let alone = rest.len() == 1;
            let attempts = word == "--max-attempts"@;
            let delay = word == "--base-delay-ms"@ || word == "--max-delay-ms"@;
            let factor = word == "--multiplier"@;
            let jitter = word == "--jitter"@;
            let help = word == "-h"@ || word == "--help"@;
            let valued = attempts || delay || factor || jitter;
            let dashed = word.len() > 0 && word[0] == '-';
            let fault = |text: Seq<char>| said == Err::<InvocationView, Seq<char>>(text);
            &&& help ==> said == Ok::<InvocationView, Seq<char>>(InvocationView::Help)
            &&& valued && alone ==> fault(word + " expects a value"@)
            &&& attempts && !alone && !is_integer(value, u32::MAX as int) ==> fault(
                word + " expects an integer"@,
            )
            &&& delay && !alone && !is_integer(value, u64::MAX as int) ==> fault(
                word + " expects an integer"@,
            )
            &&& factor && !alone && !factor::is_factor(value) ==> fault(
                word + " expects a number"@,
            )
            &&& jitter && !alone && value != "none"@ && value != "full"@ ==> fault(
                "unknown jitter mode '"@ + value + "', expected 'none' or 'full'"@,
            )
            &&& dashed && !help && !valued && word != "--grouped"@ ==> fault(
                "unknown option '"@ + word + "'"@,
            )
            &&& !dashed && args.input_path is Some ==> fault("only one input file may be given"@)
        }),
{
    lemma_options_differ();
    cli::command_lines_are_read_in_order(before, rest, cli::defaults());
}

/// What the arguments show is what they hold.
pub proof fn arguments_show_what_they_hold(args: Args)
    ensures
        args@.policy == args.policy,
        args@.multiplier == args.multiplier@,
        args.input_path is None ==> args@.input_path is None,
        args.input_path matches Some(path) ==> args@.input_path == Some(path@),
        args@.grouped == args.grouped,
        Invocation::Check(args)@ == InvocationView::Check(args@),
        Invocation::Help@ == InvocationView::Help,
{
}

/// The exit code tells apart a log that matches, one with violations, and what
/// could not be read.
pub proof fn exit_codes_tell_outcomes_apart(outcome: Result<u64, String>)
    ensures
        outcome == Ok::<u64, String>(0) <==> cli::code(outcome) == 0,
        (outcome matches Ok(n) && n > 0) <==> cli::code(outcome) == 1,
        outcome is Err <==> cli::code(outcome) == 2,
{
}

} // verus!
