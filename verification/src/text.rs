//! Text as sequences of characters: trimming, splitting at a comma, and decimal
//! numbers.

use vstd::arithmetic::power::pow;
use vstd::prelude::*;
use vstd::string::*;

verus! {

/// Whether `c` has the Unicode `White_Space` property.
pub open spec fn is_white_space(c: char) -> bool {
    ||| '\u{9}' <= c <= '\u{d}'
    ||| c == '\u{20}'
    ||| c == '\u{85}'
    ||| c == '\u{a0}'
    ||| c == '\u{1680}'
    ||| '\u{2000}' <= c <= '\u{200a}'
    ||| c == '\u{2028}'
    ||| c == '\u{2029}'
    ||| c == '\u{202f}'
    ||| c == '\u{205f}'
    ||| c == '\u{3000}'
}

/// Whether `s` holds nothing but white space.
pub open spec fn is_blank(s: Seq<char>) -> bool {
    forall|i: int| 0 <= i < s.len() ==> is_white_space(#[trigger] s[i])
}

/// `s` without its leading white space.
pub open spec fn trim_start(s: Seq<char>) -> Seq<char>
    decreases s.len(),
{
    if s.len() > 0 && is_white_space(s[0]) {
        trim_start(s.skip(1))
    } else {
        s
    }
}

/// `s` without its trailing white space.
pub open spec fn trim_end(s: Seq<char>) -> Seq<char>
    decreases s.len(),
{
    if s.len() > 0 && is_white_space(s.last()) {
        trim_end(s.drop_last())
    } else {
        s
    }
}

/// `s` without its leading and trailing white space.
pub open spec fn trimmed(s: Seq<char>) -> Seq<char> {
    trim_end(trim_start(s))
}

/// Tests a character for the Unicode `White_Space` property.
pub fn white_space(c: char) -> (res: bool)
    ensures
        res == is_white_space(c),
{
    ('\u{9}' <= c && c <= '\u{d}') || c == '\u{20}' || c == '\u{85}' || c == '\u{a0}' || c
        == '\u{1680}' || ('\u{2000}' <= c && c <= '\u{200a}') || c == '\u{2028}' || c == '\u{2029}'
        || c == '\u{202f}' || c == '\u{205f}' || c == '\u{3000}'
}

/// The characters of a string.
pub fn characters(s: &str) -> (res: Vec<char>)
    ensures
        res@ == s@,
{
    let mut res: Vec<char> = Vec::new();
    for c in it: s.chars()
        invariant
            it.seq() == s@,
            res@ == s@.take(it.index() as int),
    {
        res.push(c);
    }
    res
}

/// Strips leading and trailing white space.
pub fn trim(s: &str) -> (res: &str)
    ensures
        res@ == trimmed(s@),
{
    let chars = characters(s);
    let mut start: usize = 0;
    assert(s@.skip(0) =~= s@);
    while start < chars.len() && white_space(chars[start])
        invariant
            start <= chars.len(),
            chars@ == s@,
            trim_start(s@) == trim_start(s@.skip(start as int)),
        decreases chars.len() - start,
    {
        assert(s@.skip(start as int).skip(1) =~= s@.skip(start + 1));
        start += 1;
    }
    assert(trim_start(s@) == s@.skip(start as int));
    let mut end: usize = chars.len();
    assert(s@.skip(start as int) =~= s@.subrange(start as int, end as int));
    while end > start && white_space(chars[end - 1])
        invariant
            start <= end <= chars.len(),
            chars@ == s@,
            trimmed(s@) == trim_end(s@.subrange(start as int, end as int)),
        decreases end,
    {
        assert(s@.subrange(start as int, end as int).drop_last() =~= s@.subrange(
            start as int,
            end - 1,
        ));
        end -= 1;
    }
    s.substring_char(start, end)
}

/// The parts of `s` before and after the first comma, or `None` where there is
/// no comma.
pub open spec fn split_comma(s: Seq<char>) -> Option<(Seq<char>, Seq<char>)> {
    match s.index_of_first(',') {
        Some(i) => Some((s.take(i), s.skip(i + 1))),
        None => None,
    }
}

/// Splits a string at its first comma.
pub fn split_at_comma(s: &str) -> (res: Option<(&str, &str)>)
    ensures
        match (res, split_comma(s@)) {
            (Some((before, after)), Some((b, a))) => before@ == b && after@ == a,
            (None, None) => true,
            _ => false,
        },
{
    let chars = characters(s);
    let mut i: usize = 0;
    proof {
        s@.index_of_first_ensures(',');
    }
    while i < chars.len()
        invariant
            i <= chars.len(),
            chars@ == s@,
            forall|j: int| 0 <= j < i ==> s@[j] != ',',
            match s@.index_of_first(',') {
                Some(k) => 0 <= k < s@.len() && s@[k] == ',' && (forall|j: int|
                    0 <= j < k ==> s@[j] != ','),
                None => !s@.contains(','),
            },
        decreases chars.len() - i,
    {
        if chars[i] == ',' {
            assert(s@.contains(','));
            assert(s@.index_of_first(',') == Some(i as int));
            assert(s@.subrange(0, i as int) =~= s@.take(i as int));
            assert(s@.subrange(i + 1, s@.len() as int) =~= s@.skip(i + 1));
            return Some((s.substring_char(0, i), s.substring_char(i + 1, chars.len())));
        }
        i += 1;
    }
    None
}

/// Tests two strings for equality.
pub fn same(a: &str, b: &str) -> (res: bool)
    ensures
        res == (a@ == b@),
{
    a.to_owned() == b.to_owned()
}

/// Tests whether a string begins with the character `c`.
pub fn begins_with(s: &str, c: char) -> (res: bool)
    ensures
        res == (s@.len() > 0 && s@[0] == c),
{
    let chars = characters(s);
    chars.len() > 0 && chars[0] == c
}

/// Whether `c` is one of the ten decimal digits.
pub open spec fn is_digit(c: char) -> bool {
    '0' <= c <= '9'
}

/// Whether every character of `s` is a decimal digit.
pub open spec fn all_digits(s: Seq<char>) -> bool {
    forall|i: int| 0 <= i < s.len() ==> is_digit(#[trigger] s[i])
}

/// The number that a sequence of digits denotes in base ten.
pub open spec fn digits_value(s: Seq<char>) -> nat
    decreases s.len(),
{
    if s.len() == 0 {
        0
    } else {
        10 * digits_value(s.drop_last()) + (s.last() as nat - '0' as nat) as nat
    }
}

/// `s` without one leading plus sign.
pub open spec fn without_plus(s: Seq<char>) -> Seq<char> {
    if s.len() > 0 && s[0] == '+' {
        s.skip(1)
    } else {
        s
    }
}

/// The number written by `s`: at least one digit and nothing but digits, behind
/// an optional plus sign.
pub open spec fn number(s: Seq<char>) -> Option<nat> {
    let digits = without_plus(s);
    if digits.len() > 0 && all_digits(digits) {
        Some(digits_value(digits))
    } else {
        None
    }
}

/// The number written by `s`, where it is at most `limit`.
pub open spec fn number_up_to(s: Seq<char>, limit: nat) -> Option<nat> {
    match number(s) {
        Some(n) if n <= limit => Some(n),
        _ => None,
    }
}

/// A run of digits denotes at least what each of its prefixes denotes.
proof fn lemma_prefix_value(s: Seq<char>, n: int)
    requires
        0 <= n <= s.len(),
    ensures
        digits_value(s.take(n)) <= digits_value(s),
    decreases s.len(),
{
    if n == s.len() {
        assert(s.take(n) =~= s);
    } else {
        lemma_prefix_value(s.drop_last(), n);
        assert(s.drop_last().take(n) =~= s.take(n));
    }
}

/// Reads an unsigned decimal number no greater than `limit`.
pub fn parse_number(s: &str, limit: u64) -> (res: Option<u64>)
    ensures
        match (res, number_up_to(s@, limit as nat)) {
            (Some(n), Some(m)) => n == m,
            (None, None) => true,
            _ => false,
        },
{
    let chars = characters(s);
    let first: usize = if chars.len() > 0 && chars[0] == '+' {
        1
    } else {
        0
    };
    let ghost digits = without_plus(s@);
    assert(digits =~= s@.skip(first as int));
    if first == chars.len() {
        return None;
    }
    let mut value: u64 = 0;
    let mut i: usize = first;
    assert(digits.take(0) =~= Seq::<char>::empty());
    while i < chars.len()
        invariant
            first <= i <= chars.len(),
            chars@ == s@,
            digits == without_plus(s@),
            digits == s@.skip(first as int),
            digits.len() > 0,
            all_digits(digits.take(i - first)),
            value == digits_value(digits.take(i - first)),
            value <= limit,
        decreases chars.len() - i,
    {
        let c = chars[i];
        assert(digits[i - first] == c);
        if c < '0' || '9' < c {
            assert(!is_digit(digits[i - first]));
            return None;
        }
        let digit: u64 = (c as u32 - '0' as u32) as u64;
        let ghost read = digits.take(i - first + 1);
        assert(read.drop_last() =~= digits.take(i - first));
        assert(digits_value(read) == 10 * value + digit);
        proof {
            lemma_prefix_value(digits, i - first + 1);
        }
        if value > limit / 10 || digit > limit - value * 10 {
            return None;
        }
        value = value * 10 + digit;
        i += 1;
        assert(all_digits(digits.take(i - first)));
    }
    assert(digits.take(i - first) =~= digits);
    Some(value)
}

/// The character of a digit below ten.
pub open spec fn digit_char(digit: nat) -> char {
    ('0' as nat + digit) as char
}

/// `n` written in base ten, without leading zeros.
pub open spec fn decimal(n: nat) -> Seq<char>
    decreases n,
{
    if n < 10 {
        seq![digit_char(n)]
    } else {
        decimal(n / 10).push(digit_char(n % 10))
    }
}

/// Appends a number in base ten.
pub fn push_decimal(out: &mut String, n: u128)
    ensures
        final(out)@ == old(out)@ + decimal(n as nat),
    decreases n,
{
    if n >= 10 {
        push_decimal(out, n / 10);
    }
    let digit: usize = (n % 10) as usize;
    let digits = "0123456789";
    proof {
        reveal_strlit("0123456789");
    }
    assert(digits@.subrange(digit as int, digit + 1) =~= seq![digit_char(digit as nat)]);
    out.append(digits.substring_char(digit, digit + 1));
    assert(out@ =~= old(out)@ + decimal(n as nat));
}

/// What [`decimal`] writes is a run of digits that denotes the number written.
pub proof fn decimal_denotes_its_number(n: nat)
    ensures
        decimal(n).len() > 0,
        all_digits(decimal(n)),
        digits_value(decimal(n)) == n,
        number(decimal(n)) == Some(n),
    decreases n,
{
    if n < 10 {
        let s = seq![digit_char(n)];
        assert(s.drop_last() =~= Seq::<char>::empty());
        assert(digits_value(s.drop_last()) == 0);
    } else {
        decimal_denotes_its_number(n / 10);
        assert(decimal(n).drop_last() =~= decimal(n / 10));
    }
    assert(decimal(n)[0] != '+') by {
        assert(is_digit(decimal(n)[0]));
    }
}

/// Text without white space at either end is left alone by trimming.
pub proof fn trimming_keeps_trimmed_text(s: Seq<char>)
    requires
        s.len() > 0 ==> !is_white_space(s[0]) && !is_white_space(s.last()),
    ensures
        trimmed(s) == s,
{
}

/// White space around a text does not change what is left after trimming.
pub proof fn trimming_drops_surrounding_white_space(
    before: Seq<char>,
    s: Seq<char>,
    after: Seq<char>,
)
    requires
        is_blank(before),
        is_blank(after),
    ensures
        trimmed(before + s + after) == trimmed(s),
    decreases before.len(), after.len(),
{
    let whole = before + s + after;
    if before.len() > 0 {
        assert(whole[0] == before[0]);
        assert(whole.skip(1) =~= before.skip(1) + s + after);
        trimming_drops_surrounding_white_space(before.skip(1), s, after);
    } else if after.len() > 0 {
        lemma_trim_trailing(s, after);
        assert(whole =~= s + after);
    } else {
        assert(whole =~= s);
    }
}

proof fn lemma_trim_trailing(s: Seq<char>, after: Seq<char>)
    requires
        is_blank(after),
    ensures
        trimmed(s + after) == trimmed(s),
    decreases s.len(), after.len(),
{
    let whole = s + after;
    if after.len() == 0 {
        assert(whole =~= s);
    } else if s.len() == 0 {
        assert(whole[0] == after[0]);
        assert(whole.skip(1) =~= s + after.skip(1));
        lemma_trim_trailing(s, after.skip(1));
    } else if is_white_space(s[0]) {
        assert(whole.skip(1) =~= s.skip(1) + after);
        lemma_trim_trailing(s.skip(1), after);
    } else {
        assert(whole.last() == after.last());
        assert(whole.drop_last() =~= s + after.drop_last());
        lemma_trim_trailing(s, after.drop_last());
        assert(s + after.drop_last() == whole.drop_last());
        assert((s + after.drop_last())[0] == s[0]);
    }
}

/// Trimming a text that is surrounded by white space gives the text, where it
/// begins and ends with something else.
pub proof fn trimming_recovers_padded_text(before: Seq<char>, s: Seq<char>, after: Seq<char>)
    requires
        is_blank(before),
        is_blank(after),
        s.len() > 0 ==> !is_white_space(s[0]) && !is_white_space(s.last()),
    ensures
        trimmed(before + s + after) == s,
{
    trimming_drops_surrounding_white_space(before, s, after);
    trimming_keeps_trimmed_text(s);
}

/// Joining two texts with a comma and splitting again gives the two texts back,
/// where the first holds no comma.
pub proof fn splitting_undoes_joining(before: Seq<char>, after: Seq<char>)
    requires
        !before.contains(','),
    ensures
        split_comma(before + seq![','] + after) == Some((before, after)),
{
    let whole = before + seq![','] + after;
    whole.index_of_first_ensures(',');
    assert(whole[before.len() as int] == ',');
    assert(whole.contains(','));
    let i = whole.index_of_first(',')->0;
    if i < before.len() {
        assert(whole[i] == before[i]);
        assert(before.contains(','));
    }
    assert(i == before.len());
    assert(whole.take(i) =~= before);
    assert(whole.skip(i + 1) =~= after);
}

/// What stands before the first comma holds no comma, and the two parts make up
/// the whole.
pub proof fn parts_make_up_the_whole(s: Seq<char>)
    requires
        split_comma(s) is Some,
    ensures
        !split_comma(s).unwrap().0.contains(','),
        s == split_comma(s).unwrap().0 + seq![','] + split_comma(s).unwrap().1,
{
    s.index_of_first_ensures(',');
    let i = s.index_of_first(',')->0;
    assert(s =~= s.take(i) + seq![','] + s.skip(i + 1));
}

/// A trimmed text neither begins nor ends with white space, and holds nothing
/// that the text did not hold.
pub proof fn trimmed_text_has_no_outer_white_space(s: Seq<char>)
    ensures
        trimmed(s).len() > 0 ==> !is_white_space(trimmed(s)[0]) && !is_white_space(
            trimmed(s).last(),
        ),
        forall|c: char| trimmed(s).contains(c) ==> s.contains(c),
{
    lemma_trim_start_is_a_suffix(s);
    let middle = trim_start(s);
    lemma_trim_end_is_a_prefix(middle);
    assert forall|c: char| trimmed(s).contains(c) implies s.contains(c) by {
        let i = choose|i: int| 0 <= i < trimmed(s).len() && trimmed(s)[i] == c;
        assert(middle[i] == c);
        assert(s[s.len() - middle.len() + i] == c);
    }
}

proof fn lemma_trim_start_is_a_suffix(s: Seq<char>)
    ensures
        trim_start(s).len() <= s.len(),
        trim_start(s) == s.skip(s.len() - trim_start(s).len()),
        trim_start(s).len() > 0 ==> !is_white_space(trim_start(s)[0]),
    decreases s.len(),
{
    if s.len() > 0 && is_white_space(s[0]) {
        lemma_trim_start_is_a_suffix(s.skip(1));
    }
    assert(trim_start(s) =~= s.skip(s.len() - trim_start(s).len()));
}

proof fn lemma_trim_end_is_a_prefix(s: Seq<char>)
    ensures
        trim_end(s).len() <= s.len(),
        trim_end(s) == s.take(trim_end(s).len() as int),
        trim_end(s).len() > 0 ==> !is_white_space(trim_end(s).last()),
    decreases s.len(),
{
    if s.len() > 0 && is_white_space(s.last()) {
        lemma_trim_end_is_a_prefix(s.drop_last());
    }
    assert(trim_end(s) =~= s.take(trim_end(s).len() as int));
}

/// What is left after trimming begins with the first character that is not white
/// space.
pub proof fn trimming_keeps_a_visible_start(before: Seq<char>, c: char, rest: Seq<char>)
    requires
        is_blank(before),
        !is_white_space(c),
    ensures
        trimmed(before + seq![c] + rest).len() > 0,
        trimmed(before + seq![c] + rest)[0] == c,
    decreases before.len(),
{
    let whole = before + seq![c] + rest;
    if before.len() > 0 {
        assert(whole[0] == before[0]);
        assert(whole.skip(1) =~= before.skip(1) + seq![c] + rest);
        trimming_keeps_a_visible_start(before.skip(1), c, rest);
    } else {
        assert(whole[0] == c);
        lemma_trim_end_keeps_a_visible_start(whole);
    }
}

proof fn lemma_trim_end_keeps_a_visible_start(s: Seq<char>)
    requires
        s.len() > 0,
        !is_white_space(s[0]),
    ensures
        trim_end(s).len() > 0,
        trim_end(s)[0] == s[0],
    decreases s.len(),
{
    if is_white_space(s.last()) {
        lemma_trim_end_keeps_a_visible_start(s.drop_last());
    }
}

/// A text is left in one piece exactly when it holds no comma.
pub proof fn only_a_comma_splits(s: Seq<char>)
    ensures
        split_comma(s) is None <==> !s.contains(','),
{
    s.index_of_first_ensures(',');
}

/// The digits are the ten characters from `0` to `9`, and each denotes its distance
/// from `0`.
pub proof fn digits_are_ten(c: char)
    ensures
        is_digit(c) <==> (c == '0' || c == '1' || c == '2' || c == '3' || c == '4' || c == '5' || c
            == '6' || c == '7' || c == '8' || c == '9'),
        all_digits(seq![c]) <==> is_digit(c),
        is_digit(c) ==> digits_value(seq![c]) == c as int - '0' as int,
{
    let s = seq![c];
    assert(s[0] == c);
    assert(s.drop_last() =~= Seq::<char>::empty());
    assert(digits_value(s.drop_last()) == 0);
}

/// Of two runs of digits put together, the first counts ten times more for every
/// digit of the second.
pub proof fn digits_count_by_place(a: Seq<char>, b: Seq<char>)
    ensures
        all_digits(a + b) <==> all_digits(a) && all_digits(b),
        digits_value(a + b) == digits_value(a) * pow(10, b.len()) + digits_value(b),
    decreases b.len(),
{
    let whole = a + b;
    assert(all_digits(whole) ==> all_digits(a)) by {
        if all_digits(whole) {
            assert forall|i: int| 0 <= i < a.len() implies is_digit(#[trigger] a[i]) by {
                assert(is_digit(whole[i]));
            }
        }
    }
    assert(all_digits(whole) ==> all_digits(b)) by {
        if all_digits(whole) {
            assert forall|i: int| 0 <= i < b.len() implies is_digit(#[trigger] b[i]) by {
                assert(is_digit(whole[a.len() + i]));
            }
        }
    }
    vstd::arithmetic::power::lemma_pow0(10);
    if b.len() == 0 {
        assert(whole =~= a);
        assert(digits_value(a) * 1 == digits_value(a));
    } else {
        let rest = b.drop_last();
        digits_count_by_place(a, rest);
        assert(whole.drop_last() =~= a + rest);
        assert(whole.last() == b.last());
        vstd::arithmetic::power::lemma_pow_adds(10, 1, rest.len());
        vstd::arithmetic::power::lemma_pow1(10);
        let x = digits_value(a) as int;
        let p = pow(10, rest.len());
        assert(10 * (x * p) == x * (10 * p)) by (nonlinear_arith);
    }
}

/// Whether `s` is `n` in base ten, without leading zeros.
pub open spec fn writes(s: Seq<char>, n: int) -> bool {
    &&& s.len() > 0
    &&& all_digits(s)
    &&& digits_value(s) == n
    &&& s.len() > 1 ==> s[0] != '0'
}

/// What is written for a number is the number in base ten, without leading zeros.
pub proof fn decimal_writes_its_number(n: nat)
    ensures
        writes(decimal(n), n as int),
    decreases n,
{
    decimal_denotes_its_number(n);
    if n >= 10 {
        decimal_writes_its_number(n / 10);
        let front = decimal(n / 10);
        assert(decimal(n)[0] == front[0]);
        if front.len() == 1 && front[0] == '0' {
            assert(front.drop_last() =~= Seq::<char>::empty());
            assert(digits_value(front.drop_last()) == 0);
            assert(digits_value(front) == 0);
        }
    }
}

/// A number is read from digits as they count, with or without a plus sign before
/// them, and from nothing else.
pub proof fn numbers_are_read_from_digits(s: Seq<char>)
    ensures
        s.len() > 0 && all_digits(s) ==> number(s) == Some(digits_value(s)) && number(
            seq!['+'] + s,
        ) == Some(digits_value(s)),
        number(s) is Some ==> s.len() > 0 && (all_digits(s) || (s[0] == '+' && s.len() > 1
            && all_digits(s.skip(1)))),
{
    let signed = seq!['+'] + s;
    assert(signed.skip(1) =~= s);
    assert(signed[0] == '+');
    if s.len() > 0 && all_digits(s) {
        assert(is_digit(s[0]));
    }
}

/// A number is read under a limit exactly when it is a number and within the limit.
pub proof fn limits_only_keep_out_greater_numbers(s: Seq<char>, limit: nat, n: nat)
    ensures
        number_up_to(s, limit) == Some(n) <==> number(s) == Some(n) && n <= limit,
{
}

} // verus!
