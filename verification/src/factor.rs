//! Texts that denote a growth factor.
//!
//! The growth factor of a policy may be fractional. This module tells which texts
//! denote one, by the grammar that the standard library documents for parsing a
//! binary64 number, in which letters may have either case:
//!
//! ```text
//! Factor   ::= Sign? ( 'inf' | 'infinity' | 'nan' | Number )
//! Number   ::= Mantissa Exponent?
//! Mantissa ::= Digit+ | Digit+ '.' Digit* | Digit* '.' Digit+
//! Exponent ::= 'e' Sign? Digit+
//! Sign     ::= '+' | '-'
//! ```

use crate::text;
use vstd::prelude::*;
use vstd::string::*;

verus! {

/// `s` without one leading sign.
pub open spec fn without_sign(s: Seq<char>) -> Seq<char> {
    if s.len() > 0 && (s[0] == '+' || s[0] == '-') {
        s.skip(1)
    } else {
        s
    }
}

/// The code of a letter's lower case, or of the character itself.
pub open spec fn lower(c: char) -> int {
    if 'A' <= c <= 'Z' {
        c as int + 32
    } else {
        c as int
    }
}

/// Whether two texts are equal but for the case of their letters, where `word` is
/// in lower case.
pub open spec fn spells(s: Seq<char>, word: Seq<char>) -> bool {
    s.len() == word.len() && forall|i: int|
        0 <= i < s.len() ==> lower(#[trigger] s[i]) == word[i] as int
}

/// Whether `s` is a run of at least one digit.
pub open spec fn is_digits(s: Seq<char>) -> bool {
    s.len() > 0 && text::all_digits(s)
}

/// Whether `s` is digits with at most one point among them, and at least one
/// digit.
pub open spec fn is_mantissa(s: Seq<char>) -> bool {
    ||| is_digits(s)
    ||| exists|p: int|
        0 <= p < s.len() && #[trigger] s[p] == '.' && text::all_digits(s.take(p))
            && text::all_digits(s.skip(p + 1)) && s.len() > 1
}

/// Whether `c` introduces an exponent.
pub open spec fn is_exponent_mark(c: char) -> bool {
    c == 'e' || c == 'E'
}

/// Whether `s` is an exponent.
pub open spec fn is_exponent(s: Seq<char>) -> bool {
    s.len() > 0 && is_exponent_mark(s[0]) && is_digits(without_sign(s.skip(1)))
}

/// Whether `s` is a mantissa, followed by an exponent or by nothing.
pub open spec fn is_number(s: Seq<char>) -> bool {
    ||| is_mantissa(s)
    ||| exists|m: int|
        0 <= m < s.len() && is_exponent_mark(#[trigger] s[m]) && is_mantissa(s.take(m))
            && is_exponent(s.skip(m))
}

/// Whether `s` denotes a growth factor.
pub open spec fn is_factor(s: Seq<char>) -> bool {
    let unsigned = without_sign(s);
    ||| spells(unsigned, "inf"@)
    ||| spells(unsigned, "infinity"@)
    ||| spells(unsigned, "nan"@)
    ||| is_number(unsigned)
}

/// Tests the characters from `from` up to `to` for being digits only.
fn digits_between(chars: &Vec<char>, from: usize, to: usize) -> (res: bool)
    requires
        from <= to <= chars.len(),
    ensures
        res == text::all_digits(chars@.subrange(from as int, to as int)),
{
    let ghost part = chars@.subrange(from as int, to as int);
    let mut i: usize = from;
    while i < to
        invariant
            from <= i <= to <= chars.len(),
            part == chars@.subrange(from as int, to as int),
            forall|j: int| 0 <= j < i - from ==> text::is_digit(#[trigger] part[j]),
        decreases to - i,
    {
        let c = chars[i];
        assert(part[i - from] == c);
        if c < '0' || '9' < c {
            return false;
        }
        i += 1;
    }
    true
}

/// Tests the characters from `from` on for spelling a word of lower case.
fn spelled_from(chars: &Vec<char>, from: usize, word: &str) -> (res: bool)
    requires
        from <= chars.len(),
        forall|i: int| 0 <= i < word@.len() ==> 'a' <= #[trigger] word@[i] <= 'z',
    ensures
        res == spells(chars@.skip(from as int), word@),
{
    let ghost part = chars@.skip(from as int);
    let letters = text::characters(word);
    if chars.len() - from != letters.len() {
        return false;
    }
    let mut i: usize = 0;
    while i < letters.len()
        invariant
            i <= letters.len(),
            from + letters.len() == chars.len(),
            letters@ == word@,
            forall|j: int| 0 <= j < word@.len() ==> 'a' <= #[trigger] word@[j] <= 'z',
            part == chars@.skip(from as int),
            forall|j: int| 0 <= j < i ==> lower(#[trigger] part[j]) == word@[j] as int,
        decreases letters.len() - i,
    {
        let c = chars[from + i];
        assert(part[i as int] == c);
        let letter = letters[i];
        let alike = if 'A' <= c && c <= 'Z' {
            c as u32 + 32 == letter as u32
        } else {
            c == letter
        };
        if !alike {
            return false;
        }
        i += 1;
    }
    true
}

/// Tests the characters from `from` up to `to` for being a mantissa.
fn mantissa_between(chars: &Vec<char>, from: usize, to: usize) -> (res: bool)
    requires
        from <= to <= chars.len(),
    ensures
        res == is_mantissa(chars@.subrange(from as int, to as int)),
{
    let ghost part = chars@.subrange(from as int, to as int);
    let mut p: usize = from;
    while p < to && chars[p] != '.'
        invariant
            from <= p <= to <= chars.len(),
            part == chars@.subrange(from as int, to as int),
            forall|j: int| 0 <= j < p - from ==> #[trigger] part[j] != '.',
        decreases to - p,
    {
        assert(part[p - from] == chars[p as int]);
        p += 1;
    }
    if p == to {
        return from < to && digits_between(chars, from, to);
    }
    let ghost q = p - from;
    assert(part[q] == '.');
    assert(!text::is_digit(part[q]));
    let res = to - from > 1 && digits_between(chars, from, p) && digits_between(chars, p + 1, to);
    proof {
        assert(part.take(q) =~= chars@.subrange(from as int, p as int));
        assert(part.skip(q + 1) =~= chars@.subrange(p + 1, to as int));
        if is_mantissa(part) {
            let r = choose|r: int|
                0 <= r < part.len() && #[trigger] part[r] == '.' && text::all_digits(part.take(r))
                    && text::all_digits(part.skip(r + 1)) && part.len() > 1;
            if r > q {
                assert(part.take(r)[q] == '.');
            }
            assert(r == q);
        }
    }
    res
}

/// Tests the characters from `from` on for being an exponent.
fn exponent_from(chars: &Vec<char>, from: usize) -> (res: bool)
    requires
        from < chars.len(),
    ensures
        res == is_exponent(chars@.skip(from as int)),
{
    let ghost part = chars@.skip(from as int);
    assert(part[0] == chars[from as int]);
    if chars[from] != 'e' && chars[from] != 'E' {
        return false;
    }
    let ghost rest = part.skip(1);
    assert(rest =~= chars@.skip(from + 1));
    let first: usize = if from + 1 < chars.len() && (chars[from + 1] == '+' || chars[from + 1]
        == '-') {
        from + 2
    } else {
        from + 1
    };
    assert(without_sign(rest) =~= chars@.subrange(first as int, chars@.len() as int));
    first < chars.len() && digits_between(chars, first, chars.len())
}

/// Tests the characters from `from` on for being a mantissa, followed by an
/// exponent or by nothing.
fn number_from(chars: &Vec<char>, from: usize) -> (res: bool)
    requires
        from <= chars.len(),
    ensures
        res == is_number(chars@.skip(from as int)),
{
    let ghost part = chars@.skip(from as int);
    let mut m: usize = from;
    while m < chars.len() && chars[m] != 'e' && chars[m] != 'E'
        invariant
            from <= m <= chars.len(),
            part == chars@.skip(from as int),
            forall|j: int| 0 <= j < m - from ==> !is_exponent_mark(#[trigger] part[j]),
        decreases chars.len() - m,
    {
        assert(part[m - from] == chars[m as int]);
        m += 1;
    }
    assert(part =~= chars@.subrange(from as int, chars@.len() as int));
    if m == chars.len() {
        return mantissa_between(chars, from, m);
    }
    let ghost q = m - from;
    assert(is_exponent_mark(part[q]));
    assert(part.take(q) =~= chars@.subrange(from as int, m as int));
    assert(part.skip(q) =~= chars@.skip(m as int));
    proof {
        lemma_mantissa_has_no_exponent_mark(part);
        if is_number(part) {
            let r = choose|r: int|
                0 <= r < part.len() && is_exponent_mark(#[trigger] part[r]) && is_mantissa(
                    part.take(r),
                ) && is_exponent(part.skip(r));
            lemma_mantissa_has_no_exponent_mark(part.take(r));
            if r > q {
                assert(part.take(r)[q] == part[q]);
            }
            assert(r == q);
        }
    }
    mantissa_between(chars, from, m) && exponent_from(chars, m)
}

/// No character of a mantissa introduces an exponent.
proof fn lemma_mantissa_has_no_exponent_mark(s: Seq<char>)
    ensures
        is_mantissa(s) ==> forall|i: int| 0 <= i < s.len() ==> !is_exponent_mark(#[trigger] s[i]),
{
    if is_mantissa(s) {
        assert forall|i: int| 0 <= i < s.len() implies !is_exponent_mark(#[trigger] s[i]) by {
            if !is_digits(s) {
                let p = choose|p: int|
                    0 <= p < s.len() && #[trigger] s[p] == '.' && text::all_digits(s.take(p))
                        && text::all_digits(s.skip(p + 1)) && s.len() > 1;
                if i < p {
                    assert(text::is_digit(s.take(p)[i]));
                } else if i > p {
                    assert(text::is_digit(s.skip(p + 1)[i - p - 1]));
                }
            } else {
                assert(text::is_digit(s[i]));
            }
        }
    }
}

/// Tests whether a text denotes a growth factor.
pub fn denotes_factor(s: &str) -> (res: bool)
    ensures
        res == is_factor(s@),
{
    let chars = text::characters(s);
    let first: usize = if chars.len() > 0 && (chars[0] == '+' || chars[0] == '-') {
        1
    } else {
        0
    };
    assert(without_sign(s@) =~= s@.skip(first as int));
    proof {
        reveal_strlit("inf");
        reveal_strlit("infinity");
        reveal_strlit("nan");
    }
    spelled_from(&chars, first, "inf") || spelled_from(&chars, first, "infinity") || spelled_from(
        &chars,
        first,
        "nan",
    ) || number_from(&chars, first)
}

/// Whether `s` is nothing, a plus sign or a minus sign.
pub open spec fn is_sign(s: Seq<char>) -> bool {
    s == Seq::<char>::empty() || s == seq!['+'] || s == seq!['-']
}

/// Whether `s` is one of the words for what is not finite, in letters of either
/// case.
pub open spec fn is_word(s: Seq<char>) -> bool {
    let i = |k: int| s[k] == 'i' || s[k] == 'I';
    let n = |k: int| s[k] == 'n' || s[k] == 'N';
    let f = |k: int| s[k] == 'f' || s[k] == 'F';
    let t = |k: int| s[k] == 't' || s[k] == 'T';
    let y = |k: int| s[k] == 'y' || s[k] == 'Y';
    let a = |k: int| s[k] == 'a' || s[k] == 'A';
    ||| s.len() == 3 && i(0) && n(1) && f(2)
    ||| s.len() == 8 && i(0) && n(1) && f(2) && i(3) && n(4) && i(5) && t(6) && y(7)
    ||| s.len() == 3 && n(0) && a(1) && n(2)
}

/// The parts of a written number.
pub struct Parts {
    pub sign: Seq<char>,
    pub whole: Seq<char>,
    pub point: Seq<char>,
    pub fraction: Seq<char>,
    pub mark: Seq<char>,
    pub exponent_sign: Seq<char>,
    pub exponent: Seq<char>,
}

/// Whether the parts fit together: digits before or behind an optional point, and
/// an exponent that has its mark and its digits or is not there at all.
pub open spec fn fit_together(p: Parts) -> bool {
    &&& is_sign(p.sign)
    &&& text::all_digits(p.whole)
    &&& text::all_digits(p.fraction)
    &&& p.whole.len() + p.fraction.len() > 0
    &&& p.point == seq!['.'] || (p.point.len() == 0 && p.fraction.len() == 0)
    &&& {
        ||| p.mark.len() == 0 && p.exponent_sign.len() == 0 && p.exponent.len() == 0
        ||| (p.mark == seq!['e'] || p.mark == seq!['E']) && is_sign(p.exponent_sign)
            && p.exponent.len() > 0 && text::all_digits(p.exponent)
    }
}

/// The parts put together.
pub open spec fn put_together(p: Parts) -> Seq<char> {
    p.sign + p.whole + p.point + p.fraction + p.mark + p.exponent_sign + p.exponent
}

/// Every number that is put together from fitting parts is a growth factor.
pub proof fn written_numbers_are_factors(p: Parts)
    requires
        fit_together(p),
    ensures
        is_factor(put_together(p)),
{
    let s = put_together(p);
    let mantissa = p.whole + p.point + p.fraction;
    let tail = p.mark + p.exponent_sign + p.exponent;
    let unsigned = mantissa + tail;
    assert(unsigned[0] == mantissa[0]);
    if p.whole.len() > 0 {
        assert(text::is_digit(p.whole[0]));
        assert(mantissa[0] == p.whole[0]);
    } else {
        assert(mantissa[0] == '.');
    }
    assert(s =~= p.sign + unsigned);
    if p.sign.len() > 0 {
        assert(s[0] == p.sign[0]);
        assert(s.skip(1) =~= unsigned);
    } else {
        assert(s =~= unsigned);
    }
    assert(without_sign(s) == unsigned);
    assert(is_mantissa(mantissa)) by {
        if p.point.len() == 0 {
            assert(mantissa =~= p.whole);
        } else {
            let k = p.whole.len() as int;
            assert(mantissa[k] == '.');
            assert(mantissa.take(k) =~= p.whole);
            assert(mantissa.skip(k + 1) =~= p.fraction);
        }
    }
    if p.mark.len() == 0 {
        assert(unsigned =~= mantissa);
    } else {
        let m = mantissa.len() as int;
        assert(unsigned[m] == p.mark[0]);
        assert(is_exponent_mark(unsigned[m]));
        assert(unsigned.take(m) =~= mantissa);
        assert(unsigned.skip(m) =~= tail);
        let behind = p.exponent_sign + p.exponent;
        assert(tail.skip(1) =~= behind);
        if p.exponent_sign.len() > 0 {
            assert(behind[0] == p.exponent_sign[0]);
            assert(behind.skip(1) =~= p.exponent);
        } else {
            assert(behind =~= p.exponent);
            assert(text::is_digit(p.exponent[0]));
        }
        assert(is_exponent(tail));
    }
}

/// A word for what is not finite is a growth factor, signed or not.
pub proof fn words_are_factors(sign: Seq<char>, word: Seq<char>)
    requires
        is_sign(sign),
        is_word(word),
    ensures
        is_factor(sign + word),
{
    let s = sign + word;
    assert(s.skip(sign.len() as int) =~= word);
    assert(without_sign(s) =~= word);
    reveal_strlit("inf");
    reveal_strlit("infinity");
    reveal_strlit("nan");
    if word.len() == 8 {
        assert(spells(word, "infinity"@));
    } else if word[0] == 'i' || word[0] == 'I' {
        assert(spells(word, "inf"@));
    } else {
        assert(spells(word, "nan"@));
    }
}

/// The sign that `without_sign` takes off.
spec fn sign_of(s: Seq<char>) -> Seq<char> {
    s.take(s.len() - without_sign(s).len())
}

proof fn lemma_sign_and_rest(s: Seq<char>)
    ensures
        is_sign(sign_of(s)),
        s == sign_of(s) + without_sign(s),
{
    if s.len() > 0 && (s[0] == '+' || s[0] == '-') {
        assert(sign_of(s) =~= seq![s[0]]);
    } else {
        assert(sign_of(s) =~= Seq::<char>::empty());
    }
    assert(s =~= sign_of(s) + without_sign(s));
}

/// Nothing is a growth factor but signed words for what is not finite and numbers
/// put together from fitting parts.
pub proof fn factors_are_words_or_written_numbers(s: Seq<char>)
    requires
        is_factor(s),
    ensures
        (exists|sign: Seq<char>, word: Seq<char>|
            #![trigger is_sign(sign), is_word(word)]
            is_sign(sign) && is_word(word) && s == sign + word) || (exists|p: Parts|
            #[trigger] fit_together(p) && s == put_together(p)),
{
    let sign = sign_of(s);
    let unsigned = without_sign(s);
    lemma_sign_and_rest(s);
    reveal_strlit("inf");
    reveal_strlit("infinity");
    reveal_strlit("nan");
    if spells(unsigned, "inf"@) {
        assert(lower(unsigned[0]) == 'i' as int && lower(unsigned[1]) == 'n' as int && lower(
            unsigned[2],
        ) == 'f' as int);
        assert(is_word(unsigned));
    } else if spells(unsigned, "infinity"@) {
        assert(lower(unsigned[0]) == 'i' as int && lower(unsigned[1]) == 'n' as int && lower(
            unsigned[2],
        ) == 'f' as int && lower(unsigned[3]) == 'i' as int && lower(unsigned[4]) == 'n' as int
            && lower(unsigned[5]) == 'i' as int && lower(unsigned[6]) == 't' as int && lower(
            unsigned[7],
        ) == 'y' as int);
        assert(is_word(unsigned));
    } else if spells(unsigned, "nan"@) {
        assert(lower(unsigned[0]) == 'n' as int && lower(unsigned[1]) == 'a' as int && lower(
            unsigned[2],
        ) == 'n' as int);
        assert(is_word(unsigned));
    } else {
        let none = Seq::<char>::empty();
        if is_mantissa(unsigned) {
            let p = lemma_mantissa_parts(sign, unsigned, none, none, none);
            assert(unsigned + none + none + none =~= unsigned);
            assert(fit_together(p) && s == put_together(p));
        } else {
            let m = choose|m: int|
                0 <= m < unsigned.len() && is_exponent_mark(#[trigger] unsigned[m]) && is_mantissa(
                    unsigned.take(m),
                ) && is_exponent(unsigned.skip(m));
            let tail = unsigned.skip(m);
            let behind = tail.skip(1);
            lemma_sign_and_rest(behind);
            let mark = seq![tail[0]];
            let p = lemma_mantissa_parts(
                sign,
                unsigned.take(m),
                mark,
                sign_of(behind),
                without_sign(behind),
            );
            assert(unsigned =~= unsigned.take(m) + mark + sign_of(behind) + without_sign(behind));
            assert(s =~= put_together(p));
            assert(fit_together(p) && s == put_together(p));
        }
    }
}

proof fn lemma_mantissa_parts(
    sign: Seq<char>,
    mantissa: Seq<char>,
    mark: Seq<char>,
    exponent_sign: Seq<char>,
    exponent: Seq<char>,
) -> (p: Parts)
    requires
        is_sign(sign),
        is_mantissa(mantissa),
        (mark.len() == 0 && exponent_sign.len() == 0 && exponent.len() == 0) || ((mark == seq!['e']
            || mark == seq!['E']) && is_sign(exponent_sign) && exponent.len() > 0
            && text::all_digits(exponent)),
    ensures
        fit_together(p),
        put_together(p) == sign + (mantissa + mark + exponent_sign + exponent),
{
    let none = Seq::<char>::empty();
    if is_digits(mantissa) {
        let p = Parts {
            sign,
            whole: mantissa,
            point: none,
            fraction: none,
            mark,
            exponent_sign,
            exponent,
        };
        assert(put_together(p) =~= sign + (mantissa + mark + exponent_sign + exponent));
        p
    } else {
        let k = choose|k: int|
            0 <= k < mantissa.len() && #[trigger] mantissa[k] == '.' && text::all_digits(
                mantissa.take(k),
            ) && text::all_digits(mantissa.skip(k + 1)) && mantissa.len() > 1;
        let p = Parts {
            sign,
            whole: mantissa.take(k),
            point: seq!['.'],
            fraction: mantissa.skip(k + 1),
            mark,
            exponent_sign,
            exponent,
        };
        assert(mantissa =~= mantissa.take(k) + seq!['.'] + mantissa.skip(k + 1));
        assert(put_together(p) =~= sign + (mantissa + mark + exponent_sign + exponent));
        p
    }
}

} // verus!
