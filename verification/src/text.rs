//! Characters and runs of characters: blanks, digits and decimal numerals.
use vstd::prelude::*;

verus! {

/// The blank characters: space, tab, carriage return and line feed.
pub open spec fn is_blank(c: char) -> bool {
    c == ' ' || c == '\t' || c == '\r' || c == '\n'
}

/// The decimal digits `0` to `9`.
pub open spec fn is_digit(c: char) -> bool {
    '0' <= c && c <= '9'
}

/// What is left of `s` once its leading blanks are gone.
pub open spec fn skip_blanks(s: Seq<char>) -> Seq<char>
    decreases s.len(),
{
    if s.len() > 0 && is_blank(s[0]) {
        skip_blanks(s.skip(1))
    } else {
        s
    }
}

/// The blanks that `s` begins with.
pub open spec fn leading_blanks(s: Seq<char>) -> Seq<char> {
    s.take(s.len() - skip_blanks(s).len())
}

/// Every character of `s` is a blank.
pub open spec fn all_blank(s: Seq<char>) -> bool {
    forall|i: int| 0 <= i < s.len() ==> is_blank(#[trigger] s[i])
}

/// Every character of `s` is a decimal digit.
pub open spec fn all_digits(s: Seq<char>) -> bool {
    forall|i: int| 0 <= i < s.len() ==> is_digit(#[trigger] s[i])
}

/// How many decimal digits `s` begins with.
pub open spec fn digit_count(s: Seq<char>) -> nat
    decreases s.len(),
{
    if s.len() > 0 && is_digit(s[0]) {
        1 + digit_count(s.skip(1))
    } else {
        0
    }
}

/// The number that a decimal digit stands for.
pub open spec fn digit_value(c: char) -> int {
    c as int - '0' as int
}

/// The number that the digits of `s` write in base ten; 0 for no digits.
pub open spec fn decimal_value(s: Seq<char>) -> int
    decreases s.len(),
{
    if s.len() == 0 {
        0
    } else {
        decimal_value(s.drop_last()) * 10 + digit_value(s.last())
    }
}

/// A run of digits at the start of `s`, read as a number of the given sign:
/// the value and what follows the digits. There is none where `s` begins
/// with no digit, or where the value does not fit in 64 bits.
pub open spec fn numeral(s: Seq<char>, negative: bool) -> Option<(i64, Seq<char>)> {
    let count = digit_count(s) as int;
    let magnitude = decimal_value(s.take(count));
    let value = if negative {
        -magnitude
    } else {
        magnitude
    };
    if count > 0 && i64::MIN <= value <= i64::MAX {
        Some((value as i64, s.skip(count)))
    } else {
        None
    }
}

/// An integer literal at the start of `s`: an optional `-`, then one or more
/// digits, within the range of a signed 64-bit integer.
pub open spec fn integer_literal(s: Seq<char>) -> Option<(i64, Seq<char>)> {
    if s.len() > 0 && s[0] == '-' {
        numeral(s.skip(1), true)
    } else {
        numeral(s, false)
    }
}

/// An integer literal that may also begin with `+`.
pub open spec fn signed_literal(s: Seq<char>) -> Option<(i64, Seq<char>)> {
    if s.len() > 0 && s[0] == '+' {
        numeral(s.skip(1), false)
    } else {
        integer_literal(s)
    }
}

/// Skipping blanks drops a prefix of blanks, and what is left begins with
/// no blank.
pub proof fn lemma_skip_blanks(s: Seq<char>)
    ensures
        skip_blanks(s).len() <= s.len(),
        skip_blanks(s) == s.skip(s.len() - skip_blanks(s).len()),
        all_blank(s.take(s.len() - skip_blanks(s).len())),
        skip_blanks(s).len() > 0 ==> !is_blank(skip_blanks(s)[0]),
        skip_blanks(skip_blanks(s)) == skip_blanks(s),
    decreases s.len(),
{
    if s.len() > 0 && is_blank(s[0]) {
        let t = s.skip(1);
        lemma_skip_blanks(t);
        let k = t.len() - skip_blanks(t).len();
        assert(t.skip(k) =~= s.skip(k + 1));
        assert forall|i: int| 0 <= i < k + 1 implies is_blank(#[trigger] s.take(k + 1)[i]) by {
            if i > 0 {
                assert(s.take(k + 1)[i] == t.take(k)[i - 1]);
            }
        }
    } else {
        assert(s.skip(0) =~= s);
    }
}

/// The digits that `s` begins with are digits, and no digit follows them.
pub proof fn lemma_digit_count(s: Seq<char>)
    ensures
        digit_count(s) <= s.len(),
        all_digits(s.take(digit_count(s) as int)),
        digit_count(s) < s.len() ==> !is_digit(s[digit_count(s) as int]),
    decreases s.len(),
{
    if s.len() > 0 && is_digit(s[0]) {
        let t = s.skip(1);
        lemma_digit_count(t);
        let k = digit_count(t) as int;
        assert forall|i: int| 0 <= i < k + 1 implies is_digit(#[trigger] s.take(k + 1)[i]) by {
            if i > 0 {
                assert(s.take(k + 1)[i] == t.take(k)[i - 1]);
            }
        }
    }
}

/// An integer literal takes at least one character.
pub proof fn lemma_integer_literal_advances(s: Seq<char>)
    ensures
        integer_literal(s) matches Some((_, rest)) ==> rest.len() < s.len(),
        signed_literal(s) matches Some((_, rest)) ==> rest.len() < s.len(),
{
    lemma_digit_count(s);
    if s.len() > 0 {
        lemma_digit_count(s.skip(1));
    }
}

/// Blanks before a text that begins with no blank are all that is skipped.
pub proof fn lemma_skip_blank_run(blanks: Seq<char>, rest: Seq<char>)
    requires
        all_blank(blanks),
        rest.len() == 0 || !is_blank(rest[0]),
    ensures
        skip_blanks(blanks + rest) == rest,
    decreases blanks.len(),
{
    if blanks.len() == 0 {
        assert(blanks + rest =~= rest);
    } else {
        assert(is_blank(blanks[0]));
        assert((blanks + rest)[0] == blanks[0]);
        let shorter = blanks.skip(1);
        assert forall|i: int| 0 <= i < shorter.len() implies is_blank(#[trigger] shorter[i]) by {
            assert(shorter[i] == blanks[i + 1]);
        }
        lemma_skip_blank_run(shorter, rest);
        assert((blanks + rest).skip(1) =~= shorter + rest);
    }
}

/// Digits before a text that begins with no digit are all that is counted.
pub proof fn lemma_digit_run(digits: Seq<char>, rest: Seq<char>)
    requires
        all_digits(digits),
        rest.len() == 0 || !is_digit(rest[0]),
    ensures
        digit_count(digits + rest) == digits.len(),
        (digits + rest).take(digits.len() as int) == digits,
        (digits + rest).skip(digits.len() as int) == rest,
    decreases digits.len(),
{
    assert((digits + rest).take(digits.len() as int) =~= digits);
    assert((digits + rest).skip(digits.len() as int) =~= rest);
    if digits.len() == 0 {
        assert(digits + rest =~= rest);
    } else {
        assert(is_digit(digits[0]));
        assert((digits + rest)[0] == digits[0]);
        let shorter = digits.skip(1);
        assert forall|i: int| 0 <= i < shorter.len() implies is_digit(#[trigger] shorter[i]) by {
            assert(shorter[i] == digits[i + 1]);
        }
        lemma_digit_run(shorter, rest);
        assert((digits + rest).skip(1) =~= shorter + rest);
    }
}

/// A text is its leading blanks and what skipping them leaves.
pub proof fn lemma_leading_blanks(s: Seq<char>)
    ensures
        all_blank(leading_blanks(s)),
        s == leading_blanks(s) + skip_blanks(s),
        s.len() == 0 || !is_blank(s[0]) ==> leading_blanks(s).len() == 0,
{
    lemma_skip_blanks(s);
    let count = s.len() - skip_blanks(s).len();
    assert(s =~= s.take(count) + s.skip(count));
}

/// Two runs of blanks, one after the other, are a run of blanks.
pub proof fn lemma_blanks_join(first: Seq<char>, second: Seq<char>)
    requires
        all_blank(first),
        all_blank(second),
    ensures
        all_blank(first + second),
{
    let both = first + second;
    assert forall|i: int| 0 <= i < both.len() implies is_blank(#[trigger] both[i]) by {
        if i < first.len() {
            assert(both[i] == first[i]);
        } else {
            assert(both[i] == second[i - first.len()]);
        }
    }
}

} // verus!
