//! What the rules of the grammar make of the texts that spell a phrase.
use vstd::prelude::*;
use crate::grammar::{
    atom, boolean, branches, conditional, keyword, number, sentence, sum, symbol,
    lemma_rules_advance, lemma_symbol_advances,
};
use crate::phrase::{
    is_layout, numeral_text, numeral_value, spell, weave, Phrase, lemma_choice_text,
    lemma_first_char, lemma_group_text, lemma_layout_parts, lemma_levels, lemma_sum_text,
    lemma_weave_one,
};
use crate::term::Term;
use crate::text::{
    all_blank, all_digits, digit_count, integer_literal, is_blank, is_digit, skip_blanks,
    lemma_digit_run, lemma_skip_blank_run, lemma_skip_blanks,
};

verus! {

/// What may follow an atom for the atom to be read whole, where `gap` is
/// what stands between the two: nothing, or a character that is no blank
/// and, unless the gap parts them, no digit.
pub open spec fn ends_atom(gap: Seq<char>, follow: Seq<char>) -> bool {
    follow.len() == 0 || (!is_blank(follow[0]) && (gap.len() > 0 || !is_digit(follow[0])))
}

/// What may follow a sum for the sum to be read whole, and no more: as
/// for an atom, and no `+`.
pub open spec fn ends_sum(gap: Seq<char>, follow: Seq<char>) -> bool {
    ends_atom(gap, follow) && (follow.len() > 0 ==> follow[0] != '+')
}

/// What may follow a conditional for it to be read whole, and no more: as
/// for a sum, and no `?`.
pub open spec fn ends_conditional(gap: Seq<char>, follow: Seq<char>) -> bool {
    ends_sum(gap, follow) && (follow.len() > 0 ==> follow[0] != '?')
}

/// A symbol at the very start of a text, with a gap and then a text that
/// begins with no blank after it.
proof fn lemma_symbol_reads(c: char, gap: Seq<char>, rest: Seq<char>)
    requires
        !is_blank(c),
        all_blank(gap),
        rest.len() == 0 || !is_blank(rest[0]),
    ensures
        symbol(seq![c] + (gap + rest), c) == Some(rest),
{
    let s = seq![c] + (gap + rest);
    assert(s[0] == c);
    assert(skip_blanks(s) == s);
    assert(s.skip(1) =~= gap + rest);
    lemma_skip_blank_run(gap, rest);
}

/// No symbol is read where the text is at its end, or goes on with
/// another character that is no blank.
proof fn lemma_symbol_absent(s: Seq<char>, c: char)
    requires
        s.len() == 0 || (!is_blank(s[0]) && s[0] != c),
    ensures
        symbol(s, c) is None,
{
    assert(skip_blanks(s) == s);
}

/// No number and no boolean is read where the text begins, after blanks,
/// with a character that is none of `-`, `t`, `f` and the digits.
proof fn lemma_no_literal(lead: Seq<char>, rest: Seq<char>)
    requires
        all_blank(lead),
        rest.len() > 0,
        !is_blank(rest[0]),
        !is_digit(rest[0]),
        rest[0] != '-',
        rest[0] != 't',
        rest[0] != 'f',
    ensures
        number(lead + rest) is None,
        boolean(lead + rest) is None,
{
    reveal_strlit("true");
    reveal_strlit("false");
    lemma_skip_blank_run(lead, rest);
    assert(digit_count(rest) == 0);
    if "true"@.is_prefix_of(rest) {
        assert(rest.subrange(0, 4)[0] == 't');
    }
    if "false"@.is_prefix_of(rest) {
        assert(rest.subrange(0, 5)[0] == 'f');
    }
}

/// A keyword after blanks, with a gap and then a text that begins with no
/// blank after it.
proof fn lemma_keyword_reads(lead: Seq<char>, word: Seq<char>, gap: Seq<char>, follow: Seq<char>)
    requires
        all_blank(lead),
        all_blank(gap),
        word.len() > 0,
        !is_blank(word[0]),
        follow.len() == 0 || !is_blank(follow[0]),
    ensures
        keyword(lead + (word + gap) + follow, word) == Some(follow),
{
    let body = word + (gap + follow);
    assert(lead + (word + gap) + follow =~= lead + body);
    assert(body[0] == word[0]);
    lemma_skip_blank_run(lead, body);
    assert(body.subrange(0, word.len() as int) =~= word);
    assert(body.skip(word.len() as int) =~= gap + follow);
    lemma_skip_blank_run(gap, follow);
}

/// A literal after blanks, with a gap after it and then a text that
/// cannot continue its digits.
proof fn lemma_numeral_reads(
    lead: Seq<char>,
    negative: bool,
    digits: Seq<char>,
    gap: Seq<char>,
    follow: Seq<char>,
)
    requires
        all_blank(lead),
        all_blank(gap),
        digits.len() > 0,
        all_digits(digits),
        i64::MIN <= numeral_value(negative, digits) <= i64::MAX,
        ends_atom(gap, follow),
    ensures
        number(lead + (numeral_text(negative, digits) + gap) + follow) == Some(
            (Term::Number { value: numeral_value(negative, digits) as i64 }, follow),
        ),
{
    let tail = gap + follow;
    let body = numeral_text(negative, digits) + tail;
    assert(lead + (numeral_text(negative, digits) + gap) + follow =~= lead + body);
    assert(is_digit(digits[0]));
    assert(body[0] == numeral_text(negative, digits)[0]);
    lemma_skip_blank_run(lead, body);
    if gap.len() > 0 {
        assert(is_blank(gap[0]));
        assert(tail[0] == gap[0]);
    } else {
        assert(tail =~= follow);
    }
    lemma_digit_run(digits, tail);
    if negative {
        assert(body[0] == '-');
        assert(body.skip(1) =~= digits + tail);
    } else {
        assert(body =~= digits + tail);
        assert(body[0] == digits[0]);
    }
    lemma_skip_blank_run(gap, follow);
}

/// An atom is read whole from any text that spells it, whatever follows
/// that can be no part of it.
pub proof fn lemma_atom_reads(x: Phrase, lead: Seq<char>, gaps: Seq<Seq<char>>, follow: Seq<char>)
    requires
        x.is_atom(),
        all_blank(lead),
        is_layout(gaps, x.tokens().len()),
        ends_atom(gaps.last(), follow),
    ensures
        atom(spell(lead, x.tokens(), gaps) + follow) == Some((x.meaning(), follow)),
    decreases x, 0nat,
{
    reveal_strlit("true");
    reveal_strlit("false");
    let s = spell(lead, x.tokens(), gaps) + follow;
    match x {
        Phrase::Numeral { negative, digits } => {
            lemma_weave_one(numeral_text(negative, digits), gaps);
            lemma_numeral_reads(lead, negative, digits, gaps[0], follow);
        },
        Phrase::True => {
            lemma_weave_one("true"@, gaps);
            lemma_keyword_reads(lead, "true"@, gaps[0], follow);
            let body = "true"@ + gaps[0] + follow;
            assert(s =~= lead + body);
            lemma_skip_blank_run(lead, body);
            assert(digit_count(body) == 0);
        },
        Phrase::False => {
            lemma_weave_one("false"@, gaps);
            lemma_keyword_reads(lead, "false"@, gaps[0], follow);
            let body = "false"@ + gaps[0] + follow;
            assert(s =~= lead + body);
            lemma_skip_blank_run(lead, body);
            assert(digit_count(body) == 0);
            if "true"@.is_prefix_of(body) {
                assert(body.subrange(0, 4)[0] == 't');
            }
        },
        Phrase::Group { inner } => {
            let count = inner.tokens().len() as int;
            let inner_gaps = gaps.subrange(1, count + 1);
            let inside = weave(inner.tokens(), inner_gaps);
            lemma_layout_parts(gaps, 1, count + 1);
            assert(gaps =~= seq![gaps[0]] + inner_gaps + seq![gaps[count + 1]]);
            lemma_group_text(*inner, gaps[0], inner_gaps, gaps[count + 1]);
            lemma_first_char(*inner, inner_gaps);
            let after = seq![')'] + (gaps[count + 1] + follow);
            let body = seq!['('] + (gaps[0] + (inside + after));
            assert(s =~= lead + body);
            assert(body[0] == '(');
            lemma_no_literal(lead, body);
            lemma_skip_blank_run(lead, body);
            assert((inside + after)[0] == inside[0]);
            lemma_symbol_reads('(', gaps[0], inside + after);
            assert(symbol(body, '(') == symbol(s, '('));
            assert(after[0] == ')');
            lemma_conditional_reads(*inner, Seq::empty(), inner_gaps, after);
            assert(spell(Seq::empty(), inner.tokens(), inner_gaps) + after =~= inside + after);
            lemma_symbol_reads(')', gaps[count + 1], follow);
        },
        _ => {},
    }
}

/// A sum is read whole from any text that spells it, whatever follows
/// that can be no part of it.
pub proof fn lemma_sum_reads(x: Phrase, lead: Seq<char>, gaps: Seq<Seq<char>>, follow: Seq<char>)
    requires
        x.is_sum(),
        all_blank(lead),
        is_layout(gaps, x.tokens().len()),
        ends_sum(gaps.last(), follow),
    ensures
        sum(spell(lead, x.tokens(), gaps) + follow) == Some((x.meaning(), follow)),
    decreases x, 1nat,
{
    let s = spell(lead, x.tokens(), gaps) + follow;
    lemma_levels(x);
    if x.is_atom() {
        lemma_atom_reads(x, lead, gaps, follow);
        lemma_symbol_absent(follow, '+');
    } else {
        match x {
            Phrase::Sum { left, right } => {
                let count = left.tokens().len() as int;
                let left_gaps = gaps.subrange(0, count);
                let right_gaps = gaps.skip(count + 1);
                let before = weave(left.tokens(), left_gaps);
                let behind = weave(right.tokens(), right_gaps);
                lemma_layout_parts(gaps, 0, count);
                lemma_layout_parts(gaps, count + 1, gaps.len() as int);
                assert(gaps.subrange(count + 1, gaps.len() as int) =~= right_gaps);
                assert(gaps =~= left_gaps + seq![gaps[count]] + right_gaps);
                lemma_sum_text(*left, *right, left_gaps, gaps[count], right_gaps);
                lemma_levels(*right);
                lemma_first_char(*right, right_gaps);
                let after = seq!['+'] + (gaps[count] + (behind + follow));
                assert(s =~= spell(lead, left.tokens(), left_gaps) + after);
                assert(after[0] == '+');
                lemma_atom_reads(*left, lead, left_gaps, after);
                assert((behind + follow)[0] == behind[0]);
                lemma_symbol_reads('+', gaps[count], behind + follow);
                lemma_sum_reads(*right, Seq::empty(), right_gaps, follow);
                assert(spell(Seq::empty(), right.tokens(), right_gaps) + follow =~= behind
                    + follow);
                assert((behind + follow).len() < s.len());
            },
            _ => {},
        }
    }
}

/// A conditional is read whole from any text that spells it, whatever
/// follows that can be no part of it.
pub proof fn lemma_conditional_reads(
    x: Phrase,
    lead: Seq<char>,
    gaps: Seq<Seq<char>>,
    follow: Seq<char>,
)
    requires
        x.is_conditional(),
        all_blank(lead),
        is_layout(gaps, x.tokens().len()),
        ends_conditional(gaps.last(), follow),
    ensures
        conditional(spell(lead, x.tokens(), gaps) + follow) == Some((x.meaning(), follow)),
    decreases x, 2nat,
{
    let s = spell(lead, x.tokens(), gaps) + follow;
    lemma_levels(x);
    if x.is_sum() {
        lemma_sum_reads(x, lead, gaps, follow);
        lemma_symbol_absent(follow, '?');
    } else {
        match x {
            Phrase::Choice { condition, consequent, alternative } => {
                let first = condition.tokens().len() as int;
                let second = consequent.tokens().len() as int;
                let total = gaps.len() as int;
                let condition_gaps = gaps.subrange(0, first);
                let consequent_gaps = gaps.subrange(first + 1, first + 1 + second);
                let alternative_gaps = gaps.skip(first + second + 2);
                let asked = weave(condition.tokens(), condition_gaps);
                let taken = weave(consequent.tokens(), consequent_gaps);
                let other = weave(alternative.tokens(), alternative_gaps);
                lemma_layout_parts(gaps, 0, first);
                lemma_layout_parts(gaps, first + 1, first + 1 + second);
                lemma_layout_parts(gaps, first + second + 2, total);
                assert(gaps.subrange(first + second + 2, total) =~= alternative_gaps);
                assert(gaps =~= condition_gaps + seq![gaps[first]] + consequent_gaps
                    + seq![gaps[first + second + 1]] + alternative_gaps);
                lemma_choice_text(
                    *condition,
                    *consequent,
                    *alternative,
                    condition_gaps,
                    gaps[first],
                    consequent_gaps,
                    gaps[first + second + 1],
                    alternative_gaps,
                );
                lemma_levels(*consequent);
                lemma_levels(*alternative);
                lemma_first_char(*consequent, consequent_gaps);
                lemma_first_char(*alternative, alternative_gaps);
                let last = seq![':'] + (gaps[first + second + 1] + (other + follow));
                let after = seq!['?'] + (gaps[first] + (taken + last));
                assert(s =~= spell(lead, condition.tokens(), condition_gaps) + after);
                assert(after[0] == '?');
                lemma_sum_reads(*condition, lead, condition_gaps, after);
                assert((taken + last)[0] == taken[0]);
                lemma_symbol_reads('?', gaps[first], taken + last);
                assert(last[0] == ':');
                lemma_conditional_reads(*consequent, Seq::empty(), consequent_gaps, last);
                assert(spell(Seq::empty(), consequent.tokens(), consequent_gaps) + last =~= taken
                    + last);
                assert((other + follow)[0] == other[0]);
                lemma_symbol_reads(':', gaps[first + second + 1], other + follow);
                lemma_conditional_reads(*alternative, Seq::empty(), alternative_gaps, follow);
                assert(spell(Seq::empty(), alternative.tokens(), alternative_gaps) + follow
                    =~= other + follow);
                assert((taken + last).len() < s.len());
                assert((other + follow).len() < s.len());
                assert(branches(after, s.len()) == Some(
                    (consequent.meaning(), alternative.meaning(), follow),
                ));
            },
            _ => {},
        }
    }
}

/// Every text of the language parses, and to the term that its phrase
/// stands for: whatever blanks stand before and between the tokens of a
/// conditional phrase, the whole text is read as the meaning of the phrase.
/// By the levels of a phrase, a chain of `+` nests to the right, and the
/// branches of a conditional nest in the branches of the one before.
pub proof fn lemma_spelling_parses(x: Phrase, lead: Seq<char>, gaps: Seq<Seq<char>>)
    requires
        x.is_conditional(),
        all_blank(lead),
        is_layout(gaps, x.tokens().len()),
    ensures
        sentence(spell(lead, x.tokens(), gaps)) == Some(x.meaning()),
{
    let s = spell(lead, x.tokens(), gaps);
    lemma_conditional_reads(x, lead, gaps, Seq::empty());
    assert(s + Seq::<char>::empty() =~= s);
}

/// Blanks do not matter: two texts that spell the same phrase, with any
/// blanks before and between its tokens, parse to the same term.
pub proof fn lemma_layout_is_immaterial(
    x: Phrase,
    lead: Seq<char>,
    gaps: Seq<Seq<char>>,
    other_lead: Seq<char>,
    other_gaps: Seq<Seq<char>>,
)
    requires
        x.is_conditional(),
        all_blank(lead),
        is_layout(gaps, x.tokens().len()),
        all_blank(other_lead),
        is_layout(other_gaps, x.tokens().len()),
    ensures
        sentence(spell(lead, x.tokens(), gaps)) == sentence(
            spell(other_lead, x.tokens(), other_gaps),
        ),
        sentence(spell(lead, x.tokens(), gaps)) is Some,
{
    lemma_spelling_parses(x, lead, gaps);
    lemma_spelling_parses(x, other_lead, other_gaps);
}

/// What a rule leaves begins with no blank.
pub proof fn lemma_rest_is_trimmed(s: Seq<char>)
    ensures
        atom(s) matches Some((_, rest)) ==> rest.len() == 0 || !is_blank(rest[0]),
        sum(s) matches Some((_, rest)) ==> rest.len() == 0 || !is_blank(rest[0]),
        conditional(s) matches Some((_, rest)) ==> rest.len() == 0 || !is_blank(rest[0]),
    decreases s.len(), 1nat,
{
    lemma_skip_blanks(s);
    let start = skip_blanks(s);
    if let Some((_, after)) = integer_literal(start) {
        lemma_skip_blanks(after);
    }
    if "true"@.is_prefix_of(start) {
        lemma_skip_blanks(start.skip("true"@.len() as int));
    }
    if "false"@.is_prefix_of(start) {
        lemma_skip_blanks(start.skip("false"@.len() as int));
    }
    if number(s) is None && boolean(s) is None {
        if let Some(inside) = symbol(s, '(') {
            if inside.len() < s.len() {
                if let Some((_, rest)) = conditional(inside) {
                    lemma_symbol_trims(rest, ')');
                }
            }
        }
    }
    if let Some((_, rest)) = atom(s) {
        if let Some(after) = symbol(rest, '+') {
            if after.len() < s.len() {
                lemma_rest_is_trimmed(after);
            }
        }
    }
    if let Some((_, rest)) = sum(s) {
        lemma_rules_advance(s);
        lemma_branches_trim(rest, s.len());
    }
}

/// What a symbol leaves begins with no blank.
proof fn lemma_symbol_trims(s: Seq<char>, c: char)
    ensures
        symbol(s, c) matches Some(rest) ==> rest.len() == 0 || !is_blank(rest[0]),
{
    let start = skip_blanks(s);
    if start.len() > 0 {
        lemma_skip_blanks(start.skip(1));
    }
}

/// What the two branches of a conditional leave begins with no blank.
proof fn lemma_branches_trim(s: Seq<char>, bound: nat)
    requires
        bound > s.len(),
    ensures
        branches(s, bound) matches Some((_, _, rest)) ==> rest.len() == 0 || !is_blank(rest[0]),
    decreases bound, 0nat,
{
    if let Some(first) = symbol(s, '?') {
        if first.len() < bound {
            if let Some((_, middle)) = conditional(first) {
                if let Some(second) = symbol(middle, ':') {
                    if second.len() < bound {
                        lemma_symbol_advances(s, '?');
                        lemma_rules_advance(first);
                        lemma_symbol_advances(middle, ':');
                        lemma_rest_is_trimmed(second);
                    }
                }
            }
        }
    }
}

/// Trailing input fails the parse: where the conditional that a text
/// begins with leaves anything, the text as a whole is no sentence. What
/// is left begins with no blank, so blanks at the end never count as
/// trailing input.
pub proof fn lemma_leftover_fails(s: Seq<char>)
    ensures
        conditional(s) matches Some((_, rest)) ==> {
            &&& rest.len() > 0 ==> sentence(s) is None
            &&& rest.len() > 0 ==> !is_blank(rest[0])
            &&& rest.len() == 0 ==> sentence(s) is Some
        },
        conditional(s) is None ==> sentence(s) is None,
{
    lemma_rest_is_trimmed(s);
}

/// Trailing input after a text of the language fails the parse, where it
/// cannot go on the expression: it begins with none of a blank, `+` and
/// `?`, and with no digit unless a blank parts it from the last token.
pub proof fn lemma_trailing_text_fails(
    x: Phrase,
    lead: Seq<char>,
    gaps: Seq<Seq<char>>,
    trailing: Seq<char>,
)
    requires
        x.is_conditional(),
        all_blank(lead),
        is_layout(gaps, x.tokens().len()),
        trailing.len() > 0,
        ends_conditional(gaps.last(), trailing),
    ensures
        conditional(spell(lead, x.tokens(), gaps) + trailing) == Some((x.meaning(), trailing)),
        sentence(spell(lead, x.tokens(), gaps) + trailing) is None,
{
    lemma_conditional_reads(x, lead, gaps, trailing);
}

/// The phrase `( a + b ) + c`.
pub open spec fn grouped_left(a: Phrase, b: Phrase, c: Phrase) -> Phrase {
    Phrase::Sum {
        left: Box::new(
            Phrase::Group { inner: Box::new(Phrase::Sum { left: Box::new(a), right: Box::new(b) }) },
        ),
        right: Box::new(c),
    }
}

/// The phrase `a + b + c`.
pub open spec fn chained(a: Phrase, b: Phrase, c: Phrase) -> Phrase {
    Phrase::Sum { left: Box::new(a), right: Box::new(Phrase::Sum { left: Box::new(b), right: Box::new(c) }) }
}

/// The chain `a + b + c` is a sum that nests to the right.
pub proof fn lemma_chained(a: Phrase, b: Phrase, c: Phrase)
    requires
        a.is_atom(),
        b.is_atom(),
        c.is_sum(),
    ensures
        chained(a, b, c).is_conditional(),
        chained(a, b, c).tokens() == a.tokens() + seq![seq!['+']] + b.tokens() + seq![seq!['+']]
            + c.tokens(),
        chained(a, b, c).meaning() == (Term::Addition {
            left: Box::new(a.meaning()),
            right: Box::new(
                Term::Addition { left: Box::new(b.meaning()), right: Box::new(c.meaning()) },
            ),
        }),
{
    let tail = Phrase::Sum { left: Box::new(b), right: Box::new(c) };
    let chain = Phrase::Sum { left: Box::new(a), right: Box::new(tail) };
    assert(tail.is_sum());
    assert(chain.is_sum());
    lemma_levels(chain);
    assert(tail.tokens() == b.tokens() + seq![seq!['+']] + c.tokens());
    assert(chain.tokens() == a.tokens() + seq![seq!['+']] + tail.tokens());
    assert(chain.tokens() =~= a.tokens() + seq![seq!['+']] + b.tokens() + seq![seq!['+']]
        + c.tokens());
    assert(tail.meaning() == Term::Addition {
        left: Box::new(b.meaning()),
        right: Box::new(c.meaning()),
    });
    assert(chain.meaning() == Term::Addition {
        left: Box::new(a.meaning()),
        right: Box::new(tail.meaning()),
    });
}

/// The phrase `( a + b ) + c` is a sum whose left operand is a sum.
pub proof fn lemma_grouped_left(a: Phrase, b: Phrase, c: Phrase)
    requires
        a.is_atom(),
        b.is_atom(),
        c.is_sum(),
    ensures
        grouped_left(a, b, c).is_conditional(),
        grouped_left(a, b, c).tokens() == seq![seq!['(']] + a.tokens() + seq![seq!['+']]
            + b.tokens() + seq![seq![')']] + seq![seq!['+']] + c.tokens(),
        grouped_left(a, b, c).meaning() == (Term::Addition {
            left: Box::new(
                Term::Addition { left: Box::new(a.meaning()), right: Box::new(b.meaning()) },
            ),
            right: Box::new(c.meaning()),
        }),
{
    let inner = Phrase::Sum { left: Box::new(a), right: Box::new(b) };
    let group = Phrase::Group { inner: Box::new(inner) };
    let grouped = Phrase::Sum { left: Box::new(group), right: Box::new(c) };
    lemma_levels(b);
    assert(inner.is_sum());
    lemma_levels(inner);
    assert(group.is_atom());
    assert(grouped.is_sum());
    lemma_levels(grouped);
    assert(inner.tokens() == a.tokens() + seq![seq!['+']] + b.tokens());
    assert(group.tokens() == seq![seq!['(']] + inner.tokens() + seq![seq![')']]);
    assert(grouped.tokens() == group.tokens() + seq![seq!['+']] + c.tokens());
    assert(grouped.tokens() =~= seq![seq!['(']] + a.tokens() + seq![seq!['+']] + b.tokens()
        + seq![seq![')']] + seq![seq!['+']] + c.tokens());
    assert(inner.meaning() == Term::Addition {
        left: Box::new(a.meaning()),
        right: Box::new(b.meaning()),
    });
    assert(group.meaning() == inner.meaning());
    assert(grouped.meaning() == Term::Addition {
        left: Box::new(group.meaning()),
        right: Box::new(c.meaning()),
    });
}

/// Parentheses force addition to group to the left. For atoms `a` and `b`
/// and a sum `c`, the chain `a + b + c` parses to `a + (b + c)`; with
/// parentheses around `a + b`, the same operands parse to `(a + b) + c`,
/// which is another term.
pub proof fn lemma_parentheses_regroup(
    a: Phrase,
    b: Phrase,
    c: Phrase,
    lead: Seq<char>,
    gaps: Seq<Seq<char>>,
    other_lead: Seq<char>,
    other_gaps: Seq<Seq<char>>,
)
    requires
        a.is_atom(),
        b.is_atom(),
        c.is_sum(),
        all_blank(lead),
        is_layout(gaps, chained(a, b, c).tokens().len()),
        all_blank(other_lead),
        is_layout(other_gaps, grouped_left(a, b, c).tokens().len()),
    ensures
        sentence(spell(lead, chained(a, b, c).tokens(), gaps)) == Some(
            Term::Addition {
                left: Box::new(a.meaning()),
                right: Box::new(
                    Term::Addition {
                        left: Box::new(b.meaning()),
                        right: Box::new(c.meaning()),
                    },
                ),
            },
        ),
        sentence(spell(other_lead, grouped_left(a, b, c).tokens(), other_gaps)) == Some(
            Term::Addition {
                left: Box::new(
                    Term::Addition {
                        left: Box::new(a.meaning()),
                        right: Box::new(b.meaning()),
                    },
                ),
                right: Box::new(c.meaning()),
            },
        ),
        sentence(spell(lead, chained(a, b, c).tokens(), gaps)) != sentence(
            spell(other_lead, grouped_left(a, b, c).tokens(), other_gaps),
        ),
{
    lemma_chained(a, b, c);
    lemma_grouped_left(a, b, c);
    lemma_spelling_parses(chained(a, b, c), lead, gaps);
    lemma_spelling_parses(grouped_left(a, b, c), other_lead, other_gaps);
    let within = Term::Addition { left: Box::new(a.meaning()), right: Box::new(b.meaning()) };
    assert(within.height() > a.meaning().height());
}

/// A sum is read to the end of its chain: after it, no `+` with a sum
/// behind it is left to read. So to read `+` and a sum once, and to read
/// them as often as they come, is the same.
pub proof fn lemma_sum_reads_whole_chain(s: Seq<char>)
    ensures
        sum(s) matches Some((_, rest)) ==> !(symbol(rest, '+') matches Some(after) && sum(after)
            is Some),
    decreases s.len(),
{
    if let Some((_, rest)) = atom(s) {
        if let Some(after) = symbol(rest, '+') {
            lemma_rules_advance(s);
            lemma_symbol_advances(rest, '+');
            lemma_sum_reads_whole_chain(after);
        }
    }
}

} // verus!
