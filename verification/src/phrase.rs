//! The grammar once more, as the phrases that it generates.
//!
//! A [`Phrase`] is a derivation: it keeps the parentheses and the digits
//! that a [`Term`] forgets. Its tokens, written out with any blanks before
//! and between them, are one text of the language.
use vstd::prelude::*;
use crate::term::Term;
use crate::text::{all_blank, all_digits, decimal_value, is_blank, is_digit};

verus! {

/// A derivation of the grammar.
pub enum Phrase {
    /// An integer literal: `-` where `negative`, then the digits.
    Numeral { negative: bool, digits: Seq<char> },
    /// The word `true`.
    True,
    /// The word `false`.
    False,
    /// A phrase in parentheses.
    Group { inner: Box<Phrase> },
    /// Two phrases with `+` between them.
    Sum { left: Box<Phrase>, right: Box<Phrase> },
    /// Three phrases with `?` and `:` between them.
    Choice { condition: Box<Phrase>, consequent: Box<Phrase>, alternative: Box<Phrase> },
}

/// The number that a literal of these digits stands for.
pub open spec fn numeral_value(negative: bool, digits: Seq<char>) -> int {
    if negative {
        -decimal_value(digits)
    } else {
        decimal_value(digits)
    }
}

/// The text of a literal: `-` where `negative`, then the digits.
pub open spec fn numeral_text(negative: bool, digits: Seq<char>) -> Seq<char> {
    if negative {
        seq!['-'] + digits
    } else {
        digits
    }
}

impl Phrase {
    /// `atom := number | 'true' | 'false' | '(' conditional ')'`, where a
    /// number has at least one digit and fits in a signed 64-bit integer.
    pub open spec fn is_atom(self) -> bool
        decreases self, 0nat,
    {
        match self {
            Phrase::Numeral { negative, digits } => {
                &&& digits.len() > 0
                &&& all_digits(digits)
                &&& i64::MIN <= numeral_value(negative, digits) <= i64::MAX
            },
            Phrase::True | Phrase::False => true,
            Phrase::Group { inner } => inner.is_conditional(),
            _ => false,
        }
    }

    /// `sum := atom ( '+' sum )?`: the left operand of `+` is an atom, the
    /// right one a whole sum.
    pub open spec fn is_sum(self) -> bool
        decreases self, 1nat,
    {
        ||| self.is_atom()
        ||| self matches Phrase::Sum { left, right } && left.is_atom() && right.is_sum()
    }

    /// `conditional := sum ( '?' conditional ':' conditional )?`: the
    /// condition is a sum, each branch a whole conditional.
    pub open spec fn is_conditional(self) -> bool
        decreases self, 2nat,
    {
        ||| self.is_sum()
        ||| self matches Phrase::Choice { condition, consequent, alternative }
            && condition.is_sum() && consequent.is_conditional() && alternative.is_conditional()
    }

    /// The term that the phrase stands for: the phrase without its
    /// parentheses, each literal replaced by its value.
    pub open spec fn meaning(self) -> Term
        decreases self,
    {
        match self {
            Phrase::Numeral { negative, digits } => Term::Number {
                value: numeral_value(negative, digits) as i64,
            },
            Phrase::True => Term::True,
            Phrase::False => Term::False,
            Phrase::Group { inner } => inner.meaning(),
            Phrase::Sum { left, right } => Term::Addition {
                left: Box::new(left.meaning()),
                right: Box::new(right.meaning()),
            },
            Phrase::Choice { condition, consequent, alternative } => Term::Condition {
                condition: Box::new(condition.meaning()),
                consequent: Box::new(consequent.meaning()),
                alternative: Box::new(alternative.meaning()),
            },
        }
    }

    /// The tokens of the phrase, from left to right.
    pub open spec fn tokens(self) -> Seq<Seq<char>>
        decreases self,
    {
        match self {
            Phrase::Numeral { negative, digits } => seq![numeral_text(negative, digits)],
            Phrase::True => seq!["true"@],
            Phrase::False => seq!["false"@],
            Phrase::Group { inner } => seq![seq!['(']] + inner.tokens() + seq![seq![')']],
            Phrase::Sum { left, right } => left.tokens() + seq![seq!['+']] + right.tokens(),
            Phrase::Choice { condition, consequent, alternative } => condition.tokens()
                + seq![seq!['?']] + consequent.tokens() + seq![seq![':']] + alternative.tokens(),
        }
    }
}

/// One run of blanks for each of `count` tokens.
pub open spec fn is_layout(gaps: Seq<Seq<char>>, count: nat) -> bool {
    &&& gaps.len() == count
    &&& forall|i: int| 0 <= i < gaps.len() ==> all_blank(#[trigger] gaps[i])
}

/// The tokens in order, each followed by the gap of the same index.
pub open spec fn weave(tokens: Seq<Seq<char>>, gaps: Seq<Seq<char>>) -> Seq<char>
    decreases tokens.len(),
{
    if tokens.len() == 0 {
        Seq::empty()
    } else {
        tokens[0] + gaps[0] + weave(tokens.skip(1), gaps.skip(1))
    }
}

/// A text that spells the tokens: the blanks of `lead`, then the tokens,
/// each followed by its gap.
pub open spec fn spell(lead: Seq<char>, tokens: Seq<Seq<char>>, gaps: Seq<Seq<char>>) -> Seq<char> {
    lead + weave(tokens, gaps)
}

/// A text of the language: `s` spells the conditional phrase `x`, with
/// the blanks of `lead` before its first token and those of `gaps` after
/// each token.
pub open spec fn spells(s: Seq<char>, x: Phrase, lead: Seq<char>, gaps: Seq<Seq<char>>) -> bool {
    &&& x.is_conditional()
    &&& all_blank(lead)
    &&& is_layout(gaps, x.tokens().len())
    &&& s == spell(lead, x.tokens(), gaps)
}

/// What the three levels ask of each form of phrase.
pub proof fn lemma_levels(x: Phrase)
    ensures
        x.is_atom() ==> x.is_sum(),
        x.is_sum() ==> x.is_conditional(),
        x.is_conditional() ==> match x {
            Phrase::Numeral { negative, digits } => {
                &&& digits.len() > 0
                &&& all_digits(digits)
                &&& i64::MIN <= numeral_value(negative, digits) <= i64::MAX
            },
            Phrase::True | Phrase::False => true,
            Phrase::Group { inner } => inner.is_conditional(),
            Phrase::Sum { left, right } => left.is_atom() && right.is_sum(),
            Phrase::Choice { condition, consequent, alternative } => {
                &&& condition.is_sum()
                &&& consequent.is_conditional()
                &&& alternative.is_conditional()
            },
        },
        x is Sum ==> !x.is_atom(),
        x is Choice ==> !x.is_sum(),
{
    reveal_with_fuel(Phrase::is_atom, 4);
    reveal_with_fuel(Phrase::is_sum, 4);
    reveal_with_fuel(Phrase::is_conditional, 4);
}

/// One token with its gap.
pub proof fn lemma_weave_one(token: Seq<char>, gaps: Seq<Seq<char>>)
    requires
        gaps.len() == 1,
    ensures
        weave(seq![token], gaps) == token + gaps[0],
{
    let tokens = seq![token];
    assert(tokens.skip(1).len() == 0);
    assert(weave(tokens.skip(1), gaps.skip(1)) == Seq::<char>::empty());
    assert(token + gaps[0] + Seq::<char>::empty() =~= token + gaps[0]);
}

/// Weaving two runs of tokens is weaving each with its part of the gaps.
pub proof fn lemma_weave_concat(first: Seq<Seq<char>>, second: Seq<Seq<char>>, gaps: Seq<Seq<char>>)
    requires
        gaps.len() == first.len() + second.len(),
    ensures
        weave(first + second, gaps) == weave(first, gaps.take(first.len() as int)) + weave(
            second,
            gaps.skip(first.len() as int),
        ),
    decreases first.len(),
{
    let count = first.len() as int;
    if count == 0 {
        assert(first + second =~= second);
        assert(gaps.skip(0) =~= gaps);
        assert(Seq::<char>::empty() + weave(second, gaps) =~= weave(second, gaps));
    } else {
        lemma_weave_concat(first.skip(1), second, gaps.skip(1));
        assert((first + second).skip(1) =~= first.skip(1) + second);
        assert(gaps.skip(1).take(count - 1) =~= gaps.take(count).skip(1));
        assert(gaps.skip(1).skip(count - 1) =~= gaps.skip(count));
        assert((first + second)[0] == first[0]);
        assert(gaps.take(count)[0] == gaps[0]);
        let head = first[0] + gaps[0];
        let middle = weave(first.skip(1), gaps.take(count).skip(1));
        let end = weave(second, gaps.skip(count));
        assert(weave(first + second, gaps) == head + (middle + end));
        assert(weave(first, gaps.take(count)) == head + middle);
        assert(head + (middle + end) =~= head + middle + end);
    }
}

/// A part of a layout is a layout.
pub proof fn lemma_layout_parts(gaps: Seq<Seq<char>>, from: int, to: int)
    requires
        is_layout(gaps, gaps.len()),
        0 <= from <= to <= gaps.len(),
    ensures
        is_layout(gaps.subrange(from, to), (to - from) as nat),
{
    let part = gaps.subrange(from, to);
    assert forall|i: int| 0 <= i < part.len() implies all_blank(#[trigger] part[i]) by {
        assert(part[i] == gaps[from + i]);
    }
}

/// A phrase begins with a token, and the token with a character that is
/// no blank.
pub proof fn lemma_first_token(x: Phrase)
    requires
        x.is_conditional(),
    ensures
        x.tokens().len() > 0,
        x.tokens()[0].len() > 0,
        !is_blank(x.tokens()[0][0]),
    decreases x,
{
    reveal_strlit("true");
    reveal_strlit("false");
    lemma_levels(x);
    match x {
        Phrase::Numeral { negative, digits } => {
            assert(is_digit(digits[0]));
        },
        Phrase::True => {},
        Phrase::False => {},
        Phrase::Group { inner } => {},
        Phrase::Sum { left, right } => {
            lemma_levels(*left);
            lemma_first_token(*left);
        },
        Phrase::Choice { condition, consequent, alternative } => {
            lemma_levels(*condition);
            lemma_first_token(*condition);
        },
    }
}

/// The text of a phrase begins with a character that is no blank.
pub proof fn lemma_first_char(x: Phrase, gaps: Seq<Seq<char>>)
    requires
        x.is_conditional(),
        gaps.len() == x.tokens().len(),
    ensures
        weave(x.tokens(), gaps).len() > 0,
        !is_blank(weave(x.tokens(), gaps)[0]),
{
    lemma_first_token(x);
}

/// Weaving two runs of tokens, each with gaps of its own.
pub proof fn lemma_weave_join(
    first: Seq<Seq<char>>,
    first_gaps: Seq<Seq<char>>,
    second: Seq<Seq<char>>,
    second_gaps: Seq<Seq<char>>,
)
    requires
        first_gaps.len() == first.len(),
        second_gaps.len() == second.len(),
    ensures
        weave(first + second, first_gaps + second_gaps) == weave(first, first_gaps) + weave(
            second,
            second_gaps,
        ),
{
    let gaps = first_gaps + second_gaps;
    lemma_weave_concat(first, second, gaps);
    assert(gaps.take(first.len() as int) =~= first_gaps);
    assert(gaps.skip(first.len() as int) =~= second_gaps);
}

/// Two layouts, one after the other, are a layout.
pub proof fn lemma_layout_join(first: Seq<Seq<char>>, second: Seq<Seq<char>>)
    requires
        is_layout(first, first.len()),
        is_layout(second, second.len()),
    ensures
        is_layout(first + second, first.len() + second.len()),
{
    let gaps = first + second;
    assert forall|i: int| 0 <= i < gaps.len() implies all_blank(#[trigger] gaps[i]) by {
        if i < first.len() {
            assert(gaps[i] == first[i]);
        } else {
            assert(gaps[i] == second[i - first.len()]);
        }
    }
}

/// One gap is a layout for one token.
pub proof fn lemma_layout_one(gap: Seq<char>)
    requires
        all_blank(gap),
    ensures
        is_layout(seq![gap], 1),
{
}

/// The text of a group: the text of the phrase inside, in parentheses.
pub proof fn lemma_group_text(
    inner: Phrase,
    open_gap: Seq<char>,
    inner_gaps: Seq<Seq<char>>,
    close_gap: Seq<char>,
)
    requires
        all_blank(open_gap),
        is_layout(inner_gaps, inner.tokens().len()),
        all_blank(close_gap),
    ensures
        ({
            let x = Phrase::Group { inner: Box::new(inner) };
            let gaps = seq![open_gap] + inner_gaps + seq![close_gap];
            &&& is_layout(gaps, x.tokens().len())
            &&& weave(x.tokens(), gaps) == seq!['('] + open_gap + weave(inner.tokens(), inner_gaps)
                + (seq![')'] + close_gap)
        }),
{
    lemma_layout_one(open_gap);
    lemma_layout_one(close_gap);
    lemma_layout_join(seq![open_gap], inner_gaps);
    lemma_layout_join(seq![open_gap] + inner_gaps, seq![close_gap]);
    lemma_weave_join(
        seq![seq!['(']] + inner.tokens(),
        seq![open_gap] + inner_gaps,
        seq![seq![')']],
        seq![close_gap],
    );
    lemma_weave_join(seq![seq!['(']], seq![open_gap], inner.tokens(), inner_gaps);
    lemma_weave_one(seq!['('], seq![open_gap]);
    lemma_weave_one(seq![')'], seq![close_gap]);
}

/// The text of a sum: the texts of the operands, with `+` between them.
pub proof fn lemma_sum_text(
    left: Phrase,
    right: Phrase,
    left_gaps: Seq<Seq<char>>,
    gap: Seq<char>,
    right_gaps: Seq<Seq<char>>,
)
    requires
        is_layout(left_gaps, left.tokens().len()),
        all_blank(gap),
        is_layout(right_gaps, right.tokens().len()),
    ensures
        ({
            let x = Phrase::Sum { left: Box::new(left), right: Box::new(right) };
            let gaps = left_gaps + seq![gap] + right_gaps;
            &&& is_layout(gaps, x.tokens().len())
            &&& weave(x.tokens(), gaps) == weave(left.tokens(), left_gaps) + (seq!['+'] + gap)
                + weave(right.tokens(), right_gaps)
        }),
{
    lemma_layout_one(gap);
    lemma_layout_join(left_gaps, seq![gap]);
    lemma_layout_join(left_gaps + seq![gap], right_gaps);
    lemma_weave_join(
        left.tokens() + seq![seq!['+']],
        left_gaps + seq![gap],
        right.tokens(),
        right_gaps,
    );
    lemma_weave_join(left.tokens(), left_gaps, seq![seq!['+']], seq![gap]);
    lemma_weave_one(seq!['+'], seq![gap]);
}

/// The text of a choice: the texts of the condition and the two
/// branches, with `?` and `:` between them.
pub proof fn lemma_choice_text(
    condition: Phrase,
    consequent: Phrase,
    alternative: Phrase,
    condition_gaps: Seq<Seq<char>>,
    first_gap: Seq<char>,
    consequent_gaps: Seq<Seq<char>>,
    second_gap: Seq<char>,
    alternative_gaps: Seq<Seq<char>>,
)
    requires
        is_layout(condition_gaps, condition.tokens().len()),
        all_blank(first_gap),
        is_layout(consequent_gaps, consequent.tokens().len()),
        all_blank(second_gap),
        is_layout(alternative_gaps, alternative.tokens().len()),
    ensures
        ({
            let x = Phrase::Choice {
                condition: Box::new(condition),
                consequent: Box::new(consequent),
                alternative: Box::new(alternative),
            };
            let gaps = condition_gaps + seq![first_gap] + consequent_gaps + seq![second_gap]
                + alternative_gaps;
            &&& is_layout(gaps, x.tokens().len())
            &&& weave(x.tokens(), gaps) == weave(condition.tokens(), condition_gaps) + (seq!['?']
                + first_gap) + weave(consequent.tokens(), consequent_gaps) + (seq![':']
                + second_gap) + weave(alternative.tokens(), alternative_gaps)
        }),
{
    let front = condition.tokens() + seq![seq!['?']] + consequent.tokens();
    let front_gaps = condition_gaps + seq![first_gap] + consequent_gaps;
    lemma_layout_one(first_gap);
    lemma_layout_one(second_gap);
    lemma_layout_join(condition_gaps, seq![first_gap]);
    lemma_layout_join(condition_gaps + seq![first_gap], consequent_gaps);
    lemma_layout_join(front_gaps, seq![second_gap]);
    lemma_layout_join(front_gaps + seq![second_gap], alternative_gaps);
    lemma_weave_join(
        front + seq![seq![':']],
        front_gaps + seq![second_gap],
        alternative.tokens(),
        alternative_gaps,
    );
    lemma_weave_join(front, front_gaps, seq![seq![':']], seq![second_gap]);
    lemma_weave_join(
        condition.tokens() + seq![seq!['?']],
        condition_gaps + seq![first_gap],
        consequent.tokens(),
        consequent_gaps,
    );
    lemma_weave_join(condition.tokens(), condition_gaps, seq![seq!['?']], seq![first_gap]);
    lemma_weave_one(seq!['?'], seq![first_gap]);
    lemma_weave_one(seq![':'], seq![second_gap]);
}

} // verus!
