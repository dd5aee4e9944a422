//! The grammar, as rules on a text.
//!
//! ```text
//! conditional := sum ( '?' conditional ':' conditional )?
//! sum         := atom ( '+' sum )?
//! atom        := number | 'true' | 'false' | '(' conditional ')'
//! ```
//!
//! Blanks may stand before and after every token. A rule reads a prefix of
//! the text and gives back the term it read with the rest of the text, or
//! nothing where the text does not begin as the rule asks.
use vstd::prelude::*;
use crate::term::Term;
use crate::text::{integer_literal, skip_blanks, lemma_skip_blanks, lemma_integer_literal_advances};

verus! {

/// The character `c` with blanks around it: the text after it, where `s`
/// begins with it.
pub open spec fn symbol(s: Seq<char>, c: char) -> Option<Seq<char>> {
    let t = skip_blanks(s);
    if t.len() > 0 && t[0] == c {
        Some(skip_blanks(t.skip(1)))
    } else {
        None
    }
}

/// The word `word` with blanks around it: the text after it, where `s`
/// begins with it.
pub open spec fn keyword(s: Seq<char>, word: Seq<char>) -> Option<Seq<char>> {
    let t = skip_blanks(s);
    if word.is_prefix_of(t) {
        Some(skip_blanks(t.skip(word.len() as int)))
    } else {
        None
    }
}

/// An integer literal with blanks around it.
pub open spec fn number(s: Seq<char>) -> Option<(Term, Seq<char>)> {
    match integer_literal(skip_blanks(s)) {
        Some((value, rest)) => Some((Term::Number { value }, skip_blanks(rest))),
        None => None,
    }
}

/// The word `true` or the word `false`, with blanks around it.
pub open spec fn boolean(s: Seq<char>) -> Option<(Term, Seq<char>)> {
    match keyword(s, "true"@) {
        Some(rest) => Some((Term::True, rest)),
        None => match keyword(s, "false"@) {
            Some(rest) => Some((Term::False, rest)),
            None => None,
        },
    }
}

/// A number, a boolean or a conditional in parentheses, tried in this order.
///
/// In this rule and the two below, a rule is applied again only to a text
/// shorter than `s`. That test shows that the rules end; it never fails, so
/// the rules are those of [`lemma_rules_unfold`], which have no such test.
pub open spec fn atom(s: Seq<char>) -> Option<(Term, Seq<char>)>
    decreases s.len(), 0nat,
{
    match number(s) {
        Some(found) => Some(found),
        None => match boolean(s) {
            Some(found) => Some(found),
            None => match symbol(s, '(') {
                Some(inside) if inside.len() < s.len() => match conditional(inside) {
                    Some((term, rest)) => match symbol(rest, ')') {
                        Some(after) => Some((term, after)),
                        None => None,
                    },
                    None => None,
                },
                _ => None,
            },
        },
    }
}

/// An atom, and after it, where they are there, `+` and a sum: the atom is
/// the left operand and the whole sum that follows is the right one, so a
/// chain of additions nests to the right. Where no `+` and sum follow, the
/// atom alone.
pub open spec fn sum(s: Seq<char>) -> Option<(Term, Seq<char>)>
    decreases s.len(), 1nat,
{
    match atom(s) {
        Some((left, rest)) => match symbol(rest, '+') {
            Some(after) if after.len() < s.len() => match sum(after) {
                Some((right, end)) => Some(
                    (Term::Addition { left: Box::new(left), right: Box::new(right) }, end),
                ),
                None => Some((left, rest)),
            },
            _ => Some((left, rest)),
        },
        None => None,
    }
}

/// A `?`, a conditional, a `:` and a conditional: the two branches that
/// follow a condition, and the text after them. `bound` is the length
/// under which the texts of the branches must stay.
pub open spec fn branches(s: Seq<char>, bound: nat) -> Option<(Term, Term, Seq<char>)>
    decreases bound, 0nat,
{
    match symbol(s, '?') {
        Some(first) if first.len() < bound => match conditional(first) {
            Some((consequent, middle)) => match symbol(middle, ':') {
                Some(second) if second.len() < bound => match conditional(second) {
                    Some((alternative, end)) => Some((consequent, alternative, end)),
                    None => None,
                },
                _ => None,
            },
            None => None,
        },
        _ => None,
    }
}

/// A sum, and after it, where they are there, the two branches of which it
/// is the condition. Where no complete pair of branches follows, the sum
/// alone.
pub open spec fn conditional(s: Seq<char>) -> Option<(Term, Seq<char>)>
    decreases s.len(), 2nat,
{
    match sum(s) {
        Some((condition, rest)) => match branches(rest, s.len()) {
            Some((consequent, alternative, end)) => Some(
                (
                    Term::Condition {
                        condition: Box::new(condition),
                        consequent: Box::new(consequent),
                        alternative: Box::new(alternative),
                    },
                    end,
                ),
            ),
            None => Some((condition, rest)),
        },
        None => None,
    }
}

/// The term that the whole of `s` spells: a conditional that leaves nothing
/// of the text.
pub open spec fn sentence(s: Seq<char>) -> Option<Term> {
    match conditional(s) {
        Some((term, rest)) if rest.len() == 0 => Some(term),
        _ => None,
    }
}

/// A symbol takes at least one character.
pub proof fn lemma_symbol_advances(s: Seq<char>, c: char)
    ensures
        symbol(s, c) matches Some(rest) ==> rest.len() < s.len(),
{
    lemma_skip_blanks(s);
    let t = skip_blanks(s);
    if t.len() > 0 {
        lemma_skip_blanks(t.skip(1));
    }
}

/// A keyword takes at least as many characters as the word has.
pub proof fn lemma_keyword_advances(s: Seq<char>, word: Seq<char>)
    ensures
        keyword(s, word) matches Some(rest) ==> rest.len() + word.len() <= s.len(),
{
    lemma_skip_blanks(s);
    let t = skip_blanks(s);
    if word.is_prefix_of(t) {
        lemma_skip_blanks(t.skip(word.len() as int));
    }
}

/// A number or a boolean takes at least one character.
pub proof fn lemma_tokens_advance(s: Seq<char>)
    ensures
        number(s) matches Some((_, rest)) ==> rest.len() < s.len(),
        boolean(s) matches Some((_, rest)) ==> rest.len() < s.len(),
{
    reveal_strlit("true");
    reveal_strlit("false");
    lemma_keyword_advances(s, "true"@);
    lemma_keyword_advances(s, "false"@);
    lemma_skip_blanks(s);
    lemma_integer_literal_advances(skip_blanks(s));
    if let Some((_, rest)) = integer_literal(skip_blanks(s)) {
        lemma_skip_blanks(rest);
    }
}

/// Every rule that reads something leaves a shorter text.
pub proof fn lemma_rules_advance(s: Seq<char>)
    ensures
        atom(s) matches Some((_, rest)) ==> rest.len() < s.len(),
        sum(s) matches Some((_, rest)) ==> rest.len() < s.len(),
        conditional(s) matches Some((_, rest)) ==> rest.len() < s.len(),
    decreases s.len(), 1nat,
{
    lemma_tokens_advance(s);
    lemma_symbol_advances(s, '(');
    if number(s) is None && boolean(s) is None {
        if let Some(inside) = symbol(s, '(') {
            lemma_rules_advance(inside);
            if let Some((_, rest)) = conditional(inside) {
                lemma_symbol_advances(rest, ')');
            }
        }
    }
    if let Some((_, rest)) = atom(s) {
        lemma_symbol_advances(rest, '+');
        if let Some(after) = symbol(rest, '+') {
            lemma_rules_advance(after);
        }
    }
    if let Some((_, rest)) = sum(s) {
        lemma_branches_advance(rest, s.len());
    }
}

/// The rules as the grammar writes them, with no test on the length: an
/// atom in parentheses is any conditional between `(` and `)`, a sum is an
/// atom with any sum after `+`, and the branches of a conditional are any
/// two conditionals after `?` and `:`.
pub proof fn lemma_rules_unfold(s: Seq<char>)
    ensures
        atom(s) == match number(s) {
            Some(found) => Some(found),
            None => match boolean(s) {
                Some(found) => Some(found),
                None => match symbol(s, '(') {
                    Some(inside) => match conditional(inside) {
                        Some((term, rest)) => match symbol(rest, ')') {
                            Some(after) => Some((term, after)),
                            None => None,
                        },
                        None => None,
                    },
                    None => None,
                },
            },
        },
        sum(s) == match atom(s) {
            Some((left, rest)) => match symbol(rest, '+') {
                Some(after) => match sum(after) {
                    Some((right, end)) => Some(
                        (Term::Addition { left: Box::new(left), right: Box::new(right) }, end),
                    ),
                    None => Some((left, rest)),
                },
                None => Some((left, rest)),
            },
            None => None,
        },
        conditional(s) == match sum(s) {
            Some((condition, rest)) => match symbol(rest, '?') {
                Some(first) => match conditional(first) {
                    Some((consequent, middle)) => match symbol(middle, ':') {
                        Some(second) => match conditional(second) {
                            Some((alternative, end)) => Some(
                                (
                                    Term::Condition {
                                        condition: Box::new(condition),
                                        consequent: Box::new(consequent),
                                        alternative: Box::new(alternative),
                                    },
                                    end,
                                ),
                            ),
                            None => Some((condition, rest)),
                        },
                        None => Some((condition, rest)),
                    },
                    None => Some((condition, rest)),
                },
                None => Some((condition, rest)),
            },
            None => None,
        },
{
    lemma_rules_advance(s);
    lemma_symbol_advances(s, '(');
    if let Some((_, rest)) = atom(s) {
        lemma_symbol_advances(rest, '+');
    }
    if let Some((_, rest)) = sum(s) {
        lemma_symbol_advances(rest, '?');
        if let Some(first) = symbol(rest, '?') {
            lemma_rules_advance(first);
            if let Some((_, middle)) = conditional(first) {
                lemma_symbol_advances(middle, ':');
            }
        }
    }
}

/// The two branches of a conditional leave a shorter text.
pub proof fn lemma_branches_advance(s: Seq<char>, bound: nat)
    ensures
        branches(s, bound) matches Some((_, _, rest)) ==> rest.len() < s.len(),
    decreases s.len(), 0nat,
{
    lemma_symbol_advances(s, '?');
    if let Some(first) = symbol(s, '?') {
        lemma_rules_advance(first);
        if let Some((_, middle)) = conditional(first) {
            lemma_symbol_advances(middle, ':');
            if let Some(second) = symbol(middle, ':') {
                lemma_rules_advance(second);
            }
        }
    }
}

} // verus!
