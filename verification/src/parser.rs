//! The parser: one function for each rule of the grammar.
use vstd::prelude::*;
use crate::derivation::lemma_sentences_are_spellings;
use crate::grammar;
use crate::grammar::{lemma_rules_advance, lemma_symbol_advances};
use crate::phrase::{spells, Phrase};
use crate::scan;
use crate::term::Term;

verus! {

/// The one failure of a parse. It says neither where the text went wrong
/// nor what was expected there.
#[derive(Debug, PartialEq)]
pub struct ParseError;

impl Clone for ParseError {
    fn clone(&self) -> (copy: Self)
        ensures
            copy == *self,
    {
        ParseError
    }
}

/// What a rule read: the term as it is, the rest of the text as the
/// sequence of its characters.
pub open spec fn reading(found: Option<(Term, &str)>) -> Option<(Term, Seq<char>)> {
    match found {
        Some((term, rest)) => Some((term, rest@)),
        None => None,
    }
}

/// Parses the whole of `input` as one expression.
///
/// The result is the term that the text spells: `Ok` with the meaning of
/// the phrase where the text is the tokens of a conditional phrase with
/// any blanks before and between them, and `Err` for every other text.
/// In terms of the rules: the text must begin with a conditional, and
/// nothing may be left after it and the blanks that follow it.
pub fn parse(input: &str) -> (result: Result<Term, ParseError>)
    ensures
        result == match grammar::sentence(input@) {
            Some(term) => Ok::<Term, ParseError>(term),
            None => Err(ParseError),
        },
        forall|x: Phrase, lead: Seq<char>, gaps: Seq<Seq<char>>| #[trigger]
            spells(input@, x, lead, gaps) ==> result == Ok::<Term, ParseError>(x.meaning()),
        result is Ok ==> exists|x: Phrase, lead: Seq<char>, gaps: Seq<Seq<char>>| #[trigger]
            spells(input@, x, lead, gaps) && result == Ok::<Term, ParseError>(x.meaning()),
        grammar::conditional(input@) matches Some((_, rest)) ==> (result is Ok <==> rest.len()
            == 0),
        grammar::conditional(input@) is None ==> result is Err,
{
    let result = match expr(input) {
        Some((term, rest)) => if scan::eof(rest) {
            Ok(term)
        } else {
            Err(ParseError)
        },
        None => Err(ParseError),
    };
    proof {
        lemma_sentences_are_spellings(input@);
    }
    result
}

/// The condition level: a sum, and the two branches after it where there
/// are any.
pub fn expr<'a>(input: &'a str) -> (found: Option<(Term, &'a str)>)
    ensures
        reading(found) == grammar::conditional(input@),
    decreases input@.len(), 2nat,
{
    let (condition, rest) = term(input)?;
    proof {
        lemma_rules_advance(input@);
    }
    match branches(rest, Ghost(input@.len())) {
        Some((consequent, alternative, end)) => Some(
            (
                Term::Condition {
                    condition: Box::new(condition),
                    consequent: Box::new(consequent),
                    alternative: Box::new(alternative),
                },
                end,
            ),
        ),
        None => Some((condition, rest)),
    }
}

/// The two branches of a conditional: `?`, an expression, `:` and an
/// expression.
fn branches<'a>(input: &'a str, Ghost(bound): Ghost<nat>) -> (found: Option<(Term, Term, &'a str)>)
    requires
        input@.len() < bound,
    ensures
        grammar::branches(input@, bound) == match found {
            Some((consequent, alternative, end)) => Some((consequent, alternative, end@)),
            None => None,
        },
    decreases bound, 0nat,
{
    let first = symbol(input, '?')?;
    proof {
        lemma_symbol_advances(input@, '?');
    }
    let (consequent, middle) = expr(first)?;
    proof {
        lemma_rules_advance(first@);
        lemma_symbol_advances(middle@, ':');
    }
    let second = symbol(middle, ':')?;
    let (alternative, end) = expr(second)?;
    Some((consequent, alternative, end))
}

/// The addition level: an atom, and `+` with the sum after it where there
/// is one.
pub fn term<'a>(input: &'a str) -> (found: Option<(Term, &'a str)>)
    ensures
        reading(found) == grammar::sum(input@),
    decreases input@.len(), 1nat,
{
    let (left, rest) = factor(input)?;
    proof {
        lemma_rules_advance(input@);
        lemma_symbol_advances(rest@, '+');
    }
    match symbol(rest, '+') {
        Some(after) => match term(after) {
            Some((right, end)) => Some(
                (Term::Addition { left: Box::new(left), right: Box::new(right) }, end),
            ),
            None => Some((left, rest)),
        },
        None => Some((left, rest)),
    }
}

/// The atom level: a number, a boolean or an expression in parentheses.
pub fn factor<'a>(input: &'a str) -> (found: Option<(Term, &'a str)>)
    ensures
        reading(found) == grammar::atom(input@),
    decreases input@.len(), 0nat,
{
    if let Some(found) = number(input) {
        return Some(found);
    }
    if let Some(found) = boolean(input) {
        return Some(found);
    }
    let inside = symbol(input, '(')?;
    proof {
        lemma_symbol_advances(input@, '(');
    }
    let (term, rest) = expr(inside)?;
    let after = symbol(rest, ')')?;
    Some((term, after))
}

/// An integer literal with blanks around it.
pub fn number<'a>(input: &'a str) -> (found: Option<(Term, &'a str)>)
    ensures
        reading(found) == grammar::number(input@),
{
    let start = scan::multispace0(input)?;
    if scan::char(start, '+').is_some() {
        return None;
    }
    let (value, after) = scan::i64(start)?;
    let rest = scan::multispace0(after)?;
    Some((Term::Number { value }, rest))
}

/// The word `true` or the word `false`, with blanks around it.
pub fn boolean<'a>(input: &'a str) -> (found: Option<(Term, &'a str)>)
    ensures
        reading(found) == grammar::boolean(input@),
{
    match keyword(input, "true") {
        Some(rest) => Some((Term::True, rest)),
        None => match keyword(input, "false") {
            Some(rest) => Some((Term::False, rest)),
            None => None,
        },
    }
}

/// The word `word` with blanks around it.
fn keyword<'a>(input: &'a str, word: &str) -> (rest: Option<&'a str>)
    ensures
        grammar::keyword(input@, word@) == match rest {
            Some(tail) => Some(tail@),
            None => None,
        },
{
    let start = scan::multispace0(input)?;
    let after = scan::tag(start, word)?;
    scan::multispace0(after)
}

/// The character `c` with blanks around it.
fn symbol<'a>(input: &'a str, c: char) -> (rest: Option<&'a str>)
    ensures
        grammar::symbol(input@, c) == match rest {
            Some(tail) => Some(tail@),
            None => None,
        },
{
    let start = scan::multispace0(input)?;
    let after = scan::char(start, c)?;
    scan::multispace0(after)
}

} // verus!
