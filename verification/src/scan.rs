//! The scanners that read one piece of text each. They are nom's; what is
//! claimed of each is stated here and taken on trust.
use vstd::prelude::*;
use crate::text::{signed_literal, skip_blanks};

verus! {

/// `nom::character::complete::multispace0` on a `&str`: it takes the longest
/// run of spaces, tabs, carriage returns and line feeds that the input
/// begins with, and never fails. Claimed: the result is `Some`, and holds
/// the input without those leading blanks.
#[verifier::external_body]
pub(crate) fn multispace0<'a>(input: &'a str) -> (rest: Option<&'a str>)
    ensures
        match rest {
            Some(tail) => tail@ == skip_blanks(input@),
            None => false,
        },
{
    match nom::character::complete::multispace0::<&str, nom::error::Error<&str>>(input) {
        Ok((tail, _)) => Some(tail),
        Err(_) => None,
    }
}

/// `nom::character::complete::char` on a `&str`: it matches when the first
/// character of the input is `c`. Claimed: the result is `Some` exactly
/// then, and holds the input after that character.
#[verifier::external_body]
pub(crate) fn char<'a>(input: &'a str, c: char) -> (rest: Option<&'a str>)
    ensures
        match rest {
            Some(tail) => input@.len() > 0 && input@[0] == c && tail@ == input@.skip(1),
            None => !(input@.len() > 0 && input@[0] == c),
        },
{
    match nom::character::complete::char::<&str, nom::error::Error<&str>>(c)(input) {
        Ok((tail, _)) => Some(tail),
        Err(_) => None,
    }
}

/// `nom::bytes::complete::tag` on a `&str`: it matches when the input begins
/// with `word`. Claimed: the result is `Some` exactly then, and holds the
/// input after the word.
#[verifier::external_body]
pub(crate) fn tag<'a>(input: &'a str, word: &str) -> (rest: Option<&'a str>)
    ensures
        match rest {
            Some(tail) => word@.is_prefix_of(input@) && tail@ == input@.skip(word@.len() as int),
            None => !word@.is_prefix_of(input@),
        },
{
    match nom::bytes::complete::tag::<&str, &str, nom::error::Error<&str>>(word)(input) {
        Ok((tail, _)) => Some(tail),
        Err(_) => None,
    }
}

/// `nom::character::complete::i64` on a `&str`: it reads an optional sign,
/// `-` or `+`, and then decimal digits for as long as there are any; it
/// fails where no digit follows the sign, and where the number leaves the
/// range of an `i64`. Claimed: the result is `Some` exactly where such a
/// literal stands at the start of the input, and holds its value and the
/// input after its last digit.
#[verifier::external_body]
pub(crate) fn i64<'a>(input: &'a str) -> (found: Option<(i64, &'a str)>)
    ensures
        match found {
            Some((value, tail)) => signed_literal(input@) == Some((value, tail@)),
            None => signed_literal(input@) is None,
        },
{
    match nom::character::complete::i64::<&str, nom::error::Error<&str>>(input) {
        Ok((tail, value)) => Some((value, tail)),
        Err(_) => None,
    }
}

/// `nom::combinator::eof` on a `&str`: it succeeds when nothing is left of
/// the input. Claimed: the result says whether the input is empty.
#[verifier::external_body]
pub(crate) fn eof(input: &str) -> (at_end: bool)
    ensures
        at_end == (input@.len() == 0),
{
    nom::combinator::eof::<&str, nom::error::Error<&str>>(input).is_ok()
}

} // verus!
