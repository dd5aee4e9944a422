use term_parser::parser::{parse, ParseError};
use term_parser::term::Term;

fn number(value: i64) -> Term {
    Term::Number { value }
}

fn addition(left: Term, right: Term) -> Term {
    Term::Addition { left: Box::new(left), right: Box::new(right) }
}

fn condition(condition: Term, consequent: Term, alternative: Term) -> Term {
    Term::Condition {
        condition: Box::new(condition),
        consequent: Box::new(consequent),
        alternative: Box::new(alternative),
    }
}

#[test]
fn negative_literal() {
    assert_eq!(parse("-5"), Ok(number(-5)));
    assert_eq!(parse("-0"), Ok(number(0)));
}

#[test]
fn leading_zeros_do_not_change_the_value() {
    assert_eq!(parse("007"), Ok(number(7)));
    assert_eq!(parse("-00012"), Ok(number(-12)));
    assert_eq!(parse("0"), Ok(number(0)));
}

#[test]
fn literals_at_the_ends_of_the_range() {
    assert_eq!(parse("9223372036854775807"), Ok(number(i64::MAX)));
    assert_eq!(parse("-9223372036854775808"), Ok(number(i64::MIN)));
    assert_eq!(parse("0009223372036854775807"), Ok(number(i64::MAX)));
}

#[test]
fn literals_out_of_range_fail() {
    assert_eq!(parse("9223372036854775808"), Err(ParseError));
    assert_eq!(parse("-9223372036854775809"), Err(ParseError));
    assert_eq!(parse("100000000000000000000"), Err(ParseError));
    assert_eq!(parse("1 + 9223372036854775808"), Err(ParseError));
}

#[test]
fn plus_is_no_sign() {
    assert_eq!(parse("+5"), Err(ParseError));
    assert_eq!(parse("1 + +2"), Err(ParseError));
    assert_eq!(parse("1 ++ 2"), Err(ParseError));
    assert_eq!(parse("(+1)"), Err(ParseError));
    assert_eq!(parse("1 + -2"), Ok(addition(number(1), number(-2))));
    assert_eq!(parse("1+-2"), Ok(addition(number(1), number(-2))));
}

#[test]
fn sign_belongs_to_the_digits() {
    assert_eq!(parse("- 5"), Err(ParseError));
    assert_eq!(parse("-"), Err(ParseError));
    assert_eq!(parse("--5"), Err(ParseError));
    assert_eq!(parse("-true"), Err(ParseError));
}

#[test]
fn addition_chain_nests_to_the_right() {
    assert_eq!(parse("1 + 2 + 3"), Ok(addition(number(1), addition(number(2), number(3)))));
    assert_eq!(
        parse("1 + 2 + 3 + 4"),
        Ok(addition(number(1), addition(number(2), addition(number(3), number(4))))),
    );
}

#[test]
fn parentheses_group_to_the_left() {
    let grouped = parse("(1 + 2) + 3").unwrap();
    let chained = parse("1 + 2 + 3").unwrap();
    assert_eq!(grouped, addition(addition(number(1), number(2)), number(3)));
    assert_ne!(grouped, chained);
    assert_eq!(
        parse("((1 + 2) + 3) + 4"),
        Ok(addition(addition(addition(number(1), number(2)), number(3)), number(4))),
    );
}

#[test]
fn parentheses_alone_change_nothing() {
    assert_eq!(parse("(1)"), Ok(number(1)));
    assert_eq!(parse("((true))"), Ok(Term::True));
    assert_eq!(parse("( ( ( -3 ) ) )"), Ok(number(-3)));
    assert_eq!(parse("1 + (2 + 3)"), parse("1 + 2 + 3"));
}

#[test]
fn conditional_nests_in_its_branches() {
    assert_eq!(
        parse("true ? 1 : false ? 2 : 3"),
        Ok(condition(Term::True, number(1), condition(Term::False, number(2), number(3)))),
    );
    assert_eq!(
        parse("true ? false ? 1 : 2 : 3"),
        Ok(condition(Term::True, condition(Term::False, number(1), number(2)), number(3))),
    );
    assert_eq!(
        parse("true ? false ? 1 : 2 : true ? 3 : 4"),
        Ok(
            condition(
                Term::True,
                condition(Term::False, number(1), number(2)),
                condition(Term::True, number(3), number(4)),
            ),
        ),
    );
}

#[test]
fn condition_is_a_sum() {
    assert_eq!(
        parse("1 + 2 ? 3 + 4 : 5 + 6"),
        Ok(
            condition(
                addition(number(1), number(2)),
                addition(number(3), number(4)),
                addition(number(5), number(6)),
            ),
        ),
    );
    assert_eq!(
        parse("(true ? 1 : 2) ? 3 : 4"),
        Ok(condition(condition(Term::True, number(1), number(2)), number(3), number(4))),
    );
}

#[test]
fn conditional_in_an_operand_needs_parentheses() {
    assert_eq!(
        parse("1 + (true ? 2 : 3) + 4"),
        Ok(
            addition(
                number(1),
                addition(condition(Term::True, number(2), number(3)), number(4)),
            ),
        ),
    );
    assert_eq!(
        parse("1 + true ? 2 : 3"),
        Ok(condition(addition(number(1), Term::True), number(2), number(3))),
    );
}

#[test]
fn trailing_input_fails() {
    assert_eq!(parse("1 2"), Err(ParseError));
    assert_eq!(parse("1 true"), Err(ParseError));
    assert_eq!(parse("true1"), Err(ParseError));
    assert_eq!(parse("truefalse"), Err(ParseError));
    assert_eq!(parse("1)"), Err(ParseError));
    assert_eq!(parse("(1) (2)"), Err(ParseError));
    assert_eq!(parse("1 + 2 x"), Err(ParseError));
    assert_eq!(parse("true ? 1 : 2 : 3"), Err(ParseError));
}

#[test]
fn trailing_blanks_are_no_trailing_input() {
    assert_eq!(parse("1 \t\r\n"), Ok(number(1)));
    assert_eq!(parse("true   "), Ok(Term::True));
    assert_eq!(parse("(1) "), Ok(number(1)));
}

#[test]
fn unbalanced_parentheses_fail() {
    assert_eq!(parse("(1 + 2"), Err(ParseError));
    assert_eq!(parse("1 + 2)"), Err(ParseError));
    assert_eq!(parse("((1)"), Err(ParseError));
    assert_eq!(parse("()"), Err(ParseError));
    assert_eq!(parse("("), Err(ParseError));
    assert_eq!(parse(")"), Err(ParseError));
}

#[test]
fn unfinished_expressions_fail() {
    assert_eq!(parse(""), Err(ParseError));
    assert_eq!(parse("   "), Err(ParseError));
    assert_eq!(parse("1 +"), Err(ParseError));
    assert_eq!(parse("+ 1"), Err(ParseError));
    assert_eq!(parse("1 ?"), Err(ParseError));
    assert_eq!(parse("1 ? 2"), Err(ParseError));
    assert_eq!(parse("1 ? 2 :"), Err(ParseError));
    assert_eq!(parse("1 : 2"), Err(ParseError));
    assert_eq!(parse("? 1 : 2"), Err(ParseError));
    assert_eq!(parse("1 + ? 2 : 3"), Err(ParseError));
}

#[test]
fn keywords_are_exact() {
    assert_eq!(parse("True"), Err(ParseError));
    assert_eq!(parse("FALSE"), Err(ParseError));
    assert_eq!(parse("tru"), Err(ParseError));
    assert_eq!(parse("t rue"), Err(ParseError));
    assert_eq!(parse("fals"), Err(ParseError));
    assert_eq!(parse("yes"), Err(ParseError));
}

#[test]
fn only_ascii_digits_and_blanks_count() {
    assert_eq!(parse("\u{ff11}"), Err(ParseError));
    assert_eq!(parse("\u{0663}"), Err(ParseError));
    assert_eq!(parse("1\u{a0}+ 2"), Err(ParseError));
    assert_eq!(parse("1 + \u{e9}"), Err(ParseError));
    assert_eq!(parse("1\u{2003}"), Err(ParseError));
    assert_eq!(parse("1\u{b}"), Err(ParseError));
}

#[test]
fn blanks_around_tokens_do_not_matter() {
    let expected = condition(addition(number(1), Term::True), number(2), number(-3));
    assert_eq!(parse("(1+true)?2:-3"), Ok(expected.clone()));
    assert_eq!(parse("( 1 + true ) ? 2 : -3"), Ok(expected.clone()));
    assert_eq!(parse("  (  1  +  true  )  ?  2  :  -3  "), Ok(expected.clone()));
    assert_eq!(parse("\t(\n1\r\n+\ttrue\n)\n?\n2\n:\n-3\n"), Ok(expected.clone()));
    assert_eq!(parse("( 1+true)? 2 :-3"), Ok(expected));
}

#[test]
fn blanks_inside_a_token_do_matter() {
    assert_eq!(parse("12"), Ok(number(12)));
    assert_eq!(parse("1 2"), Err(ParseError));
    assert_eq!(parse("tr ue"), Err(ParseError));
    assert_eq!(parse("-1"), Ok(number(-1)));
    assert_eq!(parse("- 1"), Err(ParseError));
}

#[test]
fn long_chain_and_deep_nesting() {
    let mut text = String::new();
    let mut expected = number(0);
    for _ in 0..200 {
        text.push('(');
    }
    text.push('0');
    for i in 1..=200 {
        text.push_str(&format!(") + {}", i));
        expected = addition(expected, number(i));
    }
    assert_eq!(parse(&text), Ok(expected));
}

#[test]
fn error_is_one_value() {
    assert_eq!(parse("1 2").unwrap_err(), parse("(").unwrap_err());
    assert_eq!(ParseError, ParseError.clone());
    assert_eq!(format!("{:?}", ParseError), "ParseError");
}

#[test]
fn term_clone_is_equal_and_deep() {
    let term = parse("(1 + true) ? 2 : (3 ? false : -4)").unwrap();
    let copy = term.clone();
    assert_eq!(copy, term);
    assert_eq!(
        copy,
        condition(
            addition(number(1), Term::True),
            number(2),
            condition(number(3), Term::False, number(-4)),
        ),
    );
}

#[test]
fn term_equality_is_structural() {
    assert_eq!(addition(number(1), number(2)), addition(number(1), number(2)));
    assert_ne!(addition(number(1), number(2)), addition(number(2), number(1)));
    assert_ne!(Term::True, Term::False);
    assert_ne!(number(1), Term::True);
    assert_ne!(
        condition(Term::True, number(1), number(2)),
        condition(Term::True, number(2), number(1)),
    );
}
