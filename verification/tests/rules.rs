use term_parser::parser::{boolean, expr, factor, number, term};
use term_parser::term::Term;

fn literal(value: i64) -> Term {
    Term::Number { value }
}

#[test]
fn number_reads_one_literal_and_the_blanks_around_it() {
    assert_eq!(number("  42  rest"), Some((literal(42), "rest")));
    assert_eq!(number("42rest"), Some((literal(42), "rest")));
    assert_eq!(number("-7+1"), Some((literal(-7), "+1")));
    assert_eq!(number("12 34"), Some((literal(12), "34")));
    assert_eq!(number("5"), Some((literal(5), "")));
}

#[test]
fn number_fails_without_digits() {
    assert_eq!(number(""), None);
    assert_eq!(number("   "), None);
    assert_eq!(number("true"), None);
    assert_eq!(number("-"), None);
    assert_eq!(number("- 1"), None);
    assert_eq!(number("+1"), None);
    assert_eq!(number(" +1"), None);
    assert_eq!(number("(1)"), None);
}

#[test]
fn number_fails_out_of_range() {
    assert_eq!(number("9223372036854775808"), None);
    assert_eq!(number("-9223372036854775809 "), None);
    assert_eq!(number("9223372036854775807 "), Some((literal(i64::MAX), "")));
    assert_eq!(number("-9223372036854775808)"), Some((literal(i64::MIN), ")")));
}

#[test]
fn boolean_reads_one_word_and_the_blanks_around_it() {
    assert_eq!(boolean("true"), Some((Term::True, "")));
    assert_eq!(boolean(" false ? 1"), Some((Term::False, "? 1")));
    assert_eq!(boolean("truetrue"), Some((Term::True, "true")));
    assert_eq!(boolean("false1"), Some((Term::False, "1")));
    assert_eq!(boolean("\t\ntrue\r\n)"), Some((Term::True, ")")));
}

#[test]
fn boolean_fails_on_anything_else() {
    assert_eq!(boolean(""), None);
    assert_eq!(boolean("tru"), None);
    assert_eq!(boolean("True"), None);
    assert_eq!(boolean("1"), None);
    assert_eq!(boolean("(true)"), None);
}

#[test]
fn factor_tries_number_boolean_and_parentheses() {
    assert_eq!(factor("1 + 2"), Some((literal(1), "+ 2")));
    assert_eq!(factor("true + 2"), Some((Term::True, "+ 2")));
    assert_eq!(factor("(false) + 2"), Some((Term::False, "+ 2")));
    assert_eq!(
        factor(" ( 1 + 2 ) ? 3 : 4"),
        Some((
            Term::Addition { left: Box::new(literal(1)), right: Box::new(literal(2)) },
            "? 3 : 4",
        )),
    );
    assert_eq!(factor("(1"), None);
    assert_eq!(factor("(1 2)"), None);
    assert_eq!(factor("+ 1"), None);
    assert_eq!(factor("? 1"), None);
}

#[test]
fn term_reads_the_whole_chain() {
    assert_eq!(
        term("1 + 2 + 3 ? 4"),
        Some((
            Term::Addition {
                left: Box::new(literal(1)),
                right: Box::new(Term::Addition {
                    left: Box::new(literal(2)),
                    right: Box::new(literal(3)),
                }),
            },
            "? 4",
        )),
    );
    assert_eq!(term("1 2"), Some((literal(1), "2")));
}

#[test]
fn term_goes_back_before_a_plus_without_operand() {
    assert_eq!(term("1 + ? 2"), Some((literal(1), "+ ? 2")));
    assert_eq!(term("1 +"), Some((literal(1), "+")));
    assert_eq!(
        term("1 + 2 + )"),
        Some((
            Term::Addition { left: Box::new(literal(1)), right: Box::new(literal(2)) },
            "+ )",
        )),
    );
    assert_eq!(term("+ 1"), None);
}

#[test]
fn expr_reads_a_conditional_or_a_sum() {
    assert_eq!(
        expr("true ? 1 : 2 )"),
        Some((
            Term::Condition {
                condition: Box::new(Term::True),
                consequent: Box::new(literal(1)),
                alternative: Box::new(literal(2)),
            },
            ")",
        )),
    );
    assert_eq!(expr(" 7 )"), Some((literal(7), ")")));
    assert_eq!(expr(""), None);
    assert_eq!(expr(": 1"), None);
}

#[test]
fn expr_goes_back_before_incomplete_branches() {
    assert_eq!(expr("1 ? 2"), Some((literal(1), "? 2")));
    assert_eq!(expr("1 ? 2 : "), Some((literal(1), "? 2 : ")));
    assert_eq!(expr("1 ? : 3"), Some((literal(1), "? : 3")));
    assert_eq!(expr("1 ?"), Some((literal(1), "?")));
}

#[test]
fn what_is_left_begins_with_no_blank() {
    assert_eq!(expr("1   x"), Some((literal(1), "x")));
    assert_eq!(term("true \t\n x"), Some((Term::True, "x")));
    assert_eq!(factor("( 1 )  \r\n"), Some((literal(1), "")));
}
