use term_parser::parser::parse;
use term_parser::term::Term;

#[test]
fn test_boolean() {
    assert_eq!(parse("true").unwrap(), Term::True);
    assert_eq!(parse("false").unwrap(), Term::False);
}

#[test]
fn test_number() {
    assert_eq!(parse("1").unwrap(), Term::Number { value: 1 });
    assert_eq!(parse("123").unwrap(), Term::Number { value: 123 });
}

#[test]
fn test_addition() {
    assert_eq!(
        parse("1 + 2").unwrap(),
        Term::Addition {
            left: Box::new(Term::Number { value: 1 }),
            right: Box::new(Term::Number { value: 2 }),
        },
    );
    assert_eq!(
        parse("true + 1").unwrap(),
        Term::Addition {
            left: Box::new(Term::True),
            right: Box::new(Term::Number { value: 1 }),
        },
    );
    assert_eq!(
        parse("1 + true").unwrap(),
        Term::Addition {
            left: Box::new(Term::Number { value: 1 }),
            right: Box::new(Term::True),
        },
    );
}

#[test]
fn test_condition() {
    assert_eq!(
        parse("true ? 1 : 2").unwrap(),
        Term::Condition {
            condition: Box::new(Term::True),
            consequent: Box::new(Term::Number { value: 1 }),
            alternative: Box::new(Term::Number { value: 2 }),
        },
    );
    assert_eq!(
        parse("true ? 1 : false").unwrap(),
        Term::Condition {
            condition: Box::new(Term::True),
            consequent: Box::new(Term::Number { value: 1 }),
            alternative: Box::new(Term::False),
        },
    );
}

#[test]
fn test_parens() {
    assert_eq!(
        parse("(1 + 2) + 3").unwrap(),
        Term::Addition {
            left: Box::new(Term::Addition {
                left: Box::new(Term::Number { value: 1 }),
                right: Box::new(Term::Number { value: 2 }),
            }),
            right: Box::new(Term::Number { value: 3 }),
        },
    );
    assert_eq!(
        parse("1 + (2 + 3)").unwrap(),
        Term::Addition {
            left: Box::new(Term::Number { value: 1 }),
            right: Box::new(Term::Addition {
                left: Box::new(Term::Number { value: 2 }),
                right: Box::new(Term::Number { value: 3 }),
            }),
        },
    );
    assert_eq!(
        parse("(1 + true) ? 2 : 3").unwrap(),
        Term::Condition {
            condition: Box::new(Term::Addition {
                left: Box::new(Term::Number { value: 1 }),
                right: Box::new(Term::True),
            }),
            consequent: Box::new(Term::Number { value: 2 }),
            alternative: Box::new(Term::Number { value: 3 }),
        },
    );
    assert_eq!(
        parse("1 + (true ? 2 : 3)").unwrap(),
        Term::Addition {
            left: Box::new(Term::Number { value: 1 }),
            right: Box::new(Term::Condition {
                condition: Box::new(Term::True),
                consequent: Box::new(Term::Number { value: 2 }),
                alternative: Box::new(Term::Number { value: 3 }),
            }),
        },
    );
    assert_eq!(
        parse("true ? (1 + 2) : (3 + 4)").unwrap(),
        Term::Condition {
            condition: Box::new(Term::True),
            consequent: Box::new(Term::Addition {
                left: Box::new(Term::Number { value: 1 }),
                right: Box::new(Term::Number { value: 2 }),
            }),
            alternative: Box::new(Term::Addition {
                left: Box::new(Term::Number { value: 3 }),
                right: Box::new(Term::Number { value: 4 }),
            }),
        },
    );
}
