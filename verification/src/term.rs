//! The abstract syntax tree.
use vstd::prelude::*;

verus! {

/// A parsed expression. Every child belongs to its parent alone, and two
/// terms are equal when they have the same variant and equal fields.
#[derive(Debug, PartialEq)]
pub enum Term {
    True,
    False,
    Condition { condition: Box<Term>, consequent: Box<Term>, alternative: Box<Term> },
    Number { value: i64 },
    Addition { left: Box<Term>, right: Box<Term> },
}

impl Clone for Term {
    /// A deep copy: a tree of its own, equal to this one.
    fn clone(&self) -> (copy: Self)
        ensures
            copy == *self,
        decreases *self,
    {
        match self {
            Term::True => Term::True,
            Term::False => Term::False,
            Term::Number { value } => Term::Number { value: *value },
            Term::Addition { left, right } => Term::Addition {
                left: Box::new((**left).clone()),
                right: Box::new((**right).clone()),
            },
            Term::Condition { condition, consequent, alternative } => Term::Condition {
                condition: Box::new((**condition).clone()),
                consequent: Box::new((**consequent).clone()),
                alternative: Box::new((**alternative).clone()),
            },
        }
    }
}

impl Term {
    /// The number of nodes on the longest path from this node down to a leaf.
    pub open spec fn height(self) -> nat
        decreases self,
    {
        match self {
            Term::True | Term::False | Term::Number { .. } => 1,
            Term::Addition { left, right } => 1 + if left.height() >= right.height() {
                left.height()
            } else {
                right.height()
            },
            Term::Condition { condition, consequent, alternative } => 1 + if condition.height()
                >= consequent.height() && condition.height() >= alternative.height() {
                condition.height()
            } else if consequent.height() >= alternative.height() {
                consequent.height()
            } else {
                alternative.height()
            },
        }
    }
}

} // verus!
