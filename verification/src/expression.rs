//! Expressions, and their values under given labels, macros and variables.

use vstd::prelude::*;

use crate::integer::Integer;

verus! {

/// What stands at the leaves of an expression.
#[derive(Debug, PartialEq, Eq)]
pub enum Terminal {
    /// A number.
    Number(Integer),
    /// A label, which stands for its offset in the program.
    Label(String),
    /// A variable, which stands for an argument of the macro around the expression.
    Variable(String),
}

/// The use of an expression macro.
#[derive(Debug, PartialEq, Eq)]
pub struct ExpressionMacroInvocation {
    /// The name of the macro.
    pub name: String,
    /// The arguments, one for each parameter of the macro.
    pub parameters: Vec<Expression>,
}

/// An expression whose value is an integer.
#[derive(Debug, PartialEq, Eq)]
pub enum Expression {
    /// A number, a label or a variable.
    Terminal(Terminal),
    /// The value of an expression macro.
    Macro(ExpressionMacroInvocation),
    /// A sum.
    Plus(Box<Expression>, Box<Expression>),
    /// A difference.
    Minus(Box<Expression>, Box<Expression>),
}

/// An expression as a mathematical term.
pub enum Term {
    Number(int),
    Label(Seq<char>),
    Variable(Seq<char>),
    Macro(Seq<char>, Seq<Term>),
    Plus(Box<Term>, Box<Term>),
    Minus(Box<Term>, Box<Term>),
}

impl View for Terminal {
    type V = Term;

    open spec fn view(&self) -> Term {
        match *self {
            Terminal::Number(value) => Term::Number(value@),
            Terminal::Label(label) => Term::Label(label@),
            Terminal::Variable(name) => Term::Variable(name@),
        }
    }
}

/// The term that `expression` stands for.
pub open spec fn term_of(expression: Expression) -> Term
    decreases expression,
{
    match expression {
        Expression::Terminal(terminal) => terminal@,
        Expression::Macro(invocation) => Term::Macro(
            invocation.name@,
            terms_of(invocation.parameters@),
        ),
        Expression::Plus(left, right) => Term::Plus(
            Box::new(term_of(*left)),
            Box::new(term_of(*right)),
        ),
        Expression::Minus(left, right) => Term::Minus(
            Box::new(term_of(*left)),
            Box::new(term_of(*right)),
        ),
    }
}

/// The terms that `expressions` stand for.
pub open spec fn terms_of(expressions: Seq<Expression>) -> Seq<Term>
    decreases expressions,
{
    Seq::new(
        expressions.len(),
        |i: int|
            if 0 <= i < expressions.len() {
                term_of(expressions[i])
            } else {
                arbitrary()
            },
    )
}

impl View for Expression {
    type V = Term;

    open spec fn view(&self) -> Term {
        term_of(*self)
    }
}

impl Clone for Terminal {
    fn clone(&self) -> (copy: Self)
        ensures
            copy@ == self@,
    {
        match self {
            Terminal::Number(value) => Terminal::Number(value.clone()),
            Terminal::Label(label) => Terminal::Label(label.clone()),
            Terminal::Variable(name) => Terminal::Variable(name.clone()),
        }
    }
}

impl Clone for Expression {
    fn clone(&self) -> (copy: Self)
        ensures
            copy@ == self@,
    {
        copy_expression(self)
    }
}

fn copy_expression(expression: &Expression) -> (copy: Expression)
    ensures
        copy@ == expression@,
    decreases expression,
{
    match expression {
        Expression::Terminal(terminal) => Expression::Terminal(terminal.clone()),
        Expression::Macro(invocation) => {
            let parameters = copy_expressions(&invocation.parameters);
            Expression::Macro(
                ExpressionMacroInvocation { name: invocation.name.clone(), parameters },
            )
        },
        Expression::Plus(left, right) => Expression::Plus(
            Box::new(copy_expression(left)),
            Box::new(copy_expression(right)),
        ),
        Expression::Minus(left, right) => Expression::Minus(
            Box::new(copy_expression(left)),
            Box::new(copy_expression(right)),
        ),
    }
}

/// A copy of each of `expressions`.
pub(crate) fn copy_expressions(expressions: &Vec<Expression>) -> (copies: Vec<Expression>)
    ensures
        terms_of(copies@) == terms_of(expressions@),
    decreases expressions@,
{
    let mut copies: Vec<Expression> = Vec::new();
    for i in 0..expressions.len()
        invariant
            copies@.len() == i,
            terms_of(copies@) == terms_of(expressions@).take(i as int),
    {
        let copy = copy_expression(&expressions[i]);
        copies.push(copy);
        assert(terms_of(copies@) =~= terms_of(expressions@).take(i + 1));
    }
    assert(terms_of(expressions@).take(expressions@.len() as int) =~= terms_of(expressions@));
    copies
}

} // verus!
