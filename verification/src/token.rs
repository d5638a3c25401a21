use vstd::prelude::*;

verus! {

/// The operator vocabulary of the expression grammar: exponentiation, the
/// four arithmetic binary operators, and the two grouping brackets.
#[derive(Clone, Copy, Debug, PartialEq, Eq, Structural)]
pub enum Operator {
    Pow,
    Add,
    Sub,
    Mul,
    Div,
    LeftBracket,
    RightBracket,
}

/// Binding strength of an operator: a lower number binds more tightly and is
/// evaluated first. Brackets sit above every arithmetic operator, so a
/// priority comparison never pops them from the operator stack.
pub open spec fn priority(op: Operator) -> u8 {
    match op {
        Operator::Pow => 0,
        Operator::Mul => 1,
        Operator::Div => 1,
        Operator::Add => 2,
        Operator::Sub => 2,
        Operator::LeftBracket => 3,
        Operator::RightBracket => 3,
    }
}

/// True of the five operators that may appear in a postfix sequence.
pub open spec fn is_arith(op: Operator) -> bool {
    op != Operator::LeftBracket && op != Operator::RightBracket
}

/// The operator written with the given single character, if any.
pub open spec fn operator_of_char(c: char) -> Option<Operator> {
    if c == '^' {
        Some(Operator::Pow)
    } else if c == '+' {
        Some(Operator::Add)
    } else if c == '-' {
        Some(Operator::Sub)
    } else if c == '*' {
        Some(Operator::Mul)
    } else if c == '/' {
        Some(Operator::Div)
    } else if c == '(' {
        Some(Operator::LeftBracket)
    } else if c == ')' {
        Some(Operator::RightBracket)
    } else {
        None
    }
}

impl Operator {
    /// The priority used by the infix-to-postfix reordering.
    pub fn get_priority(&self) -> (p: u8)
        ensures
            p == priority(*self),
    {
        match self {
            Operator::Pow => 0,
            Operator::Mul => 1,
            Operator::Div => 1,
            Operator::Add => 2,
            Operator::Sub => 2,
            Operator::LeftBracket => 3,
            Operator::RightBracket => 3,
        }
    }

    /// The operator written with the given character, if any.
    pub fn from_char(c: char) -> (r: Option<Operator>)
        ensures
            r == operator_of_char(c),
    {
        if c == '^' {
            Some(Operator::Pow)
        } else if c == '+' {
            Some(Operator::Add)
        } else if c == '-' {
            Some(Operator::Sub)
        } else if c == '*' {
            Some(Operator::Mul)
        } else if c == '/' {
            Some(Operator::Div)
        } else if c == '(' {
            Some(Operator::LeftBracket)
        } else if c == ')' {
            Some(Operator::RightBracket)
        } else {
            None
        }
    }
}

/// A token of the expression language: a signed integer literal or an
/// operator symbol.
#[derive(Clone, Copy, Debug, PartialEq, Eq, Structural)]
pub enum Ops {
    Number(i64),
    Operator(Operator),
}

/// The single error of the library: the input is not a well-formed
/// expression, or evaluating it leaves the integer domain (division by
/// zero, a negative exponent, or a value outside the 64-bit signed range).
#[derive(Clone, Copy, Debug, PartialEq, Eq, Structural)]
pub enum Error {
    InvalidExpression,
}

} // verus!
