use vstd::prelude::*;

use crate::eval::eval;
use crate::eval::eval_postfix;
use crate::postfix::organize_ops;
use crate::postfix::to_postfix;
use crate::token::Error;
use crate::token::Ops;
use crate::tokenize::tokenize;
use crate::tokenize::tokenize_spec;

verus! {

/// The postfix token sequence of an expression string: the tokens read from
/// its characters, reordered by the shunting-yard rule; `None` when the
/// characters cannot be tokenized or a bracket is unmatched.
pub open spec fn parse_spec(s: Seq<char>) -> Option<Seq<Ops>> {
    match tokenize_spec(s) {
        Some(t) => to_postfix(t),
        None => None,
    }
}

/// The value of an expression string: its postfix form run through the
/// stack machine; `None` when any stage fails.
pub open spec fn expression_value(s: Seq<char>) -> Option<i64> {
    match parse_spec(s) {
        Some(p) => eval_postfix(p),
        None => None,
    }
}

/// Parses an infix expression string into its postfix token sequence: the
/// tokenizer followed by the shunting-yard reordering.
pub fn parser(expression: String) -> (r: Result<Vec<Ops>, Error>)
    ensures
        match r {
            Ok(v) => parse_spec(expression@) == Some(v@),
            Err(e) => parse_spec(expression@) is None && e == Error::InvalidExpression,
        },
{
    let tokens = match tokenize(expression.as_str()) {
        Ok(t) => t,
        Err(e) => {
            return Err(e);
        },
    };
    organize_ops(tokens)
}

/// Evaluates an infix expression string to its value: tokenizer, reorderer
/// and evaluator in turn.
pub fn evaluate_expression(expression: String) -> (r: Result<i64, Error>)
    ensures
        match r {
            Ok(v) => expression_value(expression@) == Some(v),
            Err(e) => expression_value(expression@) is None && e == Error::InvalidExpression,
        },
{
    let postfix = match parser(expression) {
        Ok(p) => p,
        Err(e) => {
            return Err(e);
        },
    };
    eval(postfix)
}

} // verus!
