use vstd::prelude::*;
use vstd::arithmetic::power::{pow, lemma0_pow, lemma1_pow};
use vstd::math::abs;

use crate::token::Error;
use crate::token::Operator;
use crate::token::Ops;

verus! {

/// The value of `b` raised to the exponent `a`, under the integer
/// restriction: the exponent must be non-negative and the result must fit
/// in the signed 64-bit range; otherwise there is no value.
pub open spec fn pow_val(b: i64, a: i64) -> Option<i64> {
    if a < 0 {
        None
    } else if pow(b as int, a as nat) < i64::MIN || pow(b as int, a as nat) > i64::MAX {
        None
    } else {
        Some(pow(b as int, a as nat) as i64)
    }
}

/// One operator step of the stack machine, where `a` is the operand popped
/// first (the right operand) and `b` the operand popped second (the left
/// one). `None` is a failed step: a bracket token standing in a postfix
/// sequence, division by zero, a negative exponent, or a result outside
/// the signed 64-bit range.
pub open spec fn apply_op(op: Operator, a: i64, b: i64) -> Option<i64> {
    match op {
        Operator::Pow => pow_val(b, a),
        Operator::Add => a.checked_add(b),
        Operator::Sub => b.checked_sub(a),
        Operator::Mul => a.checked_mul(b),
        Operator::Div => b.checked_div(a),
        Operator::LeftBracket => None,
        Operator::RightBracket => None,
    }
}

/// Runs the postfix stack machine over the tokens `s`, starting from the
/// operand stack `st` (its last element is the top); `None` when a number
/// is owed and the stack holds fewer than two, or an operator step fails.
pub open spec fn eval_stack(s: Seq<Ops>, st: Seq<i64>) -> Option<Seq<i64>>
    decreases s.len(),
{
    if s.len() == 0 {
        Some(st)
    } else {
        match s[0] {
            Ops::Number(n) => eval_stack(s.subrange(1, s.len() as int), st.push(n)),
            Ops::Operator(op) => {
                if st.len() < 2 {
                    None
                } else {
                    let a = st[st.len() - 1];
                    let b = st[st.len() - 2];
                    match apply_op(op, a, b) {
                        Some(v) => eval_stack(
                            s.subrange(1, s.len() as int),
                            st.drop_last().drop_last().push(v),
                        ),
                        None => None,
                    }
                }
            },
        }
    }
}

/// The value of a postfix token sequence: the stack machine must run to
/// completion from an empty stack and leave exactly one operand.
pub open spec fn eval_postfix(s: Seq<Ops>) -> Option<i64> {
    match eval_stack(s, Seq::<i64>::empty()) {
        Some(st) => if st.len() == 1 {
            Some(st[0])
        } else {
            None
        },
        None => None,
    }
}

/// Law: a postfix sequence has a value exactly when the machine run over it
/// from an empty stack succeeds with a single operand left, and the value
/// is that operand; a run that fails or leaves any other number of operands
/// has none.
pub proof fn lemma_eval_single_value(s: Seq<Ops>)
    ensures
        eval_postfix(s) is Some <==> (eval_stack(s, Seq::<i64>::empty()) matches Some(st)
            && st.len() == 1),
        eval_stack(s, Seq::<i64>::empty()) matches Some(st) ==> (st.len() == 1 ==> eval_postfix(
            s,
        ) == Some(st[0])),
{
}

/// The product of absolute values is the absolute value of the product.
proof fn lemma_abs_mul(x: int, y: int)
    ensures
        abs(x * y) == abs(x) * abs(y),
{
    if x >= 0 && y >= 0 {
        assert(x * y >= 0) by (nonlinear_arith)
            requires
                x >= 0 && y >= 0,
        ;
    } else if x >= 0 && y < 0 {
        assert(x * y <= 0 && x * y == -(x * -y)) by (nonlinear_arith)
            requires
                x >= 0 && y < 0,
        ;
    } else if x < 0 && y >= 0 {
        assert(x * y <= 0 && x * y == -(-x * y)) by (nonlinear_arith)
            requires
                x < 0 && y >= 0,
        ;
    } else {
        assert(x * y >= 0 && x * y == -x * -y) by (nonlinear_arith)
            requires
                x < 0 && y < 0,
        ;
    }
}

/// With a base of magnitude at least two, raising the exponent at least
/// doubles the magnitude of the power.
proof fn lemma_pow_mag_grows(b: int, e1: nat, e2: nat)
    requires
        abs(b) >= 2,
        e1 < e2,
    ensures
        abs(pow(b, e2)) >= 2 * abs(pow(b, e1)),
    decreases e2,
{
    reveal(pow);
    lemma_abs_mul(b, pow(b, (e2 - 1) as nat));
    assert(abs(b) * abs(pow(b, (e2 - 1) as nat)) >= 2 * abs(pow(b, (e2 - 1) as nat)))
        by (nonlinear_arith)
        requires
            abs(b) >= 2,
    ;
    if e2 == e1 + 1 {
    } else {
        lemma_pow_mag_grows(b, e1, (e2 - 1) as nat);
    }
}

/// With a base of magnitude at least two, once some power of it leaves the
/// signed 64-bit range, every later power stays out of it.
proof fn lemma_pow_stays_out(b: int, e1: nat, e2: nat)
    requires
        abs(b) >= 2,
        e1 <= e2,
        pow(b, e1) < i64::MIN || pow(b, e1) > i64::MAX,
    ensures
        pow(b, e2) < i64::MIN || pow(b, e2) > i64::MAX,
{
    if e1 < e2 {
        lemma_pow_mag_grows(b, e1, e2);
    }
}

/// A power of a negative one is one for an even exponent and negative one
/// for an odd one.
proof fn lemma_pow_neg_one(e: nat)
    ensures
        pow(-1, e) == if e % 2 == 0 {
            1int
        } else {
            -1int
        },
    decreases e,
{
    reveal(pow);
    if e > 0 {
        lemma_pow_neg_one((e - 1) as nat);
    }
}

/// Raises `base` to the exponent `exp` within the signed 64-bit domain:
/// `None` for a negative exponent or a power outside the range.
fn pow_i64(base: i64, exp: i64) -> (r: Option<i64>)
    ensures
        r == pow_val(base, exp),
{
    proof {
        reveal(pow);
    }
    if exp < 0 {
        return None;
    }
    if base == 0 {
        if exp == 0 {
            Some(1)
        } else {
            proof {
                lemma0_pow(exp as nat);
            }
            Some(0)
        }
    } else if base == 1 {
        proof {
            lemma1_pow(exp as nat);
        }
        Some(1)
    } else if base == -1 {
        proof {
            lemma_pow_neg_one(exp as nat);
        }
        if (exp as u64) % 2 == 0 {
            Some(1)
        } else {
            Some(-1)
        }
    } else {
        let mut acc: i64 = 1;
        let mut k: i64 = 0;
        while k < exp
            invariant
                0 <= k <= exp,
                abs(base as int) >= 2,
                acc == pow(base as int, k as nat),
            decreases exp - k,
        {
            match acc.checked_mul(base) {
                Some(v) => {
                    proof {
                        reveal(pow);
                        assert(pow(base as int, (k + 1) as nat) == base * pow(
                            base as int,
                            k as nat,
                        ));
                    }
                    acc = v;
                    k = k + 1;
                }
                None => {
                    proof {
                        reveal(pow);
                        assert(pow(base as int, (k + 1) as nat) == base * pow(
                            base as int,
                            k as nat,
                        ));
                        lemma_pow_stays_out(base as int, (k + 1) as nat, exp as nat);
                    }
                    return None;
                }
            }
        }
        Some(acc)
    }
}

/// Executes a postfix token sequence against an operand stack: the value of
/// the sequence, or the error when the run fails or does not leave exactly
/// one operand.
pub fn eval(ops: Vec<Ops>) -> (r: Result<i64, Error>)
    ensures
        match r {
            Ok(v) => eval_postfix(ops@) == Some(v),
            Err(e) => eval_postfix(ops@) is None && e == Error::InvalidExpression,
        },
{
    let mut stack: Vec<i64> = Vec::new();
    let n = ops.len();
    let mut i: usize = 0;
    proof {
        assert(ops@.subrange(0, n as int) =~= ops@);
    }
    while i < n
        invariant
            i <= n,
            n == ops@.len(),
            eval_stack(ops@, Seq::<i64>::empty()) == eval_stack(
                ops@.subrange(i as int, n as int),
                stack@,
            ),
        decreases n - i,
    {
        let ghost pre = ops@.subrange(i as int, n as int);
        proof {
            assert(pre[0] == ops@[i as int]);
            assert(pre.subrange(1, pre.len() as int) =~= ops@.subrange(i as int + 1, n as int));
        }
        match ops[i] {
            Ops::Number(x) => {
                stack.push(x);
            },
            Ops::Operator(op) => {
                if stack.len() < 2 {
                    return Err(Error::InvalidExpression);
                }
                let ghost st0 = stack@;
                let a = stack.pop().unwrap();
                let b = stack.pop().unwrap();
                let step: Option<i64> = match op {
                    Operator::Pow => pow_i64(b, a),
                    Operator::Add => a.checked_add(b),
                    Operator::Sub => b.checked_sub(a),
                    Operator::Mul => a.checked_mul(b),
                    Operator::Div => b.checked_div(a),
                    Operator::LeftBracket => None,
                    Operator::RightBracket => None,
                };
                match step {
                    Some(v) => {
                        stack.push(v);
                        proof {
                            assert(stack@ =~= st0.drop_last().drop_last().push(v));
                        }
                    },
                    None => {
                        return Err(Error::InvalidExpression);
                    },
                }
            },
        }
        i = i + 1;
    }
    proof {
        assert(ops@.subrange(n as int, n as int) =~= Seq::<Ops>::empty());
    }
    if stack.len() == 1 {
        Ok(stack[0])
    } else {
        Err(Error::InvalidExpression)
    }
}

} // verus!
