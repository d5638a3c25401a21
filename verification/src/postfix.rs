use vstd::prelude::*;

use crate::token::is_arith;
use crate::token::priority;
use crate::token::Error;
use crate::token::Operator;
use crate::token::Ops;

verus! {

/// The operators of `s`, each wrapped as a token.
pub open spec fn as_ops(s: Seq<Operator>) -> Seq<Ops> {
    s.map_values(|op: Operator| Ops::Operator(op))
}

/// Splits the operator stack at an incoming priority `p`: the operators
/// popped, top first, for as long as the top binds at least as tightly as
/// `p` — popping on equal priority is what makes chains of equal precedence
/// group left to right — and the stack that remains. A left bracket never
/// binds as tightly as an arithmetic operator, so it is never popped here.
pub open spec fn pop_tighter(st: Seq<Operator>, p: u8) -> (Seq<Operator>, Seq<Operator>)
    decreases st.len(),
{
    if st.len() > 0 && priority(st.last()) <= p {
        let r = pop_tighter(st.drop_last(), p);
        (seq![st.last()] + r.0, r.1)
    } else {
        (Seq::empty(), st)
    }
}

/// Pops to the matching left bracket: the operators popped before it, top
/// first, and the stack below the discarded bracket; `None` when no left
/// bracket stands on the stack.
pub open spec fn pop_to_bracket(st: Seq<Operator>) -> Option<(Seq<Operator>, Seq<Operator>)>
    decreases st.len(),
{
    if st.len() == 0 {
        None
    } else if st.last() == Operator::LeftBracket {
        Some((Seq::empty(), st.drop_last()))
    } else {
        match pop_to_bracket(st.drop_last()) {
            Some(r) => Some((seq![st.last()] + r.0, r.1)),
            None => None,
        }
    }
}

/// Drains the operator stack once every token is read: the operators in pop
/// order, or `None` when an unmatched left bracket remains.
pub open spec fn drain(st: Seq<Operator>) -> Option<Seq<Operator>>
    decreases st.len(),
{
    if st.len() == 0 {
        Some(Seq::empty())
    } else if st.last() == Operator::LeftBracket {
        None
    } else {
        match drain(st.drop_last()) {
            Some(r) => Some(seq![st.last()] + r),
            None => None,
        }
    }
}

/// One shunting-yard state: the tokens not yet read, the operator stack, and
/// the postfix output so far. Gives the finished postfix sequence, or `None`
/// on a bracket mismatch.
pub open spec fn shunt(s: Seq<Ops>, st: Seq<Operator>, out: Seq<Ops>) -> Option<Seq<Ops>>
    decreases s.len(),
{
    if s.len() == 0 {
        match drain(st) {
            Some(r) => Some(out + as_ops(r)),
            None => None,
        }
    } else {
        let rest = s.subrange(1, s.len() as int);
        match s[0] {
            Ops::Number(x) => shunt(rest, st, out.push(Ops::Number(x))),
            Ops::Operator(op) => {
                if op == Operator::LeftBracket {
                    shunt(rest, st.push(op), out)
                } else if op == Operator::RightBracket {
                    match pop_to_bracket(st) {
                        Some(r) => shunt(rest, r.1, out + as_ops(r.0)),
                        None => None,
                    }
                } else {
                    let r = pop_tighter(st, priority(op));
                    shunt(rest, r.1.push(op), out + as_ops(r.0))
                }
            },
        }
    }
}

/// The postfix form of an infix token sequence, by the shunting-yard
/// reordering; `None` exactly when a closing bracket finds no opening one or
/// an opening bracket is never closed.
pub open spec fn to_postfix(s: Seq<Ops>) -> Option<Seq<Ops>> {
    shunt(s, Seq::<Operator>::empty(), Seq::<Ops>::empty())
}

/// Wrapping a popped operator distributes over the concatenation used by the
/// stack specifications.
proof fn lemma_as_ops_cons(t: Operator, r: Seq<Operator>)
    ensures
        as_ops(seq![t] + r) =~= seq![Ops::Operator(t)] + as_ops(r),
{
}

/// True of a token that may stand in a postfix sequence: a number or an
/// arithmetic operator, never a bracket.
pub open spec fn is_postfix_token(t: Ops) -> bool {
    match t {
        Ops::Number(_) => true,
        Ops::Operator(op) => is_arith(op),
    }
}

/// True of an operator stack that the shunting-yard run can reach: a closing
/// bracket is matched at once, so it never stands on the stack.
spec fn stack_ok(st: Seq<Operator>) -> bool {
    forall|k: int| 0 <= k < st.len() ==> st[k] != Operator::RightBracket
}

/// True of an output sequence made of postfix tokens only.
spec fn out_ok(out: Seq<Ops>) -> bool {
    forall|k: int| 0 <= k < out.len() ==> is_postfix_token(out[k])
}

/// An operator below every bracket priority is an arithmetic one.
proof fn lemma_low_priority_is_arith(x: Operator)
    ensures
        priority(x) < 3 ==> is_arith(x),
{
}

/// The operators popped at an arithmetic priority all bind at least as
/// tightly as it, and the remaining stack keeps the reachable-stack shape.
proof fn lemma_pop_tighter_ok(st: Seq<Operator>, p: u8)
    requires
        stack_ok(st),
    ensures
        forall|k: int|
            0 <= k < pop_tighter(st, p).0.len() ==> priority(#[trigger] pop_tighter(st, p).0[k])
                <= p,
        stack_ok(pop_tighter(st, p).1),
    decreases st.len(),
{
    if st.len() > 0 && priority(st.last()) <= p {
        lemma_pop_tighter_ok(st.drop_last(), p);
    }
}

/// The operators popped to a matching bracket are all arithmetic, and the
/// stack below the bracket keeps the reachable-stack shape.
proof fn lemma_pop_to_bracket_ok(st: Seq<Operator>)
    requires
        stack_ok(st),
        pop_to_bracket(st) is Some,
    ensures
        forall|k: int|
            0 <= k < pop_to_bracket(st)->Some_0.0.len() ==> is_arith(
                #[trigger] pop_to_bracket(st)->Some_0.0[k],
            ),
        stack_ok(pop_to_bracket(st)->Some_0.1),
    decreases st.len(),
{
    if st.len() > 0 && st.last() != Operator::LeftBracket {
        lemma_pop_to_bracket_ok(st.drop_last());
    }
}

/// The operators drained after the last token are all arithmetic.
proof fn lemma_drain_ok(st: Seq<Operator>)
    requires
        stack_ok(st),
        drain(st) is Some,
    ensures
        forall|k: int|
            0 <= k < drain(st)->Some_0.len() ==> is_arith(#[trigger] drain(st)->Some_0[k]),
    decreases st.len(),
{
    if st.len() > 0 {
        lemma_drain_ok(st.drop_last());
    }
}

/// From a reachable state, every token the shunting-yard run appends to its
/// output is a postfix token.
proof fn lemma_shunt_no_brackets(s: Seq<Ops>, st: Seq<Operator>, out: Seq<Ops>)
    requires
        stack_ok(st),
        out_ok(out),
        shunt(s, st, out) is Some,
    ensures
        out_ok(shunt(s, st, out)->Some_0),
    decreases s.len(),
{
    if s.len() == 0 {
        lemma_drain_ok(st);
    } else {
        let rest = s.subrange(1, s.len() as int);
        match s[0] {
            Ops::Number(x) => {
                lemma_shunt_no_brackets(rest, st, out.push(Ops::Number(x)));
            },
            Ops::Operator(op) => {
                if op == Operator::LeftBracket {
                    lemma_shunt_no_brackets(rest, st.push(op), out);
                } else if op == Operator::RightBracket {
                    let r = pop_to_bracket(st)->Some_0;
                    lemma_pop_to_bracket_ok(st);
                    lemma_shunt_no_brackets(rest, r.1, out + as_ops(r.0));
                } else {
                    let r = pop_tighter(st, priority(op));
                    lemma_pop_tighter_ok(st, priority(op));
                    assert(forall|k: int|
                        0 <= k < r.0.len() ==> is_arith(#[trigger] r.0[k])) by {
                        assert forall|k: int| 0 <= k < r.0.len() implies is_arith(
                            #[trigger] r.0[k],
                        ) by {
                            lemma_low_priority_is_arith(r.0[k]);
                        }
                    }
                    lemma_shunt_no_brackets(rest, r.1.push(op), out + as_ops(r.0));
                }
            },
        }
    }
}

/// Law: the reordering emits no bracket tokens — every token of a postfix
/// sequence it returns is a number or an arithmetic operator.
pub proof fn lemma_postfix_no_brackets(s: Seq<Ops>, out: Seq<Ops>)
    requires
        to_postfix(s) == Some(out),
    ensures
        forall|k: int| 0 <= k < out.len() ==> is_postfix_token(#[trigger] out[k]),
{
    lemma_shunt_no_brackets(s, Seq::<Operator>::empty(), Seq::<Ops>::empty());
}

/// Reorders an infix token sequence into postfix (Reverse Polish) order:
/// numbers keep their order, every arithmetic operator follows its operands
/// under the priority rule, operators of equal priority group left to
/// right, and brackets only group. The error is returned exactly when a
/// closing bracket finds no opening one or an opening bracket is never
/// closed.
pub fn organize_ops(ops: Vec<Ops>) -> (r: Result<Vec<Ops>, Error>)
    ensures
        match r {
            Ok(out) => to_postfix(ops@) == Some(out@),
            Err(e) => to_postfix(ops@) is None && e == Error::InvalidExpression,
        },
{
    let mut stack: Vec<Operator> = Vec::new();
    let mut ans: Vec<Ops> = Vec::new();
    let n = ops.len();
    let mut i: usize = 0;
    proof {
        assert(ops@.subrange(0, n as int) =~= ops@);
    }
    while i < n
        invariant
            i <= n,
            n == ops@.len(),
            to_postfix(ops@) == shunt(ops@.subrange(i as int, n as int), stack@, ans@),
        decreases n - i,
    {
        let ghost pre = ops@.subrange(i as int, n as int);
        let ghost rest = ops@.subrange(i as int + 1, n as int);
        proof {
            assert(pre[0] == ops@[i as int]);
            assert(pre.subrange(1, pre.len() as int) =~= rest);
        }
        match ops[i] {
            Ops::Number(x) => {
                ans.push(Ops::Number(x));
            },
            Ops::Operator(op) => {
                if op == Operator::LeftBracket {
                    stack.push(op);
                } else if op == Operator::RightBracket {
                    loop
                        invariant_except_break
                            to_postfix(ops@) == (match pop_to_bracket(stack@) {
                                Some(r) => shunt(rest, r.1, ans@ + as_ops(r.0)),
                                None => None,
                            }),
                        ensures
                            to_postfix(ops@) == shunt(rest, stack@, ans@),
                        decreases stack@.len(),
                    {
                        let ghost st0 = stack@;
                        match stack.pop() {
                            Some(t) => {
                                proof {
                                    assert(st0.len() > 0);
                                    assert(t == st0.last());
                                    assert(stack@ =~= st0.drop_last());
                                }
                                if t == Operator::LeftBracket {
                                    proof {
                                        assert(pop_to_bracket(st0) is Some);
                                        assert(pop_to_bracket(st0)->Some_0.0 =~= Seq::<
                                            Operator,
                                        >::empty());
                                        assert(pop_to_bracket(st0)->Some_0.1 =~= stack@);
                                        assert(ans@ + as_ops(Seq::<Operator>::empty()) =~= ans@);
                                    }
                                    break ;
                                } else {
                                    let ghost ans0 = ans@;
                                    ans.push(Ops::Operator(t));
                                    proof {
                                        if pop_to_bracket(stack@) is Some {
                                            let r = pop_to_bracket(stack@)->Some_0;
                                            lemma_as_ops_cons(t, r.0);
                                            assert((ans0 + as_ops(seq![t] + r.0)) =~= (ans@
                                                + as_ops(r.0)));
                                        }
                                    }
                                }
                            },
                            None => {
                                return Err(Error::InvalidExpression);
                            },
                        }
                    }
                } else {
                    let p = op.get_priority();
                    loop
                        invariant
                            p == priority(op),
                            to_postfix(ops@) == shunt(
                                rest,
                                pop_tighter(stack@, p).1.push(op),
                                ans@ + as_ops(pop_tighter(stack@, p).0),
                            ),
                        ensures
                            to_postfix(ops@) == shunt(rest, stack@.push(op), ans@),
                        decreases stack@.len(),
                    {
                        let ghost st0 = stack@;
                        if stack.len() == 0 {
                            proof {
                                assert(ans@ + as_ops(Seq::<Operator>::empty()) =~= ans@);
                            }
                            break ;
                        }
                        let t = stack[stack.len() - 1];
                        if t.get_priority() <= p {
                            let ghost ans0 = ans@;
                            stack.pop();
                            ans.push(Ops::Operator(t));
                            proof {
                                assert(st0.len() > 0);
                                assert(t == st0.last());
                                assert(stack@ =~= st0.drop_last());
                                lemma_as_ops_cons(t, pop_tighter(stack@, p).0);
                                assert((ans0 + as_ops(seq![t] + pop_tighter(stack@, p).0)) =~= (ans@
                                    + as_ops(pop_tighter(stack@, p).0)));
                            }
                        } else {
                            proof {
                                assert(ans@ + as_ops(Seq::<Operator>::empty()) =~= ans@);
                            }
                            break ;
                        }
                    }
                    stack.push(op);
                }
            },
        }
        i = i + 1;
    }
    proof {
        assert(ops@.subrange(n as int, n as int) =~= Seq::<Ops>::empty());
    }
    loop
        invariant
            to_postfix(ops@) == (match drain(stack@) {
                Some(r) => Some(ans@ + as_ops(r)),
                None => None,
            }),
        ensures
            to_postfix(ops@) == Some(ans@),
        decreases stack@.len(),
    {
        let ghost st0 = stack@;
        match stack.pop() {
            Some(t) => {
                if t == Operator::LeftBracket {
                    return Err(Error::InvalidExpression);
                }
                let ghost ans0 = ans@;
                ans.push(Ops::Operator(t));
                proof {
                    assert(st0.len() > 0);
                    assert(t == st0.last());
                    assert(stack@ =~= st0.drop_last());
                    if drain(stack@) is Some {
                        let r = drain(stack@)->Some_0;
                        lemma_as_ops_cons(t, r);
                        assert((ans0 + as_ops(seq![t] + r)) =~= (ans@ + as_ops(r)));
                    }
                }
            },
            None => {
                proof {
                    assert(ans@ + as_ops(Seq::<Operator>::empty()) =~= ans@);
                }
                break ;
            },
        }
    }
    Ok(ans)
}

} // verus!
