//! The postfix reducer: it folds a postfix token sequence with a stack,
//! recovering the unique expression tree whose postfix rendering is that
//! sequence. The caller evaluates the tree with its own scalar arithmetic.

use vstd::prelude::*;

use crate::token::{Error, Operator, Token};

verus! {

/// An arithmetic expression over opaque 32-bit scalar codes: a number, or an
/// operator applied to a left and a right operand.
#[derive(PartialEq, Eq, Debug)]
pub enum Expr {
    Number(u32),
    Operation(Operator, Box<Expr>, Box<Expr>),
}

/// The postfix rendering of an expression: both operands, then the operator.
pub open spec fn rpn_of(e: Expr) -> Seq<Token>
    decreases e,
{
    match e {
        Expr::Number(v) => seq![Token::Number(v)],
        Expr::Operation(o, l, r) => rpn_of(*l) + rpn_of(*r) + seq![Token::Operator(o)],
    }
}

/// The postfix rendering of a whole evaluation stack, bottom first.
pub open spec fn stack_rpn(s: Seq<Expr>) -> Seq<Token>
    decreases s.len(),
{
    if s.len() == 0 {
        Seq::empty()
    } else {
        stack_rpn(s.drop_last()) + rpn_of(s.last())
    }
}

/// How a token changes the number of values on the evaluation stack: a number
/// adds one, an operator consumes two and yields one.
pub open spec fn balance(ts: Seq<Token>) -> int
    decreases ts.len(),
{
    if ts.len() == 0 {
        0
    } else {
        balance(ts.drop_last()) + match ts.last() {
            Token::Number(_) => 1int,
            Token::Operator(_) => -1int,
            Token::Parenthesis(_) => 0int,
        }
    }
}

/// A well-formed postfix expression: it contains no parentheses, every
/// non-empty prefix leaves at least one value on the stack, and the whole
/// sequence leaves exactly one.
pub open spec fn wf_rpn(ts: Seq<Token>) -> bool {
    &&& forall|i: int| 0 <= i < ts.len() ==> !((#[trigger] ts[i]) is Parenthesis)
    &&& forall|i: int| 0 < i <= ts.len() ==> #[trigger] balance(ts.take(i)) >= 1
    &&& balance(ts) == 1
}

/// Reduce a postfix token sequence to the expression it renders. Succeeds
/// exactly on well-formed postfix sequences, and then returns the unique
/// expression whose postfix rendering is the input; everything else — a
/// parenthesis token, a stack underflow at an operator, or an input that
/// leaves no value or several — is rejected as an invalid expression.
#[verifier::loop_isolation(false)]
pub fn evaluate_rpn(tokens: Vec<Token>) -> (r: Result<Expr, Error>)
    ensures
        match r {
            Ok(e) => wf_rpn(tokens@) && rpn_of(e) == tokens@,
            Err(err) => !wf_rpn(tokens@) && err == Error::InvalidExpression,
        },
{
    let mut stack: Vec<Expr> = Vec::new();
    let mut i: usize = 0;
    while i < tokens.len()
        invariant
            i <= tokens@.len(),
            stack@.len() == balance(tokens@.take(i as int)),
            stack_rpn(stack@) == tokens@.take(i as int),
            forall|j: int| 0 <= j < i ==> !((#[trigger] tokens@[j]) is Parenthesis),
            forall|j: int| 0 < j <= i ==> #[trigger] balance(tokens@.take(j)) >= 1,
        decreases tokens@.len() - i,
    {
        let token = tokens[i];
        proof {
            assert(tokens@.take(i as int + 1).drop_last() =~= tokens@.take(i as int));
            assert(tokens@.take(i as int + 1).last() == token);
        }
        match token {
            Token::Number(v) => {
                let ghost pre = stack@;
                stack.push(Expr::Number(v));
                proof {
                    assert(stack@.drop_last() =~= pre);
                    assert(stack_rpn(stack@) =~= tokens@.take(i as int + 1));
                }
            },
            Token::Operator(o) => {
                if stack.len() < 2 {
                    proof {
                        assert(balance(tokens@.take(i as int + 1)) < 1);
                    }
                    return Err(Error::InvalidExpression);
                }
                let ghost pre = stack@;
                let right = stack.pop().unwrap();
                let left = stack.pop().unwrap();
                let combined = Expr::Operation(o, Box::new(left), Box::new(right));
                stack.push(combined);
                proof {
                    let rest = pre.drop_last().drop_last();
                    assert(pre.drop_last().last() == left);
                    assert(stack_rpn(pre.drop_last()) == stack_rpn(rest) + rpn_of(left));
                    assert(stack_rpn(pre) == stack_rpn(rest) + rpn_of(left) + rpn_of(right));
                    assert(rpn_of(combined) == rpn_of(left) + rpn_of(right) + seq![
                        Token::Operator(o),
                    ]);
                    assert(stack@.drop_last() =~= rest);
                    assert(stack@.last() == combined);
                    assert(stack_rpn(stack@) == stack_rpn(rest) + rpn_of(combined));
                    assert(stack_rpn(stack@) =~= tokens@.take(i as int + 1));
                }
            },
            Token::Parenthesis(_) => {
                return Err(Error::InvalidExpression);
            },
        }
        i += 1;
    }
    proof {
        assert(tokens@.take(tokens@.len() as int) =~= tokens@);
    }
    if stack.len() == 1 {
        let ghost pre = stack@;
        let top = stack.pop().unwrap();
        proof {
            assert(pre.drop_last() =~= Seq::<Expr>::empty());
            assert(stack_rpn(pre) == stack_rpn(Seq::<Expr>::empty()) + rpn_of(top));
            assert(Seq::<Token>::empty() + rpn_of(top) =~= rpn_of(top));
        }
        Ok(top)
    } else {
        Err(Error::InvalidExpression)
    }
}

} // verus!
