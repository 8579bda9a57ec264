//! The shunting-yard converter: it reorders an infix token sequence into
//! postfix order, honouring the precedence and associativity table, using an
//! output sequence and an operator stack.

use vstd::multiset::Multiset;
use vstd::prelude::*;

use crate::token::{Error, Operator, Parenthesis, Token};

verus! {

/// An incoming operator `o` sends the stacked token `t` to the output when `t`
/// is an operator that binds at least as tightly — strictly more tightly when
/// `o` groups rightwards.
pub open spec fn pops_before(o: Operator, t: Token) -> bool {
    t matches Token::Operator(top) && (if o.associativity_spec() is Left {
        o.precedence_spec() <= top.precedence_spec()
    } else {
        o.precedence_spec() < top.precedence_spec()
    })
}

/// Pop every stacked operator that an incoming operator `o` sends to the
/// output, and append each to it.
pub open spec fn pop_ops(out: Seq<Token>, stack: Seq<Token>, o: Operator) -> (Seq<Token>, Seq<
    Token,
>)
    decreases stack.len(),
{
    if stack.len() > 0 && pops_before(o, stack.last()) {
        pop_ops(out.push(stack.last()), stack.drop_last(), o)
    } else {
        (out, stack)
    }
}

/// Pop the stack down to the nearest left parenthesis, appending each popped
/// token to the output and discarding the parenthesis itself; an exhausted
/// stack means the right parenthesis had no match.
pub open spec fn pop_to_left(out: Seq<Token>, stack: Seq<Token>) -> Result<
    (Seq<Token>, Seq<Token>),
    Error,
>
    decreases stack.len(),
{
    if stack.len() == 0 {
        Err(Error::MismatchedParentheses)
    } else if stack.last() == Token::Parenthesis(Parenthesis::Left) {
        Ok((out, stack.drop_last()))
    } else {
        pop_to_left(out.push(stack.last()), stack.drop_last())
    }
}

/// One shunting-yard step: the output and stack after one input token.
pub open spec fn yard_step(out: Seq<Token>, stack: Seq<Token>, t: Token) -> Result<
    (Seq<Token>, Seq<Token>),
    Error,
> {
    match t {
        Token::Number(_) => Ok((out.push(t), stack)),
        Token::Operator(o) => {
            let popped = pop_ops(out, stack, o);
            Ok((popped.0, popped.1.push(t)))
        },
        Token::Parenthesis(Parenthesis::Left) => Ok((out, stack.push(t))),
        Token::Parenthesis(Parenthesis::Right) => pop_to_left(out, stack),
    }
}

/// The state after feeding every token of `ts` to the converter, starting
/// from `(out, stack)`.
pub open spec fn yard_run(ts: Seq<Token>, out: Seq<Token>, stack: Seq<Token>) -> Result<
    (Seq<Token>, Seq<Token>),
    Error,
>
    decreases ts.len(),
{
    if ts.len() == 0 {
        Ok((out, stack))
    } else {
        match yard_step(out, stack, ts[0]) {
            Ok(next) => yard_run(ts.skip(1), next.0, next.1),
            Err(e) => Err(e),
        }
    }
}

/// Drain the stack onto the output once the input is exhausted; a left
/// parenthesis still on the stack was never closed.
pub open spec fn drain(out: Seq<Token>, stack: Seq<Token>) -> Result<Seq<Token>, Error>
    decreases stack.len(),
{
    if stack.len() == 0 {
        Ok(out)
    } else if stack.last() is Parenthesis {
        Err(Error::MismatchedParentheses)
    } else {
        drain(out.push(stack.last()), stack.drop_last())
    }
}

/// The postfix sequence the converter yields for the infix sequence `ts`.
pub open spec fn shunting_yard_spec(ts: Seq<Token>) -> Result<Seq<Token>, Error> {
    match yard_run(ts, Seq::empty(), Seq::empty()) {
        Ok(end) => drain(end.0, end.1),
        Err(e) => Err(e),
    }
}

/// Feeding a concatenation is feeding the first part, then the second from
/// the state the first part left behind.
pub proof fn lemma_yard_run_concat(s1: Seq<Token>, s2: Seq<Token>, out: Seq<Token>, stack: Seq<
    Token,
>)
    ensures
        yard_run(s1 + s2, out, stack) == match yard_run(s1, out, stack) {
            Ok(mid) => yard_run(s2, mid.0, mid.1),
            Err(e) => Err(e),
        },
    decreases s1.len(),
{
    if s1.len() == 0 {
        assert(s1 + s2 =~= s2);
    } else {
        assert((s1 + s2)[0] == s1[0]);
        assert((s1 + s2).skip(1) =~= s1.skip(1) + s2);
        match yard_step(out, stack, s1[0]) {
            Ok(next) => lemma_yard_run_concat(s1.skip(1), s2, next.0, next.1),
            Err(_) => {},
        }
    }
}

/// Whether the incoming operator sends the token on top of the stack to the
/// output.
pub fn sends_to_output(operator: &Operator, top: &Token) -> (b: bool)
    ensures
        b == pops_before(*operator, *top),
{
    match top {
        Token::Operator(t) => {
            if operator.associativity().is_left() {
                operator.precedence() <= t.precedence()
            } else {
                operator.precedence() < t.precedence()
            }
        },
        _ => false,
    }
}

/// Convert an infix token sequence to postfix order. Fails exactly when a
/// parenthesis has no match: a right one that finds no left on the stack, or
/// a left one still open at the end of the input.
#[verifier::loop_isolation(false)]
pub fn shunting_yard(tokens: Vec<Token>) -> (r: Result<Vec<Token>, Error>)
    ensures
        match r {
            Ok(out) => shunting_yard_spec(tokens@) == Ok::<Seq<Token>, Error>(out@),
            Err(e) => shunting_yard_spec(tokens@) == Err::<Seq<Token>, Error>(e),
        },
{
    let mut output: Vec<Token> = Vec::new();
    let mut stack: Vec<Token> = Vec::new();
    let mut i: usize = 0;
    proof {
        assert(tokens@.skip(0) =~= tokens@);
    }
    while i < tokens.len()
        invariant
            i <= tokens@.len(),
            yard_run(tokens@, Seq::empty(), Seq::empty()) == yard_run(
                tokens@.skip(i as int),
                output@,
                stack@,
            ),
        decreases tokens@.len() - i,
    {
        let token = tokens[i];
        proof {
            assert(tokens@.skip(i as int)[0] == tokens@[i as int]);
            assert(tokens@.skip(i as int).skip(1) =~= tokens@.skip(i as int + 1));
        }
        let ghost out0 = output@;
        let ghost stack0 = stack@;
        match token {
            Token::Number(_) => {
                output.push(token);
            },
            Token::Operator(operator) => {
                while stack.len() > 0 && sends_to_output(&operator, &stack[stack.len() - 1])
                    invariant
                        pop_ops(out0, stack0, operator) == pop_ops(output@, stack@, operator),
                    decreases stack@.len(),
                {
                    let popped = stack.pop().unwrap();
                    output.push(popped);
                }
                stack.push(token);
            },
            Token::Parenthesis(Parenthesis::Left) => {
                stack.push(token);
            },
            Token::Parenthesis(Parenthesis::Right) => {
                let mut matched = false;
                while !matched
                    invariant
                        !matched ==> pop_to_left(out0, stack0) == pop_to_left(output@, stack@),
                        matched ==> pop_to_left(out0, stack0) == Ok::<
                            (Seq<Token>, Seq<Token>),
                            Error,
                        >((output@, stack@)),
                    decreases stack@.len(),
                {
                    if stack.len() == 0 {
                        return Err(Error::MismatchedParentheses);
                    }
                    let ghost pre = stack@;
                    let popped = stack.pop().unwrap();
                    if popped == Token::Parenthesis(Parenthesis::Left) {
                        proof {
                            assert(pop_to_left(output@, pre) == Ok::<
                                (Seq<Token>, Seq<Token>),
                                Error,
                            >((output@, pre.drop_last())));
                        }
                        matched = true;
                    } else {
                        output.push(popped);
                    }
                }
            },
        }
        i += 1;
    }
    let ghost out_end = output@;
    let ghost stack_end = stack@;
    proof {
        assert(tokens@.skip(tokens@.len() as int) =~= Seq::<Token>::empty());
        assert(yard_run(tokens@, Seq::empty(), Seq::empty()) == Ok::<
            (Seq<Token>, Seq<Token>),
            Error,
        >((out_end, stack_end)));
    }
    while stack.len() > 0
        invariant
            yard_run(tokens@, Seq::empty(), Seq::empty()) == Ok::<(Seq<Token>, Seq<Token>), Error>(
                (out_end, stack_end),
            ),
            drain(out_end, stack_end) == drain(output@, stack@),
        decreases stack@.len(),
    {
        let ghost pre = stack@;
        let popped = stack.pop().unwrap();
        match popped {
            Token::Parenthesis(_) => {
                proof {
                    assert(drain(output@, pre) == Err::<Seq<Token>, Error>(
                        Error::MismatchedParentheses,
                    ));
                }
                return Err(Error::MismatchedParentheses);
            },
            _ => {
                output.push(popped);
            },
        }
    }
    Ok(output)
}

/// The number and operator tokens of a sequence, in order, parentheses left
/// out.
pub open spec fn without_parens(ts: Seq<Token>) -> Seq<Token>
    decreases ts.len(),
{
    if ts.len() == 0 {
        Seq::empty()
    } else {
        let rest = without_parens(ts.skip(1));
        if ts[0] is Parenthesis {
            rest
        } else {
            seq![ts[0]] + rest
        }
    }
}

/// The operators on the stack, bottom first.
spec fn stack_operators(stack: Seq<Token>) -> Seq<Token>
    decreases stack.len(),
{
    if stack.len() == 0 {
        Seq::empty()
    } else {
        let rest = stack_operators(stack.drop_last());
        if stack.last() is Operator {
            rest.push(stack.last())
        } else {
            rest
        }
    }
}

/// What the converter ever stacks: operators and left parentheses.
spec fn stack_wf(stack: Seq<Token>) -> bool {
    forall|i: int|
        0 <= i < stack.len() ==> ((#[trigger] stack[i]) is Operator || stack[i]
            == Token::Parenthesis(Parenthesis::Left))
}

/// Popping operators moves tokens from the stack to the output, one for one.
proof fn lemma_pop_ops_tokens(out: Seq<Token>, stack: Seq<Token>, o: Operator)
    ensures
        ({
            let r = pop_ops(out, stack, o);
            &&& r.0.to_multiset().add(stack_operators(r.1).to_multiset()) == out.to_multiset().add(
                stack_operators(stack).to_multiset(),
            )
            &&& stack_wf(stack) ==> stack_wf(r.1)
        }),
    decreases stack.len(),
{
    broadcast use vstd::seq_lib::group_to_multiset_ensures;

    if stack.len() > 0 && pops_before(o, stack.last()) {
        let last = stack.last();
        let rest = stack.drop_last();
        lemma_pop_ops_tokens(out.push(last), rest, o);
        let r = pop_ops(out, stack, o);
        assert(r == pop_ops(out.push(last), rest, o));
        assert(stack_operators(stack) == stack_operators(rest).push(last));
        assert(out.push(last).to_multiset().add(stack_operators(rest).to_multiset()) =~= out.to_multiset().add(
            stack_operators(stack).to_multiset(),
        ));
        assert(stack_wf(stack) ==> stack_wf(rest));
    }
}

/// Popping to the matching left parenthesis moves the operators above it to
/// the output and discards only the parenthesis itself.
proof fn lemma_pop_to_left_tokens(out: Seq<Token>, stack: Seq<Token>)
    requires
        pop_to_left(out, stack) is Ok,
        stack_wf(stack),
    ensures
        ({
            let r = pop_to_left(out, stack)->Ok_0;
            &&& r.0.to_multiset().add(stack_operators(r.1).to_multiset()) == out.to_multiset().add(
                stack_operators(stack).to_multiset(),
            )
            &&& stack_wf(r.1)
        }),
    decreases stack.len(),
{
    broadcast use vstd::seq_lib::group_to_multiset_ensures;

    let last = stack.last();
    let rest = stack.drop_last();
    assert(stack_wf(rest));
    if last == Token::Parenthesis(Parenthesis::Left) {
        assert(stack_operators(stack) == stack_operators(rest));
    } else {
        assert(last is Operator);
        lemma_pop_to_left_tokens(out.push(last), rest);
        assert(stack_operators(stack) == stack_operators(rest).push(last));
        assert(out.push(last).to_multiset().add(stack_operators(rest).to_multiset()) =~= out.to_multiset().add(
            stack_operators(stack).to_multiset(),
        ));
    }
}

/// Draining moves the remaining operators to the output, one for one.
proof fn lemma_drain_tokens(out: Seq<Token>, stack: Seq<Token>)
    requires
        drain(out, stack) is Ok,
        stack_wf(stack),
    ensures
        (drain(out, stack)->Ok_0).to_multiset() == out.to_multiset().add(
            stack_operators(stack).to_multiset(),
        ),
    decreases stack.len(),
{
    broadcast use vstd::seq_lib::group_to_multiset_ensures;

    if stack.len() == 0 {
        assert(stack_operators(stack).to_multiset() =~= Multiset::<Token>::empty());
        assert(out.to_multiset().add(Multiset::<Token>::empty()) =~= out.to_multiset());
    } else {
        let last = stack.last();
        let rest = stack.drop_last();
        assert(last is Operator);
        assert(stack_wf(rest));
        lemma_drain_tokens(out.push(last), rest);
        assert(stack_operators(stack) == stack_operators(rest).push(last));
        assert(out.push(last).to_multiset().add(stack_operators(rest).to_multiset()) =~= out.to_multiset().add(
            stack_operators(stack).to_multiset(),
        ));
    }
}

/// Every step of a successful run conserves the non-parenthesis tokens: they
/// are all either already in the output, still on the stack, or yet to come.
proof fn lemma_yard_run_tokens(ts: Seq<Token>, out: Seq<Token>, stack: Seq<Token>)
    requires
        yard_run(ts, out, stack) is Ok,
        stack_wf(stack),
    ensures
        ({
            let r = yard_run(ts, out, stack)->Ok_0;
            &&& r.0.to_multiset().add(stack_operators(r.1).to_multiset()) == out.to_multiset().add(
                stack_operators(stack).to_multiset(),
            ).add(without_parens(ts).to_multiset())
            &&& stack_wf(r.1)
        }),
    decreases ts.len(),
{
    broadcast use vstd::seq_lib::group_to_multiset_ensures;

    let r = yard_run(ts, out, stack)->Ok_0;
    if ts.len() == 0 {
        assert(without_parens(ts).to_multiset() =~= Multiset::<Token>::empty());
        assert(r.0.to_multiset().add(stack_operators(r.1).to_multiset()) =~= out.to_multiset().add(
            stack_operators(stack).to_multiset(),
        ).add(without_parens(ts).to_multiset()));
    } else {
        let t = ts[0];
        let tail = without_parens(ts.skip(1)).to_multiset();
        match t {
            Token::Number(_) => {
                lemma_yard_run_tokens(ts.skip(1), out.push(t), stack);
                vstd::seq_lib::lemma_multiset_commutative(seq![t], without_parens(ts.skip(1)));
                assert(seq![t].to_multiset() =~= Multiset::<Token>::empty().insert(t));
                assert(out.push(t).to_multiset().add(stack_operators(stack).to_multiset()).add(
                    tail,
                ) =~= out.to_multiset().add(stack_operators(stack).to_multiset()).add(
                    without_parens(ts).to_multiset(),
                ));
            },
            Token::Operator(o) => {
                lemma_pop_ops_tokens(out, stack, o);
                let p = pop_ops(out, stack, o);
                assert(stack_wf(p.1.push(t)));
                lemma_yard_run_tokens(ts.skip(1), p.0, p.1.push(t));
                assert(p.1.push(t).drop_last() =~= p.1);
                assert(stack_operators(p.1.push(t)) == stack_operators(p.1).push(t));
                vstd::seq_lib::lemma_multiset_commutative(seq![t], without_parens(ts.skip(1)));
                assert(seq![t].to_multiset() =~= Multiset::<Token>::empty().insert(t));
                assert(p.0.to_multiset().add(stack_operators(p.1).push(t).to_multiset()).add(tail)
                    =~= out.to_multiset().add(stack_operators(stack).to_multiset()).add(
                    without_parens(ts).to_multiset(),
                ));
            },
            Token::Parenthesis(Parenthesis::Left) => {
                assert(stack_wf(stack.push(t)));
                lemma_yard_run_tokens(ts.skip(1), out, stack.push(t));
                assert(stack.push(t).drop_last() =~= stack);
                assert(stack_operators(stack.push(t)) == stack_operators(stack));
                assert(without_parens(ts).to_multiset() == tail);
            },
            Token::Parenthesis(Parenthesis::Right) => {
                assert(pop_to_left(out, stack) is Ok);
                lemma_pop_to_left_tokens(out, stack);
                let p = pop_to_left(out, stack)->Ok_0;
                lemma_yard_run_tokens(ts.skip(1), p.0, p.1);
                assert(without_parens(ts).to_multiset() == tail);
            },
        }
    }
}

/// The output of a successful conversion holds exactly the number and
/// operator tokens of its input — the parentheses are consumed, everything
/// else is reordered but neither lost nor invented.
pub proof fn lemma_yard_output_tokens(ts: Seq<Token>, out: Seq<Token>)
    requires
        shunting_yard_spec(ts) == Ok::<Seq<Token>, Error>(out),
    ensures
        out.to_multiset() == without_parens(ts).to_multiset(),
{
    broadcast use vstd::seq_lib::group_to_multiset_ensures;

    let e = Seq::<Token>::empty();
    assert(stack_wf(e));
    assert(yard_run(ts, e, e) is Ok);
    lemma_yard_run_tokens(ts, e, e);
    let r = yard_run(ts, e, e)->Ok_0;
    lemma_drain_tokens(r.0, r.1);
    assert(stack_operators(e).to_multiset() =~= Multiset::<Token>::empty());
    assert(e.to_multiset() =~= Multiset::<Token>::empty());
    assert(out.to_multiset() =~= without_parens(ts).to_multiset());
}

/// Left parentheses minus right parentheses, over a token sequence.
pub open spec fn paren_surplus(ts: Seq<Token>) -> int
    decreases ts.len(),
{
    if ts.len() == 0 {
        0
    } else {
        paren_surplus(ts.drop_last()) + (if ts.last() == Token::Parenthesis(Parenthesis::Left) {
            1int
        } else if ts.last() == Token::Parenthesis(Parenthesis::Right) {
            -1int
        } else {
            0int
        })
    }
}

/// The parentheses of a sequence are balanced: no prefix closes more than it
/// has opened, and the whole opens as much as it closes.
pub open spec fn parens_balanced(ts: Seq<Token>) -> bool {
    &&& forall|i: int| 0 <= i <= ts.len() ==> paren_surplus(#[trigger] ts.take(i)) >= 0
    &&& paren_surplus(ts) == 0
}

proof fn lemma_paren_surplus_concat(a: Seq<Token>, b: Seq<Token>)
    ensures
        paren_surplus(a + b) == paren_surplus(a) + paren_surplus(b),
    decreases b.len(),
{
    if b.len() == 0 {
        assert(a + b =~= a);
    } else {
        assert((a + b).drop_last() =~= a + b.drop_last());
        assert((a + b).last() == b.last());
        lemma_paren_surplus_concat(a, b.drop_last());
    }
}

/// The left parentheses on the stack.
spec fn left_count(stack: Seq<Token>) -> int
    decreases stack.len(),
{
    if stack.len() == 0 {
        0
    } else {
        left_count(stack.drop_last()) + (if stack.last() == Token::Parenthesis(Parenthesis::Left) {
            1int
        } else {
            0int
        })
    }
}

proof fn lemma_left_count_nonneg(stack: Seq<Token>)
    ensures
        left_count(stack) >= 0,
    decreases stack.len(),
{
    if stack.len() > 0 {
        lemma_left_count_nonneg(stack.drop_last());
    }
}

/// Popping operators never touches a parenthesis on the stack.
proof fn lemma_pop_ops_left_count(out: Seq<Token>, stack: Seq<Token>, o: Operator)
    ensures
        left_count(pop_ops(out, stack, o).1) == left_count(stack),
    decreases stack.len(),
{
    if stack.len() > 0 && pops_before(o, stack.last()) {
        lemma_pop_ops_left_count(out.push(stack.last()), stack.drop_last(), o);
    }
}

/// A right parenthesis finds its match exactly when the stack still holds a
/// left one, and consumes exactly that one.
proof fn lemma_pop_to_left_left_count(out: Seq<Token>, stack: Seq<Token>)
    ensures
        pop_to_left(out, stack) is Ok <==> left_count(stack) >= 1,
        pop_to_left(out, stack) is Ok ==> left_count(pop_to_left(out, stack)->Ok_0.1)
            == left_count(stack) - 1,
    decreases stack.len(),
{
    if stack.len() == 0 {
    } else if stack.last() == Token::Parenthesis(Parenthesis::Left) {
        lemma_left_count_nonneg(stack.drop_last());
    } else {
        lemma_pop_to_left_left_count(out.push(stack.last()), stack.drop_last());
    }
}

/// A stack of operators and left parentheses drains exactly when no left
/// parenthesis is left on it.
proof fn lemma_drain_left_count(out: Seq<Token>, stack: Seq<Token>)
    requires
        stack_wf(stack),
    ensures
        drain(out, stack) is Ok <==> left_count(stack) == 0,
    decreases stack.len(),
{
    if stack.len() == 0 {
    } else {
        assert(stack_wf(stack.drop_last()));
        lemma_left_count_nonneg(stack.drop_last());
        if stack.last() is Parenthesis {
            assert(stack.last() == Token::Parenthesis(Parenthesis::Left));
        } else {
            lemma_drain_left_count(out.push(stack.last()), stack.drop_last());
        }
    }
}

/// Shift the prefix condition across the first token: checking every prefix
/// of `ts` against a floor `k` is checking every prefix of the rest against
/// the floor the first token leaves.
proof fn lemma_prefix_floor_shift(ts: Seq<Token>, k: int, k1: int)
    requires
        ts.len() > 0,
        k >= 0,
        k1 == k + paren_surplus(ts.take(1)),
    ensures
        (forall|i: int| 0 <= i <= ts.len() ==> k + paren_surplus(#[trigger] ts.take(i)) >= 0)
            <==> (forall|j: int|
            0 <= j <= ts.skip(1).len() ==> k1 + paren_surplus(#[trigger] ts.skip(1).take(j)) >= 0),
{
    let t = ts[0];
    let rest = ts.skip(1);
    assert(ts.take(1) =~= seq![t]);
    assert forall|i: int| 1 <= i <= ts.len() implies paren_surplus(#[trigger] ts.take(i))
        == paren_surplus(seq![t]) + paren_surplus(rest.take(i - 1)) by {
        assert(ts.take(i) =~= seq![t] + rest.take(i - 1));
        lemma_paren_surplus_concat(seq![t], rest.take(i - 1));
    }
    if forall|i: int| 0 <= i <= ts.len() ==> k + paren_surplus(#[trigger] ts.take(i)) >= 0 {
        assert forall|j: int|
            0 <= j <= rest.len() implies k1 + paren_surplus(#[trigger] rest.take(j)) >= 0 by {
            assert(k + paren_surplus(ts.take(j + 1)) >= 0);
        }
    }
    if forall|j: int| 0 <= j <= rest.len() ==> k1 + paren_surplus(#[trigger] rest.take(j)) >= 0 {
        assert forall|i: int|
            0 <= i <= ts.len() implies k + paren_surplus(#[trigger] ts.take(i)) >= 0 by {
            if i == 0 {
                assert(ts.take(0) =~= Seq::<Token>::empty());
            } else {
                assert(k1 + paren_surplus(rest.take(i - 1)) >= 0);
            }
        }
    }
}

/// A run gets through its input exactly when no prefix closes more
/// parentheses than the stack and the prefix together have opened; the left
/// parentheses that remain are the surplus.
proof fn lemma_yard_run_parens(ts: Seq<Token>, out: Seq<Token>, stack: Seq<Token>)
    requires
        stack_wf(stack),
    ensures
        yard_run(ts, out, stack) is Ok <==> (forall|i: int|
            0 <= i <= ts.len() ==> left_count(stack) + paren_surplus(#[trigger] ts.take(i)) >= 0),
        yard_run(ts, out, stack) is Ok ==> {
            let r = yard_run(ts, out, stack)->Ok_0;
            &&& left_count(r.1) == left_count(stack) + paren_surplus(ts)
            &&& stack_wf(r.1)
        },
    decreases ts.len(),
{
    lemma_left_count_nonneg(stack);
    let k = left_count(stack);
    if ts.len() == 0 {
        assert(forall|i: int| 0 <= i <= ts.len() ==> ts.take(i) =~= Seq::<Token>::empty());
    } else {
        let t = ts[0];
        let rest = ts.skip(1);
        assert(ts.take(1) =~= seq![t]);
        assert(paren_surplus(seq![t].drop_last()) == 0) by {
            assert(seq![t].drop_last() =~= Seq::<Token>::empty());
        }
        assert(ts =~= seq![t] + rest);
        lemma_paren_surplus_concat(seq![t], rest);
        match t {
            Token::Number(_) => {
                lemma_yard_run_parens(rest, out.push(t), stack);
                lemma_prefix_floor_shift(ts, k, k);
            },
            Token::Operator(o) => {
                lemma_pop_ops_tokens(out, stack, o);
                lemma_pop_ops_left_count(out, stack, o);
                let p = pop_ops(out, stack, o);
                assert(stack_wf(p.1.push(t)));
                assert(p.1.push(t).drop_last() =~= p.1);
                assert(left_count(p.1.push(t)) == left_count(p.1));
                lemma_yard_run_parens(rest, p.0, p.1.push(t));
                lemma_prefix_floor_shift(ts, k, k);
            },
            Token::Parenthesis(Parenthesis::Left) => {
                assert(stack_wf(stack.push(t)));
                assert(stack.push(t).drop_last() =~= stack);
                assert(left_count(stack.push(t)) == k + 1);
                lemma_yard_run_parens(rest, out, stack.push(t));
                lemma_prefix_floor_shift(ts, k, k + 1);
            },
            Token::Parenthesis(Parenthesis::Right) => {
                lemma_pop_to_left_left_count(out, stack);
                if k >= 1 {
                    lemma_pop_to_left_tokens(out, stack);
                    let p = pop_to_left(out, stack)->Ok_0;
                    lemma_yard_run_parens(rest, p.0, p.1);
                    lemma_prefix_floor_shift(ts, k, k - 1);
                } else {
                    // The run fails here, and so does the prefix condition.
                    assert(k + paren_surplus(ts.take(1)) < 0);
                }
            },
        }
    }
}

/// The converter succeeds exactly on inputs whose parentheses are balanced;
/// the only error it ever reports is the mismatch.
pub proof fn lemma_yard_success_iff_balanced(ts: Seq<Token>)
    ensures
        shunting_yard_spec(ts) is Ok <==> parens_balanced(ts),
{
    let e = Seq::<Token>::empty();
    assert(stack_wf(e));
    lemma_yard_run_parens(ts, e, e);
    assert(ts.take(ts.len() as int) =~= ts);
    if yard_run(ts, e, e) is Ok {
        let r = yard_run(ts, e, e)->Ok_0;
        lemma_drain_left_count(r.0, r.1);
    }
}

} // verus!
