//! The token vocabulary shared by every stage of the pipeline, together with
//! the precedence and associativity table of the operators.

use vstd::prelude::*;

verus! {

/// The five binary operators of the expression language.
#[derive(Copy, Clone, PartialEq, Eq, Structural, Debug)]
pub enum Operator {
    Add,
    Subtract,
    Multiply,
    Divide,
    Power,
}

/// A parenthesis symbol, as it appears in infix input.
#[derive(Copy, Clone, PartialEq, Eq, Structural, Debug)]
pub enum Parenthesis {
    Left,
    Right,
}

/// The grouping direction that breaks ties between operators of equal
/// precedence.
#[derive(Copy, Clone, PartialEq, Eq, Structural, Debug)]
pub enum Associativity {
    Left,
    Right,
}

impl Operator {
    /// Binding strength: addition and subtraction bind loosest, then
    /// multiplication and division, and exponentiation binds tightest.
    pub open spec fn precedence_spec(self) -> int {
        match self {
            Operator::Add | Operator::Subtract => 1,
            Operator::Multiply | Operator::Divide => 2,
            Operator::Power => 3,
        }
    }

    pub fn precedence(&self) -> (p: i32)
        ensures
            p == self.precedence_spec(),
    {
        match self {
            Operator::Add | Operator::Subtract => 1,
            Operator::Multiply | Operator::Divide => 2,
            Operator::Power => 3,
        }
    }

    /// Every operator groups leftwards except exponentiation.
    pub open spec fn associativity_spec(self) -> Associativity {
        match self {
            Operator::Add | Operator::Subtract | Operator::Multiply | Operator::Divide => {
                Associativity::Left
            },
            Operator::Power => Associativity::Right,
        }
    }

    pub fn associativity(&self) -> (a: Associativity)
        ensures
            a == self.associativity_spec(),
    {
        match self {
            Operator::Add | Operator::Subtract | Operator::Multiply | Operator::Divide => {
                Associativity::Left
            },
            Operator::Power => Associativity::Right,
        }
    }
}

impl Associativity {
    pub fn is_left(&self) -> (b: bool)
        ensures
            b == (*self is Left),
    {
        *self == Associativity::Left
    }

    pub fn is_right(&self) -> (b: bool)
        ensures
            b == (*self is Right),
    {
        *self == Associativity::Right
    }
}

/// A token of the expression language. A number carries the caller's 32-bit
/// encoding of its scalar value; the pipeline moves that code around but never
/// interprets it.
#[derive(Copy, Clone, PartialEq, Eq, Structural, Debug)]
pub enum Token {
    Number(u32),
    Operator(Operator),
    Parenthesis(Parenthesis),
}

/// A token as the scanner produces it: a number is still its unparsed lexeme,
/// a run of digit and decimal-separator characters.
#[derive(PartialEq, Eq, Debug)]
pub enum RawToken {
    Number(Vec<char>),
    Operator(Operator),
    Parenthesis(Parenthesis),
}

/// The specification-level image of a `RawToken`: the lexeme becomes a
/// mathematical character sequence.
pub ghost enum LexToken {
    Number(Seq<char>),
    Operator(Operator),
    Parenthesis(Parenthesis),
}

impl View for RawToken {
    type V = LexToken;

    open spec fn view(&self) -> LexToken {
        match self {
            RawToken::Number(s) => LexToken::Number(s@),
            RawToken::Operator(o) => LexToken::Operator(*o),
            RawToken::Parenthesis(p) => LexToken::Parenthesis(*p),
        }
    }
}

/// The views of a sequence of scanned tokens, element by element.
pub open spec fn lex_views(ts: Seq<RawToken>) -> Seq<LexToken> {
    ts.map_values(|t: RawToken| t@)
}

/// Everything that can go wrong between an input string and its value.
#[derive(Copy, Clone, PartialEq, Eq, Structural, Debug)]
pub enum Error {
    /// No expression was supplied at all.
    NoExpression,
    /// A numeric lexeme did not parse as a scalar.
    InvalidNumber,
    /// A right parenthesis lacks a matching left one, or a left parenthesis
    /// is still open when the input ends.
    MismatchedParentheses,
    /// The postfix sequence does not denote exactly one expression.
    InvalidExpression,
}

} // verus!
