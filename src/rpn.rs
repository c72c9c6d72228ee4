use vstd::prelude::*;
use crate::lexer::{Token, Lexeme, lexemes};

verus! {

/// A computation read from postfix tokens: the value of a number literal,
/// a value divided by a hundred, or a binary operator on two values.
#[derive(Debug, PartialEq)]
pub enum Expr {
    Num(String),
    Percent(Box<Expr>),
    Binary(char, Box<Expr>, Box<Expr>),
}

/// The mathematical content of an `Expr`: literals as character sequences.
pub enum Term {
    Num(Seq<char>),
    Percent(Box<Term>),
    Binary(char, Box<Term>, Box<Term>),
}

pub open spec fn term_of(e: Expr) -> Term
    decreases e,
{
    match e {
        Expr::Num(s) => Term::Num(s@),
        Expr::Percent(a) => Term::Percent(Box::new(term_of(*a))),
        Expr::Binary(c, a, b) => Term::Binary(c, Box::new(term_of(*a)), Box::new(term_of(*b))),
    }
}

impl View for Expr {
    type V = Term;

    open spec fn view(&self) -> Term {
        term_of(*self)
    }
}

/// The terms of a sequence of computations, position by position.
pub open spec fn terms(s: Seq<Expr>) -> Seq<Term> {
    s.map_values(|e: Expr| e@)
}

/// Why a postfix sequence has no value.
#[derive(Debug, Clone, Copy, PartialEq, Eq, Structural)]
pub enum EvalError {
    /// An operator found fewer values on the stack than it takes.
    InsufficientOperands,
    /// A division whose divisor is zero, found when a computation is given
    /// its value.
    DivisionByZero,
    /// An operator symbol outside `+ - * / ^ %`.
    UnknownOperator(char),
    /// A parenthesis among postfix tokens.
    MalformedPostfix,
    /// The tokens left other than exactly one value.
    MalformedExpression,
}

/// The description of a postfix failure.
pub open spec fn eval_message(e: EvalError) -> Seq<char> {
    match e {
        EvalError::InsufficientOperands => "Not enough operands"@,
        EvalError::DivisionByZero => "Division by zero"@,
        EvalError::UnknownOperator(_) => "Unknown operator"@,
        EvalError::MalformedPostfix => "Invalid token in RPN"@,
        EvalError::MalformedExpression => "Invalid expression"@,
    }
}

impl EvalError {
    /// A human-readable description of the failure.
    pub fn message(&self) -> (r: String)
        ensures
            r@ == eval_message(*self),
    {
        match self {
            EvalError::InsufficientOperands => String::from_str("Not enough operands"),
            EvalError::DivisionByZero => String::from_str("Division by zero"),
            EvalError::UnknownOperator(_) => String::from_str("Unknown operator"),
            EvalError::MalformedPostfix => String::from_str("Invalid token in RPN"),
            EvalError::MalformedExpression => String::from_str("Invalid expression"),
        }
    }
}

/// A failure of the postfix stage, with the values on the stack just before
/// the token that failed (all of them, at the end of the input). Every
/// division of the input read before the failure lies inside `pending`.
#[derive(Debug)]
pub struct RpnError {
    pub kind: EvalError,
    pub pending: Vec<Expr>,
}

pub open spec fn is_binary_op(c: char) -> bool {
    c == '+' || c == '-' || c == '*' || c == '/' || c == '^'
}

/// One postfix token applied to the value stack.
pub open spec fn rpn_step(st: Seq<Term>, t: Lexeme) -> Result<Seq<Term>, EvalError> {
    match t {
        Lexeme::Num(s) => Ok(st.push(Term::Num(s))),
        Lexeme::Op(c) => if c == '%' {
            if st.len() >= 1 {
                Ok(st.drop_last().push(Term::Percent(Box::new(st.last()))))
            } else {
                Err(EvalError::InsufficientOperands)
            }
        } else if st.len() < 2 {
            Err(EvalError::InsufficientOperands)
        } else if !is_binary_op(c) {
            Err(EvalError::UnknownOperator(c))
        } else {
            Ok(
                st.drop_last().drop_last().push(
                    Term::Binary(c, Box::new(st[st.len() - 2]), Box::new(st.last())),
                ),
            )
        },
        _ => Err(EvalError::MalformedPostfix),
    }
}

/// The value stack after the first `n` tokens, or the first failure with the
/// stack it met.
pub open spec fn rpn_prefix(ts: Seq<Lexeme>, n: int) -> Result<Seq<Term>, (EvalError, Seq<Term>)>
    decreases n,
{
    if n <= 0 {
        Ok(seq![])
    } else {
        match rpn_prefix(ts, n - 1) {
            Err(f) => Err(f),
            Ok(st) => match rpn_step(st, ts[n - 1]) {
                Ok(st2) => Ok(st2),
                Err(k) => Err((k, st)),
            },
        }
    }
}

/// The single value that a postfix sequence computes.
pub open spec fn spec_rpn(ts: Seq<Lexeme>) -> Result<Term, (EvalError, Seq<Term>)> {
    match rpn_prefix(ts, ts.len() as int) {
        Err(f) => Err(f),
        Ok(st) => if st.len() == 1 {
            Ok(st[0])
        } else {
            Err((EvalError::MalformedExpression, st))
        },
    }
}

proof fn lemma_failure_stays(ts: Seq<Lexeme>, i: int, n: int)
    requires
        0 <= i <= n,
        rpn_prefix(ts, i) is Err,
    ensures
        rpn_prefix(ts, n) == rpn_prefix(ts, i),
    decreases n - i,
{
    if i < n {
        lemma_failure_stays(ts, i, n - 1);
    }
}

/// Takes the top value off a non-empty stack.
fn pop_value(stack: &mut Vec<Expr>) -> (e: Expr)
    requires
        old(stack)@.len() > 0,
    ensures
        final(stack)@ == old(stack)@.drop_last(),
        e == old(stack)@.last(),
{
    match stack.pop() {
        Some(e) => e,
        None => Expr::Num(String::new()),
    }
}

/// Reads postfix tokens with a value stack and returns the computation of
/// the one value left at the end. `%` takes one value, the other operators
/// two, the lower of them as left operand.
pub fn eval_rpn(tokens: &[Token]) -> (r: Result<Expr, RpnError>)
    ensures
        match r {
            Ok(e) => spec_rpn(lexemes(tokens@)) == Ok::<Term, (EvalError, Seq<Term>)>(e@),
            Err(x) => spec_rpn(lexemes(tokens@)) == Err::<Term, (EvalError, Seq<Term>)>(
                (x.kind, terms(x.pending@)),
            ),
        },
{
    let ghost t = lexemes(tokens@);
    let mut stack: Vec<Expr> = Vec::new();
    let mut i: usize = 0;
    assert(terms(stack@) =~= seq![]);
    while i < tokens.len()
        invariant
            t == lexemes(tokens@),
            i <= tokens@.len(),
            rpn_prefix(t, i as int) == Ok::<Seq<Term>, (EvalError, Seq<Term>)>(terms(stack@)),
        decreases tokens@.len() - i,
    {
        assert(t[i as int] == tokens@[i as int]@);
        let ghost st = terms(stack@);
        let fault: Option<EvalError> = match &tokens[i] {
            Token::Number(_) => None,
            Token::Op(c) => if *c == '%' {
                if stack.len() >= 1 {
                    None
                } else {
                    Some(EvalError::InsufficientOperands)
                }
            } else if stack.len() < 2 {
                Some(EvalError::InsufficientOperands)
            } else if !(*c == '+' || *c == '-' || *c == '*' || *c == '/' || *c == '^') {
                Some(EvalError::UnknownOperator(*c))
            } else {
                None
            },
            _ => Some(EvalError::MalformedPostfix),
        };
        if let Some(k) = fault {
            proof {
                lemma_failure_stays(t, i + 1, t.len() as int);
            }
            return Err(RpnError { kind: k, pending: stack });
        }
        match &tokens[i] {
            Token::Number(s) => {
                stack.push(Expr::Num(s.clone()));
                assert(terms(stack@) =~= st.push(Term::Num(s@)));
            },
            Token::Op(c) => {
                if *c == '%' {
                    let a = pop_value(&mut stack);
                    stack.push(Expr::Percent(Box::new(a)));
                    assert(terms(stack@) =~= st.drop_last().push(
                        Term::Percent(Box::new(st.last())),
                    ));
                } else {
                    let b = pop_value(&mut stack);
                    let a = pop_value(&mut stack);
                    stack.push(Expr::Binary(*c, Box::new(a), Box::new(b)));
                    assert(terms(stack@) =~= st.drop_last().drop_last().push(
                        Term::Binary(*c, Box::new(st[st.len() - 2]), Box::new(st.last())),
                    ));
                }
            },
            _ => {},
        }
        i = i + 1;
    }
    assert(t =~= t.subrange(0, t.len() as int));
    if stack.len() == 1 {
        match stack.pop() {
            Some(e) => Ok(e),
            None => Err(RpnError { kind: EvalError::MalformedExpression, pending: stack }),
        }
    } else {
        Err(RpnError { kind: EvalError::MalformedExpression, pending: stack })
    }
}

} // verus!
