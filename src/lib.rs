use vstd::prelude::*;

pub mod lexer;
pub mod convert;
pub mod rpn;
pub mod laws;

use crate::lexer::{LexError, LexFault, lex_message, spec_tokenize, tokenize};
use crate::convert::{ConvertError, spec_postfix, shunting_yard};
use crate::rpn::{Expr, Term, EvalError, RpnError, eval_message, spec_rpn, terms, eval_rpn};

verus! {

/// Why an expression has no value, by the stage that failed.
#[derive(Debug)]
pub enum EvaluationError {
    Lex(LexError),
    Convert(ConvertError),
    Eval(RpnError),
}

/// The mathematical content of an `EvaluationError`.
pub enum Failure {
    Lex(LexFault),
    Convert(ConvertError),
    Eval(EvalError, Seq<Term>),
}

impl View for EvaluationError {
    type V = Failure;

    open spec fn view(&self) -> Failure {
        match self {
            EvaluationError::Lex(e) => Failure::Lex(e@),
            EvaluationError::Convert(e) => Failure::Convert(*e),
            EvaluationError::Eval(e) => Failure::Eval(e.kind, terms(e.pending@)),
        }
    }
}

impl EvaluationError {
    /// A human-readable description of the failure.
    pub fn message(&self) -> (r: String)
        ensures
            r@ == match self@ {
                Failure::Lex(e) => lex_message(e),
                Failure::Convert(_) => "Mismatched parentheses"@,
                Failure::Eval(k, _) => eval_message(k),
            },
    {
        match self {
            EvaluationError::Lex(e) => e.message(),
            EvaluationError::Convert(e) => e.message(),
            EvaluationError::Eval(e) => e.kind.message(),
        }
    }
}

/// What a text computes: its tokens put in postfix order and read with a
/// value stack, or the first stage that failed.
pub open spec fn spec_evaluate(s: Seq<char>) -> Result<Term, Failure> {
    match spec_tokenize(s) {
        Err(e) => Err(Failure::Lex(e)),
        Ok(t) => match spec_postfix(t) {
            Err(e) => Err(Failure::Convert(e)),
            Ok(p) => match spec_rpn(p) {
                Ok(v) => Ok(v),
                Err((k, st)) => Err(Failure::Eval(k, st)),
            },
        },
    }
}

/// Tokenizes `expr`, puts the tokens in postfix order and reads them into
/// the computation of one value; the first failure ends the work.
pub fn evaluate(expr: &str) -> (r: Result<Expr, EvaluationError>)
    ensures
        match r {
            Ok(e) => spec_evaluate(expr@) == Ok::<Term, Failure>(e@),
            Err(x) => spec_evaluate(expr@) == Err::<Term, Failure>(x@),
        },
{
    let tokens = match tokenize(expr) {
        Ok(t) => t,
        Err(e) => {
            return Err(EvaluationError::Lex(e));
        },
    };
    let postfix = match shunting_yard(tokens.as_slice()) {
        Ok(p) => p,
        Err(e) => {
            return Err(EvaluationError::Convert(e));
        },
    };
    match eval_rpn(postfix.as_slice()) {
        Ok(v) => Ok(v),
        Err(e) => Err(EvaluationError::Eval(e)),
    }
}

} // verus!
