use vstd::prelude::*;
use crate::lexer::{Token, Lexeme, lexemes};

verus! {

/// Why a token sequence could not be put in postfix order.
#[derive(Debug, Clone, Copy, PartialEq, Eq, Structural)]
pub enum ConvertError {
    /// A `(` that is never closed, or a `)` that closes nothing.
    MismatchedParentheses,
}

impl ConvertError {
    /// A human-readable description of the failure.
    pub fn message(&self) -> (r: String)
        ensures
            r@ == "Mismatched parentheses"@,
    {
        String::from_str("Mismatched parentheses")
    }
}

/// Binding strength: `+ -` bind loosest, `* / %` tighter, `^` tightest; any
/// other symbol has none.
pub open spec fn op_prec(op: char) -> int {
    if op == '+' || op == '-' {
        1
    } else if op == '*' || op == '/' || op == '%' {
        2
    } else if op == '^' {
        3
    } else {
        0
    }
}

/// `^` groups from the right; every other operator from the left.
pub open spec fn right_assoc(op: char) -> bool {
    op == '^'
}

/// Whether reading operator `op1` moves `top`, the top of the operator
/// stack, to the output.
pub open spec fn yields_to(op1: char, top: Lexeme) -> bool {
    match top {
        Lexeme::Op(op2) => op_prec(op1) < op_prec(op2) || (op_prec(op1) == op_prec(op2)
            && !right_assoc(op1)),
        _ => false,
    }
}

/// Binding strength of an operator symbol.
pub fn precedence(op: char) -> (r: i32)
    ensures
        r as int == op_prec(op),
{
    match op {
        '+' | '-' => 1,
        '*' | '/' | '%' => 2,
        '^' => 3,
        _ => 0,
    }
}

/// Whether an operator groups from the right.
pub fn is_right_associative(op: char) -> (r: bool)
    ensures
        r == right_assoc(op),
{
    op == '^'
}

/// The output and the operator stack of the conversion, bottom first.
pub type Shunt = (Seq<Lexeme>, Seq<Lexeme>);

/// Moves operators from the stack to the output while `op1` yields to them.
pub open spec fn pop_for(op1: char, out: Seq<Lexeme>, ops: Seq<Lexeme>) -> Shunt
    decreases ops.len(),
{
    if ops.len() > 0 && yields_to(op1, ops.last()) {
        pop_for(op1, out.push(ops.last()), ops.drop_last())
    } else {
        (out, ops)
    }
}

/// Moves operators to the output down to the nearest `(`, which is dropped;
/// nothing when the stack holds no `(`.
pub open spec fn close_group(out: Seq<Lexeme>, ops: Seq<Lexeme>) -> Option<Shunt>
    decreases ops.len(),
{
    if ops.len() == 0 {
        None
    } else if ops.last() is LParen {
        Some((out, ops.drop_last()))
    } else {
        close_group(out.push(ops.last()), ops.drop_last())
    }
}

/// One token read by the conversion; nothing once a `)` matched no `(`.
pub open spec fn shunt_step(st: Option<Shunt>, t: Lexeme) -> Option<Shunt> {
    match st {
        None => None,
        Some((out, ops)) => match t {
            Lexeme::Num(_) => Some((out.push(t), ops)),
            Lexeme::Op(c) => {
                let (o2, s2) = pop_for(c, out, ops);
                Some((o2, s2.push(t)))
            },
            Lexeme::LParen => Some((out, ops.push(t))),
            Lexeme::RParen => close_group(out, ops),
        },
    }
}

/// The state after the first `n` tokens of `ts`.
pub open spec fn shunt_prefix(ts: Seq<Lexeme>, n: int) -> Option<Shunt>
    decreases n,
{
    if n <= 0 {
        Some((seq![], seq![]))
    } else {
        shunt_step(shunt_prefix(ts, n - 1), ts[n - 1])
    }
}

/// Empties the stack onto the output, top first; nothing if a parenthesis
/// is left on it.
pub open spec fn drain(out: Seq<Lexeme>, ops: Seq<Lexeme>) -> Option<Seq<Lexeme>>
    decreases ops.len(),
{
    if ops.len() == 0 {
        Some(out)
    } else if ops.last() is Op {
        drain(out.push(ops.last()), ops.drop_last())
    } else {
        None
    }
}

/// The postfix order of an infix token sequence.
pub open spec fn spec_postfix(ts: Seq<Lexeme>) -> Result<Seq<Lexeme>, ConvertError> {
    match shunt_prefix(ts, ts.len() as int) {
        None => Err(ConvertError::MismatchedParentheses),
        Some((out, ops)) => match drain(out, ops) {
            Some(r) => Ok(r),
            None => Err(ConvertError::MismatchedParentheses),
        },
    }
}

proof fn lemma_stuck_stays(ts: Seq<Lexeme>, i: int, n: int)
    requires
        i <= n,
        shunt_prefix(ts, i) is None,
    ensures
        shunt_prefix(ts, n) is None,
    decreases n - i,
{
    if i < n {
        lemma_stuck_stays(ts, i, n - 1);
    }
}

/// Whether reading operator `op1` moves the top of `ops` to the output.
fn top_yields(op1: char, ops: &Vec<Token>) -> (r: bool)
    ensures
        r == (ops@.len() > 0 && yields_to(op1, lexemes(ops@).last())),
{
    if ops.len() == 0 {
        return false;
    }
    match &ops[ops.len() - 1] {
        Token::Op(op2) => {
            let p1 = precedence(op1);
            let p2 = precedence(*op2);
            p1 < p2 || (p1 == p2 && !is_right_associative(op1))
        },
        _ => false,
    }
}

/// Moves the top of `ops` to the end of `output`.
fn move_top(output: &mut Vec<Token>, ops: &mut Vec<Token>)
    requires
        old(ops)@.len() > 0,
    ensures
        lexemes(final(output)@) == lexemes(old(output)@).push(lexemes(old(ops)@).last()),
        lexemes(final(ops)@) == lexemes(old(ops)@).drop_last(),
        final(ops)@.len() == old(ops)@.len() - 1,
{
    match ops.pop() {
        Some(t) => {
            output.push(t);
        },
        None => {},
    }
    assert(lexemes(output@) =~= lexemes(old(output)@).push(lexemes(old(ops)@).last()));
    assert(lexemes(ops@) =~= lexemes(old(ops)@).drop_last());
}

/// Reorders infix tokens into postfix order with the shunting-yard method:
/// numbers go straight to the output; an operator first moves to the output
/// the stacked operators it yields to; `(` is stacked; `)` moves operators
/// down to its `(`. What remains on the stack follows at the end.
pub fn shunting_yard(tokens: &[Token]) -> (r: Result<Vec<Token>, ConvertError>)
    ensures
        match r {
            Ok(out) => spec_postfix(lexemes(tokens@)) == Ok::<Seq<Lexeme>, ConvertError>(
                lexemes(out@),
            ),
            Err(e) => spec_postfix(lexemes(tokens@)) == Err::<Seq<Lexeme>, ConvertError>(e),
        },
{
    let ghost t = lexemes(tokens@);
    let mut output: Vec<Token> = Vec::new();
    let mut ops: Vec<Token> = Vec::new();
    let mut i: usize = 0;
    assert(lexemes(output@) =~= seq![]);
    assert(lexemes(ops@) =~= seq![]);
    while i < tokens.len()
        invariant
            t == lexemes(tokens@),
            i <= tokens@.len(),
            shunt_prefix(t, i as int) == Some((lexemes(output@), lexemes(ops@))),
        decreases tokens@.len() - i,
    {
        assert(t[i as int] == tokens@[i as int]@);
        let ghost out0 = lexemes(output@);
        let ghost ops0 = lexemes(ops@);
        match &tokens[i] {
            Token::Number(_) => {
                output.push(tokens[i].duplicate());
                assert(lexemes(output@) =~= out0.push(t[i as int]));
            },
            Token::Op(op1) => {
                while top_yields(*op1, &ops)
                    invariant
                        t == lexemes(tokens@),
                        i < tokens@.len(),
                        shunt_prefix(t, i as int) == Some((out0, ops0)),
                        t[i as int] == Lexeme::Op(*op1),
                        pop_for(*op1, lexemes(output@), lexemes(ops@)) == pop_for(
                            *op1,
                            out0,
                            ops0,
                        ),
                    decreases ops@.len(),
                {
                    move_top(&mut output, &mut ops);
                }
                let ghost mid = lexemes(ops@);
                ops.push(tokens[i].duplicate());
                assert(lexemes(ops@) =~= mid.push(t[i as int]));
            },
            Token::LParen => {
                ops.push(Token::LParen);
                assert(lexemes(ops@) =~= ops0.push(t[i as int]));
            },
            Token::RParen => {
                loop
                    invariant_except_break
                        close_group(lexemes(output@), lexemes(ops@)) == close_group(out0, ops0),
                    invariant
                        t == lexemes(tokens@),
                        i < tokens@.len(),
                        shunt_prefix(t, i as int) == Some((out0, ops0)),
                        t[i as int] == Lexeme::RParen,
                    ensures
                        close_group(out0, ops0) == Some((lexemes(output@), lexemes(ops@))),
                    decreases ops@.len(),
                {
                    if ops.len() == 0 {
                        proof {
                            lemma_stuck_stays(t, i + 1, t.len() as int);
                        }
                        return Err(ConvertError::MismatchedParentheses);
                    }
                    if let Token::LParen = &ops[ops.len() - 1] {
                        let ghost before = lexemes(ops@);
                        ops.pop();
                        assert(lexemes(ops@) =~= before.drop_last());
                        break;
                    }
                    move_top(&mut output, &mut ops);
                }
            },
        }
        i = i + 1;
    }
    let ghost out_end = lexemes(output@);
    let ghost ops_end = lexemes(ops@);
    while ops.len() > 0
        invariant
            t == lexemes(tokens@),
            shunt_prefix(t, t.len() as int) == Some((out_end, ops_end)),
            drain(lexemes(output@), lexemes(ops@)) == drain(out_end, ops_end),
        decreases ops@.len(),
    {
        match &ops[ops.len() - 1] {
            Token::Op(_) => {},
            _ => {
                return Err(ConvertError::MismatchedParentheses);
            },
        }
        move_top(&mut output, &mut ops);
    }
    Ok(output)
}

} // verus!
