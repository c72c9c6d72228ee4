use calculator::convert::{is_right_associative, precedence, shunting_yard, ConvertError};
use calculator::lexer::{tokenize, valid_literal, LexError, Token};
use calculator::rpn::{eval_rpn, EvalError, Expr};
use calculator::{evaluate, EvaluationError};

fn num(s: &str) -> Token {
    Token::Number(s.to_string())
}

fn leaf(s: &str) -> Box<Expr> {
    Box::new(Expr::Num(s.to_string()))
}

fn bin(c: char, a: Box<Expr>, b: Box<Expr>) -> Box<Expr> {
    Box::new(Expr::Binary(c, a, b))
}

/// The floating-point value of a computation, or a division by zero.
fn value(e: &Expr) -> Result<f64, EvalError> {
    match e {
        Expr::Num(s) => Ok(s.parse::<f64>().unwrap()),
        Expr::Percent(a) => Ok(value(a)? / 100.0),
        Expr::Binary(c, a, b) => {
            let x = value(a)?;
            let y = value(b)?;
            match c {
                '+' => Ok(x + y),
                '-' => Ok(x - y),
                '*' => Ok(x * y),
                '/' => {
                    if y == 0.0 {
                        Err(EvalError::DivisionByZero)
                    } else {
                        Ok(x / y)
                    }
                }
                '^' => Ok(x.powf(y)),
                _ => Err(EvalError::UnknownOperator(*c)),
            }
        }
    }
}

fn calc(text: &str) -> Result<f64, String> {
    match evaluate(text) {
        Ok(e) => value(&e).map_err(|k| k.message()),
        Err(EvaluationError::Eval(x)) => {
            for p in &x.pending {
                if let Err(k) = value(p) {
                    return Err(k.message());
                }
            }
            Err(x.kind.message())
        }
        Err(e) => Err(e.message()),
    }
}

fn postfix_text(ts: &[Token]) -> String {
    let mut out = Vec::new();
    for t in ts {
        out.push(match t {
            Token::Number(s) => s.clone(),
            Token::Op(c) => c.to_string(),
            Token::LParen => "(".to_string(),
            Token::RParen => ")".to_string(),
        });
    }
    out.join(" ")
}

fn postfix_of(text: &str) -> Result<String, ConvertError> {
    let ts = tokenize(text).unwrap();
    shunting_yard(&ts).map(|o| postfix_text(&o))
}

#[test]
fn precedence_and_parentheses() {
    assert_eq!(calc("2 + 3 * (4 - 1) ^ 2"), Ok(29.0));
    assert_eq!(postfix_of("2 + 3 * (4 - 1) ^ 2"), Ok("2 3 4 1 - 2 ^ * +".to_string()));
}

#[test]
fn leading_unary_minus() {
    assert_eq!(calc("-5 + 3"), Ok(-2.0));
    assert_eq!(tokenize("-5 + 3").unwrap(), vec![num("0"), Token::Op('-'), num("5"), Token::Op('+'), num("3")]);
}

#[test]
fn power_groups_from_the_right() {
    assert_eq!(calc("2 ^ 3 ^ 2"), Ok(512.0));
    let e = evaluate("2 ^ 3 ^ 2").unwrap();
    assert_eq!(Box::new(e), bin('^', leaf("2"), bin('^', leaf("3"), leaf("2"))));
}

#[test]
fn subtraction_groups_from_the_left() {
    assert_eq!(calc("10 - 4 - 3"), Ok(3.0));
    assert_eq!(calc("64 / 4 / 2"), Ok(8.0));
}

#[test]
fn percent_is_unary() {
    assert_eq!(calc("50% + 1"), Ok(1.5));
    assert_eq!(postfix_of("50% + 1"), Ok("50 % 1 +".to_string()));
}

#[test]
fn percent_after_product() {
    assert_eq!(calc("2 * 50%"), Ok(1.0));
}

#[test]
fn division_by_zero() {
    assert_eq!(calc("10 / 0"), Err("Division by zero".to_string()));
    assert_eq!(calc("10 / 0.0"), Err("Division by zero".to_string()));
}

#[test]
fn division_by_zero_before_a_later_failure() {
    assert_eq!(calc("(1 / 0) 2"), Err("Division by zero".to_string()));
    assert_eq!(calc("1 / 0 + +"), Err("Division by zero".to_string()));
}

#[test]
fn unclosed_parenthesis() {
    assert!(matches!(evaluate("(1 + 2"), Err(EvaluationError::Convert(ConvertError::MismatchedParentheses))));
}

#[test]
fn unopened_parenthesis() {
    assert!(matches!(evaluate("1 + 2)"), Err(EvaluationError::Convert(ConvertError::MismatchedParentheses))));
    assert!(matches!(evaluate(")"), Err(EvaluationError::Convert(ConvertError::MismatchedParentheses))));
}

#[test]
fn plus_is_never_unary() {
    match evaluate("1 + + 2") {
        Err(EvaluationError::Eval(x)) => assert_eq!(x.kind, EvalError::InsufficientOperands),
        other => panic!("unexpected {:?}", other),
    }
    match evaluate("1 + +2") {
        Err(EvaluationError::Eval(x)) => assert_eq!(x.kind, EvalError::InsufficientOperands),
        other => panic!("unexpected {:?}", other),
    }
}

#[test]
fn empty_and_blank_text() {
    for text in ["", "   "] {
        match evaluate(text) {
            Err(EvaluationError::Eval(x)) => {
                assert_eq!(x.kind, EvalError::MalformedExpression);
                assert!(x.pending.is_empty());
            }
            other => panic!("unexpected {:?}", other),
        }
    }
}

#[test]
fn same_text_same_result() {
    let a = evaluate("1.5 * (2 - 7) % ^ 2");
    let b = evaluate("1.5 * (2 - 7) % ^ 2");
    assert_eq!(format!("{:?}", a), format!("{:?}", b));
    assert_eq!(calc("3 ^ 0.5").unwrap().to_bits(), calc("3 ^ 0.5").unwrap().to_bits());
}

#[test]
fn unary_minus_after_operator_and_parenthesis() {
    assert_eq!(calc("3 * (-2)"), Ok(-6.0));
    assert_eq!(calc("2 * -3"), Ok(-3.0));
    assert_eq!(calc("--4"), Ok(-4.0));
}

#[test]
fn invalid_number() {
    assert!(matches!(tokenize("1.2.3 + 1"), Err(LexError::InvalidNumber(s)) if s == "1.2.3"));
    assert!(matches!(tokenize("."), Err(LexError::InvalidNumber(s)) if s == "."));
    assert!(matches!(evaluate("2 + .."), Err(EvaluationError::Lex(LexError::InvalidNumber(_)))));
}

#[test]
fn invalid_character() {
    assert!(matches!(tokenize("2 & 3"), Err(LexError::InvalidCharacter('&'))));
    assert!(matches!(tokenize("1..2 x"), Err(LexError::InvalidNumber(_))));
    assert!(matches!(tokenize("x 1..2"), Err(LexError::InvalidCharacter('x'))));
}

#[test]
fn white_space_is_skipped() {
    assert_eq!(tokenize("\t1\u{00A0}+\n2 ").unwrap(), vec![num("1"), Token::Op('+'), num("2")]);
}

#[test]
fn literals_keep_their_text() {
    assert_eq!(tokenize(".5 5. 2.25").unwrap(), vec![num(".5"), num("5."), num("2.25")]);
    assert_eq!(calc("5. + .5"), Ok(5.5));
}

#[test]
fn literal_validity() {
    assert!(valid_literal("12"));
    assert!(valid_literal("1.5"));
    assert!(valid_literal(".5"));
    assert!(!valid_literal("."));
    assert!(!valid_literal("1.2.3"));
}

#[test]
fn precedence_table() {
    assert_eq!(precedence('+'), 1);
    assert_eq!(precedence('-'), 1);
    assert_eq!(precedence('*'), 2);
    assert_eq!(precedence('/'), 2);
    assert_eq!(precedence('%'), 2);
    assert_eq!(precedence('^'), 3);
    assert_eq!(precedence('('), 0);
    assert!(is_right_associative('^'));
    assert!(!is_right_associative('-'));
}

#[test]
fn postfix_reader_rejects_parenthesis() {
    match eval_rpn(&[num("1"), Token::LParen]) {
        Err(x) => {
            assert_eq!(x.kind, EvalError::MalformedPostfix);
            assert_eq!(x.pending, vec![Expr::Num("1".to_string())]);
        }
        other => panic!("unexpected {:?}", other),
    }
}

#[test]
fn postfix_reader_rejects_unknown_operator() {
    match eval_rpn(&[num("1"), num("2"), Token::Op('&')]) {
        Err(x) => assert_eq!(x.kind, EvalError::UnknownOperator('&')),
        other => panic!("unexpected {:?}", other),
    }
}

#[test]
fn postfix_reader_needs_operands() {
    match eval_rpn(&[Token::Op('%')]) {
        Err(x) => assert_eq!(x.kind, EvalError::InsufficientOperands),
        other => panic!("unexpected {:?}", other),
    }
    match eval_rpn(&[num("1"), Token::Op('+')]) {
        Err(x) => {
            assert_eq!(x.kind, EvalError::InsufficientOperands);
            assert_eq!(x.pending.len(), 1);
        }
        other => panic!("unexpected {:?}", other),
    }
}

#[test]
fn postfix_reader_leftover_values() {
    match eval_rpn(&[num("1"), num("2")]) {
        Err(x) => {
            assert_eq!(x.kind, EvalError::MalformedExpression);
            assert_eq!(x.pending.len(), 2);
        }
        other => panic!("unexpected {:?}", other),
    }
}

#[test]
fn postfix_reader_builds_tree() {
    let e = eval_rpn(&[num("1"), num("2"), Token::Op('-'), Token::Op('%')]).unwrap();
    assert_eq!(e, Expr::Percent(bin('-', leaf("1"), leaf("2"))));
}

#[test]
fn messages() {
    assert_eq!(ConvertError::MismatchedParentheses.message(), "Mismatched parentheses");
    assert_eq!(LexError::InvalidNumber("1.2.3".to_string()).message(), "Invalid number: 1.2.3");
    assert_eq!(EvalError::MalformedExpression.message(), "Invalid expression");
}

#[test]
fn explicit_grouping_overrides_associativity() {
    assert_eq!(calc("(2 ^ 3) ^ 2"), Ok(64.0));
    assert_eq!(calc("1 - (2 - 3)"), Ok(2.0));
    let e = evaluate("1 - (2 - 3)").unwrap();
    assert_eq!(Box::new(e), bin('-', leaf("1"), bin('-', leaf("2"), leaf("3"))));
}

#[test]
fn minus_after_percent_reads_as_unary() {
    assert_eq!(tokenize("50% - 1").unwrap(), vec![num("50"), Token::Op('%'), num("0"), Token::Op('-'), num("1")]);
    match evaluate("50% - 1") {
        Err(EvaluationError::Eval(x)) => assert_eq!(x.kind, EvalError::MalformedExpression),
        other => panic!("unexpected {:?}", other),
    }
}

#[test]
fn power_of_negative_exponent_lowers_to_subtraction() {
    assert_eq!(calc("2 ^ -1"), Ok(0.0));
    assert!(calc("(0 - 8) ^ 0.5").unwrap().is_nan());
}
