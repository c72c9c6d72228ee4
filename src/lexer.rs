use vstd::prelude::*;

verus! {

/// A lexical unit of an expression. A number keeps the text of its literal.
#[derive(Debug, PartialEq)]
pub enum Token {
    Number(String),
    Op(char),
    LParen,
    RParen,
}

/// The mathematical content of a token: a number is its literal's characters.
pub enum Lexeme {
    Num(Seq<char>),
    Op(char),
    LParen,
    RParen,
}

impl View for Token {
    type V = Lexeme;

    open spec fn view(&self) -> Lexeme {
        match self {
            Token::Number(s) => Lexeme::Num(s@),
            Token::Op(c) => Lexeme::Op(*c),
            Token::LParen => Lexeme::LParen,
            Token::RParen => Lexeme::RParen,
        }
    }
}

/// The lexemes of a token sequence, position by position.
pub open spec fn lexemes(ts: Seq<Token>) -> Seq<Lexeme> {
    ts.map_values(|t: Token| t@)
}

impl Token {
    /// An equal copy of this token.
    pub fn duplicate(&self) -> (r: Token)
        ensures
            r == *self,
    {
        match self {
            Token::Number(s) => Token::Number(s.clone()),
            Token::Op(c) => Token::Op(*c),
            Token::LParen => Token::LParen,
            Token::RParen => Token::RParen,
        }
    }
}

/// Why a text could not be split into tokens.
#[derive(Debug, PartialEq)]
pub enum LexError {
    /// A run of digits and points that is not a number, such as `1.2.3`.
    InvalidNumber(String),
    /// A character that starts no token.
    InvalidCharacter(char),
}

/// The mathematical content of a `LexError`.
pub enum LexFault {
    InvalidNumber(Seq<char>),
    InvalidCharacter(char),
}

impl View for LexError {
    type V = LexFault;

    open spec fn view(&self) -> LexFault {
        match self {
            LexError::InvalidNumber(s) => LexFault::InvalidNumber(s@),
            LexError::InvalidCharacter(c) => LexFault::InvalidCharacter(*c),
        }
    }
}

/// The description of a lexing failure.
pub open spec fn lex_message(e: LexFault) -> Seq<char> {
    match e {
        LexFault::InvalidNumber(s) => "Invalid number: "@ + s,
        LexFault::InvalidCharacter(_) => "Invalid character"@,
    }
}

impl LexError {
    /// A human-readable description of the failure.
    pub fn message(&self) -> (r: String)
        ensures
            r@ == lex_message(self@),
    {
        match self {
            LexError::InvalidNumber(s) => {
                let mut m = String::from_str("Invalid number: ");
                m.append(s.as_str());
                m
            },
            LexError::InvalidCharacter(_) => String::from_str("Invalid character"),
        }
    }
}

pub open spec fn is_digit(c: char) -> bool {
    '0' <= c && c <= '9'
}

/// A character that may belong to a numeric literal.
pub open spec fn is_number_char(c: char) -> bool {
    is_digit(c) || c == '.'
}

/// The characters with the Unicode `White_Space` property.
pub open spec fn is_space(c: char) -> bool {
    let u = c as u32;
    (0x9 <= u && u <= 0xD) || u == 0x20 || u == 0x85 || u == 0xA0 || u == 0x1680 || (0x2000 <= u
        && u <= 0x200A) || u == 0x2028 || u == 0x2029 || u == 0x202F || u == 0x205F || u == 0x3000
}

pub open spec fn is_op_char(c: char) -> bool {
    c == '+' || c == '-' || c == '*' || c == '/' || c == '^' || c == '%'
}

pub open spec fn dot_count(s: Seq<char>) -> nat
    decreases s.len(),
{
    if s.len() == 0 {
        0
    } else {
        dot_count(s.drop_last()) + if s.last() == '.' {
            1nat
        } else {
            0nat
        }
    }
}

pub open spec fn digit_count(s: Seq<char>) -> nat
    decreases s.len(),
{
    if s.len() == 0 {
        0
    } else {
        digit_count(s.drop_last()) + if is_digit(s.last()) {
            1nat
        } else {
            0nat
        }
    }
}

/// A run of digits and points reads as a decimal number when it holds at
/// least one digit and at most one point (`5`, `5.`, `.5`, `2.25`).
pub open spec fn is_valid_literal(s: Seq<char>) -> bool {
    dot_count(s) <= 1 && digit_count(s) >= 1
}

/// The end of the maximal run of number characters that starts at `i`.
pub open spec fn run_end(s: Seq<char>, i: int) -> int
    decreases s.len() - i,
{
    if 0 <= i < s.len() && is_number_char(s[i]) {
        run_end(s, i + 1)
    } else {
        i
    }
}

/// Puts `x` in front of a successful result; a failure stays as it is.
pub open spec fn prepend(x: Lexeme, r: Result<Seq<Lexeme>, LexFault>) -> Result<
    Seq<Lexeme>,
    LexFault,
> {
    match r {
        Ok(t) => Ok(seq![x] + t),
        Err(e) => Err(e),
    }
}

/// The lexemes of `s` from position `i` on, before unary minus is lowered,
/// or the first failure met from the left.
pub open spec fn scan_from(s: Seq<char>, i: int) -> Result<Seq<Lexeme>, LexFault>
    decreases s.len() - i,
{
    if i < 0 || i >= s.len() {
        Ok(seq![])
    } else if is_space(s[i]) {
        scan_from(s, i + 1)
    } else if is_number_char(s[i]) {
        let j = run_end(s, i);
        let lit = s.subrange(i, j);
        if !is_valid_literal(lit) {
            Err(LexFault::InvalidNumber(lit))
        } else if i < j <= s.len() {
            prepend(Lexeme::Num(lit), scan_from(s, j))
        } else {
            Ok(seq![])
        }
    } else if is_op_char(s[i]) {
        prepend(Lexeme::Op(s[i]), scan_from(s, i + 1))
    } else if s[i] == '(' {
        prepend(Lexeme::LParen, scan_from(s, i + 1))
    } else if s[i] == ')' {
        prepend(Lexeme::RParen, scan_from(s, i + 1))
    } else {
        Err(LexFault::InvalidCharacter(s[i]))
    }
}

/// A `-` is unary where it opens the sequence or follows an operator or `(`.
pub open spec fn is_unary_minus(t: Seq<Lexeme>, i: int) -> bool {
    t[i] == Lexeme::Op('-') && (i == 0 || t[i - 1] is Op || t[i - 1] is LParen)
}

/// What the lexeme at `i` becomes: a unary minus turns into `0 -`.
pub open spec fn lowering_of(t: Seq<Lexeme>, i: int) -> Seq<Lexeme> {
    if is_unary_minus(t, i) {
        seq![Lexeme::Num(seq!['0']), Lexeme::Op('-')]
    } else {
        seq![t[i]]
    }
}

/// The first `n` lexemes of `t` with each unary minus lowered.
pub open spec fn lowered(t: Seq<Lexeme>, n: int) -> Seq<Lexeme>
    decreases n,
{
    if n <= 0 {
        seq![]
    } else {
        lowered(t, n - 1) + lowering_of(t, n - 1)
    }
}

/// The lexemes of a whole text, unary minus lowered, or the first failure.
pub open spec fn spec_tokenize(s: Seq<char>) -> Result<Seq<Lexeme>, LexFault> {
    match scan_from(s, 0) {
        Ok(t) => Ok(lowered(t, t.len() as int)),
        Err(e) => Err(e),
    }
}

/// Joins the lexemes already found to the result for the rest of the text.
pub open spec fn joined(p: Seq<Lexeme>, r: Result<Seq<Lexeme>, LexFault>) -> Result<
    Seq<Lexeme>,
    LexFault,
> {
    match r {
        Ok(t) => Ok(p + t),
        Err(e) => Err(e),
    }
}

proof fn lemma_joined_prepend(p: Seq<Lexeme>, x: Lexeme, r: Result<Seq<Lexeme>, LexFault>)
    ensures
        joined(p, prepend(x, r)) == joined(p + seq![x], r),
{
    if let Ok(t) = r {
        assert(p + (seq![x] + t) =~= (p + seq![x]) + t);
    }
}

proof fn lemma_run_end_bounds(s: Seq<char>, i: int)
    requires
        0 <= i <= s.len(),
    ensures
        i <= run_end(s, i) <= s.len(),
        forall|k: int| i <= k < run_end(s, i) ==> is_number_char(#[trigger] s[k]),
        run_end(s, i) < s.len() ==> !is_number_char(s[run_end(s, i)]),
    decreases s.len() - i,
{
    if i < s.len() && is_number_char(s[i]) {
        lemma_run_end_bounds(s, i + 1);
    }
}

fn is_blank(c: char) -> (r: bool)
    ensures
        r == is_space(c),
{
    let u = c as u32;
    (0x9 <= u && u <= 0xD) || u == 0x20 || u == 0x85 || u == 0xA0 || u == 0x1680 || (0x2000 <= u
        && u <= 0x200A) || u == 0x2028 || u == 0x2029 || u == 0x202F || u == 0x205F || u == 0x3000
}

fn is_number_character(c: char) -> (r: bool)
    ensures
        r == is_number_char(c),
{
    ('0' <= c && c <= '9') || c == '.'
}

/// Whether a run of digits and points reads as a decimal number.
pub fn valid_literal(s: &str) -> (r: bool)
    ensures
        r == is_valid_literal(s@),
{
    let n = s.unicode_len();
    let mut dots: usize = 0;
    let mut digits: usize = 0;
    let mut i: usize = 0;
    while i < n
        invariant
            n == s@.len(),
            i <= n,
            dots == dot_count(s@.subrange(0, i as int)),
            digits == digit_count(s@.subrange(0, i as int)),
            dots <= i,
            digits <= i,
        decreases n - i,
    {
        let c = s.get_char(i);
        assert(s@.subrange(0, i + 1).drop_last() =~= s@.subrange(0, i as int));
        if c == '.' {
            dots = dots + 1;
        } else if '0' <= c && c <= '9' {
            digits = digits + 1;
        }
        i = i + 1;
    }
    assert(s@.subrange(0, n as int) =~= s@);
    dots <= 1 && digits >= 1
}

/// Whether the lexeme before position `i` lets a `-` at `i` be unary.
fn opens_operand(tokens: &Vec<Token>, i: usize) -> (r: bool)
    requires
        i < tokens@.len(),
    ensures
        r == (i == 0 || lexemes(tokens@)[i - 1] is Op || lexemes(tokens@)[i - 1] is LParen),
{
    if i == 0 {
        true
    } else {
        match &tokens[i - 1] {
            Token::Op(_) => true,
            Token::LParen => true,
            _ => false,
        }
    }
}

/// Rewrites each unary minus of `tokens` as `0 -`.
fn lower_unary_minus(tokens: Vec<Token>) -> (r: Vec<Token>)
    ensures
        lexemes(r@) == lowered(lexemes(tokens@), tokens@.len() as int),
{
    let ghost t = lexemes(tokens@);
    let mut fixed: Vec<Token> = Vec::new();
    let mut i: usize = 0;
    while i < tokens.len()
        invariant
            t == lexemes(tokens@),
            i <= tokens@.len(),
            lexemes(fixed@) == lowered(t, i as int),
        decreases tokens@.len() - i,
    {
        let ghost before = fixed@;
        assert(t[i as int] == tokens@[i as int]@);
        let unary = match &tokens[i] {
            Token::Op(c) => *c == '-' && opens_operand(&tokens, i),
            _ => false,
        };
        if unary {
            let zero = String::from_str("0");
            proof {
                reveal_strlit("0");
            }
            assert(zero@ =~= seq!['0']);
            fixed.push(Token::Number(zero));
            fixed.push(Token::Op('-'));
            assert(is_unary_minus(t, i as int));
            assert(lexemes(fixed@) =~= lexemes(before) + seq![
                Lexeme::Num(seq!['0']),
                Lexeme::Op('-'),
            ]);
        } else {
            fixed.push(tokens[i].duplicate());
            assert(!is_unary_minus(t, i as int));
            assert(lexemes(fixed@) =~= lexemes(before) + seq![t[i as int]]);
        }
        assert(lexemes(fixed@) =~= lexemes(before) + lowering_of(t, i as int));
        i = i + 1;
    }
    fixed
}

/// Splits `expr` into tokens, skipping white space, and lowers each unary
/// minus to a subtraction from zero.
///
/// A maximal run of digits and points is one numeric literal; `+ - * / ^ %`
/// are operators and `(`, `)` group. The first run that is no number, or the
/// first character that starts no token, is reported.
pub fn tokenize(expr: &str) -> (r: Result<Vec<Token>, LexError>)
    ensures
        match r {
            Ok(ts) => spec_tokenize(expr@) == Ok::<Seq<Lexeme>, LexFault>(lexemes(ts@)),
            Err(e) => spec_tokenize(expr@) == Err::<Seq<Lexeme>, LexFault>(e@),
        },
{
    let ghost s = expr@;
    let n = expr.unicode_len();
    let mut tokens: Vec<Token> = Vec::new();
    let mut i: usize = 0;
    while i < n
        invariant
            s == expr@,
            n == s.len(),
            i <= n,
            scan_from(s, 0) == joined(lexemes(tokens@), scan_from(s, i as int)),
        decreases n - i,
    {
        let ghost before = lexemes(tokens@);
        let ch = expr.get_char(i);
        if is_blank(ch) {
            i = i + 1;
        } else if is_number_character(ch) {
            let mut j: usize = i;
            while j < n && is_number_character(expr.get_char(j))
                invariant
                    s == expr@,
                    n == s.len(),
                    i <= j <= n,
                    run_end(s, i as int) == run_end(s, j as int),
                decreases n - j,
            {
                j = j + 1;
            }
            proof {
                lemma_run_end_bounds(s, i as int);
            }
            let lit = expr.substring_char(i, j);
            if !valid_literal(lit) {
                return Err(LexError::InvalidNumber(String::from_str(lit)));
            }
            tokens.push(Token::Number(String::from_str(lit)));
            assert(lexemes(tokens@) =~= before + seq![Lexeme::Num(lit@)]);
            proof {
                lemma_joined_prepend(before, Lexeme::Num(lit@), scan_from(s, j as int));
            }
            i = j;
        } else if ch == '+' || ch == '-' || ch == '*' || ch == '/' || ch == '^' || ch == '%' {
            tokens.push(Token::Op(ch));
            assert(lexemes(tokens@) =~= before + seq![Lexeme::Op(ch)]);
            proof {
                lemma_joined_prepend(before, Lexeme::Op(ch), scan_from(s, i + 1));
            }
            i = i + 1;
        } else if ch == '(' {
            tokens.push(Token::LParen);
            assert(lexemes(tokens@) =~= before + seq![Lexeme::LParen]);
            proof {
                lemma_joined_prepend(before, Lexeme::LParen, scan_from(s, i + 1));
            }
            i = i + 1;
        } else if ch == ')' {
            tokens.push(Token::RParen);
            assert(lexemes(tokens@) =~= before + seq![Lexeme::RParen]);
            proof {
                lemma_joined_prepend(before, Lexeme::RParen, scan_from(s, i + 1));
            }
            i = i + 1;
        } else {
            return Err(LexError::InvalidCharacter(ch));
        }
    }
    assert(scan_from(s, n as int) == Ok::<Seq<Lexeme>, LexFault>(seq![]));
    assert(lexemes(tokens@) + seq![] =~= lexemes(tokens@));
    let fixed = lower_unary_minus(tokens);
    Ok(fixed)
}

} // verus!
