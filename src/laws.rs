use vstd::prelude::*;
use crate::{Failure, spec_evaluate};
use crate::lexer::{
    Lexeme, LexFault, is_number_char, is_valid_literal, is_op_char, run_end, scan_from,
    is_unary_minus, lowered, is_space, prepend,
};
use crate::convert::{
    ConvertError, op_prec, right_assoc, yields_to, pop_for, close_group, shunt_prefix, drain,
    spec_postfix,
};
use crate::rpn::{Term, EvalError, is_binary_op, rpn_prefix, spec_rpn};

verus! {

/// Evaluation depends on the text alone: equal texts give equal results,
/// the same value or the same failure.
pub proof fn lemma_evaluate_is_function(a: Seq<char>, b: Seq<char>)
    requires
        a == b,
    ensures
        spec_evaluate(a) == spec_evaluate(b),
{
}

/// A term built from literals, `%` and the binary operators `+ - * / ^`.
pub open spec fn well_formed(e: Term) -> bool
    decreases e,
{
    match e {
        Term::Num(_) => true,
        Term::Percent(a) => well_formed(*a),
        Term::Binary(c, a, b) => is_binary_op(c) && well_formed(*a) && well_formed(*b),
    }
}

/// The postfix tokens of a term: operands first, then the operator.
pub open spec fn postfix_of(e: Term) -> Seq<Lexeme>
    decreases e,
{
    match e {
        Term::Num(s) => seq![Lexeme::Num(s)],
        Term::Percent(a) => postfix_of(*a) + seq![Lexeme::Op('%')],
        Term::Binary(c, a, b) => postfix_of(*a) + postfix_of(*b) + seq![Lexeme::Op(c)],
    }
}

/// How tightly a term holds together when written without parentheses: a
/// literal most, `%` as `* / %` do, a binary term as its operator does.
pub open spec fn binding(e: Term) -> int {
    match e {
        Term::Num(_) => 4,
        Term::Percent(_) => 2,
        Term::Binary(c, _, _) => op_prec(c),
    }
}

/// Whether `a` needs no parentheses as left operand of operator `c`.
pub open spec fn bare_left(c: char, a: Term) -> bool {
    binding(a) > op_prec(c) || (binding(a) == op_prec(c) && !right_assoc(c))
}

/// Whether `b` needs no parentheses as right operand of operator `c`.
pub open spec fn bare_right(c: char, b: Term) -> bool {
    binding(b) > op_prec(c) || (binding(b) == op_prec(c) && right_assoc(c))
}

pub open spec fn grouped(s: Seq<Lexeme>) -> Seq<Lexeme> {
    seq![Lexeme::LParen] + s + seq![Lexeme::RParen]
}

/// The infix tokens of a term, with parentheses only where precedence and
/// associativity ask for them.
pub open spec fn infix_of(e: Term) -> Seq<Lexeme>
    decreases e,
{
    match e {
        Term::Num(s) => seq![Lexeme::Num(s)],
        Term::Percent(a) => (if bare_left('%', *a) {
            infix_of(*a)
        } else {
            grouped(infix_of(*a))
        }) + seq![Lexeme::Op('%')],
        Term::Binary(c, a, b) => (if bare_left(c, *a) {
            infix_of(*a)
        } else {
            grouped(infix_of(*a))
        }) + seq![Lexeme::Op(c)] + (if bare_right(c, *b) {
            infix_of(*b)
        } else {
            grouped(infix_of(*b))
        }),
    }
}

/// A written term may be read under a stack top that none of the operators
/// on its left spine would move.
pub open spec fn spares(e: Term, top: Lexeme) -> bool
    decreases e,
{
    match e {
        Term::Num(_) => true,
        Term::Percent(a) => !yields_to('%', top) && (bare_left('%', *a) ==> spares(*a, top)),
        Term::Binary(c, a, b) => !yields_to(c, top) && (bare_left(c, *a) ==> spares(*a, top)),
    }
}

pub open spec fn spares_stack(e: Term, ops: Seq<Lexeme>) -> bool {
    ops.len() == 0 || spares(e, ops.last())
}

/// The tokens that reading a written term puts on the output.
pub open spec fn emitted(e: Term) -> Seq<Lexeme>
    decreases e,
{
    match e {
        Term::Num(s) => seq![Lexeme::Num(s)],
        Term::Percent(a) => postfix_of(*a),
        Term::Binary(c, a, b) => postfix_of(*a) + (if bare_right(c, *b) {
            emitted(*b)
        } else {
            postfix_of(*b)
        }),
    }
}

/// The operators that reading a written term leaves on the stack, bottom
/// first.
pub open spec fn pending(e: Term) -> Seq<Lexeme>
    decreases e,
{
    match e {
        Term::Num(_) => seq![],
        Term::Percent(_) => seq![Lexeme::Op('%')],
        Term::Binary(c, _, b) => seq![Lexeme::Op(c)] + (if bare_right(c, *b) {
            pending(*b)
        } else {
            seq![]
        }),
    }
}

pub open spec fn reversed(s: Seq<Lexeme>) -> Seq<Lexeme>
    decreases s.len(),
{
    if s.len() == 0 {
        seq![]
    } else {
        seq![s.last()] + reversed(s.drop_last())
    }
}

/// Every entry is an operator that binds at least as tightly as `p`.
pub open spec fn ops_at_least(s: Seq<Lexeme>, p: int) -> bool {
    forall|k: int| 0 <= k < s.len() ==> (#[trigger] s[k] is Op && op_prec(s[k]->Op_0) >= p)
}

/// `s` stands in `ts` from position `i` on.
pub open spec fn occurs_at(ts: Seq<Lexeme>, i: int, s: Seq<Lexeme>) -> bool {
    0 <= i && i + s.len() <= ts.len() && forall|k: int| 0 <= k < s.len() ==> ts[i + k] == s[k]
}

proof fn lemma_occurs_single(ts: Seq<Lexeme>, i: int, x: Lexeme)
    requires
        occurs_at(ts, i, seq![x]),
    ensures
        ts[i] == x,
{
    assert(ts[i + 0] == seq![x][0]);
}

proof fn lemma_occurs_split(ts: Seq<Lexeme>, i: int, a: Seq<Lexeme>, b: Seq<Lexeme>)
    requires
        occurs_at(ts, i, a + b),
    ensures
        occurs_at(ts, i, a),
        occurs_at(ts, i + a.len(), b),
{
    assert forall|k: int| 0 <= k < a.len() implies ts[i + k] == a[k] by {
        assert((a + b)[k] == a[k]);
    }
    assert forall|k: int| 0 <= k < b.len() implies ts[i + a.len() + k] == b[k] by {
        assert((a + b)[a.len() + k] == b[k]);
    }
}

/// Operators that all yield to `c` above a top that does not go to the
/// output, top first.
proof fn lemma_pop_pending(c: char, out: Seq<Lexeme>, ops: Seq<Lexeme>, y: Seq<Lexeme>)
    requires
        forall|k: int| 0 <= k < y.len() ==> yields_to(c, #[trigger] y[k]),
        !(ops.len() > 0 && yields_to(c, ops.last())),
    ensures
        pop_for(c, out, ops + y) == (out + reversed(y), ops),
    decreases y.len(),
{
    if y.len() == 0 {
        assert(ops + y =~= ops);
        assert(out + reversed(y) =~= out);
    } else {
        assert((ops + y).last() == y.last());
        assert((ops + y).drop_last() =~= ops + y.drop_last());
        lemma_pop_pending(c, out.push(y.last()), ops, y.drop_last());
        assert(out.push(y.last()) + reversed(y.drop_last()) =~= out + reversed(y));
    }
}

proof fn lemma_close_pending(out: Seq<Lexeme>, ops: Seq<Lexeme>, y: Seq<Lexeme>)
    requires
        forall|k: int| 0 <= k < y.len() ==> (#[trigger] y[k]) is Op,
    ensures
        close_group(out, ops.push(Lexeme::LParen) + y) == Some((out + reversed(y), ops)),
    decreases y.len(),
{
    if y.len() == 0 {
        assert(ops.push(Lexeme::LParen) + y =~= ops.push(Lexeme::LParen));
        assert(out + reversed(y) =~= out);
        assert(ops.push(Lexeme::LParen).drop_last() =~= ops);
    } else {
        let s = ops.push(Lexeme::LParen) + y;
        assert(s.last() == y.last());
        assert(s.drop_last() =~= ops.push(Lexeme::LParen) + y.drop_last());
        lemma_close_pending(out.push(y.last()), ops, y.drop_last());
        assert(out.push(y.last()) + reversed(y.drop_last()) =~= out + reversed(y));
    }
}

proof fn lemma_drain_pending(out: Seq<Lexeme>, y: Seq<Lexeme>)
    requires
        forall|k: int| 0 <= k < y.len() ==> (#[trigger] y[k]) is Op,
    ensures
        drain(out, y) == Some(out + reversed(y)),
    decreases y.len(),
{
    if y.len() == 0 {
        assert(out + reversed(y) =~= out);
    } else {
        lemma_drain_pending(out.push(y.last()), y.drop_last());
        assert(out.push(y.last()) + reversed(y.drop_last()) =~= out + reversed(y));
    }
}

proof fn lemma_spares_lparen(e: Term)
    ensures
        spares(e, Lexeme::LParen),
    decreases e,
{
    match e {
        Term::Num(_) => {},
        Term::Percent(a) => lemma_spares_lparen(*a),
        Term::Binary(_, a, _) => lemma_spares_lparen(*a),
    }
}

proof fn lemma_reversed_front(x: Lexeme, p: Seq<Lexeme>)
    ensures
        reversed(seq![x] + p) == reversed(p) + seq![x],
    decreases p.len(),
{
    if p.len() == 0 {
        assert(seq![x] + p =~= seq![x]);
        assert(reversed(seq![x]) =~= seq![x] + reversed(seq![x].drop_last()));
        assert(reversed(p) + seq![x] =~= seq![x]);
        assert(seq![x].drop_last() =~= Seq::<Lexeme>::empty());
        assert(seq![x] + reversed(Seq::<Lexeme>::empty()) =~= seq![x]);
    } else {
        let q = seq![x] + p;
        assert(q.last() == p.last());
        assert(q.drop_last() =~= seq![x] + p.drop_last());
        lemma_reversed_front(x, p.drop_last());
        assert(seq![p.last()] + (reversed(p.drop_last()) + seq![x]) =~= reversed(p) + seq![x]);
    }
}

/// What reading a written term emits and leaves pending makes up its
/// postfix tokens, and what it leaves pending binds at least as tightly as
/// the term does.
proof fn lemma_emitted_pending(e: Term)
    requires
        well_formed(e),
    ensures
        emitted(e) + reversed(pending(e)) == postfix_of(e),
        ops_at_least(pending(e), binding(e)),
    decreases e,
{
    match e {
        Term::Num(s) => {
            assert(reversed(pending(e)) =~= Seq::<Lexeme>::empty());
            assert(emitted(e) + reversed(pending(e)) =~= postfix_of(e));
        },
        Term::Percent(a) => {
            let y = seq![Lexeme::Op('%')];
            assert(y.drop_last() =~= Seq::<Lexeme>::empty());
            assert(reversed(y) =~= seq![y.last()] + reversed(y.drop_last()));
            assert(reversed(y) =~= y);
        },
        Term::Binary(c, a, b) => {
            let rest = if bare_right(c, *b) {
                pending(*b)
            } else {
                seq![]
            };
            lemma_reversed_front(Lexeme::Op(c), rest);
            if bare_right(c, *b) {
                lemma_emitted_pending(*b);
                assert(emitted(e) + reversed(pending(e)) =~= postfix_of(*a) + (emitted(*b)
                    + reversed(pending(*b))) + seq![Lexeme::Op(c)]);
            } else {
                assert(reversed(rest) =~= Seq::<Lexeme>::empty());
                assert(emitted(e) + reversed(pending(e)) =~= postfix_of(e));
            }
            assert forall|k: int| 0 <= k < pending(e).len() implies (#[trigger] pending(e)[k] is Op
                && op_prec(pending(e)[k]->Op_0) >= binding(e)) by {
                if k > 0 {
                    assert(pending(e)[k] == rest[k - 1]);
                }
            }
        },
    }
}

/// A term that binds more tightly than operator `c`, or as tightly where
/// `c` groups from the right, may be read with `c` on top of the stack.
proof fn lemma_spares_above(e: Term, c: char)
    requires
        well_formed(e),
        is_binary_op(c),
        binding(e) > op_prec(c) || (binding(e) == op_prec(c) && right_assoc(c)),
    ensures
        spares(e, Lexeme::Op(c)),
    decreases e,
{
    match e {
        Term::Num(_) => {},
        Term::Percent(a) => {
            if bare_left('%', *a) {
                lemma_spares_above(*a, c);
            }
        },
        Term::Binary(o, a, _) => {
            if bare_left(o, *a) {
                lemma_spares_above(*a, c);
            }
        },
    }
}

/// The operand of operator `c` as written on its left.
pub open spec fn left_part(c: char, a: Term) -> Seq<Lexeme> {
    if bare_left(c, a) {
        infix_of(a)
    } else {
        grouped(infix_of(a))
    }
}

/// The operand of operator `c` as written on its right.
pub open spec fn right_part(c: char, b: Term) -> Seq<Lexeme> {
    if bare_right(c, b) {
        infix_of(b)
    } else {
        grouped(infix_of(b))
    }
}

/// Reading a written term under a stack top that it spares emits
/// `emitted(e)` and stacks `pending(e)`.
proof fn lemma_shunt_term(e: Term, ts: Seq<Lexeme>, i: int, out: Seq<Lexeme>, ops: Seq<Lexeme>)
    requires
        well_formed(e),
        occurs_at(ts, i, infix_of(e)),
        shunt_prefix(ts, i) == Some((out, ops)),
        spares_stack(e, ops),
    ensures
        shunt_prefix(ts, i + infix_of(e).len()) == Some((out + emitted(e), ops + pending(e))),
    decreases e, 0int,
{
    match e {
        Term::Num(s) => {
            assert(ts[i + 0] == infix_of(e)[0]);
            assert(ops + pending(e) =~= ops);
            assert(out.push(Lexeme::Num(s)) =~= out + emitted(e));
        },
        Term::Percent(a) => {
            assert(infix_of(e) == left_part('%', *a) + seq![Lexeme::Op('%')]);
            lemma_shunt_left('%', *a, ts, i, out, ops);
            assert(ops.push(Lexeme::Op('%')) =~= ops + pending(e));
        },
        Term::Binary(c, a, b) => {
            let lp = left_part(c, *a) + seq![Lexeme::Op(c)];
            assert(infix_of(e) == lp + right_part(c, *b));
            lemma_occurs_split(ts, i, lp, right_part(c, *b));
            lemma_shunt_left(c, *a, ts, i, out, ops);
            let j = i + lp.len();
            let out1 = out + postfix_of(*a);
            let ops1 = ops.push(Lexeme::Op(c));
            if bare_right(c, *b) {
                lemma_spares_above(*b, c);
                lemma_shunt_term(*b, ts, j, out1, ops1);
                assert(out1 + emitted(*b) =~= out + emitted(e));
                assert(ops1 + pending(*b) =~= ops + pending(e));
            } else {
                lemma_shunt_grouped(*b, ts, j, out1, ops1);
                assert(out1 + postfix_of(*b) =~= out + emitted(e));
                assert(ops1 =~= ops + pending(e));
            }
        },
    }
}

/// Reading a parenthesised term emits its postfix tokens and leaves the
/// stack as it was.
proof fn lemma_shunt_grouped(
    x: Term,
    ts: Seq<Lexeme>,
    i: int,
    out: Seq<Lexeme>,
    ops: Seq<Lexeme>,
)
    requires
        well_formed(x),
        occurs_at(ts, i, grouped(infix_of(x))),
        shunt_prefix(ts, i) == Some((out, ops)),
    ensures
        shunt_prefix(ts, i + infix_of(x).len() + 2) == Some((out + postfix_of(x), ops)),
    decreases x, 1int,
{
    let n = infix_of(x).len();
    lemma_occurs_split(ts, i, seq![Lexeme::LParen] + infix_of(x), seq![Lexeme::RParen]);
    lemma_occurs_split(ts, i, seq![Lexeme::LParen], infix_of(x));
    lemma_occurs_single(ts, i, Lexeme::LParen);
    assert(shunt_prefix(ts, i + 1) == Some((out, ops.push(Lexeme::LParen))));
    lemma_spares_lparen(x);
    lemma_shunt_term(x, ts, i + 1, out, ops.push(Lexeme::LParen));
    lemma_emitted_pending(x);
    lemma_occurs_single(ts, i + 1 + n, Lexeme::RParen);
    lemma_close_pending(out + emitted(x), ops, pending(x));
    assert(out + emitted(x) + reversed(pending(x)) =~= out + postfix_of(x));
}

/// Reading the left operand of `c` and then `c` emits the operand's postfix
/// tokens and stacks `c`.
proof fn lemma_shunt_left(
    c: char,
    a: Term,
    ts: Seq<Lexeme>,
    i: int,
    out: Seq<Lexeme>,
    ops: Seq<Lexeme>,
)
    requires
        well_formed(a),
        is_binary_op(c) || c == '%',
        occurs_at(ts, i, left_part(c, a) + seq![Lexeme::Op(c)]),
        shunt_prefix(ts, i) == Some((out, ops)),
        !(ops.len() > 0 && yields_to(c, ops.last())),
        bare_left(c, a) ==> spares_stack(a, ops),
    ensures
        shunt_prefix(ts, i + left_part(c, a).len() + 1) == Some(
            (out + postfix_of(a), ops.push(Lexeme::Op(c))),
        ),
    decreases a, 2int,
{
    lemma_occurs_split(ts, i, left_part(c, a), seq![Lexeme::Op(c)]);
    let j = i + left_part(c, a).len();
    lemma_occurs_single(ts, j, Lexeme::Op(c));
    lemma_emitted_pending(a);
    if bare_left(c, a) {
        lemma_shunt_term(a, ts, i, out, ops);
        let y = pending(a);
        assert forall|k: int| 0 <= k < y.len() implies yields_to(c, #[trigger] y[k]) by {
            assert(y[k] is Op && op_prec(y[k]->Op_0) >= binding(a));
        }
        lemma_pop_pending(c, out + emitted(a), ops, y);
        assert(out + emitted(a) + reversed(y) =~= out + postfix_of(a));
    } else {
        lemma_shunt_grouped(a, ts, i, out, ops);
        let y = Seq::<Lexeme>::empty();
        lemma_pop_pending(c, out + postfix_of(a), ops, y);
        assert(ops + y =~= ops);
        assert(out + postfix_of(a) + reversed(y) =~= out + postfix_of(a));
    }
}

/// Reading the postfix tokens of a term pushes the term on the value stack.
proof fn lemma_rpn_term(e: Term, ts: Seq<Lexeme>, i: int, st: Seq<Term>)
    requires
        well_formed(e),
        occurs_at(ts, i, postfix_of(e)),
        rpn_prefix(ts, i) == Ok::<Seq<Term>, (EvalError, Seq<Term>)>(st),
    ensures
        rpn_prefix(ts, i + postfix_of(e).len()) == Ok::<Seq<Term>, (EvalError, Seq<Term>)>(
            st.push(e),
        ),
    decreases e,
{
    match e {
        Term::Num(s) => {
            assert(ts[i + 0] == postfix_of(e)[0]);
        },
        Term::Percent(a) => {
            lemma_occurs_split(ts, i, postfix_of(*a), seq![Lexeme::Op('%')]);
            lemma_rpn_term(*a, ts, i, st);
            let j = i + postfix_of(*a).len();
            lemma_occurs_single(ts, j, Lexeme::Op('%'));
            assert(st.push(*a).drop_last() =~= st);
        },
        Term::Binary(c, a, b) => {
            lemma_occurs_split(ts, i, postfix_of(*a) + postfix_of(*b), seq![Lexeme::Op(c)]);
            lemma_occurs_split(ts, i, postfix_of(*a), postfix_of(*b));
            lemma_rpn_term(*a, ts, i, st);
            let j = i + postfix_of(*a).len();
            lemma_rpn_term(*b, ts, j, st.push(*a));
            let k = j + postfix_of(*b).len();
            lemma_occurs_single(ts, k, Lexeme::Op(c));
            let st2 = st.push(*a).push(*b);
            assert(st2.drop_last().drop_last() =~= st);
            assert(st2[st2.len() - 2] == *a);
        },
    }
}

/// Operators honour their precedence and associativity: a well-formed term,
/// written in infix with parentheses only where precedence and
/// associativity ask for them, converts to its postfix tokens, and those
/// read back as the same term.
pub proof fn lemma_infix_round_trip(e: Term)
    requires
        well_formed(e),
    ensures
        spec_postfix(infix_of(e)) == Ok::<Seq<Lexeme>, ConvertError>(postfix_of(e)),
        spec_rpn(postfix_of(e)) == Ok::<Term, (EvalError, Seq<Term>)>(e),
{
    let ts = infix_of(e);
    assert(occurs_at(ts, 0, ts));
    lemma_shunt_term(e, ts, 0, seq![], seq![]);
    lemma_emitted_pending(e);
    assert(Seq::<Lexeme>::empty() + emitted(e) =~= emitted(e));
    assert(Seq::<Lexeme>::empty() + pending(e) =~= pending(e));
    lemma_drain_pending(emitted(e), pending(e));
    let ps = postfix_of(e);
    assert(occurs_at(ps, 0, ps));
    lemma_rpn_term(e, ps, 0, seq![]);
    assert(Seq::<Term>::empty().push(e)[0] == e);
}

/// The characters that write a lexeme.
pub open spec fn spelling(x: Lexeme) -> Seq<char> {
    match x {
        Lexeme::Num(s) => s,
        Lexeme::Op(c) => seq![c],
        Lexeme::LParen => seq!['('],
        Lexeme::RParen => seq![')'],
    }
}

/// The text that writes a lexeme sequence, with no space between lexemes.
pub open spec fn text_of(ts: Seq<Lexeme>) -> Seq<char>
    decreases ts.len(),
{
    if ts.len() == 0 {
        seq![]
    } else {
        spelling(ts[0]) + text_of(ts.drop_first())
    }
}

/// A literal that reads back as itself: digits and points forming a number.
pub open spec fn literal_ok(s: Seq<char>) -> bool {
    s.len() > 0 && (forall|k: int| 0 <= k < s.len() ==> is_number_char(#[trigger] s[k]))
        && is_valid_literal(s)
}

/// A well-formed term whose literals all read back as themselves.
pub open spec fn well_written(e: Term) -> bool
    decreases e,
{
    match e {
        Term::Num(s) => literal_ok(s),
        Term::Percent(a) => well_written(*a),
        Term::Binary(c, a, b) => is_binary_op(c) && well_written(*a) && well_written(*b),
    }
}

/// A lexeme that may end an operand: a literal, `)` or `%`.
pub open spec fn after_operand(x: Lexeme) -> bool {
    x is Num || x is RParen || x == Lexeme::Op('%')
}

/// No two literals touch, every literal reads back as itself, and every
/// operator is one of the alphabet and follows the end of an operand.
pub open spec fn tidy_at(t: Seq<Lexeme>, k: int) -> bool {
    &&& (t[k] is Num ==> literal_ok(t[k]->Num_0) && (k + 1 < t.len() ==> !(t[k + 1] is Num)))
    &&& (t[k] is Op ==> is_op_char(t[k]->Op_0) && (k > 0 ==> after_operand(t[k - 1])))
}

pub open spec fn tidy(t: Seq<Lexeme>) -> bool {
    forall|k: int| 0 <= k < t.len() ==> #[trigger] tidy_at(t, k)
}

/// Written out, the sequence opens with an operand and closes one.
pub open spec fn framed(t: Seq<Lexeme>) -> bool {
    t.len() > 0 && (t[0] is Num || t[0] is LParen) && after_operand(t.last())
}

/// No `-` stands right after a `%`, where it would read as a unary minus.
pub open spec fn no_minus_after_percent(t: Seq<Lexeme>) -> bool {
    forall|k: int|
        0 < k < t.len() && #[trigger] t[k] == Lexeme::Op('-') ==> t[k - 1] != Lexeme::Op('%')
}

proof fn lemma_tidy_join(a: Seq<Lexeme>, b: Seq<Lexeme>)
    requires
        tidy(a),
        tidy(b),
        a.len() > 0 && b.len() > 0 ==> !(a.last() is Num && b[0] is Num),
        a.len() > 0 && b.len() > 0 && b[0] is Op ==> after_operand(a.last()),
    ensures
        tidy(a + b),
{
    let t = a + b;
    assert forall|k: int| 0 <= k < t.len() implies #[trigger] tidy_at(t, k) by {
        if k < a.len() {
            assert(tidy_at(a, k));
            assert(t[k] == a[k]);
            if k > 0 {
                assert(t[k - 1] == a[k - 1]);
            }
            if k + 1 < a.len() {
                assert(t[k + 1] == a[k + 1]);
            } else if k + 1 < t.len() {
                assert(t[k + 1] == b[0]);
            }
        } else {
            let j = k - a.len();
            assert(tidy_at(b, j));
            assert(t[k] == b[j]);
            if j > 0 {
                assert(t[k - 1] == b[j - 1]);
            } else if k > 0 {
                assert(t[k - 1] == a.last());
            }
            if k + 1 < t.len() {
                assert(t[k + 1] == b[j + 1]);
            }
        }
    }
}

proof fn lemma_tidy_single(x: Lexeme)
    requires
        x is Num ==> literal_ok(x->Num_0),
        x is Op ==> is_op_char(x->Op_0),
    ensures
        tidy(seq![x]),
{
    assert(tidy_at(seq![x], 0));
}

/// A written operand, bare or in parentheses, is tidy and framed.
proof fn lemma_tidy_part(a: Term, bare: bool)
    requires
        well_written(a),
    ensures
        tidy(if bare {
            infix_of(a)
        } else {
            grouped(infix_of(a))
        }),
        framed(if bare {
            infix_of(a)
        } else {
            grouped(infix_of(a))
        }),
    decreases a, 1int,
{
    lemma_tidy_infix(a);
    if !bare {
        let x = infix_of(a);
        lemma_tidy_single(Lexeme::LParen);
        lemma_tidy_single(Lexeme::RParen);
        lemma_tidy_join(seq![Lexeme::LParen], x);
        lemma_tidy_join(seq![Lexeme::LParen] + x, seq![Lexeme::RParen]);
        assert((seq![Lexeme::LParen] + x)[0] == Lexeme::LParen);
    }
}

/// The infix tokens of a term are tidy and framed.
proof fn lemma_tidy_infix(e: Term)
    requires
        well_written(e),
    ensures
        tidy(infix_of(e)),
        framed(infix_of(e)),
    decreases e, 0int,
{
    match e {
        Term::Num(s) => {
            lemma_tidy_single(Lexeme::Num(s));
        },
        Term::Percent(a) => {
            let l = left_part('%', *a);
            lemma_tidy_part(*a, bare_left('%', *a));
            lemma_tidy_single(Lexeme::Op('%'));
            lemma_tidy_join(l, seq![Lexeme::Op('%')]);
            assert(infix_of(e) == l + seq![Lexeme::Op('%')]);
            assert((l + seq![Lexeme::Op('%')])[0] == l[0]);
        },
        Term::Binary(c, a, b) => {
            let l = left_part(c, *a);
            let r = right_part(c, *b);
            lemma_tidy_part(*a, bare_left(c, *a));
            lemma_tidy_part(*b, bare_right(c, *b));
            lemma_tidy_single(Lexeme::Op(c));
            lemma_tidy_join(l, seq![Lexeme::Op(c)]);
            lemma_tidy_join(l + seq![Lexeme::Op(c)], r);
            assert(infix_of(e) == l + seq![Lexeme::Op(c)] + r);
            assert((l + seq![Lexeme::Op(c)] + r)[0] == l[0]);
            assert((l + seq![Lexeme::Op(c)] + r).last() == r.last());
        },
    }
}

proof fn lemma_written_is_formed(e: Term)
    requires
        well_written(e),
    ensures
        well_formed(e),
    decreases e,
{
    match e {
        Term::Num(_) => {},
        Term::Percent(a) => lemma_written_is_formed(*a),
        Term::Binary(_, a, b) => {
            lemma_written_is_formed(*a);
            lemma_written_is_formed(*b);
        },
    }
}

proof fn lemma_run_literal(s: Seq<char>, i: int, n: int)
    requires
        0 <= i,
        0 <= n,
        i + n <= s.len(),
        forall|k: int| i <= k < i + n ==> is_number_char(#[trigger] s[k]),
        i + n < s.len() ==> !is_number_char(s[i + n]),
    ensures
        run_end(s, i) == i + n,
    decreases n,
{
    if n > 0 {
        lemma_run_literal(s, i + 1, n - 1);
    }
}

/// Scanning the text of a tidy lexeme sequence gives the sequence back.
proof fn lemma_scan_text(ts: Seq<Lexeme>, s: Seq<char>, i: int)
    requires
        tidy(ts),
        0 <= i <= s.len(),
        s.subrange(i, s.len() as int) == text_of(ts),
    ensures
        scan_from(s, i) == Ok::<Seq<Lexeme>, LexFault>(ts),
    decreases ts.len(),
{
    if ts.len() == 0 {
        assert(s.subrange(i, s.len() as int).len() == 0);
        assert(ts =~= Seq::<Lexeme>::empty());
    } else {
        let x = ts[0];
        let w = spelling(x);
        let rest = ts.drop_first();
        let tail = text_of(rest);
        assert(text_of(ts) == w + tail);
        assert(s.subrange(i, s.len() as int).len() == s.len() - i);
        assert(s.len() - i == w.len() + tail.len());
        assert(tidy_at(ts, 0));
        assert forall|k: int| 0 <= k < rest.len() implies #[trigger] tidy_at(rest, k) by {
            assert(tidy_at(ts, k + 1));
            assert(rest[k] == ts[k + 1]);
            if k > 0 {
                assert(rest[k - 1] == ts[k]);
            }
            if k + 1 < rest.len() {
                assert(rest[k + 1] == ts[k + 2]);
            }
        }
        assert forall|k: int| 0 <= k < w.len() implies s[i + k] == w[k] by {
            assert(s.subrange(i, s.len() as int)[k] == (w + tail)[k]);
        }
        assert(s.subrange(i + w.len(), s.len() as int) =~= tail) by {
            assert forall|k: int| 0 <= k < tail.len() implies s.subrange(
                i + w.len(),
                s.len() as int,
            )[k] == tail[k] by {
                assert(s.subrange(i, s.len() as int)[w.len() + k] == (w + tail)[w.len() + k]);
            }
        }
        lemma_scan_text(rest, s, i + w.len());
        if rest.len() > 0 {
            assert(tail == spelling(rest[0]) + text_of(rest.drop_first()));
        }
        match x {
            Lexeme::Num(lit) => {
                let n = lit.len() as int;
                if i + n < s.len() {
                    assert(tail.len() > 0);
                    assert(rest.len() > 0);
                    assert(ts[1] == rest[0]);
                    assert(s[i + n] == tail[0]) by {
                        assert(s.subrange(i, s.len() as int)[n] == (w + tail)[n]);
                    }
                    assert(tail[0] == spelling(rest[0])[0]);
                    assert(tidy_at(ts, 1));
                }
                assert forall|k: int| i <= k < i + n implies is_number_char(#[trigger] s[k]) by {
                    assert(s[i + (k - i)] == w[k - i]);
                }
                lemma_run_literal(s, i, n);
                assert(s.subrange(i, i + n) =~= lit);
                assert(s[i] == lit[0]);
                assert(is_number_char(s[i]));
                assert(!is_space(s[i]));
                assert(scan_from(s, i) == prepend(Lexeme::Num(lit), scan_from(s, i + n)));
            },
            _ => {
                assert(s[i] == w[0]);
                assert(!is_space(s[i]));
                assert(!is_number_char(s[i]));
                assert(scan_from(s, i) == prepend(x, scan_from(s, i + 1)));
            },
        }
        assert(seq![x] + rest =~= ts);
    }
}

proof fn lemma_lowered_plain(t: Seq<Lexeme>, n: int)
    requires
        0 <= n <= t.len(),
        forall|k: int| 0 <= k < t.len() ==> !#[trigger] is_unary_minus(t, k),
    ensures
        lowered(t, n) == t.subrange(0, n),
    decreases n,
{
    if n > 0 {
        lemma_lowered_plain(t, n - 1);
        assert(!is_unary_minus(t, n - 1));
        assert(t.subrange(0, n - 1) + seq![t[n - 1]] =~= t.subrange(0, n));
    } else {
        assert(t.subrange(0, 0) =~= Seq::<Lexeme>::empty());
    }
}

/// The evaluation of written text honours precedence and associativity: a
/// well-formed term whose literals are decimal numbers, written out with
/// parentheses only where precedence and associativity ask for them,
/// evaluates to that same term. Left out: texts where a `-` follows a `%`,
/// which reads as a unary minus.
pub proof fn lemma_evaluate_written_term(e: Term)
    requires
        well_written(e),
        no_minus_after_percent(infix_of(e)),
    ensures
        spec_evaluate(text_of(infix_of(e))) == Ok::<Term, Failure>(e),
{
    let t = infix_of(e);
    let s = text_of(t);
    lemma_tidy_infix(e);
    assert(s.subrange(0, s.len() as int) =~= s);
    lemma_scan_text(t, s, 0);
    assert forall|k: int| 0 <= k < t.len() implies !#[trigger] is_unary_minus(t, k) by {
        assert(tidy_at(t, k));
    }
    lemma_lowered_plain(t, t.len() as int);
    assert(t.subrange(0, t.len() as int) =~= t);
    lemma_written_is_formed(e);
    lemma_infix_round_trip(e);
}

} // verus!
