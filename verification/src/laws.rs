//! The laws of the engine, proved once for every value of the active
//! numeric domain: how the tree builder associates and ranks operators, how
//! juxtaposition multiplies, and how a built tree evaluates.
use crate::decimal::{
    first_dot, lemma_all_digit_concat, lemma_digits_value_concat, pow10, spec_decimal_from_parts,
    spec_digit_char, spec_digits_seq, spec_display, spec_padded_digits, spec_parse_decimal,
    trunc_div, Decimal,
};
use crate::eval::{spec_eval, spec_eval_combine, SpecEvalError};
use crate::numeric::{
    all_digit_chars, digit_char_val, digits_value, is_digit_char, lemma_digits_value_nonneg,
};
use crate::numeric::{BinOp, Numeric};
use vstd::arithmetic::div_mod::lemma_fundamental_div_mod_converse;
use vstd::arithmetic::power::pow;
use crate::parse::{
    balance_from, is_op_char, scan_major, spec_balanced, spec_is_op_token, spec_node,
    spec_op_token, spec_parse_tokens, spec_split, SpecCandidate, SpecExpr, SpecParseError,
    SpecToken,
};
use vstd::prelude::*;

verus! {

/// The operation of an operator character.
pub open spec fn spec_binop_of_char(c: char) -> BinOp {
    if c == '+' {
        BinOp::Add
    } else if c == '-' {
        BinOp::Sub
    } else if c == '*' {
        BinOp::Mul
    } else if c == '/' {
        BinOp::Div
    } else {
        BinOp::Pow
    }
}

/// A two-operand token sequence builds the one operation node with the two
/// leaves as children.
pub proof fn lemma_parse_binary<T: Numeric>(a: T, b: T, op: char)
    requires
        is_op_char(op),
    ensures
        ({
            let t = spec_op_token::<T>(op);
            let toks = seq![SpecToken::Value(a), t, SpecToken::Value(b)];
            spec_parse_tokens::<T>(toks) == Ok::<_, SpecParseError>(
                spec_node(t, SpecExpr::Value(a), SpecExpr::Value(b)),
            )
        }),
{
    let t = spec_op_token::<T>(op);
    let toks = seq![SpecToken::Value(a), t, SpecToken::Value(b)];
    assert(spec_balanced(toks)) by {
        assert(balance_from(toks, 3, 0));
        assert(balance_from(toks, 2, 0));
        assert(balance_from(toks, 1, 0));
        assert(balance_from(toks, 0, 0));
    }
    let c0 = SpecCandidate { idx: 0, level: 0, value: 0 };
    let c1 = SpecCandidate { idx: 1, level: 0, value: crate::parse::spec_operand_value(t) };
    assert(scan_major(toks, 0, 0, None::<SpecCandidate>) == Some(c1)) by {
        assert(scan_major(toks, 3, 0, Some(c1)) == Some(c1));
        assert(scan_major(toks, 2, 0, Some(c1)) == Some(c1));
        assert(scan_major(toks, 1, 0, Some(c0)) == Some(c1));
        assert(scan_major(toks, 0, 0, None::<SpecCandidate>) == scan_major(toks, 1, 0, Some(c0)));
    }
    assert(spec_is_op_token(toks[1]));
    assert(toks.subrange(0, 1) =~= seq![SpecToken::Value(a)]);
    assert(toks.subrange(2, 3) =~= seq![SpecToken::Value(b)]);
    assert(spec_split(toks) == Ok::<_, SpecParseError>(
        (t, seq![SpecToken::Value(a)], seq![SpecToken::Value(b)]),
    ));
    assert(spec_parse_tokens::<T>(seq![SpecToken::Value(a)]) == Ok::<_, SpecParseError>(
        SpecExpr::Value(a),
    ));
    assert(spec_parse_tokens::<T>(seq![SpecToken::Value(b)]) == Ok::<_, SpecParseError>(
        SpecExpr::Value(b),
    ));
}

/// An operation node over two literal leaves evaluates to what the domain
/// makes of the pair, in any environment: the exact value, or the numeric
/// failure the domain signals.
pub proof fn lemma_eval_binary<T: Numeric>(a: T, b: T, op: char, env: Map<Seq<char>, T>)
    requires
        is_op_char(op),
    ensures
        spec_eval(
            spec_node(spec_op_token::<T>(op), SpecExpr::Value(a), SpecExpr::Value(b)),
            env,
        ) == match a.spec_apply(spec_binop_of_char(op), b) {
            Some(v) => Ok::<_, SpecEvalError>(v),
            None => Err::<T, _>(SpecEvalError::NumericFailure),
        },
{
    assert(spec_eval(SpecExpr::Value(a), env) == Ok::<_, SpecEvalError>(a));
    assert(spec_eval(SpecExpr::Value(b), env) == Ok::<_, SpecEvalError>(b));
    assert(spec_eval_combine(
        Ok::<_, SpecEvalError>(a),
        Ok::<_, SpecEvalError>(b),
        spec_binop_of_char(op),
    ) == (match a.spec_apply(spec_binop_of_char(op), b) {
        Some(v) => Ok::<_, SpecEvalError>(v),
        None => Err::<T, _>(SpecEvalError::NumericFailure),
    }));
}

/// For every pair of domain values standing as literals around an operator,
/// the built tree evaluates to the domain's own result for that operator —
/// or to the domain's refusal, never to anything else.
pub proof fn lemma_binary_solve<T: Numeric>(a: T, b: T, op: char, env: Map<Seq<char>, T>)
    requires
        is_op_char(op),
    ensures
        ({
            let toks = seq![SpecToken::Value(a), spec_op_token::<T>(op), SpecToken::Value(b)];
            match spec_parse_tokens::<T>(toks) {
                Ok(tree) => spec_eval(tree, env) == match a.spec_apply(spec_binop_of_char(op), b) {
                    Some(v) => Ok::<_, SpecEvalError>(v),
                    None => Err::<T, _>(SpecEvalError::NumericFailure),
                },
                Err(_) => false,
            }
        }),
{
    lemma_parse_binary::<T>(a, b, op);
    lemma_eval_binary::<T>(a, b, op, env);
}

/// A bracketed two-operand group builds the same node as the bare group:
/// the enclosing brackets are shed before recursing.
pub proof fn lemma_parse_bracketed_binary<T: Numeric>(a: T, b: T, op: char)
    requires
        is_op_char(op),
    ensures
        ({
            let t = spec_op_token::<T>(op);
            let toks = seq![
                SpecToken::OpeningBrackets,
                SpecToken::Value(a),
                t,
                SpecToken::Value(b),
                SpecToken::ClosingBrackets,
            ];
            spec_parse_tokens::<T>(toks) == Ok::<_, SpecParseError>(
                spec_node(t, SpecExpr::Value(a), SpecExpr::Value(b)),
            )
        }),
{
    let t = spec_op_token::<T>(op);
    let toks = seq![
        SpecToken::OpeningBrackets,
        SpecToken::Value(a),
        t,
        SpecToken::Value(b),
        SpecToken::ClosingBrackets,
    ];
    assert(spec_balanced(toks)) by {
        assert(balance_from(toks, 5, 0));
        assert(balance_from(toks, 4, 1));
        assert(balance_from(toks, 3, 1));
        assert(balance_from(toks, 2, 1));
        assert(balance_from(toks, 1, 1));
        assert(balance_from(toks, 0, 0));
    }
    let p = crate::parse::spec_operand_value(t);
    let c1 = SpecCandidate { idx: 1, level: 1, value: 0 };
    let c2 = SpecCandidate { idx: 2, level: 1, value: p };
    assert(scan_major(toks, 0, 0, None::<SpecCandidate>) == Some(c2)) by {
        assert(scan_major(toks, 5, 0, Some(c2)) == Some(c2));
        assert(scan_major(toks, 4, 1, Some(c2)) == Some(c2));
        assert(scan_major(toks, 3, 1, Some(c2)) == Some(c2));
        assert(scan_major(toks, 2, 1, Some(c1)) == scan_major(toks, 3, 1, Some(c2)));
        assert(scan_major(toks, 1, 1, None::<SpecCandidate>) == scan_major(toks, 2, 1, Some(c1)));
        assert(scan_major(toks, 0, 0, None::<SpecCandidate>) == scan_major(
            toks,
            1,
            1,
            None::<SpecCandidate>,
        ));
    }
    assert(spec_is_op_token(toks[2]));
    assert(toks.subrange(1, 2) =~= seq![SpecToken::Value(a)]);
    assert(toks.subrange(3, 4) =~= seq![SpecToken::Value(b)]);
    assert(spec_split(toks) == Ok::<_, SpecParseError>(
        (t, seq![SpecToken::Value(a)], seq![SpecToken::Value(b)]),
    ));
    assert(spec_parse_tokens::<T>(seq![SpecToken::Value(a)]) == Ok::<_, SpecParseError>(
        SpecExpr::Value(a),
    ));
    assert(spec_parse_tokens::<T>(seq![SpecToken::Value(b)]) == Ok::<_, SpecParseError>(
        SpecExpr::Value(b),
    ));
}

/// Left associativity: among two equal operators the later one becomes the
/// split point, so `a op b op c` builds `(a op b) op c`, never
/// `a op (b op c)`.
pub proof fn lemma_parse_left_associative<T: Numeric>(a: T, b: T, c: T, op: char)
    requires
        is_op_char(op),
    ensures
        ({
            let t = spec_op_token::<T>(op);
            let toks = seq![
                SpecToken::Value(a),
                t,
                SpecToken::Value(b),
                t,
                SpecToken::Value(c),
            ];
            spec_parse_tokens::<T>(toks) == Ok::<_, SpecParseError>(
                spec_node(
                    t,
                    spec_node(t, SpecExpr::Value(a), SpecExpr::Value(b)),
                    SpecExpr::Value(c),
                ),
            )
        }),
{
    let t = spec_op_token::<T>(op);
    let toks = seq![SpecToken::Value(a), t, SpecToken::Value(b), t, SpecToken::Value(c)];
    assert(spec_balanced(toks)) by {
        assert(balance_from(toks, 5, 0));
        assert(balance_from(toks, 4, 0));
        assert(balance_from(toks, 3, 0));
        assert(balance_from(toks, 2, 0));
        assert(balance_from(toks, 1, 0));
        assert(balance_from(toks, 0, 0));
    }
    let p = crate::parse::spec_operand_value(t);
    let c0 = SpecCandidate { idx: 0, level: 0, value: 0 };
    let c1 = SpecCandidate { idx: 1, level: 0, value: p };
    let c3 = SpecCandidate { idx: 3, level: 0, value: p };
    assert(scan_major(toks, 0, 0, None::<SpecCandidate>) == Some(c3)) by {
        assert(scan_major(toks, 5, 0, Some(c3)) == Some(c3));
        assert(scan_major(toks, 4, 0, Some(c3)) == Some(c3));
        assert(scan_major(toks, 3, 0, Some(c1)) == scan_major(toks, 4, 0, Some(c3)));
        assert(scan_major(toks, 2, 0, Some(c1)) == scan_major(toks, 3, 0, Some(c1)));
        assert(scan_major(toks, 1, 0, Some(c0)) == scan_major(toks, 2, 0, Some(c1)));
        assert(scan_major(toks, 0, 0, None::<SpecCandidate>) == scan_major(toks, 1, 0, Some(c0)));
    }
    assert(spec_is_op_token(toks[3]));
    let left = seq![SpecToken::Value(a), t, SpecToken::Value(b)];
    assert(toks.subrange(0, 3) =~= left);
    assert(toks.subrange(4, 5) =~= seq![SpecToken::Value(c)]);
    assert(spec_split(toks) == Ok::<_, SpecParseError>(
        (t, left, seq![SpecToken::Value(c)]),
    ));
    lemma_parse_binary::<T>(a, b, op);
    assert(spec_parse_tokens::<T>(seq![SpecToken::Value(c)]) == Ok::<_, SpecParseError>(
        SpecExpr::Value(c),
    ));
}

/// Precedence of bare operators: multiplication binds tighter than
/// addition, so `a + b * c` builds `a + (b * c)` — the looser-binding
/// addition becomes the root.
pub proof fn lemma_parse_precedence<T: Numeric>(a: T, b: T, c: T)
    ensures
        ({
            let toks = seq![
                SpecToken::Value(a),
                SpecToken::<T>::AddSymbol,
                SpecToken::Value(b),
                SpecToken::<T>::MulSymbol,
                SpecToken::Value(c),
            ];
            spec_parse_tokens::<T>(toks) == Ok::<_, SpecParseError>(
                SpecExpr::Add(
                    Box::new(SpecExpr::Value(a)),
                    Box::new(
                        SpecExpr::Mul(
                            Box::new(SpecExpr::Value(b)),
                            Box::new(SpecExpr::Value(c)),
                        ),
                    ),
                ),
            )
        }),
{
    let toks = seq![
        SpecToken::Value(a),
        SpecToken::<T>::AddSymbol,
        SpecToken::Value(b),
        SpecToken::<T>::MulSymbol,
        SpecToken::Value(c),
    ];
    assert(spec_balanced(toks)) by {
        assert(balance_from(toks, 5, 0));
        assert(balance_from(toks, 4, 0));
        assert(balance_from(toks, 3, 0));
        assert(balance_from(toks, 2, 0));
        assert(balance_from(toks, 1, 0));
        assert(balance_from(toks, 0, 0));
    }
    let c0 = SpecCandidate { idx: 0, level: 0, value: 0 };
    let c1 = SpecCandidate { idx: 1, level: 0, value: 10 };
    assert(scan_major(toks, 0, 0, None::<SpecCandidate>) == Some(c1)) by {
        assert(scan_major(toks, 5, 0, Some(c1)) == Some(c1));
        assert(scan_major(toks, 4, 0, Some(c1)) == Some(c1));
        assert(scan_major(toks, 3, 0, Some(c1)) == scan_major(toks, 4, 0, Some(c1)));
        assert(scan_major(toks, 2, 0, Some(c1)) == scan_major(toks, 3, 0, Some(c1)));
        assert(scan_major(toks, 1, 0, Some(c0)) == scan_major(toks, 2, 0, Some(c1)));
        assert(scan_major(toks, 0, 0, None::<SpecCandidate>) == scan_major(toks, 1, 0, Some(c0)));
    }
    assert(spec_is_op_token(toks[1]));
    let right = seq![SpecToken::Value(b), SpecToken::<T>::MulSymbol, SpecToken::Value(c)];
    assert(toks.subrange(0, 1) =~= seq![SpecToken::Value(a)]);
    assert(toks.subrange(2, 5) =~= right);
    assert(spec_split(toks) == Ok::<_, SpecParseError>(
        (SpecToken::<T>::AddSymbol, seq![SpecToken::Value(a)], right),
    ));
    assert(spec_parse_tokens::<T>(seq![SpecToken::Value(a)]) == Ok::<_, SpecParseError>(
        SpecExpr::Value(a),
    ));
    lemma_parse_binary::<T>(b, c, '*');
    assert(spec_op_token::<T>('*') == SpecToken::<T>::MulSymbol);
}

/// Precedence of brackets: a bracketed group can never host the split point
/// while a top-level operator exists, so `(a + b) * c` builds
/// `(a + b) * c` with the multiplication as the root.
pub proof fn lemma_parse_bracket_precedence<T: Numeric>(a: T, b: T, c: T)
    ensures
        ({
            let toks = seq![
                SpecToken::<T>::OpeningBrackets,
                SpecToken::Value(a),
                SpecToken::<T>::AddSymbol,
                SpecToken::Value(b),
                SpecToken::<T>::ClosingBrackets,
                SpecToken::<T>::MulSymbol,
                SpecToken::Value(c),
            ];
            spec_parse_tokens::<T>(toks) == Ok::<_, SpecParseError>(
                SpecExpr::Mul(
                    Box::new(
                        SpecExpr::Add(
                            Box::new(SpecExpr::Value(a)),
                            Box::new(SpecExpr::Value(b)),
                        ),
                    ),
                    Box::new(SpecExpr::Value(c)),
                ),
            )
        }),
{
    let toks = seq![
        SpecToken::<T>::OpeningBrackets,
        SpecToken::Value(a),
        SpecToken::<T>::AddSymbol,
        SpecToken::Value(b),
        SpecToken::<T>::ClosingBrackets,
        SpecToken::<T>::MulSymbol,
        SpecToken::Value(c),
    ];
    assert(spec_balanced(toks)) by {
        assert(balance_from(toks, 7, 0));
        assert(balance_from(toks, 6, 0));
        assert(balance_from(toks, 5, 0));
        assert(balance_from(toks, 4, 1));
        assert(balance_from(toks, 3, 1));
        assert(balance_from(toks, 2, 1));
        assert(balance_from(toks, 1, 1));
        assert(balance_from(toks, 0, 0));
    }
    let c1 = SpecCandidate { idx: 1, level: 1, value: 0 };
    let c2 = SpecCandidate { idx: 2, level: 1, value: 10 };
    let c5 = SpecCandidate { idx: 5, level: 0, value: 8 };
    assert(scan_major(toks, 0, 0, None::<SpecCandidate>) == Some(c5)) by {
        assert(scan_major(toks, 7, 0, Some(c5)) == Some(c5));
        assert(scan_major(toks, 6, 0, Some(c5)) == Some(c5));
        assert(scan_major(toks, 5, 0, Some(c2)) == scan_major(toks, 6, 0, Some(c5)));
        assert(scan_major(toks, 4, 1, Some(c2)) == scan_major(toks, 5, 0, Some(c2)));
        assert(scan_major(toks, 3, 1, Some(c2)) == scan_major(toks, 4, 1, Some(c2)));
        assert(scan_major(toks, 2, 1, Some(c1)) == scan_major(toks, 3, 1, Some(c2)));
        assert(scan_major(toks, 1, 1, None::<SpecCandidate>) == scan_major(toks, 2, 1, Some(c1)));
        assert(scan_major(toks, 0, 0, None::<SpecCandidate>) == scan_major(
            toks,
            1,
            1,
            None::<SpecCandidate>,
        ));
    }
    assert(spec_is_op_token(toks[5]));
    let left = seq![
        SpecToken::<T>::OpeningBrackets,
        SpecToken::Value(a),
        SpecToken::<T>::AddSymbol,
        SpecToken::Value(b),
        SpecToken::<T>::ClosingBrackets,
    ];
    assert(toks.subrange(0, 5) =~= left);
    assert(toks.subrange(6, 7) =~= seq![SpecToken::Value(c)]);
    assert(spec_split(toks) == Ok::<_, SpecParseError>(
        (SpecToken::<T>::MulSymbol, left, seq![SpecToken::Value(c)]),
    ));
    lemma_parse_bracketed_binary::<T>(a, b, '+');
    assert(spec_op_token::<T>('+') == SpecToken::<T>::AddSymbol);
    assert(spec_parse_tokens::<T>(seq![SpecToken::Value(c)]) == Ok::<_, SpecParseError>(
        SpecExpr::Value(c),
    ));
}

/// Implicit multiplication: two adjacent bare letters tokenize as two
/// one-character variables with a multiplication between them.
pub proof fn lemma_tokenize_adjacent_letters<T: Numeric>(c1: char, c2: char)
    requires
        crate::parse::is_letter_char(c1),
        crate::parse::is_letter_char(c2),
    ensures
        crate::parse::spec_tokenize::<T>(seq![c1, c2]) == Ok::<_, SpecParseError>(
            seq![
                SpecToken::<T>::Variable(seq![c1]),
                SpecToken::<T>::MulSymbol,
                SpecToken::<T>::Variable(seq![c2]),
            ],
        ),
{
    let s = seq![c1, c2];
    let acc0 = Seq::<SpecToken<T>>::empty();
    let acc1 = acc0.push(SpecToken::Variable(seq![c1]));
    let acc2 = acc1.push(SpecToken::MulSymbol).push(SpecToken::Variable(seq![c2]));
    assert(!crate::parse::is_op_char(c1) && !crate::parse::is_op_char(c2));
    assert(!crate::parse::is_literal_char(c1) && !crate::parse::is_literal_char(c2));
    assert(crate::parse::spec_tokenize_at::<T>(s, 2, acc2) == Ok::<_, SpecParseError>(acc2));
    assert(crate::parse::spec_tokenize_at::<T>(s, 1, acc1) == crate::parse::spec_tokenize_at::<T>(
        s,
        2,
        acc2,
    ));
    assert(crate::parse::spec_tokenize_at::<T>(s, 0, acc0) == crate::parse::spec_tokenize_at::<T>(
        s,
        1,
        acc1,
    ));
    assert(acc2 =~= seq![
        SpecToken::<T>::Variable(seq![c1]),
        SpecToken::<T>::MulSymbol,
        SpecToken::<T>::Variable(seq![c2]),
    ]);
}

/// A run of literal characters ended by a non-literal position scans to
/// exactly that position.
pub proof fn lemma_literal_end_is(s: Seq<char>, j: int, k: int)
    requires
        0 <= j <= k <= s.len(),
        forall|q: int| j <= q < k ==> crate::parse::is_literal_char(#[trigger] s[q]),
        k == s.len() || !crate::parse::is_literal_char(s[k]),
    ensures
        crate::parse::literal_end(s, j) == k,
    decreases k - j,
{
    if j < k {
        assert(crate::parse::is_literal_char(s[j]));
        lemma_literal_end_is(s, j + 1, k);
    }
}

/// Two literal texts around an operator tokenize to exactly the two values
/// and the operator: the literal scans are greedy and stop at the operator.
pub proof fn lemma_tokenize_binary_literals<T: Numeric>(
    sa: Seq<char>,
    op: char,
    sb: Seq<char>,
    a: T,
    b: T,
)
    requires
        is_op_char(op),
        sa.len() > 0,
        sb.len() > 0,
        forall|q: int| 0 <= q < sa.len() ==> crate::parse::is_literal_char(#[trigger] sa[q]),
        forall|q: int| 0 <= q < sb.len() ==> crate::parse::is_literal_char(#[trigger] sb[q]),
        T::spec_from_literal(sa) == Some(a),
        T::spec_from_literal(sb) == Some(b),
    ensures
        crate::parse::spec_tokenize::<T>(sa + seq![op] + sb) == Ok::<_, SpecParseError>(
            seq![SpecToken::Value(a), spec_op_token::<T>(op), SpecToken::Value(b)],
        ),
{
    let s = sa + seq![op] + sb;
    let n1 = sa.len() as int;
    let n = s.len() as int;
    assert forall|q: int| 0 <= q < n1 implies crate::parse::is_literal_char(#[trigger] s[q]) by {
        assert(s[q] == sa[q]);
    }
    assert(s[n1] == op);
    assert(!crate::parse::is_literal_char(op));
    assert forall|q: int| n1 + 1 <= q < n implies crate::parse::is_literal_char(
        #[trigger] s[q],
    ) by {
        assert(s[q] == sb[q - n1 - 1]);
    }
    assert(crate::parse::literal_end(s, 0) == n1) by {
        lemma_literal_end_is(s, 0, n1);
    }
    assert(crate::parse::literal_end(s, n1 + 1) == n) by {
        lemma_literal_end_is(s, n1 + 1, n);
    }
    assert(s.subrange(0, n1) =~= sa);
    assert(s.subrange(n1 + 1, n) =~= sb);
    let acc0 = Seq::<SpecToken<T>>::empty();
    let acc1 = acc0.push(SpecToken::Value(a));
    let acc2 = acc1.push(spec_op_token::<T>(op));
    let acc3 = acc2.push(SpecToken::Value(b));
    assert(crate::parse::is_literal_char(s[0]));
    assert(!crate::parse::is_op_char(s[0]) && s[0] != ' ' && s[0] != '(' && s[0] != ')');
    assert(crate::parse::spec_tokenize_at::<T>(s, 0, acc0) == crate::parse::spec_tokenize_at::<T>(
        s,
        n1,
        acc1,
    ));
    assert(crate::parse::last_allows_operator(acc1));
    assert(crate::parse::spec_tokenize_at::<T>(s, n1, acc1) == crate::parse::spec_tokenize_at::<
        T,
    >(s, n1 + 1, acc2));
    assert(crate::parse::is_literal_char(s[n1 + 1]));
    assert(!crate::parse::is_op_char(s[n1 + 1]) && s[n1 + 1] != ' ' && s[n1 + 1] != '(' && s[n1
        + 1] != ')');
    assert(crate::parse::spec_tokenize_at::<T>(s, n1 + 1, acc2)
        == crate::parse::spec_tokenize_at::<T>(s, n, acc3));
    assert(crate::parse::spec_tokenize_at::<T>(s, n, acc3) == Ok::<_, SpecParseError>(acc3));
    assert(acc3 =~= seq![SpecToken::Value(a), spec_op_token::<T>(op), SpecToken::Value(b)]);
}

/// For every pair of domain values written as literals around an operator,
/// solving the text yields the domain's own result for that operator — or
/// the domain's refusal, never anything else.
pub proof fn lemma_solve_binary_literals<T: Numeric>(
    sa: Seq<char>,
    op: char,
    sb: Seq<char>,
    a: T,
    b: T,
    env: Map<Seq<char>, T>,
)
    requires
        is_op_char(op),
        sa.len() > 0,
        sb.len() > 0,
        forall|q: int| 0 <= q < sa.len() ==> crate::parse::is_literal_char(#[trigger] sa[q]),
        forall|q: int| 0 <= q < sb.len() ==> crate::parse::is_literal_char(#[trigger] sb[q]),
        T::spec_from_literal(sa) == Some(a),
        T::spec_from_literal(sb) == Some(b),
    ensures
        crate::spec_solve::<T>(sa + seq![op] + sb, env) == match a.spec_apply(
            spec_binop_of_char(op),
            b,
        ) {
            Some(v) => Ok::<_, crate::SpecError>(v),
            None => Err::<T, _>(crate::SpecError::EvalError(SpecEvalError::NumericFailure)),
        },
{
    lemma_tokenize_binary_literals::<T>(sa, op, sb, a, b);
    lemma_parse_binary::<T>(a, b, op);
    lemma_eval_binary::<T>(a, b, op, env);
}

/// A digit string denotes a number below the power of ten of its length.
pub proof fn lemma_digits_value_upper(w: Seq<char>)
    requires
        all_digit_chars(w),
    ensures
        digits_value(w) < pow10(w.len()),
    decreases w.len(),
{
    crate::decimal::lemma_pow10_pos(w.len());
    if w.len() == 0 {
    } else {
        let bl = w.drop_last();
        assert forall|q: int| 0 <= q < bl.len() implies is_digit_char(#[trigger] bl[q]) by {
            assert(bl[q] == w[q]);
        }
        lemma_digits_value_upper(bl);
        crate::decimal::lemma_pow10_step(bl.len());
        assert(is_digit_char(w.last()));
    }
}

/// A digit string with a non-zero first digit denotes at least the power of
/// ten of one less than its length.
pub proof fn lemma_digits_value_lower(w: Seq<char>)
    requires
        all_digit_chars(w),
        w.len() >= 1,
        digit_char_val(w[0]) >= 1,
    ensures
        digits_value(w) >= pow10((w.len() - 1) as nat),
    decreases w.len(),
{
    if w.len() == 1 {
        assert(w.drop_last().len() == 0);
        assert(digits_value(w.drop_last()) == 0);
        assert(w.last() == w[0]);
        assert(pow10(0) == 1) by {
            vstd::arithmetic::power::lemma_pow0(10);
        }
    } else {
        let bl = w.drop_last();
        assert forall|q: int| 0 <= q < bl.len() implies is_digit_char(#[trigger] bl[q]) by {
            assert(bl[q] == w[q]);
        }
        assert(bl[0] == w[0]);
        lemma_digits_value_lower(bl);
        crate::decimal::lemma_pow10_step((bl.len() - 1) as nat);
        vstd::arithmetic::mul::lemma_mul_inequality(
            pow10((bl.len() - 1) as nat),
            digits_value(bl),
            10,
        );
        assert(is_digit_char(w.last()));
    }
}

/// Rendering the number a canonical digit string denotes gives the string
/// back: canonical means no superfluous leading zero.
pub proof fn lemma_digits_roundtrip(w: Seq<char>)
    requires
        all_digit_chars(w),
        w.len() >= 1,
        w.len() == 1 || w[0] != '0',
    ensures
        digits_value(w) >= 0,
        spec_digits_seq(digits_value(w)) == w,
    decreases w.len(),
{
    lemma_digits_value_nonneg(w);
    if w.len() == 1 {
        assert(is_digit_char(w[0]));
        assert(w.drop_last().len() == 0);
        assert(digits_value(w.drop_last()) == 0);
        assert(w.last() == w[0]);
        assert(digits_value(w) == digit_char_val(w[0]));
        assert(spec_digits_seq(digits_value(w)) =~= seq![spec_digit_char(digit_char_val(w[0]))]);
        lemma_digit_char_roundtrip(w[0]);
    } else {
        let bl = w.drop_last();
        let d = digit_char_val(w.last());
        assert forall|q: int| 0 <= q < bl.len() implies is_digit_char(#[trigger] bl[q]) by {
            assert(bl[q] == w[q]);
        }
        assert(bl[0] == w[0]);
        assert(is_digit_char(w[0]) && w[0] != '0');
        lemma_digit_nonzero(w[0]);
        lemma_digits_roundtrip(bl);
        lemma_digits_value_lower(bl);
        crate::decimal::lemma_pow10_pos((bl.len() - 1) as nat);
        let v = digits_value(w);
        assert(v == 10 * digits_value(bl) + d);
        assert(digits_value(bl) >= 1);
        assert(v >= 10);
        assert(is_digit_char(w.last()));
        assert(0 <= d < 10);
        lemma_fundamental_div_mod_converse(v, 10, digits_value(bl), d);
        assert(v / 10 == digits_value(bl));
        assert(v % 10 == d);
        assert(spec_digits_seq(v) == spec_digits_seq(digits_value(bl)).push(spec_digit_char(d)));
        lemma_digit_char_roundtrip(w.last());
        assert(bl.push(w.last()) =~= w);
    }
}

/// A run without a dot, ended by a dot or the end of the text, fixes where
/// the first dot is found.
pub proof fn lemma_first_dot_is(s: Seq<char>, j: int, k: int)
    requires
        0 <= j <= k <= s.len(),
        forall|q: int| j <= q < k ==> (#[trigger] s[q]) != '.',
        k == s.len() || s[k] == '.',
    ensures
        first_dot(s, j) == (if k == s.len() {
            None
        } else {
            Some(k)
        }),
    decreases k - j,
{
    if j < k {
        lemma_first_dot_is(s, j + 1, k);
    }
}

/// Whether a digit string is a canonical integer text: non-empty, and no
/// superfluous leading zero.
pub open spec fn dec_canonical_digits(w: Seq<char>) -> bool {
    w.len() >= 1 && all_digit_chars(w) && (w.len() == 1 || w[0] != '0')
}

/// Rendering the number a digit string denotes, zero-padded back to the
/// string's own length, gives the string back — leading zeros included.
pub proof fn lemma_padded_digits_roundtrip(w: Seq<char>)
    requires
        all_digit_chars(w),
    ensures
        digits_value(w) >= 0,
        spec_padded_digits(digits_value(w), w.len()) == w,
    decreases w.len(),
{
    lemma_digits_value_nonneg(w);
    if w.len() == 0 {
        assert(spec_padded_digits(0, 0) =~= w);
    } else {
        let bl = w.drop_last();
        let d = digit_char_val(w.last());
        assert forall|q: int| 0 <= q < bl.len() implies is_digit_char(#[trigger] bl[q]) by {
            assert(bl[q] == w[q]);
        }
        lemma_padded_digits_roundtrip(bl);
        lemma_digits_value_nonneg(bl);
        let v = digits_value(w);
        assert(v == 10 * digits_value(bl) + d);
        assert(is_digit_char(w.last()));
        assert(0 <= d < 10);
        lemma_fundamental_div_mod_converse(v, 10, digits_value(bl), d);
        assert(v / 10 == digits_value(bl));
        assert(v % 10 == d);
        assert(spec_padded_digits(v, w.len()) == spec_padded_digits(v / 10, bl.len()).push(
            spec_digit_char(d),
        ));
        lemma_digit_char_roundtrip(w.last());
        assert(bl.push(w.last()) =~= w);
    }
}

/// Reading an integer literal, optionally signed, with canonical digits and
/// rendering the decimal gives the text back unchanged.
pub proof fn lemma_decimal_roundtrip_integer(neg: bool, w: Seq<char>)
    requires
        dec_canonical_digits(w),
        digits_value(w) <= i128::MAX + (if neg {
            1int
        } else {
            0int
        }),
        neg ==> digits_value(w) >= 1,
    ensures
        ({
            let sign: Seq<char> = if neg {
                seq!['-']
            } else {
                Seq::empty()
            };
            let s = sign + w;
            match spec_parse_decimal(s) {
                Some(d) => spec_display(d) == s,
                None => false,
            }
        }),
{
    let sign: Seq<char> = if neg {
        seq!['-']
    } else {
        Seq::empty()
    };
    let s = sign + w;
    let start: int = if neg {
        1int
    } else {
        0int
    };
    let n = s.len() as int;
    lemma_digits_value_nonneg(w);
    assert forall|q: int| start <= q < n implies (#[trigger] s[q]) != '.' by {
        assert(s[q] == w[q - start]);
        assert(is_digit_char(w[q - start]));
    }
    if neg {
        assert(s[0] == '-');
    } else {
        assert(s[0] == w[0]);
        assert(is_digit_char(s[0]));
        assert(s[0] != '-');
    }
    lemma_first_dot_is(s, start, n);
    assert(s.subrange(start, n) =~= w);
    assert(w + Seq::<char>::empty() =~= w);
    let dv = digits_value(w);
    let d = Decimal {
        value: (if neg {
            -dv
        } else {
            dv
        }) as i128,
        scale: 0,
    };
    assert(spec_decimal_from_parts(neg, w, Seq::<char>::empty()) == Some(d));
    assert(spec_parse_decimal(s) == Some(d));
    lemma_digits_roundtrip(w);
    let m: int = if d.value < 0 {
        -(d.value as int)
    } else {
        d.value as int
    };
    assert(m == dv);
    assert(spec_display(d) == (if d.value < 0 {
        seq!['-']
    } else {
        Seq::<char>::empty()
    }) + spec_digits_seq(m));
    if neg {
        assert(d.value < 0);
        assert(spec_display(d) =~= s);
    } else {
        assert(d.value >= 0);
        assert(spec_display(d) =~= s);
    }
}

/// Reading a fractional literal, optionally signed, with canonical integer
/// digits and any fractional digits, and rendering the decimal gives the
/// text back unchanged: the digits before the dot are the quotient by the
/// scale's power of ten, the digits after it are the remainder zero-padded
/// to the scale, so no digit is lost.
pub proof fn lemma_decimal_roundtrip_fraction(neg: bool, ip: Seq<char>, fp: Seq<char>)
    requires
        dec_canonical_digits(ip),
        fp.len() >= 1,
        all_digit_chars(fp),
        (if neg {
            1int
        } else {
            0int
        }) + ip.len() + 1 + fp.len() <= 255,
        digits_value(ip + fp) <= i128::MAX + (if neg {
            1int
        } else {
            0int
        }),
        neg ==> digits_value(ip + fp) >= 1,
    ensures
        ({
            let sign: Seq<char> = if neg {
                seq!['-']
            } else {
                Seq::empty()
            };
            let s = sign + ip + seq!['.'] + fp;
            match spec_parse_decimal(s) {
                Some(d) => spec_display(d) == s,
                None => false,
            }
        }),
{
    let sign: Seq<char> = if neg {
        seq!['-']
    } else {
        Seq::empty()
    };
    let s = sign + ip + seq!['.'] + fp;
    let start: int = if neg {
        1int
    } else {
        0int
    };
    let k = start + ip.len() as int;
    let n = s.len() as int;
    if neg {
        assert(s[0] == '-');
    } else {
        assert(s[0] == ip[0]);
        assert(is_digit_char(s[0]));
        assert(s[0] != '-');
    }
    assert forall|q: int| start <= q < k implies (#[trigger] s[q]) != '.' by {
        assert(s[q] == ip[q - start]);
        assert(is_digit_char(ip[q - start]));
    }
    assert(s[k] == '.');
    lemma_first_dot_is(s, start, k);
    assert forall|q: int| k + 1 <= q < n implies (#[trigger] s[q]) != '.' by {
        assert(s[q] == fp[q - k - 1]);
        assert(is_digit_char(fp[q - k - 1]));
    }
    lemma_first_dot_is(s, k + 1, n);
    assert(s.subrange(start, k) =~= ip);
    assert(s.subrange(k + 1, n) =~= fp);
    let digits = ip + fp;
    lemma_all_digit_concat(ip, fp);
    lemma_digits_value_nonneg(digits);
    lemma_digits_value_nonneg(ip);
    lemma_digits_value_nonneg(fp);
    let dv = digits_value(digits);
    let d = Decimal {
        value: (if neg {
            -dv
        } else {
            dv
        }) as i128,
        scale: fp.len() as u8,
    };
    assert(spec_decimal_from_parts(neg, ip, fp) == Some(d));
    assert(spec_parse_decimal(s) == Some(d));
    let p = pow10(fp.len());
    lemma_digits_value_concat(ip, fp);
    lemma_digits_value_upper(fp);
    crate::decimal::lemma_pow10_pos(fp.len());
    assert(dv == digits_value(ip) * p + digits_value(fp));
    lemma_fundamental_div_mod_converse(dv, p, digits_value(ip), digits_value(fp));
    assert(dv / p == digits_value(ip));
    assert(dv % p == digits_value(fp));
    let m: int = if d.value < 0 {
        -(d.value as int)
    } else {
        d.value as int
    };
    assert(m == dv);
    assert(d.scale as nat == fp.len());
    lemma_digits_roundtrip(ip);
    lemma_padded_digits_roundtrip(fp);
    assert(spec_digits_seq(m / p) == ip);
    assert(spec_padded_digits(m % p, d.scale as nat) == fp);
    if neg {
        assert(d.value < 0);
        assert(spec_display(d) =~= s);
    } else {
        assert(d.value >= 0);
        assert(spec_display(d) =~= s);
    }
}

/// The digit character of a digit's value is the digit itself.
pub proof fn lemma_digit_char_roundtrip(c: char)
    requires
        is_digit_char(c),
    ensures
        spec_digit_char(digit_char_val(c)) == c,
{
    let d = digit_char_val(c);
    assert((d + 48) as u32 == c as u32);
    assert(((d + 48) as u8) as char == ((d + 48) as u32) as char);
    vstd::utf8::char_u32_cast(c, c as u32);
}

/// A digit other than `0` has a positive value.
pub proof fn lemma_digit_nonzero(c: char)
    requires
        is_digit_char(c),
        c != '0',
    ensures
        digit_char_val(c) >= 1,
{
    if c as u32 == 48 {
        vstd::utf8::char_u32_cast(c, 48);
        vstd::utf8::char_u32_cast('0', 48);
    }
}

} // verus!
