//! From text to tokens to trees. The tokenizer scans the input once, left to
//! right, producing one token per step: literals and quoted names greedily
//! take several characters, adjacent bare letters are separate one-character
//! variables, and juxtaposition inserts an implicit multiplication: before
//! an opening bracket after any operand position, before a letter or a
//! quote after a value or a variable. The tree builder then shapes the
//! token sequence into a binary expression tree by majority-operand
//! splitting, with no recursive-descent grammar.
use crate::numeric::{is_digit_char, Numeric};
use vstd::prelude::*;

verus! {

/// The errors of tokenizing and tree building.
#[derive(Debug, PartialEq)]
pub enum ParseError {
    /// A literal text that the numeric domain cannot read, with the domain's
    /// name.
    ValueError(String, String),
    /// An invalid or misplaced character, with its position.
    UnexpectedTokenError(usize, char),
    /// No tokens where an expression was required.
    EmptyError,
    /// Brackets that do not pair up.
    UnbalancedBracketsError,
    /// A token sequence that no expression tree fits, such as two values
    /// with no operator between them.
    MalformedExpressionError,
}

/// One lexical unit of an expression text.
#[derive(Debug, PartialEq, Clone)]
pub enum Token<T> {
    Value(T),
    Variable(String),
    OpeningBrackets,
    ClosingBrackets,
    AddSymbol,
    SubSymbol,
    MulSymbol,
    DivSymbol,
    PowSymbol,
}

/// A binary expression tree: literals and variable references at the leaves,
/// one of the five operations at every inner node.
#[derive(Debug, PartialEq)]
pub enum Expr<T> {
    Value(T),
    Variable(String),
    Add(Box<Expr<T>>, Box<Expr<T>>),
    Sub(Box<Expr<T>>, Box<Expr<T>>),
    Mul(Box<Expr<T>>, Box<Expr<T>>),
    Div(Box<Expr<T>>, Box<Expr<T>>),
    Pow(Box<Expr<T>>, Box<Expr<T>>),
}

/// The mathematical shadow of a token: variable names as character
/// sequences.
pub enum SpecToken<T> {
    Value(T),
    Variable(Seq<char>),
    OpeningBrackets,
    ClosingBrackets,
    AddSymbol,
    SubSymbol,
    MulSymbol,
    DivSymbol,
    PowSymbol,
}

/// The mathematical shadow of an expression tree.
pub enum SpecExpr<T> {
    Value(T),
    Variable(Seq<char>),
    Add(Box<SpecExpr<T>>, Box<SpecExpr<T>>),
    Sub(Box<SpecExpr<T>>, Box<SpecExpr<T>>),
    Mul(Box<SpecExpr<T>>, Box<SpecExpr<T>>),
    Div(Box<SpecExpr<T>>, Box<SpecExpr<T>>),
    Pow(Box<SpecExpr<T>>, Box<SpecExpr<T>>),
}

/// The mathematical shadow of a parse error.
pub enum SpecParseError {
    ValueError(Seq<char>, Seq<char>),
    UnexpectedTokenError(int, char),
    EmptyError,
    UnbalancedBracketsError,
    MalformedExpressionError,
}

impl<T: Copy> DeepView for Token<T> {
    type V = SpecToken<T>;

    open spec fn deep_view(&self) -> SpecToken<T> {
        match self {
            Token::Value(v) => SpecToken::Value(*v),
            Token::Variable(s) => SpecToken::Variable(s@),
            Token::OpeningBrackets => SpecToken::OpeningBrackets,
            Token::ClosingBrackets => SpecToken::ClosingBrackets,
            Token::AddSymbol => SpecToken::AddSymbol,
            Token::SubSymbol => SpecToken::SubSymbol,
            Token::MulSymbol => SpecToken::MulSymbol,
            Token::DivSymbol => SpecToken::DivSymbol,
            Token::PowSymbol => SpecToken::PowSymbol,
        }
    }
}

/// The mathematical shadow of an expression tree.
pub open spec fn spec_expr_of<T: Copy>(e: Expr<T>) -> SpecExpr<T>
    decreases e,
{
    match e {
        Expr::Value(v) => SpecExpr::Value(v),
        Expr::Variable(s) => SpecExpr::Variable(s@),
        Expr::Add(a, b) => SpecExpr::Add(Box::new(spec_expr_of(*a)), Box::new(spec_expr_of(*b))),
        Expr::Sub(a, b) => SpecExpr::Sub(Box::new(spec_expr_of(*a)), Box::new(spec_expr_of(*b))),
        Expr::Mul(a, b) => SpecExpr::Mul(Box::new(spec_expr_of(*a)), Box::new(spec_expr_of(*b))),
        Expr::Div(a, b) => SpecExpr::Div(Box::new(spec_expr_of(*a)), Box::new(spec_expr_of(*b))),
        Expr::Pow(a, b) => SpecExpr::Pow(Box::new(spec_expr_of(*a)), Box::new(spec_expr_of(*b))),
    }
}

impl<T: Copy> DeepView for Expr<T> {
    type V = SpecExpr<T>;

    open spec fn deep_view(&self) -> SpecExpr<T> {
        spec_expr_of(*self)
    }
}

impl DeepView for ParseError {
    type V = SpecParseError;

    open spec fn deep_view(&self) -> SpecParseError {
        match self {
            ParseError::ValueError(t, l) => SpecParseError::ValueError(t@, l@),
            ParseError::UnexpectedTokenError(p, c) => SpecParseError::UnexpectedTokenError(
                *p as int,
                *c,
            ),
            ParseError::EmptyError => SpecParseError::EmptyError,
            ParseError::UnbalancedBracketsError => SpecParseError::UnbalancedBracketsError,
            ParseError::MalformedExpressionError => SpecParseError::MalformedExpressionError,
        }
    }
}

/// Whether `c` is one of the five operator characters.
pub open spec fn is_op_char(c: char) -> bool {
    c == '+' || c == '-' || c == '*' || c == '/' || c == '^'
}

/// The operator token of an operator character.
pub open spec fn spec_op_token<T>(c: char) -> SpecToken<T> {
    if c == '+' {
        SpecToken::AddSymbol
    } else if c == '-' {
        SpecToken::SubSymbol
    } else if c == '*' {
        SpecToken::MulSymbol
    } else if c == '/' {
        SpecToken::DivSymbol
    } else {
        SpecToken::PowSymbol
    }
}

/// Whether `c` is a bare letter, which names a one-character variable.
pub open spec fn is_letter_char(c: char) -> bool {
    (97 <= c as u32 <= 122) || (65 <= c as u32 <= 90)
}

/// Whether `c` may continue a numeric literal.
pub open spec fn is_literal_char(c: char) -> bool {
    is_digit_char(c) || c == '.'
}

/// Whether the scan stands in operand position: only a value, a variable
/// or a closing bracket puts it there. An operator may follow, and an
/// opening bracket that follows means multiplication.
pub open spec fn last_allows_operator<T>(acc: Seq<SpecToken<T>>) -> bool {
    acc.len() > 0 && match acc.last() {
        SpecToken::Value(_) => true,
        SpecToken::Variable(_) => true,
        SpecToken::ClosingBrackets => true,
        _ => false,
    }
}

/// Whether the token just read is a value or a variable, after which a
/// letter or a quoted name means multiplication.
pub open spec fn last_is_operand<T>(acc: Seq<SpecToken<T>>) -> bool {
    acc.len() > 0 && match acc.last() {
        SpecToken::Value(_) => true,
        SpecToken::Variable(_) => true,
        _ => false,
    }
}

/// The first position at or after `j` that cannot continue a numeric
/// literal.
pub open spec fn literal_end(s: Seq<char>, j: int) -> int
    decreases s.len() - j,
{
    if j < 0 || j >= s.len() {
        j
    } else if is_literal_char(s[j]) {
        literal_end(s, j + 1)
    } else {
        j
    }
}

/// The first position at or after `j` that is not a letter, ending a quoted
/// name.
pub open spec fn quote_end(s: Seq<char>, j: int) -> int
    decreases s.len() - j,
{
    if j < 0 || j >= s.len() {
        j
    } else if is_letter_char(s[j]) {
        quote_end(s, j + 1)
    } else {
        j
    }
}

pub proof fn lemma_literal_end_bounds(s: Seq<char>, j: int)
    requires
        0 <= j <= s.len(),
    ensures
        j <= literal_end(s, j) <= s.len(),
    decreases s.len() - j,
{
    if j < s.len() && is_literal_char(s[j]) {
        lemma_literal_end_bounds(s, j + 1);
    }
}

pub proof fn lemma_quote_end_bounds(s: Seq<char>, j: int)
    requires
        0 <= j <= s.len(),
    ensures
        j <= quote_end(s, j) <= s.len(),
    decreases s.len() - j,
{
    if j < s.len() && is_letter_char(s[j]) {
        lemma_quote_end_bounds(s, j + 1);
    }
}

/// What the scan from position `i` onward yields, having already produced
/// `acc`: the finished token sequence, or the first error.
pub open spec fn spec_tokenize_at<T: Numeric>(
    s: Seq<char>,
    i: int,
    acc: Seq<SpecToken<T>>,
) -> Result<Seq<SpecToken<T>>, SpecParseError>
    decreases s.len() - i,
    when 0 <= i
    via spec_tokenize_at_decreases::<T>
{
    if i >= s.len() {
        Ok(acc)
    } else {
        let c = s[i];
        if c == ' ' {
            spec_tokenize_at(s, i + 1, acc)
        } else if is_op_char(c) {
            if last_allows_operator(acc) {
                spec_tokenize_at(s, i + 1, acc.push(spec_op_token(c)))
            } else {
                Err(SpecParseError::UnexpectedTokenError(i, c))
            }
        } else if c == '(' {
            let acc2 = if last_allows_operator(acc) {
                acc.push(SpecToken::MulSymbol)
            } else {
                acc
            };
            spec_tokenize_at(s, i + 1, acc2.push(SpecToken::OpeningBrackets))
        } else if c == ')' {
            spec_tokenize_at(s, i + 1, acc.push(SpecToken::ClosingBrackets))
        } else if is_literal_char(c) {
            let e = literal_end(s, i);
            let lit = s.subrange(i, e);
            match T::spec_from_literal(lit) {
                Some(v) => spec_tokenize_at(s, e, acc.push(SpecToken::Value(v))),
                None => Err(SpecParseError::ValueError(lit, T::spec_type_label())),
            }
        } else if is_letter_char(c) {
            let acc2 = if last_is_operand(acc) {
                acc.push(SpecToken::MulSymbol)
            } else {
                acc
            };
            spec_tokenize_at(s, i + 1, acc2.push(SpecToken::Variable(seq![c])))
        } else if c == '"' {
            let acc2 = if last_is_operand(acc) {
                acc.push(SpecToken::MulSymbol)
            } else {
                acc
            };
            let e = quote_end(s, i + 1);
            if e >= s.len() {
                spec_tokenize_at(s, e, acc2.push(SpecToken::Variable(s.subrange(i + 1, e))))
            } else if s[e] == '"' {
                spec_tokenize_at(s, e + 1, acc2.push(SpecToken::Variable(s.subrange(i + 1, e))))
            } else {
                Err(SpecParseError::UnexpectedTokenError(e, '"'))
            }
        } else {
            Err(SpecParseError::UnexpectedTokenError(i, c))
        }
    }
}

#[via_fn]
proof fn spec_tokenize_at_decreases<T: Numeric>(s: Seq<char>, i: int, acc: Seq<SpecToken<T>>) {
    if 0 <= i < s.len() {
        let c = s[i];
        if is_literal_char(c) {
            lemma_literal_end_bounds(s, i + 1);
            assert(literal_end(s, i) == literal_end(s, i + 1));
        }
        if c == '"' {
            lemma_quote_end_bounds(s, i + 1);
        }
    }
}

/// What tokenizing a whole text yields.
pub open spec fn spec_tokenize<T: Numeric>(s: Seq<char>) -> Result<
    Seq<SpecToken<T>>,
    SpecParseError,
> {
    spec_tokenize_at(s, 0, Seq::empty())
}

/// The first position at or after `start` that cannot continue a numeric
/// literal.
fn scan_literal_end(s: &str, start: usize) -> (j: usize)
    requires
        start <= s@.len(),
    ensures
        start <= j <= s@.len(),
        j == literal_end(s@, start as int),
{
    let n = s.unicode_len();
    let mut j = start;
    while j < n
        invariant
            start <= j <= n,
            n == s@.len(),
            literal_end(s@, start as int) == literal_end(s@, j as int),
        decreases n - j,
    {
        let c = s.get_char(j);
        let cv = c as u32;
        if !((48 <= cv && cv <= 57) || c == '.') {
            assert(literal_end(s@, j as int) == j as int);
            return j;
        }
        assert(literal_end(s@, j as int) == literal_end(s@, j as int + 1));
        j += 1;
    }
    assert(literal_end(s@, j as int) == j as int);
    j
}

/// The first position at or after `start` that is not a letter.
fn scan_quote_end(s: &str, start: usize) -> (j: usize)
    requires
        start <= s@.len(),
    ensures
        start <= j <= s@.len(),
        j == quote_end(s@, start as int),
{
    let n = s.unicode_len();
    let mut j = start;
    while j < n
        invariant
            start <= j <= n,
            n == s@.len(),
            quote_end(s@, start as int) == quote_end(s@, j as int),
        decreases n - j,
    {
        let c = s.get_char(j);
        let cv = c as u32;
        if !((97 <= cv && cv <= 122) || (65 <= cv && cv <= 90)) {
            assert(quote_end(s@, j as int) == j as int);
            return j;
        }
        assert(quote_end(s@, j as int) == quote_end(s@, j as int + 1));
        j += 1;
    }
    assert(quote_end(s@, j as int) == j as int);
    j
}

/// Turns an expression text into its token sequence by one left-to-right
/// scan: literals and quoted names take several characters greedily, bare
/// letters are one-character variables, juxtaposition against an operand
/// inserts a multiplication before a letter, a quote or an opening bracket,
/// spaces are skipped, and an operator not after an operand, or any other
/// character, stops the scan with an error naming its position.
pub fn tokenize<T: Numeric>(input: String) -> (r: Result<Vec<Token<T>>, ParseError>)
    ensures
        match r {
            Ok(v) => spec_tokenize::<T>(input@) == Ok::<_, SpecParseError>(v.deep_view()),
            Err(e) => spec_tokenize::<T>(input@) == Err::<Seq<SpecToken<T>>, _>(e.deep_view()),
        },
{
    let s = input.as_str();
    let n = s.unicode_len();
    let mut tokens: Vec<Token<T>> = Vec::new();
    let mut i: usize = 0;
    proof {
        assert(tokens.deep_view() =~= Seq::<SpecToken<T>>::empty());
    }
    while i < n
        invariant
            i <= n,
            n == s@.len(),
            s@ == input@,
            spec_tokenize::<T>(input@) == spec_tokenize_at::<T>(
                input@,
                i as int,
                tokens.deep_view(),
            ),
        decreases n - i,
    {
        let ghost acc0 = tokens.deep_view();
        let c = s.get_char(i);
        let cv = c as u32;
        if c == ' ' {
            i += 1;
        } else if c == '+' || c == '-' || c == '*' || c == '/' || c == '^' {
            let allowed = if tokens.len() == 0 {
                false
            } else {
                match &tokens[tokens.len() - 1] {
                    Token::Value(_) => true,
                    Token::Variable(_) => true,
                    Token::ClosingBrackets => true,
                    _ => false,
                }
            };
            proof {
                if tokens.len() > 0 {
                    assert(acc0.last() == tokens@[tokens@.len() - 1].deep_view());
                }
                assert(allowed == last_allows_operator(acc0));
            }
            if !allowed {
                return Err(ParseError::UnexpectedTokenError(i, c));
            }
            let t: Token<T> = if c == '+' {
                Token::AddSymbol
            } else if c == '-' {
                Token::SubSymbol
            } else if c == '*' {
                Token::MulSymbol
            } else if c == '/' {
                Token::DivSymbol
            } else {
                Token::PowSymbol
            };
            tokens.push(t);
            proof {
                assert(tokens.deep_view() =~= acc0.push(spec_op_token(c)));
            }
            i += 1;
        } else if c == '(' {
            let operand = if tokens.len() == 0 {
                false
            } else {
                match &tokens[tokens.len() - 1] {
                    Token::Value(_) => true,
                    Token::Variable(_) => true,
                    Token::ClosingBrackets => true,
                    _ => false,
                }
            };
            proof {
                if tokens.len() > 0 {
                    assert(acc0.last() == tokens@[tokens@.len() - 1].deep_view());
                }
                assert(operand == last_allows_operator(acc0));
            }
            if operand {
                tokens.push(Token::MulSymbol);
            }
            tokens.push(Token::OpeningBrackets);
            proof {
                if operand {
                    assert(tokens.deep_view() =~= acc0.push(SpecToken::MulSymbol).push(
                        SpecToken::OpeningBrackets,
                    ));
                } else {
                    assert(tokens.deep_view() =~= acc0.push(SpecToken::OpeningBrackets));
                }
            }
            i += 1;
        } else if c == ')' {
            tokens.push(Token::ClosingBrackets);
            proof {
                assert(tokens.deep_view() =~= acc0.push(SpecToken::ClosingBrackets));
            }
            i += 1;
        } else if (48 <= cv && cv <= 57) || c == '.' {
            let j = scan_literal_end(s, i);
            proof {
                assert(literal_end(s@, i as int) == literal_end(s@, i as int + 1));
                lemma_literal_end_bounds(s@, i as int + 1);
            }
            let lit = s.substring_char(i, j);
            match T::from_literal(lit) {
                Some(v) => {
                    tokens.push(Token::Value(v));
                    proof {
                        assert(tokens.deep_view() =~= acc0.push(SpecToken::Value(v)));
                    }
                    i = j;
                },
                None => {
                    return Err(
                        ParseError::ValueError(String::from_str(lit), T::type_label()),
                    );
                },
            }
        } else if (97 <= cv && cv <= 122) || (65 <= cv && cv <= 90) {
            let operand = if tokens.len() == 0 {
                false
            } else {
                match &tokens[tokens.len() - 1] {
                    Token::Value(_) => true,
                    Token::Variable(_) => true,
                    _ => false,
                }
            };
            proof {
                if tokens.len() > 0 {
                    assert(acc0.last() == tokens@[tokens@.len() - 1].deep_view());
                }
                assert(operand == last_is_operand(acc0));
            }
            if operand {
                tokens.push(Token::MulSymbol);
            }
            let name = String::from_str(s.substring_char(i, i + 1));
            proof {
                assert(name@ =~= seq![s@[i as int]]);
            }
            tokens.push(Token::Variable(name));
            proof {
                if operand {
                    assert(tokens.deep_view() =~= acc0.push(SpecToken::MulSymbol).push(
                        SpecToken::Variable(seq![s@[i as int]]),
                    ));
                } else {
                    assert(tokens.deep_view() =~= acc0.push(
                        SpecToken::Variable(seq![s@[i as int]]),
                    ));
                }
            }
            i += 1;
        } else if c == '"' {
            let operand = if tokens.len() == 0 {
                false
            } else {
                match &tokens[tokens.len() - 1] {
                    Token::Value(_) => true,
                    Token::Variable(_) => true,
                    _ => false,
                }
            };
            proof {
                if tokens.len() > 0 {
                    assert(acc0.last() == tokens@[tokens@.len() - 1].deep_view());
                }
                assert(operand == last_is_operand(acc0));
            }
            if operand {
                tokens.push(Token::MulSymbol);
            }
            let ghost acc2 = tokens.deep_view();
            proof {
                if operand {
                    assert(acc2 =~= acc0.push(SpecToken::MulSymbol));
                } else {
                    assert(acc2 =~= acc0);
                }
            }
            let e = scan_quote_end(s, i + 1);
            if e == n {
                let name = String::from_str(s.substring_char(i + 1, e));
                tokens.push(Token::Variable(name));
                proof {
                    assert(tokens.deep_view() =~= acc2.push(
                        SpecToken::Variable(s@.subrange(i as int + 1, e as int)),
                    ));
                }
                i = e;
            } else {
                let ce = s.get_char(e);
                if ce == '"' {
                    let name = String::from_str(s.substring_char(i + 1, e));
                    tokens.push(Token::Variable(name));
                    proof {
                        assert(tokens.deep_view() =~= acc2.push(
                            SpecToken::Variable(s@.subrange(i as int + 1, e as int)),
                        ));
                    }
                    i = e + 1;
                } else {
                    return Err(ParseError::UnexpectedTokenError(e, '"'));
                }
            }
        } else {
            return Err(ParseError::UnexpectedTokenError(i, c));
        }
    }
    Ok(tokens)
}

/// The split priority of a token: a looser-binding operator rates higher and
/// is preferred as the split point, because the split point becomes the tree
/// root and is evaluated last. Values and variables rate zero.
pub open spec fn spec_operand_value<T>(t: SpecToken<T>) -> int {
    match t {
        SpecToken::AddSymbol => 10,
        SpecToken::SubSymbol => 9,
        SpecToken::MulSymbol => 8,
        SpecToken::DivSymbol => 7,
        SpecToken::PowSymbol => 6,
        _ => 0,
    }
}

/// Whether a token is one of the five operator symbols.
pub open spec fn spec_is_op_token<T>(t: SpecToken<T>) -> bool {
    match t {
        SpecToken::AddSymbol => true,
        SpecToken::SubSymbol => true,
        SpecToken::MulSymbol => true,
        SpecToken::DivSymbol => true,
        SpecToken::PowSymbol => true,
        _ => false,
    }
}

/// Whether the brackets from position `i` on pair up, entered at the given
/// open level: the level never drops below zero and ends at zero.
pub open spec fn balance_from<T>(toks: Seq<SpecToken<T>>, i: int, level: int) -> bool
    decreases toks.len() - i,
{
    if i < 0 || i >= toks.len() {
        level == 0
    } else {
        match toks[i] {
            SpecToken::OpeningBrackets => balance_from(toks, i + 1, level + 1),
            SpecToken::ClosingBrackets => level > 0 && balance_from(toks, i + 1, level - 1),
            _ => balance_from(toks, i + 1, level),
        }
    }
}

/// Whether a token sequence's brackets pair up.
pub open spec fn spec_balanced<T>(toks: Seq<SpecToken<T>>) -> bool {
    balance_from(toks, 0, 0)
}

/// A split candidate: the index of a non-bracket token, its bracket level,
/// and its split priority.
pub struct SpecCandidate {
    pub idx: int,
    pub level: int,
    pub value: int,
}

/// Whether a token at the given level and priority displaces the candidate
/// held so far: a strictly shallower level always wins, and at equal level a
/// priority at least as high wins, so among equal operators the later one
/// becomes the split point, which makes the split left-associative.
pub open spec fn better_candidate(cur: Option<SpecCandidate>, level: int, value: int) -> bool {
    match cur {
        None => true,
        Some(c) => level < c.level || (level == c.level && value >= c.value),
    }
}

/// The winning split candidate of the scan from position `i` on.
pub open spec fn scan_major<T>(
    toks: Seq<SpecToken<T>>,
    i: int,
    level: int,
    best: Option<SpecCandidate>,
) -> Option<SpecCandidate>
    decreases toks.len() - i,
{
    if i < 0 || i >= toks.len() {
        best
    } else {
        match toks[i] {
            SpecToken::OpeningBrackets => scan_major(toks, i + 1, level + 1, best),
            SpecToken::ClosingBrackets => scan_major(toks, i + 1, level - 1, best),
            _ => {
                let v = spec_operand_value(toks[i]);
                let best2 = if better_candidate(best, level, v) {
                    Some(SpecCandidate { idx: i, level, value: v })
                } else {
                    best
                };
                scan_major(toks, i + 1, level, best2)
            },
        }
    }
}

/// Every candidate the scan returns indexes a non-bracket token of the
/// sequence.
pub proof fn lemma_scan_major_bounds<T>(
    toks: Seq<SpecToken<T>>,
    i: int,
    level: int,
    best: Option<SpecCandidate>,
)
    requires
        0 <= i,
        match best {
            Some(c) => 0 <= c.idx < toks.len() && !(toks[c.idx] is OpeningBrackets) && !(
            toks[c.idx] is ClosingBrackets),
            None => true,
        },
    ensures
        match scan_major(toks, i, level, best) {
            Some(c) => 0 <= c.idx < toks.len() && !(toks[c.idx] is OpeningBrackets) && !(
            toks[c.idx] is ClosingBrackets),
            None => true,
        },
    decreases toks.len() - i,
{
    if 0 <= i < toks.len() {
        match toks[i] {
            SpecToken::OpeningBrackets => lemma_scan_major_bounds(toks, i + 1, level + 1, best),
            SpecToken::ClosingBrackets => lemma_scan_major_bounds(toks, i + 1, level - 1, best),
            _ => {
                let v = spec_operand_value(toks[i]);
                let best2 = if better_candidate(best, level, v) {
                    Some(SpecCandidate { idx: i, level, value: v })
                } else {
                    best
                };
                lemma_scan_major_bounds(toks, i + 1, level, best2);
            },
        }
    }
}

/// What splitting a balanced multi-token sequence at its major operand
/// yields: the winning token, and the token spans left and right of it,
/// each stripped of the enclosing brackets the winner sits in. The sequence
/// is refused where no non-bracket token exists, or where the tokens to
/// strip are not the expected brackets.
pub open spec fn spec_split<T>(toks: Seq<SpecToken<T>>) -> Result<
    (SpecToken<T>, Seq<SpecToken<T>>, Seq<SpecToken<T>>),
    SpecParseError,
> {
    match scan_major(toks, 0, 0, None::<SpecCandidate>) {
        None => Err(SpecParseError::MalformedExpressionError),
        Some(c) => {
            if 0 <= c.level <= c.idx && c.level <= toks.len() - c.idx - 1 && (forall|
                q: int,
            |
                0 <= q < c.level ==> toks[q] is OpeningBrackets) && (forall|q: int|
                toks.len() - c.level <= q < toks.len() ==> toks[q] is ClosingBrackets) {
                Ok(
                    (
                        toks[c.idx],
                        toks.subrange(c.level, c.idx),
                        toks.subrange(c.idx + 1, toks.len() - c.level),
                    ),
                )
            } else {
                Err(SpecParseError::UnbalancedBracketsError)
            }
        },
    }
}

/// The split priority of a token.
fn operand_value<T: Copy>(o: &Token<T>) -> (r: usize)
    ensures
        r == spec_operand_value(o.deep_view()),
{
    match o {
        Token::AddSymbol => 10,
        Token::SubSymbol => 9,
        Token::MulSymbol => 8,
        Token::DivSymbol => 7,
        Token::PowSymbol => 6,
        _ => 0,
    }
}

/// Whether the sequence's brackets pair up.
fn check_balanced<T: Copy>(input: &Vec<Token<T>>) -> (r: bool)
    ensures
        r == spec_balanced(input.deep_view()),
{
    let ghost toks = input.deep_view();
    let n = input.len();
    let mut level: usize = 0;
    let mut i: usize = 0;
    while i < n
        invariant
            i <= n == toks.len(),
            toks.len() == input@.len(),
            toks == input.deep_view(),
            level <= i,
            spec_balanced(toks) == balance_from(toks, i as int, level as int),
        decreases n - i,
    {
        match &input[i] {
            Token::OpeningBrackets => {
                level += 1;
            },
            Token::ClosingBrackets => {
                if level == 0 {
                    return false;
                }
                level -= 1;
            },
            _ => {},
        }
        i += 1;
    }
    level == 0
}

/// Finds the major operand of a balanced multi-token sequence: a single
/// left-to-right scan tracks the bracket level and keeps the best candidate,
/// preferring a strictly shallower level, then an equal level with at least
/// the priority held so far. The sequence is split at the winner, and each
/// side sheds the winner's level of enclosing brackets.
fn split_at_major_operand<T: Copy>(input: Vec<Token<T>>) -> (r: Result<
    (Token<T>, Vec<Token<T>>, Vec<Token<T>>),
    ParseError,
>)
    requires
        spec_balanced(input.deep_view()),
        input@.len() >= 2,
    ensures
        match r {
            Ok((op, l, rg)) => spec_split(input.deep_view()) == Ok::<_, SpecParseError>(
                (op.deep_view(), l.deep_view(), rg.deep_view()),
            ) && l@.len() < input@.len() && rg@.len() < input@.len(),
            Err(e) => spec_split(input.deep_view()) == Err::<
                (SpecToken<T>, Seq<SpecToken<T>>, Seq<SpecToken<T>>),
                _,
            >(e.deep_view()),
        },
{
    let ghost toks = input.deep_view();
    let n = input.len();
    let mut level: usize = 0;
    let mut have_best = false;
    let mut best_idx: usize = 0;
    let mut best_level: usize = 0;
    let mut best_value: usize = 0;
    let mut i: usize = 0;
    while i < n
        invariant
            i <= n == toks.len(),
            toks.len() == input@.len(),
            toks == input.deep_view(),
            balance_from(toks, i as int, level as int),
            scan_major(toks, 0, 0, None::<SpecCandidate>) == scan_major(
                toks,
                i as int,
                level as int,
                if have_best {
                    Some(
                        SpecCandidate {
                            idx: best_idx as int,
                            level: best_level as int,
                            value: best_value as int,
                        },
                    )
                } else {
                    None
                },
            ),
            have_best ==> best_idx < i,
        decreases n - i,
    {
        match &input[i] {
            Token::OpeningBrackets => {
                proof {
                    lemma_balance_level_bound(toks, i as int + 1, level as int + 1);
                }
                level += 1;
            },
            Token::ClosingBrackets => {
                level -= 1;
            },
            _ => {
                let v = operand_value(&input[i]);
                let better = if !have_best {
                    true
                } else {
                    level < best_level || (level == best_level && v >= best_value)
                };
                if better {
                    have_best = true;
                    best_idx = i;
                    best_level = level;
                    best_value = v;
                }
            },
        }
        i += 1;
    }
    let ghost winner = scan_major(toks, 0, 0, None::<SpecCandidate>);
    if !have_best {
        return Err(ParseError::MalformedExpressionError);
    }
    proof {
        assert(toks[best_idx as int] == input@[best_idx as int].deep_view());
    }
    let lvl = best_level;
    if best_idx < lvl || n - best_idx - 1 < lvl {
        return Err(ParseError::UnbalancedBracketsError);
    }
    let mut input = input;
    let mut right = input.split_off(best_idx + 1);
    let op = match input.pop() {
        Some(t) => t,
        None => {
            proof {
                assert(false);
            }
            return Err(ParseError::MalformedExpressionError);
        },
    };
    let mut left = input;
    proof {
        assert(left.deep_view() =~= toks.subrange(0, best_idx as int));
        assert(right.deep_view() =~= toks.subrange(best_idx as int + 1, toks.len() as int));
        assert(op.deep_view() == toks[best_idx as int]);
    }
    let mut k: usize = 0;
    let mut front_ok = true;
    while front_ok && k < lvl
        invariant
            k <= lvl,
            lvl <= best_idx < n == toks.len(),
            front_ok ==> left.deep_view() == toks.subrange(k as int, best_idx as int),
            front_ok ==> forall|q: int| 0 <= q < k ==> toks[q] is OpeningBrackets,
            !front_ok ==> !(forall|q: int| 0 <= q < lvl ==> toks[q] is OpeningBrackets),
        decreases (if front_ok { 1int } else { 0int }), lvl - k,
    {
        let ghost lv0 = left@;
        let ghost dv0 = left.deep_view();
        proof {
            assert(dv0.len() == best_idx - k);
            assert(dv0[0] == lv0[0].deep_view());
            assert(dv0[0] == toks[k as int]);
        }
        let t = left.remove(0);
        proof {
            assert(t.deep_view() == toks[k as int]);
        }
        match &t {
            Token::OpeningBrackets => {
                proof {
                    assert forall|j: int| 0 <= j < left@.len() implies #[trigger] left.deep_view()[j]
                        == toks[k + 1 + j] by {
                        assert(left@[j] == lv0[j + 1]);
                        assert(dv0[j + 1] == lv0[j + 1].deep_view());
                        assert(dv0[j + 1] == toks.subrange(k as int, best_idx as int)[j + 1]);
                        assert(left.deep_view()[j] == left@[j].deep_view());
                    }
                    assert(left.deep_view() =~= toks.subrange(k as int + 1, best_idx as int));
                }
                k += 1;
            },
            _ => {
                proof {
                    assert(!(toks[k as int] is OpeningBrackets));
                }
                front_ok = false;
            },
        }
    }
    if !front_ok {
        return Err(ParseError::UnbalancedBracketsError);
    }
    let mut k2: usize = 0;
    let mut back_ok = true;
    while back_ok && k2 < lvl
        invariant
            k2 <= lvl,
            lvl <= n - best_idx - 1,
            lvl <= best_idx < n == toks.len(),
            back_ok ==> right.deep_view() == toks.subrange(best_idx as int + 1, toks.len() - k2),
            back_ok ==> forall|q: int|
                toks.len() - k2 <= q < toks.len() ==> toks[q] is ClosingBrackets,
            !back_ok ==> !(forall|q: int|
                toks.len() - lvl <= q < toks.len() ==> toks[q] is ClosingBrackets),
        decreases (if back_ok { 1int } else { 0int }), lvl - k2,
    {
        let ghost rv0 = right@;
        let ghost dvr0 = right.deep_view();
        let ghost last_pos = toks.len() - k2 - 1;
        proof {
            assert(right.deep_view().len() == toks.len() - k2 - best_idx - 1);
            assert(rv0.len() == toks.len() - k2 - best_idx - 1);
            assert(right.deep_view()[rv0.len() - 1] == rv0[rv0.len() - 1].deep_view());
            assert(right.deep_view()[rv0.len() - 1] == toks[last_pos]);
        }
        match right.pop() {
            Some(t) => {
                proof {
                    assert(t.deep_view() == toks[last_pos]);
                }
                match &t {
                    Token::ClosingBrackets => {
                        proof {
                            let ghost dvr = right.deep_view();
                            assert forall|j: int| 0 <= j < right@.len() implies #[trigger] dvr[j]
                                == toks[best_idx + 1 + j] by {
                                assert(right@[j] == rv0[j]);
                                assert(dvr0[j] == rv0[j].deep_view());
                                assert(dvr0[j] == toks.subrange(
                                    best_idx as int + 1,
                                    toks.len() - k2,
                                )[j]);
                                assert(dvr[j] == right@[j].deep_view());
                            }
                            assert(right.deep_view() =~= toks.subrange(
                                best_idx as int + 1,
                                toks.len() - k2 - 1,
                            ));
                        }
                        k2 += 1;
                    },
                    _ => {
                        proof {
                            assert(!(toks[last_pos] is ClosingBrackets));
                        }
                        back_ok = false;
                    },
                }
            },
            None => {
                proof {
                    assert(false);
                }
                back_ok = false;
            },
        }
    }
    if !back_ok {
        return Err(ParseError::UnbalancedBracketsError);
    }
    proof {
        assert(left.deep_view() =~= toks.subrange(lvl as int, best_idx as int));
        assert(right.deep_view() =~= toks.subrange(best_idx as int + 1, toks.len() - lvl));
    }
    Ok((op, left, right))
}

/// A bracket level deeper than the token count cannot arise in a sequence
/// whose balance holds from the current position.
proof fn lemma_balance_level_bound<T>(toks: Seq<SpecToken<T>>, i: int, level: int)
    requires
        0 <= i <= toks.len(),
        balance_from(toks, i, level),
    ensures
        level <= toks.len() - i,
    decreases toks.len() - i,
{
    if i < toks.len() {
        match toks[i] {
            SpecToken::OpeningBrackets => lemma_balance_level_bound(toks, i + 1, level + 1),
            SpecToken::ClosingBrackets => lemma_balance_level_bound(toks, i + 1, level - 1),
            _ => lemma_balance_level_bound(toks, i + 1, level),
        }
    }
}

/// The expression node of an operator token over two subtrees.
pub open spec fn spec_node<T>(op: SpecToken<T>, a: SpecExpr<T>, b: SpecExpr<T>) -> SpecExpr<T> {
    match op {
        SpecToken::AddSymbol => SpecExpr::Add(Box::new(a), Box::new(b)),
        SpecToken::SubSymbol => SpecExpr::Sub(Box::new(a), Box::new(b)),
        SpecToken::MulSymbol => SpecExpr::Mul(Box::new(a), Box::new(b)),
        SpecToken::DivSymbol => SpecExpr::Div(Box::new(a), Box::new(b)),
        _ => SpecExpr::Pow(Box::new(a), Box::new(b)),
    }
}

/// What building a tree from a token sequence yields: an empty sequence is
/// refused, a lone value or variable is a leaf, and a longer sequence must
/// balance its brackets and is split at its major operand. An operator
/// winner becomes a node over both sides, built recursively, the left side
/// first; a value or variable winner left alone by the bracket stripping is
/// routed to the leaf rule, and anything else fits no tree.
pub open spec fn spec_parse_tokens<T: Numeric>(toks: Seq<SpecToken<T>>) -> Result<
    SpecExpr<T>,
    SpecParseError,
>
    decreases toks.len(),
    via spec_parse_tokens_decreases::<T>
{
    if toks.len() == 0 {
        Err(SpecParseError::EmptyError)
    } else if toks.len() == 1 {
        match toks[0] {
            SpecToken::Value(v) => Ok(SpecExpr::Value(v)),
            SpecToken::Variable(nm) => Ok(SpecExpr::Variable(nm)),
            _ => Err(SpecParseError::MalformedExpressionError),
        }
    } else if !spec_balanced(toks) {
        Err(SpecParseError::UnbalancedBracketsError)
    } else {
        match spec_split(toks) {
            Err(e) => Err(e),
            Ok((op, l, rg)) => {
                if spec_is_op_token(op) {
                    match (spec_parse_tokens(l), spec_parse_tokens(rg)) {
                        (Ok(a), Ok(b)) => Ok(spec_node(op, a, b)),
                        (Err(e), _) => Err(e),
                        (_, Err(e)) => Err(e),
                    }
                } else if l.len() == 0 && rg.len() == 0 {
                    match op {
                        SpecToken::Value(v) => Ok(SpecExpr::Value(v)),
                        SpecToken::Variable(nm) => Ok(SpecExpr::Variable(nm)),
                        _ => Err(SpecParseError::MalformedExpressionError),
                    }
                } else {
                    Err(SpecParseError::MalformedExpressionError)
                }
            },
        }
    }
}

#[via_fn]
proof fn spec_parse_tokens_decreases<T: Numeric>(toks: Seq<SpecToken<T>>) {
    if toks.len() > 1 && spec_balanced(toks) {
        lemma_scan_major_bounds(toks, 0, 0, None::<SpecCandidate>);
    }
}

/// Builds the binary expression tree of a token sequence by majority-operand
/// splitting: the loosest-binding operator at the shallowest bracket level,
/// the later among equals, becomes the root, and each side is built
/// recursively after shedding the brackets the root sits in. A value or
/// variable standing alone inside matched brackets becomes its leaf.
pub fn parse_string<T: Numeric>(input: Vec<Token<T>>) -> (r: Result<Expr<T>, ParseError>)
    ensures
        match r {
            Ok(e) => spec_parse_tokens::<T>(input.deep_view()) == Ok::<_, SpecParseError>(
                e.deep_view(),
            ),
            Err(e) => spec_parse_tokens::<T>(input.deep_view()) == Err::<SpecExpr<T>, _>(
                e.deep_view(),
            ),
        },
    decreases input@.len(),
{
    let ghost toks = input.deep_view();
    let n = input.len();
    if n == 0 {
        return Err(ParseError::EmptyError);
    }
    if n == 1 {
        let mut input = input;
        let t = match input.pop() {
            Some(t) => t,
            None => {
                proof {
                    assert(false);
                }
                return Err(ParseError::EmptyError);
            },
        };
        proof {
            assert(t.deep_view() == toks[0]);
        }
        return match t {
            Token::Value(v) => Ok(Expr::Value(v)),
            Token::Variable(nm) => Ok(Expr::Variable(nm)),
            _ => Err(ParseError::MalformedExpressionError),
        };
    }
    if !check_balanced(&input) {
        return Err(ParseError::UnbalancedBracketsError);
    }
    match split_at_major_operand(input) {
        Err(e) => Err(e),
        Ok((op, l, rg)) => {
            let ghost lv = l.deep_view();
            let ghost rv = rg.deep_view();
            let is_op = match &op {
                Token::AddSymbol => true,
                Token::SubSymbol => true,
                Token::MulSymbol => true,
                Token::DivSymbol => true,
                Token::PowSymbol => true,
                _ => false,
            };
            proof {
                assert(is_op == spec_is_op_token(op.deep_view()));
            }
            if !is_op {
                if l.len() == 0 && rg.len() == 0 {
                    return match op {
                        Token::Value(v) => Ok(Expr::Value(v)),
                        Token::Variable(nm) => Ok(Expr::Variable(nm)),
                        _ => Err(ParseError::MalformedExpressionError),
                    };
                }
                return Err(ParseError::MalformedExpressionError);
            }
            let a = match parse_string(l) {
                Ok(x) => x,
                Err(e) => {
                    return Err(e);
                },
            };
            let b = match parse_string(rg) {
                Ok(x) => x,
                Err(e) => {
                    return Err(e);
                },
            };
            match op {
                Token::AddSymbol => Ok(Expr::Add(Box::new(a), Box::new(b))),
                Token::SubSymbol => Ok(Expr::Sub(Box::new(a), Box::new(b))),
                Token::MulSymbol => Ok(Expr::Mul(Box::new(a), Box::new(b))),
                Token::DivSymbol => Ok(Expr::Div(Box::new(a), Box::new(b))),
                Token::PowSymbol => Ok(Expr::Pow(Box::new(a), Box::new(b))),
                _ => {
                    proof {
                        assert(false);
                    }
                    Err(ParseError::MalformedExpressionError)
                },
            }
        },
    }
}

} // verus!
