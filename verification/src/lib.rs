//! An evaluator for algebraic expressions given as text, over a selectable
//! numeric domain: a text is tokenized into a flat token sequence, the
//! tokens are shaped into a binary expression tree by majority-operand
//! splitting, and the tree is evaluated against caller-supplied variable
//! bindings. The exact fixed-point decimal domain carries addition and
//! subtraction without any floating-point residue.
#![allow(unused_imports)]

use vstd::prelude::*;

pub mod decimal;
pub mod eval;
pub mod laws;
pub mod numeric;
pub mod parse;

use crate::decimal::Decimal;
use crate::eval::{eval_expr, spec_eval, EvalError, SpecEvalError, Variables};
use crate::numeric::Numeric;
use crate::parse::{
    parse_string, spec_parse_tokens, spec_tokenize, tokenize, ParseError, SpecParseError,
};

verus! {

/// The errors of solving: what tokenizing or tree building refused, or what
/// evaluation refused.
#[derive(Debug, PartialEq)]
pub enum Error {
    ParseError(ParseError),
    EvalError(EvalError),
}

/// The mathematical shadow of a solving error.
pub enum SpecError {
    ParseError(SpecParseError),
    EvalError(SpecEvalError),
}

impl DeepView for Error {
    type V = SpecError;

    open spec fn deep_view(&self) -> SpecError {
        match self {
            Error::ParseError(p) => SpecError::ParseError(p.deep_view()),
            Error::EvalError(e) => SpecError::EvalError(e.deep_view()),
        }
    }
}

impl From<ParseError> for Error {
    fn from(value: ParseError) -> (r: Error) {
        Error::ParseError(value)
    }
}

impl vstd::std_specs::convert::FromSpecImpl<ParseError> for Error {
    open spec fn obeys_from_spec() -> bool {
        true
    }

    open spec fn from_spec(value: ParseError) -> Error {
        Error::ParseError(value)
    }
}

impl From<EvalError> for Error {
    fn from(value: EvalError) -> (r: Error) {
        Error::EvalError(value)
    }
}

impl vstd::std_specs::convert::FromSpecImpl<EvalError> for Error {
    open spec fn obeys_from_spec() -> bool {
        true
    }

    open spec fn from_spec(value: EvalError) -> Error {
        Error::EvalError(value)
    }
}

/// What solving a text against an environment yields: tokenize, build the
/// tree, evaluate, stopping at the first failure.
pub open spec fn spec_solve<T: Numeric>(s: Seq<char>, env: Map<Seq<char>, T>) -> Result<
    T,
    SpecError,
> {
    match spec_tokenize::<T>(s) {
        Err(e) => Err(SpecError::ParseError(e)),
        Ok(toks) => match spec_parse_tokens::<T>(toks) {
            Err(e) => Err(SpecError::ParseError(e)),
            Ok(tree) => match spec_eval(tree, env) {
                Ok(v) => Ok(v),
                Err(e) => Err(SpecError::EvalError(e)),
            },
        },
    }
}

/// Solves an expression text against the given variable bindings, in the
/// numeric domain `T`: tokenize, build the tree, evaluate, stopping at the
/// first failure.
pub fn solve_vars_with<T: Numeric>(input: String, variables: &Variables<T>) -> (r: Result<T, Error>)
    ensures
        match r {
            Ok(v) => spec_solve::<T>(input@, variables@) == Ok::<_, SpecError>(v),
            Err(e) => spec_solve::<T>(input@, variables@) == Err::<T, _>(e.deep_view()),
        },
{
    let tokenized_input = match tokenize::<T>(input) {
        Ok(t) => t,
        Err(e) => {
            return Err(Error::ParseError(e));
        },
    };
    let parsed_input = match parse_string(tokenized_input) {
        Ok(t) => t,
        Err(e) => {
            return Err(Error::ParseError(e));
        },
    };
    match eval_expr(&parsed_input, variables) {
        Ok(v) => Ok(v),
        Err(e) => Err(Error::EvalError(e)),
    }
}

/// Solves an expression text with no variables bound, in the numeric domain
/// `T`.
pub fn solve_with<T: Numeric>(input: String) -> (r: Result<T, Error>)
    ensures
        match r {
            Ok(v) => spec_solve::<T>(input@, Map::<Seq<char>, T>::empty()) == Ok::<_, SpecError>(v),
            Err(e) => spec_solve::<T>(input@, Map::<Seq<char>, T>::empty()) == Err::<T, _>(
                e.deep_view(),
            ),
        },
{
    solve_vars_with(input, &Variables::new())
}

/// Solves an expression text in the default machine-word domain.
pub fn solve(input: String) -> (r: Result<usize, Error>)
    ensures
        match r {
            Ok(v) => spec_solve::<usize>(input@, Map::<Seq<char>, usize>::empty()) == Ok::<
                _,
                SpecError,
            >(v),
            Err(e) => spec_solve::<usize>(input@, Map::<Seq<char>, usize>::empty()) == Err::<
                usize,
                _,
            >(e.deep_view()),
        },
{
    solve_with::<usize>(input)
}

/// Solves an expression text against variable bindings in the default
/// machine-word domain.
pub fn solve_vars(input: String, variables: &Variables<usize>) -> (r: Result<usize, Error>)
    ensures
        match r {
            Ok(v) => spec_solve::<usize>(input@, variables@) == Ok::<_, SpecError>(v),
            Err(e) => spec_solve::<usize>(input@, variables@) == Err::<usize, _>(e.deep_view()),
        },
{
    solve_vars_with::<usize>(input, variables)
}

/// Solves an expression text in the exact decimal domain.
pub fn solve_decimal(input: String) -> (r: Result<Decimal, Error>)
    ensures
        match r {
            Ok(v) => spec_solve::<Decimal>(input@, Map::<Seq<char>, Decimal>::empty()) == Ok::<
                _,
                SpecError,
            >(v),
            Err(e) => spec_solve::<Decimal>(input@, Map::<Seq<char>, Decimal>::empty()) == Err::<
                Decimal,
                _,
            >(e.deep_view()),
        },
{
    solve_with::<Decimal>(input)
}

/// Solves an expression text against variable bindings in the exact decimal
/// domain.
pub fn solve_decimal_vars(input: String, variables: &Variables<Decimal>) -> (r: Result<
    Decimal,
    Error,
>)
    ensures
        match r {
            Ok(v) => spec_solve::<Decimal>(input@, variables@) == Ok::<_, SpecError>(v),
            Err(e) => spec_solve::<Decimal>(input@, variables@) == Err::<Decimal, _>(e.deep_view()),
        },
{
    solve_vars_with::<Decimal>(input, variables)
}

} // verus!
