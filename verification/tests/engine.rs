use calcy::decimal::Decimal;
use calcy::eval::{EvalError, Variables};
use calcy::parse::{parse_string, tokenize, Expr, ParseError, Token};
use calcy::{solve, solve_decimal, solve_decimal_vars, solve_vars, solve_with, Error};
use std::str::FromStr;

fn parse(input: String) -> Result<Expr<usize>, ParseError> {
    parse_string(tokenize::<usize>(input)?)
}

#[test]
fn left_associative_tree_shape() {
    assert_eq!(
        parse("1+2+3".to_string()),
        Ok(Expr::Add(
            Box::new(Expr::Add(
                Box::new(Expr::Value(1)),
                Box::new(Expr::Value(2))
            )),
            Box::new(Expr::Value(3))
        ))
    );
    assert_eq!(solve("1+2+3".to_string()), Ok(6));
    assert_eq!(solve("10-3-2".to_string()), Ok(5));
}

#[test]
fn precedence() {
    assert_eq!(solve("2+3*4".to_string()), Ok(14));
    assert_eq!(solve("(2+3)*4".to_string()), Ok(20));
    assert_eq!(solve("2*3+4".to_string()), Ok(10));
    assert_eq!(solve("2^3*4".to_string()), Ok(32));
}

#[test]
fn implicit_multiplication() {
    let mut vars: Variables<usize> = Variables::new();
    vars.insert("a".to_string(), 2);
    vars.insert("b".to_string(), 3);
    assert_eq!(solve_vars("ab".to_string(), &vars), Ok(6));
    assert_eq!(
        parse("\"ab\"c".to_string()),
        Ok(Expr::Mul(
            Box::new(Expr::Variable("ab".to_string())),
            Box::new(Expr::Variable("c".to_string()))
        ))
    );
    assert_eq!(solve("2(3+4)".to_string()), Ok(14));
    assert_eq!(solve("2(3)".to_string()), Ok(6));
    // a closed group against an opening bracket multiplies too
    assert_eq!(
        tokenize::<usize>(")(".to_string()),
        Ok(vec![
            Token::ClosingBrackets,
            Token::MulSymbol,
            Token::OpeningBrackets
        ])
    );
    assert_eq!(solve("(2+3)(4)".to_string()), Ok(20));
    assert_eq!(solve("(2)(3)(4)".to_string()), Ok(24));
}

#[test]
fn decimal_exactness() {
    assert_eq!(solve_decimal("0.1+0.2".to_string()), Ok(Decimal::new(3, 1)));
    // the float path, by contrast, leaves a residue
    assert!((0.1f64 + 0.2f64 - 0.3f64).abs() > 0.0);
    assert_eq!(solve_decimal("2.5+7.5".to_string()), Ok(Decimal::new(10, 0)));
    assert_eq!(solve_decimal("1.05+0.05".to_string()), Ok(Decimal::new(11, 1)));
}

#[test]
fn decimal_display_roundtrip() {
    assert_eq!(Decimal::from_str("1.2345").unwrap().to_text(), "1.2345".to_string());
    assert_eq!(Decimal::from_str("10.25").unwrap().to_text(), "10.25".to_string());
    assert_eq!(Decimal::from_str("7").unwrap().to_text(), "7".to_string());
    // fractional leading zeros survive the round trip
    assert_eq!(Decimal::from_str("1.05").unwrap().to_text(), "1.05".to_string());
    assert_eq!(Decimal::from_str("10.01").unwrap().to_text(), "10.01".to_string());
    assert_eq!(Decimal::from_str("0.005").unwrap().to_text(), "0.005".to_string());
    // negatives carry one sign, in front
    assert_eq!(Decimal::from_str("-0.1").unwrap().to_text(), "-0.1".to_string());
    assert_eq!(Decimal::from_str("-12.05").unwrap().to_text(), "-12.05".to_string());
    assert_eq!(Decimal::from_str("-7").unwrap().to_text(), "-7".to_string());
}

#[test]
fn decimal_rejects() {
    assert!(Decimal::from_str("1.2.3").is_err());
    assert!(Decimal::from_str("").is_err());
    assert!(Decimal::from_str(".").is_err());
    assert!(Decimal::from_str("1x").is_err());
    assert_eq!(Decimal::from_str("-0.1"), Ok(Decimal::new(-1, 1)));
    assert_eq!(Decimal::from_str(".5"), Ok(Decimal::new(5, 1)));
}

#[test]
fn error_variants() {
    assert_eq!(
        solve("".to_string()),
        Err(Error::ParseError(ParseError::EmptyError))
    );
    assert_eq!(
        solve("1@2".to_string()),
        Err(Error::ParseError(ParseError::UnexpectedTokenError(1, '@')))
    );
    assert_eq!(
        solve("0.5".to_string()),
        Err(Error::ParseError(ParseError::ValueError(
            "0.5".to_string(),
            "usize".to_string()
        )))
    );
    assert_eq!(
        solve("(1+2".to_string()),
        Err(Error::ParseError(ParseError::UnbalancedBracketsError))
    );
    assert_eq!(
        solve("2 3".to_string()),
        Err(Error::ParseError(ParseError::MalformedExpressionError))
    );
    assert_eq!(
        solve("x".to_string()),
        Err(Error::EvalError(EvalError::VariableNotFound("x".to_string())))
    );
    assert_eq!(
        solve("4-11".to_string()),
        Err(Error::EvalError(EvalError::NumericFailure))
    );
    assert_eq!(
        solve("7/0".to_string()),
        Err(Error::EvalError(EvalError::NumericFailure))
    );
    assert_eq!(
        solve_decimal("2*3".to_string()),
        Err(Error::EvalError(EvalError::NumericFailure))
    );
}

#[test]
fn power_and_domains() {
    assert_eq!(solve("2^10".to_string()), Ok(1024));
    assert_eq!(solve("2^0".to_string()), Ok(1));
    assert_eq!(solve("0^0".to_string()), Ok(1));
    assert_eq!(solve_with::<u8>("2+3".to_string()), Ok(5));
    assert_eq!(
        solve_with::<u8>("200+100".to_string()),
        Err(Error::EvalError(EvalError::NumericFailure))
    );
    assert_eq!(solve_with::<u16>("300*2".to_string()), Ok(600));
    assert_eq!(solve_with::<u32>("65536*2".to_string()), Ok(131072));
    assert_eq!(
        solve_with::<u8>("2^9".to_string()),
        Err(Error::EvalError(EvalError::NumericFailure))
    );
}

#[test]
fn variable_rebinding() {
    let mut vars: Variables<usize> = Variables::new();
    vars.insert("a".to_string(), 1);
    vars.insert("a".to_string(), 2);
    assert_eq!(solve_vars("a".to_string(), &vars), Ok(2));
    assert_eq!(
        solve_vars("b".to_string(), &vars),
        Err(Error::EvalError(EvalError::VariableNotFound("b".to_string())))
    );
}

#[test]
fn nested_brackets() {
    assert_eq!(solve("((1+2))".to_string()), Ok(3));
    assert_eq!(solve("((2+3)*4)".to_string()), Ok(20));
    assert_eq!(solve("(3)".to_string()), Ok(3));
    assert_eq!(solve("((4))".to_string()), Ok(4));
    assert_eq!(
        solve("1+2)".to_string()),
        Err(Error::ParseError(ParseError::UnbalancedBracketsError))
    );
}

#[test]
fn quoted_names() {
    assert_eq!(
        tokenize::<usize>("\"ab\"".to_string()),
        Ok(vec![Token::Variable("ab".to_string())])
    );
    // a quote left open still closes the name at the end of the input
    assert_eq!(
        tokenize::<usize>("\"ab".to_string()),
        Ok(vec![Token::Variable("ab".to_string())])
    );
    assert_eq!(
        tokenize::<usize>("\"a1\"".to_string()),
        Err(ParseError::UnexpectedTokenError(2, '"'))
    );
}

#[test]
fn decimal_variables() {
    let mut vars: Variables<Decimal> = Variables::new();
    vars.insert("a".to_string(), Decimal::new(15, 1));
    assert_eq!(
        solve_decimal_vars("a+0.5".to_string(), &vars),
        Ok(Decimal::new(2, 0))
    );
}

#[test]
fn decimal_literal_rejected() {
    assert_eq!(
        solve_decimal("1..2".to_string()),
        Err(Error::ParseError(ParseError::ValueError(
            "1..2".to_string(),
            "decimal".to_string()
        )))
    );
}
