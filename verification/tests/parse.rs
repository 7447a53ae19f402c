use calcy::parse::Expr::{Mul, Variable};
use calcy::parse::{parse_string, tokenize, Expr, ParseError};

fn parse(input: String) -> Result<Expr<usize>, ParseError> {
    parse_string(tokenize::<usize>(input)?)
}

#[test]
fn parse_simple_variable_parsing() {
    assert_eq!(
        parse("ab".to_string()),
        Ok(Mul(
            Box::new(Variable("a".to_string())),
            Box::new(Variable("b".to_string()))
        ))
    );
    assert_eq!(
        parse("\"a\"\"b\"".to_string()),
        Ok(Mul(
            Box::new(Variable("a".to_string())),
            Box::new(Variable("b".to_string()))
        ))
    );
    assert_eq!(
        parse("\"a\"b".to_string()),
        Ok(Mul(
            Box::new(Variable("a".to_string())),
            Box::new(Variable("b".to_string()))
        ))
    );
    assert_eq!(
        parse("a\"b\"".to_string()),
        Ok(Mul(
            Box::new(Variable("a".to_string())),
            Box::new(Variable("b".to_string()))
        ))
    );
    assert_eq!(
        parse("\"ab\"\"cd\"".to_string()),
        Ok(Mul(
            Box::new(Variable("ab".to_string())),
            Box::new(Variable("cd".to_string()))
        ))
    );
    assert_eq!(
        parse("\"abcdefg\"h".to_string()),
        Ok(Mul(
            Box::new(Variable("abcdefg".to_string())),
            Box::new(Variable("h".to_string()))
        ))
    );
}
