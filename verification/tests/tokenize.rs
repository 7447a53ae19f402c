use calcy::parse::tokenize;
use calcy::parse::Token::{AddSymbol, MulSymbol, Value, Variable};

#[test]
fn tokenize_simple_tokenization() {
    assert_eq!(
        tokenize::<usize>("2+2".to_string()),
        Ok(vec![Value(2), AddSymbol, Value(2)])
    );
    assert_eq!(tokenize::<usize>("a".to_string()), Ok(vec![Variable("a".to_string())]));
    assert_eq!(
        tokenize::<usize>("ab".to_string()),
        Ok(vec![Variable("a".to_string()), MulSymbol, Variable("b".to_string())])
    );
    assert_eq!(
        tokenize::<usize>("\"abc\"\"bcd\"".to_string()),
        Ok(vec![Variable("abc".to_string()), MulSymbol, Variable("bcd".to_string())])
    );
    assert_eq!(
        tokenize::<usize>("\"ab\"+\"bc\"".to_string()),
        Ok(vec![Variable("ab".to_string()), AddSymbol, Variable("bc".to_string())])
    );
}
