use calcy::eval::Variables;
use calcy::{solve, solve_vars};

#[test]
fn basic_solving() {
    solve("2+2".to_string()).unwrap();
    let mut vars: Variables<usize> = Variables::new();
    vars.insert("a".to_string(), 1);
    solve_vars("2+a".to_string(), &vars).unwrap();
}
