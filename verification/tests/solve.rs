use calcy::decimal::Decimal;
use calcy::{solve, solve_decimal};

#[test]
fn solve_basic_addition() {
    assert_eq!(solve_decimal("5 + 3".to_string()), Ok(Decimal::new(8, 0)));
    assert_eq!(solve_decimal("12 + 9".to_string()), Ok(Decimal::new(21, 0)));
    assert_eq!(solve_decimal("18 + 6".to_string()), Ok(Decimal::new(24, 0)));
    assert_eq!(solve_decimal("27 + 13".to_string()), Ok(Decimal::new(40, 0)));
    assert_eq!(solve_decimal("4 + 11".to_string()), Ok(Decimal::new(15, 0)));
    assert_eq!(solve_decimal("20 + 30".to_string()), Ok(Decimal::new(50, 0)));
    assert_eq!(solve_decimal("8 + 16".to_string()), Ok(Decimal::new(24, 0)));
    assert_eq!(solve_decimal("25 + 2".to_string()), Ok(Decimal::new(27, 0)));
    assert_eq!(solve_decimal("7 + 14".to_string()), Ok(Decimal::new(21, 0)));
    assert_eq!(solve_decimal("10 + 22".to_string()), Ok(Decimal::new(32, 0)));
}

#[test]
fn solve_basic_subtraction() {
    assert_eq!(solve_decimal("5 - 3".to_string()), Ok(Decimal::new(2, 0)));
    assert_eq!(solve_decimal("12 - 9".to_string()), Ok(Decimal::new(3, 0)));
    assert_eq!(solve_decimal("18 - 6".to_string()), Ok(Decimal::new(12, 0)));
    assert_eq!(solve_decimal("27 - 13".to_string()), Ok(Decimal::new(14, 0)));
    assert_eq!(solve_decimal("4 - 11".to_string()), Ok(Decimal::new(-7, 0)));
    assert_eq!(solve_decimal("20 - 30".to_string()), Ok(Decimal::new(-10, 0)));
    assert_eq!(solve_decimal("8 - 16".to_string()), Ok(Decimal::new(-8, 0)));
    assert_eq!(solve_decimal("25 - 2".to_string()), Ok(Decimal::new(23, 0)));
    assert_eq!(solve_decimal("7 - 14".to_string()), Ok(Decimal::new(-7, 0)));
    assert_eq!(solve_decimal("10 - 22".to_string()), Ok(Decimal::new(-12, 0)));
}

#[test]
fn solve_basic_multiplication() {
    assert_eq!(solve("5 * 3".to_string()), Ok(15));
    assert_eq!(solve("12 * 9".to_string()), Ok(108));
    assert_eq!(solve("18 * 6".to_string()), Ok(108));
    assert_eq!(solve("27 * 13".to_string()), Ok(351));
    assert_eq!(solve("4 * 11".to_string()), Ok(44));
    assert_eq!(solve("20 * 30".to_string()), Ok(600));
    assert_eq!(solve("8 * 16".to_string()), Ok(128));
    assert_eq!(solve("25 * 2".to_string()), Ok(50));
    assert_eq!(solve("7 * 14".to_string()), Ok(98));
    assert_eq!(solve("10 * 22".to_string()), Ok(220));
}

#[test]
fn solve_basic_division() {
    assert_eq!(solve("6 / 3".to_string()), Ok(2));
    assert_eq!(solve("27 / 9".to_string()), Ok(3));
    assert_eq!(solve("18 / 6".to_string()), Ok(3));
    assert_eq!(solve("39 / 13".to_string()), Ok(3));
    assert_eq!(solve("25 / 5".to_string()), Ok(5));
    assert_eq!(solve("50 / 10".to_string()), Ok(5));
    assert_eq!(solve("8 / 2".to_string()), Ok(4));
    assert_eq!(solve("100 / 25".to_string()), Ok(4));
    assert_eq!(solve("49 / 7".to_string()), Ok(7));
    assert_eq!(solve("99 / 11".to_string()), Ok(9));
}

#[test]
fn solve_should_be_err() {
    assert!(solve("6 /".to_string()).is_err());
    assert!(solve("27*".to_string()).is_err());
    assert!(solve("18+++".to_string()).is_err());
    assert!(solve("39--12-343\u{fc}24\u{fc}234".to_string()).is_err());
    assert!(solve("25&+1".to_string()).is_err());
    assert!(solve("50--2".to_string()).is_err());
    assert!(solve("8++\u{df}".to_string()).is_err());
    assert!(solve("afk#sdmf".to_string()).is_err());
    assert!(solve("".to_string()).is_err());
}

#[test]
fn solve_edge_cases() {
    assert_eq!(solve("0*1*2*3*4*5*6*7".to_string()), Ok(0));
    assert_eq!(solve_decimal("0.5-0.5".to_string()), Ok(Decimal::new(0, 0)));
    assert_eq!(solve("100-100".to_string()), Ok(0));
    assert_eq!(solve_decimal("0.1+0.2".to_string()), Ok(Decimal::new(3, 1)));
}
