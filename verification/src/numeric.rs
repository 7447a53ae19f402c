//! The numeric contract of the expression engine: a value type usable by the
//! evaluator must be parseable from a literal text and must offer the five
//! binary operations, each allowed to refuse an operand pair (overflow,
//! division by zero, or an operation the type does not carry).
use vstd::arithmetic::power::{lemma1_pow, lemma_pow0, lemma_pow_increases, pow};
use vstd::prelude::*;

verus! {

/// The five binary operators of the expression language.
#[derive(Clone, Copy, Debug, PartialEq, Eq)]
pub enum BinOp {
    Add,
    Sub,
    Mul,
    Div,
    Pow,
}

/// A numeric domain for the expression engine.
///
/// Each operation returns `None` where the domain cannot produce a result:
/// a sum that overflows the carrier, a division by zero, or an operation the
/// domain leaves unimplemented. The spec functions pin the exec methods down
/// exactly, so the generic evaluator is verified once for every domain.
pub trait Numeric: Sized + Copy {
    /// What a literal text denotes in this domain, if anything.
    spec fn spec_from_literal(s: Seq<char>) -> Option<Self>;

    /// What a binary operation yields, if anything.
    spec fn spec_apply(self, op: BinOp, rhs: Self) -> Option<Self>;

    /// The short name of the domain, used in parse errors.
    spec fn spec_type_label() -> Seq<char>;

    /// Parses a literal text of this domain.
    fn from_literal(s: &str) -> (r: Option<Self>)
        ensures
            r == Self::spec_from_literal(s@),
    ;

    /// Applies a binary operation.
    fn apply_op(self, op: BinOp, rhs: Self) -> (r: Option<Self>)
        ensures
            r == self.spec_apply(op, rhs),
    ;

    /// The short name of the domain.
    fn type_label() -> (r: String)
        ensures
            r@ == Self::spec_type_label(),
    ;
}

/// Whether `c` is a decimal digit.
pub open spec fn is_digit_char(c: char) -> bool {
    48 <= c as u32 <= 57
}

/// The numeric value of a digit character.
pub open spec fn digit_char_val(c: char) -> int {
    c as u32 - 48
}

/// Whether every character of `s` is a decimal digit.
pub open spec fn all_digit_chars(s: Seq<char>) -> bool {
    forall|i: int| 0 <= i < s.len() ==> is_digit_char(#[trigger] s[i])
}

/// The number denoted by a digit string, most significant digit first.
pub open spec fn digits_value(s: Seq<char>) -> int
    decreases s.len(),
{
    if s.len() == 0 {
        0
    } else {
        10 * digits_value(s.drop_last()) + digit_char_val(s.last())
    }
}

/// What an unsigned-literal parse yields over a carrier whose largest value
/// is `max`: the denoted number, unless the text is empty, holds a non-digit,
/// or denotes a number beyond `max`.
pub open spec fn spec_uint_literal(s: Seq<char>, max: int) -> Option<int> {
    if s.len() > 0 && all_digit_chars(s) && digits_value(s) <= max {
        Some(digits_value(s))
    } else {
        None
    }
}

pub proof fn lemma_digits_value_nonneg(s: Seq<char>)
    requires
        all_digit_chars(s),
    ensures
        digits_value(s) >= 0,
    decreases s.len(),
{
    if s.len() > 0 {
        assert forall|i: int| 0 <= i < s.drop_last().len() implies is_digit_char(
            #[trigger] s.drop_last()[i],
        ) by {
            assert(s.drop_last()[i] == s[i]);
        }
        lemma_digits_value_nonneg(s.drop_last());
        assert(is_digit_char(s.last()));
    }
}

/// The number denoted by a digit string is no less than the number denoted by
/// any of its prefixes.
pub proof fn lemma_digits_value_prefix_le(s: Seq<char>, i: int)
    requires
        all_digit_chars(s),
        0 <= i <= s.len(),
    ensures
        digits_value(s.subrange(0, i)) <= digits_value(s),
    decreases s.len() - i,
{
    if i == s.len() {
        assert(s.subrange(0, i) =~= s);
    } else {
        let p = s.subrange(0, i);
        let q = s.subrange(0, i + 1);
        assert(q.drop_last() =~= p);
        assert(q.last() == s[i]);
        assert forall|j: int| 0 <= j < p.len() implies is_digit_char(#[trigger] p[j]) by {
            assert(p[j] == s[j]);
        }
        lemma_digits_value_nonneg(p);
        assert(digits_value(q) == 10 * digits_value(p) + digit_char_val(s[i]));
        lemma_digits_value_prefix_le(s, i + 1);
    }
}

/// Reads an unsigned number from a text of decimal digits, refusing any other
/// text and any number that does not fit the carrier.
pub fn parse_digits(s: &str) -> (r: Option<u128>)
    ensures
        match r {
            Some(u) => spec_uint_literal(s@, u128::MAX as int) == Some(u as int),
            None => spec_uint_literal(s@, u128::MAX as int) is None,
        },
{
    let n = s.unicode_len();
    if n == 0 {
        return None;
    }
    let mut acc: u128 = 0;
    let mut i: usize = 0;
    while i < n
        invariant
            0 < n == s@.len(),
            i <= n,
            forall|j: int| 0 <= j < i ==> is_digit_char(#[trigger] s@[j]),
            acc == digits_value(s@.subrange(0, i as int)),
        decreases n - i,
    {
        let c = s.get_char(i);
        let cv = c as u32;
        if cv < 48 || cv > 57 {
            assert(!is_digit_char(s@[i as int]));
            return None;
        }
        let d: u128 = (cv - 48) as u128;
        let ghost pre = s@.subrange(0, i as int);
        let ghost cur = s@.subrange(0, i as int + 1);
        proof {
            assert(cur.drop_last() =~= pre);
            assert(cur.last() == s@[i as int]);
            assert forall|j: int| 0 <= j < cur.len() implies is_digit_char(#[trigger] cur[j]) by {
                assert(cur[j] == s@[j]);
            }
        }
        let step = match acc.checked_mul(10) {
            Some(v) => v.checked_add(d),
            None => None,
        };
        match step {
            Some(v) => {
                assert(v == digits_value(cur));
                acc = v;
            },
            None => {
                proof {
                    assert(digits_value(cur) > u128::MAX);
                    if all_digit_chars(s@) {
                        lemma_digits_value_prefix_le(s@, i as int + 1);
                    }
                }
                return None;
            },
        }
        i += 1;
    }
    proof {
        assert(s@.subrange(0, n as int) =~= s@);
    }
    Some(acc)
}

/// Raises `base` to `exp`, refusing any power beyond `cap`.
pub fn pow_capped(base: u128, exp: u128, cap: u128) -> (r: Option<u128>)
    ensures
        match r {
            Some(u) => u == pow(base as int, exp as nat) && u <= cap,
            None => pow(base as int, exp as nat) > cap,
        },
{
    if exp == 0 {
        proof {
            lemma_pow0(base as int);
        }
        if cap >= 1 {
            return Some(1);
        } else {
            return None;
        }
    }
    if base == 0 {
        assert(pow(0, exp as nat) == 0) by {
            reveal(pow);
            lemma_pow0(0);
        }
        return Some(0);
    }
    if base == 1 {
        proof {
            lemma1_pow(exp as nat);
        }
        if cap >= 1 {
            return Some(1);
        } else {
            return None;
        }
    }
    if cap == 0 {
        proof {
            assert(pow(base as int, 1nat) == base) by {
                reveal(pow);
                lemma_pow0(base as int);
            }
            lemma_pow_increases(base as nat, 1nat, exp as nat);
        }
        return None;
    }
    let mut acc: u128 = 1;
    let mut i: u128 = 0;
    proof {
        lemma_pow0(base as int);
    }
    while i < exp
        invariant
            2 <= base,
            i <= exp,
            acc == pow(base as int, i as nat),
            acc <= cap,
        decreases exp - i,
    {
        let ghost next_pow = pow(base as int, (i + 1) as nat);
        proof {
            assert(next_pow == base * pow(base as int, i as nat)) by {
                reveal(pow);
            }
            lemma_pow_increases(base as nat, (i + 1) as nat, exp as nat);
        }
        match acc.checked_mul(base) {
            Some(v) => {
                if v > cap {
                    return None;
                }
                acc = v;
            },
            None => {
                return None;
            },
        }
        i = i + 1;
    }
    Some(acc)
}

/// What a binary operation yields on an unsigned carrier whose largest value
/// is `max`: the exact result, unless it falls outside `0..=max` or divides
/// by zero.
pub open spec fn spec_uint_apply(a: int, op: BinOp, b: int, max: int) -> Option<int> {
    match op {
        BinOp::Add => if a + b <= max {
            Some(a + b)
        } else {
            None
        },
        BinOp::Sub => if a - b >= 0 {
            Some(a - b)
        } else {
            None
        },
        BinOp::Mul => if a * b <= max {
            Some(a * b)
        } else {
            None
        },
        BinOp::Div => if b == 0 {
            None
        } else {
            Some(a / b)
        },
        BinOp::Pow => if pow(a, b as nat) <= max {
            Some(pow(a, b as nat))
        } else {
            None
        },
    }
}

impl Numeric for u8 {
    open spec fn spec_from_literal(s: Seq<char>) -> Option<u8> {
        match spec_uint_literal(s, u8::MAX as int) {
            Some(v) => Some(v as u8),
            None => None,
        }
    }

    open spec fn spec_apply(self, op: BinOp, rhs: u8) -> Option<u8> {
        match spec_uint_apply(self as int, op, rhs as int, u8::MAX as int) {
            Some(v) => Some(v as u8),
            None => None,
        }
    }

    open spec fn spec_type_label() -> Seq<char> {
        "u8"@
    }

    fn from_literal(s: &str) -> (r: Option<u8>) {
        match parse_digits(s) {
            Some(v) => if v <= u8::MAX as u128 {
                Some(v as u8)
            } else {
                None
            },
            None => None,
        }
    }

    fn apply_op(self, op: BinOp, rhs: u8) -> (r: Option<u8>) {
        match op {
            BinOp::Add => self.checked_add(rhs),
            BinOp::Sub => self.checked_sub(rhs),
            BinOp::Mul => self.checked_mul(rhs),
            BinOp::Div => self.checked_div(rhs),
            BinOp::Pow => match pow_capped(self as u128, rhs as u128, u8::MAX as u128) {
                Some(v) => Some(v as u8),
                None => None,
            },
        }
    }

    fn type_label() -> (r: String) {
        String::from_str("u8")
    }
}

impl Numeric for u16 {
    open spec fn spec_from_literal(s: Seq<char>) -> Option<u16> {
        match spec_uint_literal(s, u16::MAX as int) {
            Some(v) => Some(v as u16),
            None => None,
        }
    }

    open spec fn spec_apply(self, op: BinOp, rhs: u16) -> Option<u16> {
        match spec_uint_apply(self as int, op, rhs as int, u16::MAX as int) {
            Some(v) => Some(v as u16),
            None => None,
        }
    }

    open spec fn spec_type_label() -> Seq<char> {
        "u16"@
    }

    fn from_literal(s: &str) -> (r: Option<u16>) {
        match parse_digits(s) {
            Some(v) => if v <= u16::MAX as u128 {
                Some(v as u16)
            } else {
                None
            },
            None => None,
        }
    }

    fn apply_op(self, op: BinOp, rhs: u16) -> (r: Option<u16>) {
        match op {
            BinOp::Add => self.checked_add(rhs),
            BinOp::Sub => self.checked_sub(rhs),
            BinOp::Mul => self.checked_mul(rhs),
            BinOp::Div => self.checked_div(rhs),
            BinOp::Pow => match pow_capped(self as u128, rhs as u128, u16::MAX as u128) {
                Some(v) => Some(v as u16),
                None => None,
            },
        }
    }

    fn type_label() -> (r: String) {
        String::from_str("u16")
    }
}

impl Numeric for u32 {
    open spec fn spec_from_literal(s: Seq<char>) -> Option<u32> {
        match spec_uint_literal(s, u32::MAX as int) {
            Some(v) => Some(v as u32),
            None => None,
        }
    }

    open spec fn spec_apply(self, op: BinOp, rhs: u32) -> Option<u32> {
        match spec_uint_apply(self as int, op, rhs as int, u32::MAX as int) {
            Some(v) => Some(v as u32),
            None => None,
        }
    }

    open spec fn spec_type_label() -> Seq<char> {
        "u32"@
    }

    fn from_literal(s: &str) -> (r: Option<u32>) {
        match parse_digits(s) {
            Some(v) => if v <= u32::MAX as u128 {
                Some(v as u32)
            } else {
                None
            },
            None => None,
        }
    }

    fn apply_op(self, op: BinOp, rhs: u32) -> (r: Option<u32>) {
        match op {
            BinOp::Add => self.checked_add(rhs),
            BinOp::Sub => self.checked_sub(rhs),
            BinOp::Mul => self.checked_mul(rhs),
            BinOp::Div => self.checked_div(rhs),
            BinOp::Pow => match pow_capped(self as u128, rhs as u128, u32::MAX as u128) {
                Some(v) => Some(v as u32),
                None => None,
            },
        }
    }

    fn type_label() -> (r: String) {
        String::from_str("u32")
    }
}

impl Numeric for usize {
    open spec fn spec_from_literal(s: Seq<char>) -> Option<usize> {
        match spec_uint_literal(s, usize::MAX as int) {
            Some(v) => Some(v as usize),
            None => None,
        }
    }

    open spec fn spec_apply(self, op: BinOp, rhs: usize) -> Option<usize> {
        match spec_uint_apply(self as int, op, rhs as int, usize::MAX as int) {
            Some(v) => Some(v as usize),
            None => None,
        }
    }

    open spec fn spec_type_label() -> Seq<char> {
        "usize"@
    }

    fn from_literal(s: &str) -> (r: Option<usize>) {
        match parse_digits(s) {
            Some(v) => if v <= usize::MAX as u128 {
                Some(v as usize)
            } else {
                None
            },
            None => None,
        }
    }

    fn apply_op(self, op: BinOp, rhs: usize) -> (r: Option<usize>) {
        match op {
            BinOp::Add => self.checked_add(rhs),
            BinOp::Sub => self.checked_sub(rhs),
            BinOp::Mul => self.checked_mul(rhs),
            BinOp::Div => self.checked_div(rhs),
            BinOp::Pow => match pow_capped(self as u128, rhs as u128, usize::MAX as u128) {
                Some(v) => Some(v as usize),
                None => None,
            },
        }
    }

    fn type_label() -> (r: String) {
        String::from_str("usize")
    }
}

} // verus!
