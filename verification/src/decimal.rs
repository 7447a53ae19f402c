//! The exact fixed-point decimal type: a signed integer magnitude and a
//! non-negative scale, standing for `value / 10^scale`. Addition and
//! subtraction align the two operands to one scale, combine the magnitudes,
//! and normalize the result to its minimal scale; multiplication, division
//! and exponentiation are not carried by this type and are refused.
use crate::numeric::{
    all_digit_chars, digits_value, is_digit_char, BinOp, Numeric,
};
use vstd::arithmetic::div_mod::{
    lemma_div_denominator, lemma_div_multiples_vanish, lemma_div_nonincreasing,
    lemma_div_pos_is_pos, lemma_fundamental_div_mod, lemma_mod_division_less_than_divisor,
};
use vstd::arithmetic::mul::{
    lemma_mul_inequality, lemma_mul_is_associative, lemma_mul_nonnegative,
    lemma_mul_strictly_positive,
};
use vstd::arithmetic::power::{lemma_pow_increases, lemma_pow_positive, pow};
use vstd::prelude::*;

verus! {

/// 10 raised to `e`.
pub open spec fn pow10(e: nat) -> int {
    pow(10, e)
}

/// Division rounding toward zero, as machine division of signed integers
/// does. Meaningful for positive divisors.
pub open spec fn trunc_div(a: int, b: int) -> int {
    if a >= 0 {
        a / b
    } else {
        -((-a) / b)
    }
}

/// An exact decimal number `value / 10^scale`.
#[derive(Debug, Copy, Clone, PartialEq, Eq, Structural)]
pub struct Decimal {
    pub value: i128,
    pub scale: u8,
}

/// The error of a decimal literal that cannot be read: malformed text, or a
/// magnitude or scale beyond the carrier.
#[derive(Debug, PartialEq, Eq, Structural)]
pub struct ParseDecimalError {}

pub proof fn lemma_pow10_pos(e: nat)
    ensures
        pow10(e) >= 1,
{
    lemma_pow_positive(10, e);
}

/// One unfolding of `pow10`: multiplying by one more ten.
pub proof fn lemma_pow10_step(e: nat)
    ensures
        pow10(e + 1) == pow10(e) * 10,
{
    reveal(pow);
    assert(pow(10, e + 1) == 10 * pow(10, e));
}

/// Scaling a value by a larger power of ten moves it no closer to zero.
pub proof fn lemma_scaled_bounds(v: int, j: nat, d: nat)
    requires
        j <= d,
    ensures
        v >= 0 ==> 0 <= v * pow10(j) <= v * pow10(d),
        v < 0 ==> v * pow10(d) <= v * pow10(j) <= 0,
{
    lemma_pow10_pos(j);
    lemma_pow10_pos(d);
    lemma_pow_increases(10, j, d);
    if v >= 0 {
        lemma_mul_nonnegative(v, pow10(j));
        lemma_mul_inequality(pow10(j), pow10(d), v);
    } else {
        lemma_mul_inequality(pow10(j), pow10(d), -v);
        lemma_mul_nonnegative(-v, pow10(j));
        vstd::arithmetic::mul::lemma_mul_unary_negation(v, pow10(j));
        vstd::arithmetic::mul::lemma_mul_unary_negation(v, pow10(d));
    }
}

/// Truncating division moves a value no further from zero.
pub proof fn lemma_trunc_div_bounds(a: int, b: int)
    requires
        b >= 1,
    ensures
        a >= 0 ==> 0 <= trunc_div(a, b) <= a,
        a < 0 ==> a <= trunc_div(a, b) <= 0,
{
    if a >= 0 {
        lemma_div_pos_is_pos(a, b);
        lemma_div_nonincreasing(a, b);
    } else {
        lemma_div_pos_is_pos(-a, b);
        lemma_div_nonincreasing(-a, b);
    }
}

/// Truncating division by `c` and then by `d` is truncating division by
/// `c * d`.
pub proof fn lemma_trunc_div_compose(a: int, c: int, d: int)
    requires
        c >= 1,
        d >= 1,
    ensures
        trunc_div(trunc_div(a, c), d) == trunc_div(a, c * d),
{
    lemma_mul_strictly_positive(c, d);
    if a >= 0 {
        lemma_div_pos_is_pos(a, c);
        lemma_div_denominator(a, c, d);
    } else {
        lemma_div_pos_is_pos(-a, c);
        lemma_div_denominator(-a, c, d);
        assert(trunc_div(a, c) == -((-a) / c));
        if (-a) / c == 0 {
            assert(trunc_div(trunc_div(a, c), d) == 0int / d);
            vstd::arithmetic::div_mod::lemma_div_of0(d);
            assert(((-a) / c) / d == 0int / d);
        }
    }
}

/// Multiplying a truncated quotient back by its divisor moves it no further
/// from zero than the dividend.
pub proof fn lemma_trunc_div_mul_back(a: int, b: int)
    requires
        b >= 1,
    ensures
        a >= 0 ==> 0 <= trunc_div(a, b) * b <= a,
        a < 0 ==> a <= trunc_div(a, b) * b <= 0,
{
    if a >= 0 {
        lemma_fundamental_div_mod(a, b);
        lemma_mod_division_less_than_divisor(a, b);
        lemma_div_pos_is_pos(a, b);
        lemma_mul_nonnegative(trunc_div(a, b), b);
        assert(b * (a / b) == (a / b) * b) by {
            vstd::arithmetic::mul::lemma_mul_is_commutative(b, a / b);
        }
    } else {
        lemma_fundamental_div_mod(-a, b);
        lemma_mod_division_less_than_divisor(-a, b);
        lemma_div_pos_is_pos(-a, b);
        lemma_mul_nonnegative((-a) / b, b);
        assert(b * ((-a) / b) == ((-a) / b) * b) by {
            vstd::arithmetic::mul::lemma_mul_is_commutative(b, (-a) / b);
        }
        assert(trunc_div(a, b) * b == -(((-a) / b) * b)) by {
            vstd::arithmetic::mul::lemma_mul_unary_negation((-a) / b, b);
        }
    }
}

/// Multiplies `v` by `10^d`, refusing a product outside the carrier.
fn mul_pow10_checked(v: i128, d: u8) -> (r: Option<i128>)
    ensures
        match r {
            Some(x) => x == v * pow10(d as nat) && i128::MIN <= v * pow10(d as nat)
                <= i128::MAX,
            None => !(i128::MIN <= v * pow10(d as nat) <= i128::MAX),
        },
{
    let mut x = v;
    let mut k: u8 = 0;
    proof {
        assert(pow10(0) == 1) by {
            reveal(pow);
        }
    }
    while k < d
        invariant
            k <= d,
            x == v * pow10(k as nat),
        decreases d - k,
    {
        proof {
            lemma_pow10_step(k as nat);
            lemma_mul_is_associative(v as int, pow10(k as nat), 10);
        }
        match x.checked_mul(10) {
            Some(y) => {
                x = y;
            },
            None => {
                proof {
                    lemma_scaled_bounds(v as int, (k + 1) as nat, d as nat);
                }
                return None;
            },
        }
        k += 1;
    }
    proof {
        lemma_scaled_bounds(v as int, k as nat, d as nat);
    }
    Some(x)
}

/// Divides `v` by `10^d`, truncating toward zero.
fn div_pow10(v: i128, d: u8) -> (r: i128)
    ensures
        r == trunc_div(v as int, pow10(d as nat)),
{
    let mut x = v;
    let mut k: u8 = 0;
    proof {
        assert(pow10(0) == 1) by {
            reveal(pow);
        }
        assert(trunc_div(v as int, 1) == v) by {
            vstd::arithmetic::div_mod::lemma_div_basics(v as int);
            vstd::arithmetic::div_mod::lemma_div_basics(-(v as int));
        }
    }
    while k < d
        invariant
            k <= d,
            x == trunc_div(v as int, pow10(k as nat)),
        decreases d - k,
    {
        proof {
            lemma_pow10_pos(k as nat);
            lemma_trunc_div_bounds(x as int, 10);
        }
        let q = match x.checked_div(10) {
            Some(y) => y,
            None => {
                proof {
                    assert(false);
                }
                0
            },
        };
        proof {
            assert(q == trunc_div(x as int, 10));
            lemma_pow10_step(k as nat);
            lemma_trunc_div_compose(v as int, pow10(k as nat), 10);
        }
        x = q;
        k += 1;
    }
    x
}

/// The minimally-scaled form of `value / 10^scale`: trailing zero digits of
/// the magnitude are dropped while the scale lasts, and zero itself is forced
/// to scale 0.
pub open spec fn spec_pack(v: int, s: nat) -> (int, nat)
    decreases s,
{
    if v == 0 {
        (0, 0)
    } else if s > 0 && v % 10 == 0 {
        spec_pack(v / 10, (s - 1) as nat)
    } else {
        (v, s)
    }
}

/// Packing moves the magnitude no further from zero and never grows the
/// scale.
pub proof fn lemma_pack_bounds(v: int, s: nat)
    ensures
        v >= 0 ==> 0 <= spec_pack(v, s).0 <= v,
        v < 0 ==> v <= spec_pack(v, s).0 <= 0,
        spec_pack(v, s).1 <= s,
    decreases s,
{
    if v != 0 && s > 0 && v % 10 == 0 {
        lemma_fundamental_div_mod(v, 10);
        lemma_trunc_div_bounds(v, 10);
        assert(v / 10 == trunc_div(v, 10)) by {
            if v < 0 {
                lemma_div_multiples_vanish(v / 10, 10);
                lemma_div_multiples_vanish(-(v / 10), 10);
                assert(-v == 10 * (-(v / 10)));
            }
        }
        lemma_pack_bounds(v / 10, (s - 1) as nat);
    }
}

impl Decimal {
    /// Builds the decimal `value / 10^scale`.
    pub fn new(value: i128, scale: u8) -> (r: Self)
        ensures
            r.value == value,
            r.scale == scale,
    {
        Self { value, scale }
    }

    /// Rescales to `scale` exactly: a growing scale multiplies the magnitude
    /// by the matching power of ten, a shrinking scale divides it, truncating
    /// toward zero. Shrinking is lossless only when the dropped digits are
    /// zero, which is the callers' charge.
    pub fn scale(&mut self, scale: u8)
        requires
            scale >= old(self).scale ==> i128::MIN <= old(self).value * pow10(
                (scale - old(self).scale) as nat,
            ) <= i128::MAX,
        ensures
            final(self).scale == scale,
            scale >= old(self).scale ==> final(self).value == old(self).value * pow10(
                (scale - old(self).scale) as nat,
            ),
            scale < old(self).scale ==> final(self).value == trunc_div(
                old(self).value as int,
                pow10((old(self).scale - scale) as nat),
            ),
    {
        if scale >= self.scale {
            let d = scale - self.scale;
            match mul_pow10_checked(self.value, d) {
                Some(v) => {
                    self.value = v;
                },
                None => {
                    proof {
                        assert(false);
                    }
                },
            }
        } else {
            let d = self.scale - scale;
            self.value = div_pow10(self.value, d);
        }
        self.scale = scale;
    }

    /// Normalizes to the minimal scale: divides out trailing zero digits
    /// while the scale lasts, and forces the zero value to scale 0.
    pub fn pack(&mut self)
        ensures
            ({
                let (pv, ps) = spec_pack(old(self).value as int, old(self).scale as nat);
                final(self).value == pv && final(self).scale == ps
            }),
    {
        let ghost v0 = self.value as int;
        let ghost s0 = self.scale as nat;
        if self.value == 0 {
            self.value = 0;
            self.scale = 0;
            return;
        }
        let mut v = self.value;
        let mut s = self.scale;
        loop
            invariant
                v != 0,
                spec_pack(v as int, s as nat) == spec_pack(v0, s0),
            ensures
                v != 0,
                s == 0 || v as int % 10 != 0,
                spec_pack(v as int, s as nat) == spec_pack(v0, s0),
            decreases s,
        {
            if s == 0 {
                break ;
            }
            let r = match v.checked_rem_euclid(10) {
                Some(x) => x,
                None => {
                    proof {
                        assert(false);
                    }
                    0
                },
            };
            if r != 0 {
                break ;
            }
            let q = match v.checked_div(10) {
                Some(x) => x,
                None => {
                    proof {
                        lemma_trunc_div_bounds(v as int, 10);
                    }
                    0
                },
            };
            proof {
                lemma_trunc_div_bounds(v as int, 10);
                assert(q == trunc_div(v as int, 10));
                assert(v as int / 10 == trunc_div(v as int, 10)) by {
                    if v < 0 {
                        lemma_fundamental_div_mod(v as int, 10);
                        lemma_div_multiples_vanish(v as int / 10, 10);
                        lemma_div_multiples_vanish(-(v as int / 10), 10);
                        assert(-(v as int) == 10 * (-(v as int / 10)));
                    }
                }
                lemma_fundamental_div_mod(v as int, 10);
                assert(q != 0);
            }
            v = q;
            s = s - 1;
        }
        self.value = v;
        self.scale = s;
    }
}

/// Rescales whichever of the two decimals has the smaller scale up to the
/// other's, so both share one scale. The grown magnitude must fit the
/// carrier.
pub fn scale_smallest(a: &mut Decimal, b: &mut Decimal)
    requires
        old(a).scale < old(b).scale ==> i128::MIN <= old(a).value * pow10(
            (old(b).scale - old(a).scale) as nat,
        ) <= i128::MAX,
        old(b).scale < old(a).scale ==> i128::MIN <= old(b).value * pow10(
            (old(a).scale - old(b).scale) as nat,
        ) <= i128::MAX,
    ensures
        old(a).scale == old(b).scale ==> *final(a) == *old(a) && *final(b) == *old(b),
        old(a).scale < old(b).scale ==> *final(b) == *old(b) && final(a).scale == old(b).scale
            && final(a).value == old(a).value * pow10((old(b).scale - old(a).scale) as nat),
        old(b).scale < old(a).scale ==> *final(a) == *old(a) && final(b).scale == old(a).scale
            && final(b).value == old(b).value * pow10((old(a).scale - old(b).scale) as nat),
{
    if a.scale == b.scale {
        return ;
    }
    if a.scale < b.scale {
        let t = b.scale;
        a.scale(t);
    } else {
        let t = a.scale;
        b.scale(t);
    }
}

/// The number denoted by two digit strings laid end to end: the first string
/// shifted left by the second's length, plus the second.
pub proof fn lemma_digits_value_concat(a: Seq<char>, b: Seq<char>)
    ensures
        digits_value(a + b) == digits_value(a) * pow10(b.len()) + digits_value(b),
    decreases b.len(),
{
    if b.len() == 0 {
        assert(a + b =~= a);
        assert(pow10(0) == 1) by {
            reveal(pow);
        }
    } else {
        let bp = b.drop_last();
        assert((a + b).drop_last() =~= a + bp);
        assert((a + b).last() == b.last());
        lemma_digits_value_concat(a, bp);
        lemma_pow10_step(bp.len());
        assert(10 * (digits_value(a) * pow10(bp.len())) == digits_value(a) * pow10(b.len())) by {
            lemma_mul_is_associative(10, digits_value(a), pow10(bp.len()));
            lemma_mul_is_associative(digits_value(a), 10, pow10(bp.len()));
            vstd::arithmetic::mul::lemma_mul_is_commutative(10, digits_value(a));
            vstd::arithmetic::mul::lemma_mul_is_commutative(pow10(bp.len()), 10);
        }
    }
}

/// The position of the first dot at or after `j`, if any.
pub open spec fn first_dot(s: Seq<char>, j: int) -> Option<int>
    decreases s.len() - j,
{
    if j < 0 || j >= s.len() {
        None
    } else if s[j] == '.' {
        Some(j)
    } else {
        first_dot(s, j + 1)
    }
}

/// What a decimal literal split into sign, integer part and fractional part
/// denotes: the digits laid end to end give the magnitude, the fractional
/// length gives the scale. Nothing is denoted where no digit is present, a
/// non-digit intrudes, or the signed magnitude leaves the carrier.
pub open spec fn spec_decimal_from_parts(neg: bool, ip: Seq<char>, fp: Seq<char>) -> Option<
    Decimal,
> {
    let digits = ip + fp;
    let bound: int = if neg {
        i128::MAX + 1
    } else {
        i128::MAX as int
    };
    if digits.len() > 0 && all_digit_chars(digits) && digits_value(digits) <= bound {
        Some(
            Decimal {
                value: (if neg {
                    -digits_value(digits)
                } else {
                    digits_value(digits)
                }) as i128,
                scale: fp.len() as u8,
            },
        )
    } else {
        None
    }
}

/// What a decimal literal text denotes: an optional leading minus, digits
/// with at most one dot, the count of digits after the dot becoming the
/// scale. A text with a dot longer than 255 characters is refused outright.
pub open spec fn spec_parse_decimal(s: Seq<char>) -> Option<Decimal> {
    let neg = s.len() > 0 && s[0] == '-';
    let start: int = if neg {
        1int
    } else {
        0int
    };
    match first_dot(s, start) {
        None => spec_decimal_from_parts(neg, s.subrange(start, s.len() as int), Seq::empty()),
        Some(k) => {
            if first_dot(s, k + 1) is Some || s.len() > 255 {
                None
            } else {
                spec_decimal_from_parts(
                    neg,
                    s.subrange(start, k),
                    s.subrange(k + 1, s.len() as int),
                )
            }
        },
    }
}

/// A digit string and its concatenation partner are all digits exactly when
/// the concatenation is.
pub proof fn lemma_all_digit_concat(a: Seq<char>, b: Seq<char>)
    ensures
        all_digit_chars(a + b) <==> (all_digit_chars(a) && all_digit_chars(b)),
{
    if all_digit_chars(a + b) {
        assert forall|j: int| 0 <= j < a.len() implies is_digit_char(#[trigger] a[j]) by {
            assert((a + b)[j] == a[j]);
        }
        assert forall|j: int| 0 <= j < b.len() implies is_digit_char(#[trigger] b[j]) by {
            assert((a + b)[a.len() + j] == b[j]);
        }
    }
    if all_digit_chars(a) && all_digit_chars(b) {
        assert forall|j: int| 0 <= j < (a + b).len() implies is_digit_char(
            #[trigger] (a + b)[j],
        ) by {
            if j < a.len() {
                assert((a + b)[j] == a[j]);
            } else {
                assert((a + b)[j] == b[j - a.len()]);
            }
        }
    }
}

/// Builds the decimal denoted by a sign and the two digit strings around the
/// dot, refusing any non-digit, an empty pair, or a magnitude beyond the
/// carrier.
#[verifier::rlimit(60)]
fn decimal_from_parts(neg: bool, ip: &str, fp: &str) -> (r: Option<Decimal>)
    requires
        fp@.len() <= 254,
    ensures
        r == spec_decimal_from_parts(neg, ip@, fp@),
{
    let ghost digits = ip@ + fp@;
    proof {
        lemma_digits_value_concat(ip@, fp@);
        lemma_all_digit_concat(ip@, fp@);
        lemma_pow10_pos(fp@.len());
    }
    let ip_len = ip.unicode_len();
    let fp_len = fp.unicode_len();
    if ip_len == 0 && fp_len == 0 {
        proof {
            assert(digits.len() == 0);
        }
        return None;
    }
    let ip_val: u128 = if ip_len == 0 {
        0
    } else {
        match crate::numeric::parse_digits(ip) {
            Some(v) => v,
            None => {
                proof {
                    if all_digit_chars(digits) {
                        assert(all_digit_chars(ip@));
                        assert(all_digit_chars(fp@));
                        crate::numeric::lemma_digits_value_nonneg(ip@);
                        crate::numeric::lemma_digits_value_nonneg(fp@);
                        assert(digits_value(ip@) > u128::MAX as int);
                        lemma_mul_inequality(1, pow10(fp@.len()), digits_value(ip@));
                        assert(digits_value(ip@) * pow10(fp@.len()) >= digits_value(ip@));
                        assert(digits_value(digits) > u128::MAX as int);
                        assert(spec_decimal_from_parts(neg, ip@, fp@) is None);
                    } else {
                        assert(spec_decimal_from_parts(neg, ip@, fp@) is None);
                    }
                }
                return None;
            },
        }
    };
    let fp_val: u128 = if fp_len == 0 {
        0
    } else {
        match crate::numeric::parse_digits(fp) {
            Some(v) => v,
            None => {
                proof {
                    if all_digit_chars(digits) {
                        crate::numeric::lemma_digits_value_nonneg(ip@);
                        lemma_mul_nonnegative(digits_value(ip@), pow10(fp@.len()));
                    }
                }
                return None;
            },
        }
    };
    proof {
        assert(digits_value(ip@) == ip_val as int);
        assert(digits_value(fp@) == fp_val as int);
        assert(all_digit_chars(digits));
        assert(digits.len() > 0);
    }
    let mag_opt: Option<u128> = if ip_val == 0 {
        Some(fp_val)
    } else {
        match crate::numeric::pow_capped(10, fp_len as u128, u128::MAX) {
            None => None,
            Some(p) => {
                proof {
                    assert((fp_len as u128) as nat == fp@.len());
                    assert(p as int == pow10(fp@.len()));
                }
                match ip_val.checked_mul(p) {
                    None => None,
                    Some(x) => {
                        proof {
                            assert(x as int == digits_value(ip@) * pow10(fp@.len()));
                        }
                        x.checked_add(fp_val)
                    },
                }
            },
        }
    };
    let mag: u128 = match mag_opt {
        Some(m) => m,
        None => {
            proof {
                lemma_mul_inequality(1, digits_value(ip@), pow10(fp@.len()));
            }
            return None;
        },
    };
    proof {
        assert(digits_value(digits) == digits_value(ip@) * pow10(fp@.len()) + digits_value(
            fp@,
        ));
        if ip_val == 0 {
            assert(digits_value(ip@) * pow10(fp@.len()) == 0int) by {
                vstd::arithmetic::mul::lemma_mul_by_zero_is_zero(pow10(fp@.len()));
            }
            assert(mag == fp_val);
        }
        assert(digits_value(digits) == mag as int);
    }
    let limit: u128 = if neg {
        (i128::MAX as u128) + 1
    } else {
        i128::MAX as u128
    };
    if mag > limit {
        return None;
    }
    let value: i128 = if neg {
        if mag == (i128::MAX as u128) + 1 {
            i128::MIN
        } else {
            -(mag as i128)
        }
    } else {
        mag as i128
    };
    let scale_v: u8 = fp_len as u8;
    Some(Decimal { value, scale: scale_v })
}

impl Decimal {
    /// Reads a decimal literal: an optional leading `-`, decimal digits with
    /// at most one `.`; the digit count after the dot becomes the scale, and
    /// the digits with the dot removed become the magnitude. The text is
    /// refused where it holds no digit, any other character, a second dot,
    /// or a magnitude or scale beyond the carrier.
    pub fn parse_text(s: &str) -> (r: Result<Decimal, ParseDecimalError>)
        ensures
            match r {
                Ok(d) => spec_parse_decimal(s@) == Some(d),
                Err(_) => spec_parse_decimal(s@) is None,
            },
    {
        let n = s.unicode_len();
        let neg = n > 0 && s.get_char(0) == '-';
        let start: usize = if neg {
            1
        } else {
            0
        };
        let mut i: usize = start;
        let mut has_dot = false;
        let mut dot_idx: usize = 0;
        while i < n
            invariant
                n == s@.len(),
                start <= i <= n,
                start <= 1,
                !has_dot ==> first_dot(s@, start as int) == first_dot(s@, i as int),
                has_dot ==> first_dot(s@, start as int) == Some(dot_idx as int) && start
                    <= dot_idx < i && first_dot(s@, dot_idx as int + 1) == first_dot(
                    s@,
                    i as int,
                ),
            decreases n - i,
        {
            let c = s.get_char(i);
            if c == '.' {
                if has_dot {
                    return Err(ParseDecimalError {  });
                }
                has_dot = true;
                dot_idx = i;
            }
            i += 1;
        }
        proof {
            assert(first_dot(s@, n as int) is None);
        }
        if has_dot && n > 255 {
            return Err(ParseDecimalError {  });
        }
        let end_ip = if has_dot {
            dot_idx
        } else {
            n
        };
        let ip = s.substring_char(start, end_ip);
        let fp = if has_dot {
            s.substring_char(dot_idx + 1, n)
        } else {
            s.substring_char(n, n)
        };
        proof {
            if !has_dot {
                assert(fp@ =~= Seq::<char>::empty());
            }
        }
        match decimal_from_parts(neg, ip, fp) {
            Some(d) => Ok(d),
            None => Err(ParseDecimalError {  }),
        }
    }
}

/// Whether two decimals can be brought to one scale inside the carrier.
pub open spec fn spec_align_ok(a: Decimal, b: Decimal) -> bool {
    if a.scale < b.scale {
        i128::MIN <= a.value * pow10((b.scale - a.scale) as nat) <= i128::MAX
    } else if b.scale < a.scale {
        i128::MIN <= b.value * pow10((a.scale - b.scale) as nat) <= i128::MAX
    } else {
        true
    }
}

/// The left magnitude after alignment.
pub open spec fn spec_aligned_lhs(a: Decimal, b: Decimal) -> int {
    if a.scale < b.scale {
        a.value * pow10((b.scale - a.scale) as nat)
    } else {
        a.value as int
    }
}

/// The right magnitude after alignment.
pub open spec fn spec_aligned_rhs(a: Decimal, b: Decimal) -> int {
    if b.scale < a.scale {
        b.value * pow10((a.scale - b.scale) as nat)
    } else {
        b.value as int
    }
}

/// The common scale after alignment: the larger of the two.
pub open spec fn spec_common_scale(a: Decimal, b: Decimal) -> nat {
    if a.scale < b.scale {
        b.scale as nat
    } else {
        a.scale as nat
    }
}

/// The decimal holding `v / 10^s` in minimal scale.
pub open spec fn spec_packed(v: int, s: nat) -> Decimal {
    let (pv, ps) = spec_pack(v, s);
    Decimal { value: pv as i128, scale: ps as u8 }
}

/// What decimal addition yields: align, add the magnitudes, pack; nothing
/// where an aligned magnitude or the sum leaves the carrier.
pub open spec fn spec_dec_add(a: Decimal, b: Decimal) -> Option<Decimal> {
    if !spec_align_ok(a, b) {
        None
    } else {
        let sum = spec_aligned_lhs(a, b) + spec_aligned_rhs(a, b);
        if i128::MIN <= sum <= i128::MAX {
            Some(spec_packed(sum, spec_common_scale(a, b)))
        } else {
            None
        }
    }
}

/// What decimal subtraction yields: align, subtract the magnitudes, pack;
/// nothing where an aligned magnitude or the difference leaves the carrier.
pub open spec fn spec_dec_sub(a: Decimal, b: Decimal) -> Option<Decimal> {
    if !spec_align_ok(a, b) {
        None
    } else {
        let diff = spec_aligned_lhs(a, b) - spec_aligned_rhs(a, b);
        if i128::MIN <= diff <= i128::MAX {
            Some(spec_packed(diff, spec_common_scale(a, b)))
        } else {
            None
        }
    }
}

impl Decimal {
    /// Adds two decimals exactly: aligns both to the larger scale, adds the
    /// magnitudes, and packs the result to its minimal scale.
    pub fn try_add(self, rhs: Decimal) -> (r: Option<Decimal>)
        ensures
            r == spec_dec_add(self, rhs),
    {
        let mut a = self;
        let mut b = rhs;
        if a.scale < b.scale {
            match mul_pow10_checked(a.value, b.scale - a.scale) {
                Some(v) => {
                    a = Decimal { value: v, scale: b.scale };
                },
                None => {
                    return None;
                },
            }
        } else if b.scale < a.scale {
            match mul_pow10_checked(b.value, a.scale - b.scale) {
                Some(v) => {
                    b = Decimal { value: v, scale: a.scale };
                },
                None => {
                    return None;
                },
            }
        }
        match a.value.checked_add(b.value) {
            Some(sum) => {
                let mut out = Decimal { value: sum, scale: a.scale };
                proof {
                    lemma_pack_bounds(sum as int, a.scale as nat);
                }
                out.pack();
                Some(out)
            },
            None => None,
        }
    }

    /// Subtracts two decimals exactly: aligns both to the larger scale,
    /// subtracts the magnitudes, and packs the result to its minimal scale.
    pub fn try_sub(self, rhs: Decimal) -> (r: Option<Decimal>)
        ensures
            r == spec_dec_sub(self, rhs),
    {
        let mut a = self;
        let mut b = rhs;
        if a.scale < b.scale {
            match mul_pow10_checked(a.value, b.scale - a.scale) {
                Some(v) => {
                    a = Decimal { value: v, scale: b.scale };
                },
                None => {
                    return None;
                },
            }
        } else if b.scale < a.scale {
            match mul_pow10_checked(b.value, a.scale - b.scale) {
                Some(v) => {
                    b = Decimal { value: v, scale: a.scale };
                },
                None => {
                    return None;
                },
            }
        }
        match a.value.checked_sub(b.value) {
            Some(diff) => {
                let mut out = Decimal { value: diff, scale: a.scale };
                proof {
                    lemma_pack_bounds(diff as int, a.scale as nat);
                }
                out.pack();
                Some(out)
            },
            None => None,
        }
    }
}

impl Numeric for Decimal {
    open spec fn spec_from_literal(s: Seq<char>) -> Option<Decimal> {
        spec_parse_decimal(s)
    }

    open spec fn spec_apply(self, op: BinOp, rhs: Decimal) -> Option<Decimal> {
        match op {
            BinOp::Add => spec_dec_add(self, rhs),
            BinOp::Sub => spec_dec_sub(self, rhs),
            BinOp::Mul => None,
            BinOp::Div => None,
            BinOp::Pow => None,
        }
    }

    open spec fn spec_type_label() -> Seq<char> {
        "decimal"@
    }

    fn from_literal(s: &str) -> (r: Option<Decimal>) {
        match Decimal::parse_text(s) {
            Ok(d) => Some(d),
            Err(_) => None,
        }
    }

    fn apply_op(self, op: BinOp, rhs: Decimal) -> (r: Option<Decimal>) {
        match op {
            BinOp::Add => self.try_add(rhs),
            BinOp::Sub => self.try_sub(rhs),
            BinOp::Mul => None,
            BinOp::Div => None,
            BinOp::Pow => None,
        }
    }

    fn type_label() -> (r: String) {
        String::from_str("decimal")
    }
}

impl core::str::FromStr for Decimal {
    type Err = ParseDecimalError;

    fn from_str(s: &str) -> Result<Decimal, ParseDecimalError> {
        Decimal::parse_text(s)
    }
}

/// The character of one decimal digit.
pub open spec fn spec_digit_char(d: int) -> char {
    ((d + 48) as u8) as char
}

/// The digit string of a non-negative number, most significant digit first;
/// zero is the single digit `0`.
pub open spec fn spec_digits_seq(v: int) -> Seq<char>
    decreases v,
{
    if v < 10 {
        seq![spec_digit_char(v)]
    } else {
        spec_digits_seq(v / 10).push(spec_digit_char(v % 10))
    }
}

/// The rendering of a signed number: a minus sign before the digit string of
/// the magnitude.
pub open spec fn spec_render_int(v: int) -> Seq<char> {
    if v < 0 {
        seq!['-'] + spec_digits_seq(-v)
    } else {
        spec_digits_seq(v)
    }
}

/// The lowest `width` digits of a non-negative number, zero-padded on the
/// left to exactly `width` characters.
pub open spec fn spec_padded_digits(v: int, width: nat) -> Seq<char>
    decreases width,
{
    if width == 0 {
        Seq::empty()
    } else {
        spec_padded_digits(v / 10, (width - 1) as nat).push(spec_digit_char(v % 10))
    }
}

/// The rendering of a decimal: the sign in front, then the magnitude's
/// integer digits, and at a positive scale a dot and the fractional
/// remainder zero-padded to the scale's digit count, so no digit is lost.
pub open spec fn spec_display(d: Decimal) -> Seq<char> {
    let p = pow10(d.scale as nat);
    let m: int = if d.value < 0 {
        -(d.value as int)
    } else {
        d.value as int
    };
    let sign: Seq<char> = if d.value < 0 {
        seq!['-']
    } else {
        Seq::empty()
    };
    if d.scale == 0 {
        sign + spec_digits_seq(m)
    } else {
        sign + spec_digits_seq(m / p) + seq!['.'] + spec_padded_digits(m % p, d.scale as nat)
    }
}

/// Relies on String::push: appends exactly the one character to the string.
#[verifier::external_body]
fn push_char(s: &mut String, c: char)
    ensures
        final(s)@ == old(s)@.push(c),
{
    s.push(c);
}

/// Builds the string holding exactly the given characters.
fn chars_to_string(v: &Vec<char>) -> (r: String)
    ensures
        r@ == v@,
{
    let mut out = String::new();
    proof {
        assert(out@ =~= v@.subrange(0, 0));
    }
    let mut i: usize = 0;
    while i < v.len()
        invariant
            i <= v@.len(),
            out@ == v@.subrange(0, i as int),
        decreases v@.len() - i,
    {
        push_char(&mut out, v[i]);
        proof {
            assert(v@.subrange(0, i as int + 1) =~= v@.subrange(0, i as int).push(
                v@[i as int],
            ));
        }
        i += 1;
    }
    proof {
        assert(v@.subrange(0, v@.len() as int) =~= v@);
    }
    out
}

/// The magnitude of a signed value, as an unsigned value.
fn abs_u128(v: i128) -> (r: u128)
    ensures
        v >= 0 ==> r == v,
        v < 0 ==> r as int == -(v as int),
{
    if v >= 0 {
        v as u128
    } else if v == i128::MIN {
        170141183460469231731687303715884105728u128
    } else {
        (-v) as u128
    }
}

/// Renders a non-negative number as its decimal digits.
fn render_digits(m: u128) -> (r: String)
    ensures
        r@ == spec_digits_seq(m as int),
{
    let mut digits: Vec<char> = Vec::new();
    if m == 0 {
        digits.push('0');
        proof {
            assert(spec_digit_char(0) == '0');
            assert(spec_digits_seq(0) =~= digits@);
        }
    } else {
        let mut x = m;
        proof {
            assert(spec_digits_seq(m as int) =~= spec_digits_seq(m as int) + digits@);
        }
        while x > 0
            invariant
                x > 0 ==> spec_digits_seq(m as int) == spec_digits_seq(x as int) + digits@,
                x == 0 ==> spec_digits_seq(m as int) == digits@,
            decreases x,
        {
            let ghost x0 = x as int;
            let ghost tail0 = digits@;
            let d = x % 10;
            let c = ((d as u8) + 48) as char;
            digits.insert(0, c);
            x = x / 10;
            proof {
                assert(c == spec_digit_char(x0 % 10));
                assert(digits@ =~= seq![c] + tail0);
                if x0 < 10 {
                    assert(spec_digits_seq(x0) =~= seq![c]);
                    assert(spec_digits_seq(x0) + tail0 =~= seq![c] + tail0);
                } else {
                    assert(spec_digits_seq(x0) == spec_digits_seq(x0 / 10).push(c));
                    assert(spec_digits_seq(x0 / 10).push(c) + tail0 =~= spec_digits_seq(
                        x0 / 10,
                    ) + (seq![c] + tail0));
                }
            }
        }
    }
    chars_to_string(&digits)
}

/// Renders a non-negative number as exactly `width` digits, zero-padded on
/// the left.
fn render_padded_digits(m: u128, width: u8) -> (r: String)
    ensures
        r@ == spec_padded_digits(m as int, width as nat),
{
    let mut digits: Vec<char> = Vec::new();
    let mut x = m;
    let mut k: u8 = 0;
    proof {
        assert(spec_padded_digits(m as int, width as nat) =~= spec_padded_digits(
            m as int,
            width as nat,
        ) + digits@);
    }
    while k < width
        invariant
            k <= width,
            spec_padded_digits(m as int, width as nat) == spec_padded_digits(
                x as int,
                (width - k) as nat,
            ) + digits@,
        decreases width - k,
    {
        let ghost x0 = x as int;
        let ghost tail0 = digits@;
        let d = x % 10;
        let c = ((d as u8) + 48) as char;
        digits.insert(0, c);
        x = x / 10;
        proof {
            assert(c == spec_digit_char(x0 % 10));
            assert(digits@ =~= seq![c] + tail0);
            assert(spec_padded_digits(x0, (width - k) as nat) == spec_padded_digits(
                x0 / 10,
                (width - k - 1) as nat,
            ).push(c));
            assert(spec_padded_digits(x0 / 10, (width - k - 1) as nat).push(c) + tail0
                =~= spec_padded_digits(x0 / 10, (width - k - 1) as nat) + (seq![c] + tail0));
        }
        k += 1;
    }
    proof {
        assert(spec_padded_digits(x as int, 0) =~= Seq::<char>::empty());
        assert(Seq::<char>::empty() + digits@ =~= digits@);
    }
    chars_to_string(&digits)
}

/// Renders a signed number: a minus sign before the magnitude's digits.
fn render_int(v: i128) -> (r: String)
    ensures
        r@ == spec_render_int(v as int),
{
    if v >= 0 {
        render_digits(v as u128)
    } else {
        let m = abs_u128(v);
        let mut out = String::from_str("-");
        let digits = render_digits(m);
        out.append(digits.as_str());
        proof {
            reveal_strlit("-");
            assert(out@ =~= spec_render_int(v as int));
        }
        out
    }
}

impl Decimal {
    /// Renders the decimal: the sign in front, the magnitude's integer
    /// digits, and at a positive scale a dot and the fractional remainder
    /// zero-padded to the scale's digit count, so no digit is lost.
    pub fn to_text(&self) -> (r: String)
        ensures
            r@ == spec_display(*self),
    {
        if self.scale == 0 {
            proof {
                assert(pow10(0) == 1) by {
                    reveal(pow);
                }
            }
            let out = render_int(self.value);
            proof {
                assert(out@ =~= spec_display(*self));
            }
            return out;
        }
        let pre = div_pow10(self.value, self.scale);
        proof {
            lemma_pow10_pos(self.scale as nat);
            lemma_trunc_div_mul_back(self.value as int, pow10(self.scale as nat));
        }
        let back = match mul_pow10_checked(pre, self.scale) {
            Some(x) => x,
            None => {
                proof {
                    assert(false);
                }
                0
            },
        };
        let post = self.value - back;
        let pre_mag = abs_u128(pre);
        let post_mag = abs_u128(post);
        proof {
            let p = pow10(self.scale as nat);
            let v = self.value as int;
            let m: int = if v < 0 {
                -v
            } else {
                v
            };
            lemma_fundamental_div_mod(m, p);
            lemma_mod_division_less_than_divisor(m, p);
            lemma_div_pos_is_pos(m, p);
            assert(p * (m / p) == (m / p) * p) by {
                vstd::arithmetic::mul::lemma_mul_is_commutative(p, m / p);
            }
            if v < 0 {
                assert(pre == -(m / p));
                assert(post == v - pre * p);
                assert(pre * p == -((m / p) * p)) by {
                    vstd::arithmetic::mul::lemma_mul_unary_negation(m / p, p);
                }
                assert(post == -(m % p));
            } else {
                assert(pre == m / p);
                assert(post == m - pre * p);
                assert(post == m % p);
            }
            assert(pre_mag as int == m / p);
            assert(post_mag as int == m % p);
        }
        let mut out = if self.value < 0 {
            String::from_str("-")
        } else {
            String::new()
        };
        let pre_str = render_digits(pre_mag);
        out.append(pre_str.as_str());
        out.append(".");
        let post_str = render_padded_digits(post_mag, self.scale);
        out.append(post_str.as_str());
        proof {
            reveal_strlit("-");
            reveal_strlit(".");
            assert(out@ =~= spec_display(*self));
        }
        out
    }
}

} // verus!
