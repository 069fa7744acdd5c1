//! Fixed-precision decimal numbers: a plain model of the values that the
//! `rust_decimal` crate computes with, and the calls into that crate.

use std::str::FromStr;
use vstd::prelude::*;

verus! {

/// The largest magnitude a mantissa can have: 2^96 - 1.
pub const MAX_MANTISSA: i128 = 79_228_162_514_264_337_593_543_950_335;

/// The largest number of digits after the decimal point.
pub const MAX_SCALE: u32 = 28;

/// A decimal number `mantissa / 10^scale`.
#[derive(Clone, Copy, Debug, PartialEq, Eq, Structural)]
pub struct Dec {
    pub mantissa: i128,
    pub scale: u32,
}

/// Ten to the power `n`.
pub open spec fn pow10(n: nat) -> int
    decreases n,
{
    if n == 0 {
        1
    } else {
        10 * pow10((n - 1) as nat)
    }
}

impl Dec {
    /// The mantissa fits in 96 bits and the scale is at most 28.
    pub open spec fn wf(self) -> bool {
        &&& -MAX_MANTISSA <= self.mantissa <= MAX_MANTISSA
        &&& self.scale <= MAX_SCALE
    }

    /// The whole number `n` as a decimal of scale 0.
    pub open spec fn whole(n: int) -> Dec {
        Dec { mantissa: n as i128, scale: 0 }
    }

    /// The number has no fractional part.
    pub open spec fn is_integral(self) -> bool {
        self.mantissa as int % pow10(self.scale as nat) == 0
    }

    /// The largest whole number not above the decimal.
    pub open spec fn whole_value(self) -> int {
        self.mantissa as int / pow10(self.scale as nat)
    }

    /// Both decimals denote the same number, whatever their scales.
    pub open spec fn same_value(self, other: Dec) -> bool {
        self.mantissa * pow10(other.scale as nat) == other.mantissa * pow10(self.scale as nat)
    }
}

/// `c` is one of the ten decimal digits.
pub open spec fn is_digit(c: char) -> bool {
    '0' <= c && c <= '9'
}

/// The value of the digit `c`.
pub open spec fn digit_value(c: char) -> int {
    c as int - '0' as int
}

/// Every character of `text` is a decimal digit.
pub open spec fn all_digits(text: Seq<char>) -> bool {
    forall|i: int| 0 <= i < text.len() ==> is_digit(#[trigger] text[i])
}

/// The number that a sequence of digits writes in base ten.
pub open spec fn digits_value(text: Seq<char>) -> int
    decreases text.len(),
{
    if text.len() == 0 {
        0
    } else {
        10 * digits_value(text.drop_last()) + digit_value(text.last())
    }
}

/// What `rust_decimal` reads from a text, or `None` where it rejects it.
pub uninterp spec fn decimal_literal(text: Seq<char>) -> Option<Dec>;

/// What `rust_decimal` gives as the sum of two decimals, `None` on overflow.
pub uninterp spec fn decimal_sum(a: Dec, b: Dec) -> Option<Dec>;

/// What `rust_decimal` gives as the difference of two decimals, `None` on overflow.
pub uninterp spec fn decimal_difference(a: Dec, b: Dec) -> Option<Dec>;

/// What `rust_decimal` gives as the product of two decimals, `None` on overflow.
pub uninterp spec fn decimal_product(a: Dec, b: Dec) -> Option<Dec>;

/// What `rust_decimal` gives as the quotient of two decimals, `None` on
/// overflow or where the divisor is zero.
pub uninterp spec fn decimal_quotient(a: Dec, b: Dec) -> Option<Dec>;

/// What `rust_decimal` gives as the remainder of two decimals, `None` on
/// overflow or where the divisor is zero.
pub uninterp spec fn decimal_remainder(a: Dec, b: Dec) -> Option<Dec>;

/// The text that `rust_decimal` prints for a decimal.
pub uninterp spec fn decimal_text(d: Dec) -> Seq<char>;

/// The place of the first decimal point of `text`; its length where it
/// holds none.
pub open spec fn point_at(text: Seq<char>) -> int
    decreases text.len(),
{
    if text.len() == 0 {
        0
    } else if text[0] == '.' {
        0
    } else {
        1 + point_at(text.drop_first())
    }
}

/// What stands before the first decimal point of `text`.
pub open spec fn whole_part(text: Seq<char>) -> Seq<char> {
    text.subrange(0, point_at(text))
}

/// What stands behind the first decimal point of `text`.
pub open spec fn fraction_part(text: Seq<char>) -> Seq<char> {
    if point_at(text) < text.len() {
        text.subrange(point_at(text) + 1, text.len() as int)
    } else {
        Seq::empty()
    }
}

/// The text is a run of digits with at most one decimal point in it, with
/// at least one digit and at most 28 of them behind the point, and its
/// digits write a number below 2^96.
pub open spec fn plain_literal(text: Seq<char>) -> bool {
    &&& all_digits(whole_part(text))
    &&& all_digits(fraction_part(text))
    &&& whole_part(text).len() + fraction_part(text).len() > 0
    &&& fraction_part(text).len() <= MAX_SCALE
    &&& digits_value(whole_part(text) + fraction_part(text)) <= MAX_MANTISSA
}

/// The decimal that a plain literal writes: its digits as the mantissa,
/// and as many digits as stand behind the point as the scale.
pub open spec fn plain_value(text: Seq<char>) -> Dec {
    Dec {
        mantissa: digits_value(whole_part(text) + fraction_part(text)) as i128,
        scale: fraction_part(text).len() as u32,
    }
}

/// The decimal that a literal denotes: for a plain literal the decimal that
/// it writes, and for any other text what `rust_decimal` reads from it.
pub open spec fn literal_value(text: Seq<char>) -> Option<Dec> {
    if plain_literal(text) {
        Some(plain_value(text))
    } else {
        decimal_literal(text)
    }
}

/// The decimal with the sign turned. Zero has no sign, and is given back at
/// scale 0.
pub open spec fn negation(a: Dec) -> Dec {
    if a.mantissa == 0 {
        Dec::whole(0)
    } else {
        Dec { mantissa: (-a.mantissa) as i128, scale: a.scale }
    }
}

/// The whole number `n`, where a mantissa can hold it.
pub open spec fn whole_if_fits(n: int) -> Option<Dec> {
    if -MAX_MANTISSA <= n <= MAX_MANTISSA {
        Some(Dec::whole(n))
    } else {
        None
    }
}

/// The sum of two decimals. Two whole numbers add exactly, and overflow
/// where the sum leaves the 96 bits of a mantissa.
pub open spec fn sum_of(a: Dec, b: Dec) -> Option<Dec> {
    if a.scale == 0 && b.scale == 0 {
        whole_if_fits(a.mantissa + b.mantissa)
    } else {
        decimal_sum(a, b)
    }
}

/// The difference of two decimals. Two whole numbers subtract exactly, and
/// overflow where the difference leaves the 96 bits of a mantissa.
pub open spec fn difference_of(a: Dec, b: Dec) -> Option<Dec> {
    if a.scale == 0 && b.scale == 0 {
        whole_if_fits(a.mantissa - b.mantissa)
    } else {
        decimal_difference(a, b)
    }
}

/// The product of two decimals. A decimal times minus one is its negation.
/// Two whole numbers multiply exactly, and overflow where the product
/// leaves the 96 bits of a mantissa.
pub open spec fn product_of(a: Dec, b: Dec) -> Option<Dec> {
    if b == Dec::whole(-1) {
        Some(negation(a))
    } else if a.scale == 0 && b.scale == 0 {
        whole_if_fits(a.mantissa * b.mantissa)
    } else {
        decimal_product(a, b)
    }
}

/// Calls `Decimal::from_str`. The contract names what it reads from the
/// text, and claims two things more. Digits with at most one point among
/// them, at most 28 behind it, that write a number below 2^96 are read
/// exactly: the digits are the mantissa, and the scale is the number of
/// digits behind the point. And whatever is read fits the model.
#[verifier::external_body]
pub(crate) fn decimal_from_text(text: &str) -> (r: Option<Dec>)
    ensures
        r == decimal_literal(text@),
        plain_literal(text@) ==> r == Some(plain_value(text@)),
        r matches Some(d) ==> d.wf(),
{
    match rust_decimal::Decimal::from_str(text) {
        Ok(d) => Some(Dec { mantissa: d.mantissa(), scale: d.scale() }),
        Err(_) => None,
    }
}

/// Calls `Decimal::checked_add`. The contract names the sum, and claims that
/// two operands of scale 0 add exactly at scale 0, with `None` exactly where
/// the sum does not fit in 96 bits.
#[verifier::external_body]
pub(crate) fn decimal_add(a: Dec, b: Dec) -> (r: Option<Dec>)
    requires
        a.wf(),
        b.wf(),
    ensures
        r == decimal_sum(a, b),
        a.scale == 0 && b.scale == 0 ==> r == sum_of(a, b),
        r matches Some(d) ==> d.wf(),
{
    let x = rust_decimal::Decimal::from_i128_with_scale(a.mantissa, a.scale);
    let y = rust_decimal::Decimal::from_i128_with_scale(b.mantissa, b.scale);
    match x.checked_add(y) {
        Some(d) => Some(Dec { mantissa: d.mantissa(), scale: d.scale() }),
        None => None,
    }
}

/// Calls `Decimal::checked_sub`. The contract names the difference, and
/// claims that two operands of scale 0 subtract exactly at scale 0, with
/// `None` exactly where the difference does not fit in 96 bits.
#[verifier::external_body]
pub(crate) fn decimal_sub(a: Dec, b: Dec) -> (r: Option<Dec>)
    requires
        a.wf(),
        b.wf(),
    ensures
        r == decimal_difference(a, b),
        a.scale == 0 && b.scale == 0 ==> r == difference_of(a, b),
        r matches Some(d) ==> d.wf(),
{
    let x = rust_decimal::Decimal::from_i128_with_scale(a.mantissa, a.scale);
    let y = rust_decimal::Decimal::from_i128_with_scale(b.mantissa, b.scale);
    match x.checked_sub(y) {
        Some(d) => Some(Dec { mantissa: d.mantissa(), scale: d.scale() }),
        None => None,
    }
}

/// Calls `Decimal::checked_mul`. The contract names the product, and claims
/// that a decimal times minus one is its negation, with zero given back at
/// scale 0, and that two operands of scale 0 multiply exactly at scale 0,
/// with `None` exactly where the product does not fit in 96 bits.
#[verifier::external_body]
pub(crate) fn decimal_mul(a: Dec, b: Dec) -> (r: Option<Dec>)
    requires
        a.wf(),
        b.wf(),
    ensures
        r == decimal_product(a, b),
        b == Dec::whole(-1) ==> r == Some(negation(a)),
        a.scale == 0 && b.scale == 0 ==> r == whole_if_fits(a.mantissa * b.mantissa),
        r matches Some(d) ==> d.wf(),
{
    let x = rust_decimal::Decimal::from_i128_with_scale(a.mantissa, a.scale);
    let y = rust_decimal::Decimal::from_i128_with_scale(b.mantissa, b.scale);
    match x.checked_mul(y) {
        Some(d) => Some(Dec { mantissa: d.mantissa(), scale: d.scale() }),
        None => None,
    }
}

/// Calls `Decimal::checked_div`. The contract names the quotient and claims
/// only that it fits the model.
#[verifier::external_body]
pub(crate) fn decimal_div(a: Dec, b: Dec) -> (r: Option<Dec>)
    requires
        a.wf(),
        b.wf(),
    ensures
        r == decimal_quotient(a, b),
        r matches Some(d) ==> d.wf(),
{
    let x = rust_decimal::Decimal::from_i128_with_scale(a.mantissa, a.scale);
    let y = rust_decimal::Decimal::from_i128_with_scale(b.mantissa, b.scale);
    match x.checked_div(y) {
        Some(d) => Some(Dec { mantissa: d.mantissa(), scale: d.scale() }),
        None => None,
    }
}

/// Calls `Decimal::checked_rem`. The contract names the remainder and claims
/// only that it fits the model.
#[verifier::external_body]
pub(crate) fn decimal_rem(a: Dec, b: Dec) -> (r: Option<Dec>)
    requires
        a.wf(),
        b.wf(),
    ensures
        r == decimal_remainder(a, b),
        r matches Some(d) ==> d.wf(),
{
    let x = rust_decimal::Decimal::from_i128_with_scale(a.mantissa, a.scale);
    let y = rust_decimal::Decimal::from_i128_with_scale(b.mantissa, b.scale);
    match x.checked_rem(y) {
        Some(d) => Some(Dec { mantissa: d.mantissa(), scale: d.scale() }),
        None => None,
    }
}

/// Calls `Decimal::floor`. The contract claims that the result has scale 0
/// and is the largest whole number not above the argument.
#[verifier::external_body]
pub(crate) fn decimal_floor(a: Dec) -> (r: Dec)
    requires
        a.wf(),
    ensures
        r.wf(),
        r.scale == 0,
        r.mantissa == a.mantissa as int / pow10(a.scale as nat),
{
    let d = rust_decimal::Decimal::from_i128_with_scale(a.mantissa, a.scale).floor();
    Dec { mantissa: d.mantissa(), scale: d.scale() }
}

/// Calls the `==` of `Decimal`. The contract claims that it compares the
/// numbers denoted, so that `1.0` equals `1`.
#[verifier::external_body]
pub(crate) fn decimal_eq(a: Dec, b: Dec) -> (r: bool)
    requires
        a.wf(),
        b.wf(),
    ensures
        r == a.same_value(b),
{
    let x = rust_decimal::Decimal::from_i128_with_scale(a.mantissa, a.scale);
    let y = rust_decimal::Decimal::from_i128_with_scale(b.mantissa, b.scale);
    x == y
}

/// Calls the `to_string` of `Decimal`. The contract names the text and
/// claims that it holds no brace.
#[verifier::external_body]
pub(crate) fn decimal_to_text(a: Dec) -> (r: String)
    requires
        a.wf(),
    ensures
        r@ == decimal_text(a),
        forall|i: int| 0 <= i < r@.len() ==> r@[i] != '{' && r@[i] != '}',
{
    rust_decimal::Decimal::from_i128_with_scale(a.mantissa, a.scale).to_string()
}

/// Every power of ten is positive.
pub proof fn lemma_pow10_positive(n: nat)
    ensures
        pow10(n) > 0,
    decreases n,
{
    if n > 0 {
        lemma_pow10_positive((n - 1) as nat);
    }
}

impl Dec {
    /// The whole number `n` at scale 0.
    pub fn from_whole(n: i128) -> (r: Dec)
        requires
            -MAX_MANTISSA <= n <= MAX_MANTISSA,
        ensures
            r == Dec::whole(n as int),
            r.wf(),
    {
        Dec { mantissa: n, scale: 0 }
    }

    /// Reads a literal.
    pub fn from_text(text: &str) -> (r: Option<Dec>)
        ensures
            r == literal_value(text@),
            r matches Some(d) ==> d.wf(),
    {
        decimal_from_text(text)
    }

    /// Adds two decimals; `None` on overflow.
    pub fn checked_add(self, other: Dec) -> (r: Option<Dec>)
        requires
            self.wf(),
            other.wf(),
        ensures
            r == sum_of(self, other),
            r matches Some(d) ==> d.wf(),
    {
        decimal_add(self, other)
    }

    /// Subtracts a decimal; `None` on overflow.
    pub fn checked_sub(self, other: Dec) -> (r: Option<Dec>)
        requires
            self.wf(),
            other.wf(),
        ensures
            r == difference_of(self, other),
            r matches Some(d) ==> d.wf(),
    {
        decimal_sub(self, other)
    }

    /// Multiplies two decimals; `None` on overflow.
    pub fn checked_mul(self, other: Dec) -> (r: Option<Dec>)
        requires
            self.wf(),
            other.wf(),
        ensures
            r == product_of(self, other),
            r matches Some(d) ==> d.wf(),
    {
        decimal_mul(self, other)
    }

    /// The decimal with the sign turned.
    pub fn negated(self) -> (r: Dec)
        requires
            self.wf(),
        ensures
            r == negation(self),
            r.wf(),
    {
        match decimal_mul(self, Dec::from_whole(-1)) {
            Some(r) => r,
            None => vstd::pervasive::unreached(),
        }
    }

    /// Whether the number is zero.
    pub fn is_zero(self) -> (r: bool)
        ensures
            r == (self.mantissa == 0),
    {
        self.mantissa == 0
    }

    /// The number as an integer, where it is a whole number.
    pub fn to_whole(self) -> (r: Option<i128>)
        requires
            self.wf(),
        ensures
            self.is_integral() ==> r == Some(self.whole_value() as i128),
            !self.is_integral() ==> r.is_none(),
            r matches Some(n) ==> -MAX_MANTISSA <= n <= MAX_MANTISSA && n == self.whole_value(),
    {
        let floor = decimal_floor(self);
        proof {
            let m = self.mantissa as int;
            let p = pow10(self.scale as nat);
            lemma_pow10_positive(self.scale as nat);
            vstd::arithmetic::div_mod::lemma_fundamental_div_mod(m, p);
            assert(pow10(0) == 1);
            assert(p * (m / p) == (m / p) * p) by (nonlinear_arith);
        }
        if decimal_eq(self, floor) {
            Some(floor.mantissa)
        } else {
            None
        }
    }

    /// The text of the number.
    pub fn to_text(self) -> (r: String)
        requires
            self.wf(),
        ensures
            r@ == decimal_text(self),
            forall|i: int| 0 <= i < r@.len() ==> r@[i] != '{' && r@[i] != '}',
    {
        decimal_to_text(self)
    }
}

} // verus!
