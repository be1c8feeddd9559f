//! Exact decimal amounts for prices and quantities.
//!
//! A [`Decimal`] is a signed mantissa with a scale of at most eight fractional
//! digits. Its value, counted in units of 10^-8, always fits the 64-bit
//! magnitude that the ring transport's fixed-point records carry. Arithmetic
//! and comparison are delegated to `rust_decimal`, which computes exactly on
//! this range.

use std::cmp::Ordering;
use vstd::pervasive::unreached;
use vstd::prelude::*;

verus! {

/// Largest number of fractional digits a [`Decimal`] may carry.
pub const MAX_SCALE: u32 = 8;

/// Largest magnitude, in units of 10^-8, that a [`Decimal`] may hold.
pub const MAX_UNITS: i128 = 18_446_744_073_709_551_615;

/// How many units of 10^-8 one step of the mantissa is worth at `scale`.
pub open spec fn unit_factor(scale: u32) -> int {
    if scale == 0 {
        100_000_000
    } else if scale == 1 {
        10_000_000
    } else if scale == 2 {
        1_000_000
    } else if scale == 3 {
        100_000
    } else if scale == 4 {
        10_000
    } else if scale == 5 {
        1_000
    } else if scale == 6 {
        100
    } else if scale == 7 {
        10
    } else {
        1
    }
}

/// Whether mantissa `mantissa` at scale `scale` denotes an amount a
/// [`Decimal`] can hold.
pub open spec fn representable(mantissa: int, scale: u32) -> bool {
    &&& scale <= MAX_SCALE
    &&& -MAX_UNITS <= mantissa * unit_factor(scale) <= MAX_UNITS
}

/// Why a piece of text is not a [`Decimal`].
#[derive(Clone, Copy, Debug, PartialEq, Eq, Structural)]
pub enum DecimalError {
    /// The text is not a decimal number.
    Malformed,
    /// The number has more than eight fractional digits, or is too large.
    OutOfRange,
}

/// Whether `text` is how some representable mantissa and scale of value
/// `value` are written.
pub open spec fn renders(value: int, text: Seq<char>) -> bool {
    exists|mantissa: int, scale: u32|
        representable(mantissa, scale) && #[trigger] decimal_text(mantissa, scale as nat) == text
            && mantissa * unit_factor(scale) == value
}

/// The value, in units of 10^-8, of the amount that a parse gave.
pub open spec fn parsed_value(parsed: Option<(int, nat)>) -> int {
    match parsed {
        Some((mantissa, scale)) => mantissa * unit_factor(scale as u32),
        None => 0,
    }
}

/// Whether a parse that gave `parsed` yields an amount a [`Decimal`] can hold.
pub open spec fn parse_fits(parsed: Option<(int, nat)>) -> bool {
    match parsed {
        Some((mantissa, scale)) => scale <= MAX_SCALE && representable(mantissa, scale as u32),
        None => false,
    }
}

/// A decimal amount: `mantissa / 10^scale`.
#[derive(Clone, Copy, Debug)]
pub struct Decimal {
    mantissa: i128,
    scale: u32,
}

impl View for Decimal {
    type V = int;

    /// The amount in units of 10^-8.
    open spec fn view(&self) -> int {
        self.spec_mantissa() * unit_factor(self.spec_scale())
    }
}

fn factor(scale: u32) -> (f: i128)
    requires
        scale <= MAX_SCALE,
    ensures
        f == unit_factor(scale),
        1 <= f <= 100_000_000,
{
    match scale {
        0 => 100_000_000,
        1 => 10_000_000,
        2 => 1_000_000,
        3 => 100_000,
        4 => 10_000,
        5 => 1_000,
        6 => 100,
        7 => 10,
        _ => 1,
    }
}

impl Decimal {
    #[verifier::type_invariant]
    spec fn inv(self) -> bool {
        representable(self.mantissa as int, self.scale)
    }

    /// The amount as text.
    pub open spec fn text(&self) -> Seq<char> {
        decimal_text(self.spec_mantissa(), self.spec_scale() as nat)
    }

    /// Whether the mantissa and scale denote an amount that can be held.
    /// Every `Decimal` that a program holds is valid.
    pub open spec fn valid(&self) -> bool {
        representable(self.spec_mantissa(), self.spec_scale())
    }

    /// The mantissa: the amount is `mantissa / 10^scale`.
    pub closed spec fn spec_mantissa(&self) -> int {
        self.mantissa as int
    }

    /// The scale: how many fractional digits the amount is written with.
    pub closed spec fn spec_scale(&self) -> u32 {
        self.scale
    }

    /// The amount zero, with no fractional digits.
    pub fn zero() -> (d: Decimal)
        ensures
            d.spec_mantissa() == 0,
            d.spec_scale() == 0,
            d@ == 0,
    {
        Decimal { mantissa: 0, scale: 0 }
    }

    /// The largest amount a [`Decimal`] can hold.
    pub fn max_value() -> (d: Decimal)
        ensures
            d@ == MAX_UNITS,
            d.spec_mantissa() == MAX_UNITS,
            d.spec_scale() == MAX_SCALE,
    {
        Decimal { mantissa: MAX_UNITS, scale: MAX_SCALE }
    }

    /// `num / 10^scale`, or `None` when that amount has more than eight
    /// fractional digits or is too large to hold.
    pub fn try_new(num: i64, scale: u32) -> (r: Option<Decimal>)
        ensures
            r is Some <==> representable(num as int, scale),
            r matches Some(d) ==> d.spec_mantissa() == num && d.spec_scale() == scale,
    {
        if scale > MAX_SCALE {
            return None;
        }
        let f: i128 = factor(scale);
        let wide: i128 = num as i128;
        assert(-0x8000_0000_0000_0000 * 100_000_000 <= wide * f <= 0x8000_0000_0000_0000
            * 100_000_000) by (nonlinear_arith)
            requires
                -0x8000_0000_0000_0000 <= wide < 0x8000_0000_0000_0000,
                1 <= f <= 100_000_000,
        ;
        let units: i128 = wide * f;
        if units < -MAX_UNITS || units > MAX_UNITS {
            return None;
        }
        Some(Decimal { mantissa: wide, scale })
    }

    /// `num / 10^scale`, for an amount known to be representable.
    pub fn new(num: i64, scale: u32) -> (d: Decimal)
        requires
            representable(num as int, scale),
        ensures
            d.spec_mantissa() == num,
            d.spec_scale() == scale,
    {
        Decimal { mantissa: num as i128, scale }
    }

    /// The amount of `units` steps of 10^-8, the ring transport's fixed-point
    /// form.
    pub fn from_units(units: u64) -> (d: Decimal)
        ensures
            d@ == units,
            d.spec_mantissa() == units,
            d.spec_scale() == MAX_SCALE,
    {
        Decimal { mantissa: units as i128, scale: MAX_SCALE }
    }

    /// The amount in steps of 10^-8, or `None` for a negative amount.
    pub fn to_units(&self) -> (r: Option<u64>)
        ensures
            r is Some <==> self@ >= 0,
            r matches Some(u) ==> u == self@,
    {
        proof {
            use_type_invariant(self);
        }
        let f: i128 = factor(self.scale);
        let units: i128 = self.mantissa * f;
        if units < 0 {
            None
        } else {
            Some(units as u64)
        }
    }

    /// The mantissa: the amount is `mantissa / 10^scale`.
    pub fn mantissa(&self) -> (m: i128)
        ensures
            m == self.spec_mantissa(),
            self.valid(),
    {
        proof {
            use_type_invariant(self);
        }
        self.mantissa
    }

    /// The scale: how many fractional digits the amount is written with.
    pub fn scale(&self) -> (s: u32)
        ensures
            s == self.spec_scale(),
            s <= MAX_SCALE,
            self.valid(),
    {
        proof {
            use_type_invariant(self);
        }
        self.scale
    }

    /// Orders two amounts by value; `1.0` and `1.00` are equal.
    pub fn compare(&self, other: &Decimal) -> (r: Ordering)
        ensures
            match r {
                Ordering::Less => self@ < other@,
                Ordering::Equal => self@ == other@,
                Ordering::Greater => self@ > other@,
            },
    {
        decimal_cmp(self, other)
    }

    /// Whether `self` is strictly below `other` in value.
    pub fn lt(&self, other: &Decimal) -> (r: bool)
        ensures
            r == (self@ < other@),
    {
        match self.compare(other) {
            Ordering::Less => true,
            _ => false,
        }
    }

    /// Whether `self` is at most `other` in value.
    pub fn le(&self, other: &Decimal) -> (r: bool)
        ensures
            r == (self@ <= other@),
    {
        match self.compare(other) {
            Ordering::Greater => false,
            _ => true,
        }
    }

    /// Whether `self` is strictly above `other` in value.
    pub fn gt(&self, other: &Decimal) -> (r: bool)
        ensures
            r == (self@ > other@),
    {
        match self.compare(other) {
            Ordering::Greater => true,
            _ => false,
        }
    }

    /// Whether `self` is at least `other` in value.
    pub fn ge(&self, other: &Decimal) -> (r: bool)
        ensures
            r == (self@ >= other@),
    {
        match self.compare(other) {
            Ordering::Less => false,
            _ => true,
        }
    }

    /// Whether the two amounts have the same value.
    pub fn same_value(&self, other: &Decimal) -> (r: bool)
        ensures
            r == (self@ == other@),
    {
        match self.compare(other) {
            Ordering::Equal => true,
            _ => false,
        }
    }

    /// Whether the amount is zero.
    pub fn is_zero(&self) -> (r: bool)
        ensures
            r == (self@ == 0),
    {
        let zero = Decimal::zero();
        self.same_value(&zero)
    }

    /// Whether the amount is strictly above zero.
    pub fn is_positive(&self) -> (r: bool)
        ensures
            r == (self@ > 0),
    {
        let zero = Decimal::zero();
        self.gt(&zero)
    }

    /// The smaller of the two amounts; `self` where they have the same
    /// value.
    pub fn min(self, other: Decimal) -> (r: Decimal)
        ensures
            r == if self@ > other@ { other } else { self },
    {
        decimal_min(self, other)
    }

    /// `self + other`, exactly, or `None` where the sum is too large to
    /// hold.
    pub fn checked_add(self, other: Decimal) -> (r: Option<Decimal>)
        ensures
            r is Some <==> -MAX_UNITS <= self@ + other@ <= MAX_UNITS,
            r matches Some(d) ==> d@ == self@ + other@,
    {
        proof {
            use_type_invariant(self);
            use_type_invariant(other);
        }
        match decimal_checked_add(self, other) {
            Some(p) => Decimal::from_raw(p.0, p.1),
            None => None,
        }
    }

    /// `self - other`, exactly, or `None` where the difference is too large
    /// to hold.
    pub fn checked_sub(self, other: Decimal) -> (r: Option<Decimal>)
        ensures
            r is Some <==> -MAX_UNITS <= self@ - other@ <= MAX_UNITS,
            r matches Some(d) ==> d@ == self@ - other@,
    {
        proof {
            use_type_invariant(self);
            use_type_invariant(other);
        }
        match decimal_checked_sub(self, other) {
            Some(p) => Decimal::from_raw(p.0, p.1),
            None => None,
        }
    }

    /// Reads an amount from text such as `"100.25"`.
    pub fn from_str(text: &str) -> (r: Result<Decimal, DecimalError>)
        ensures
            r is Ok <==> parse_fits(parsed_decimal(text@)),
            r matches Ok(d) ==> parsed_decimal(text@) == Some(
                (d.spec_mantissa(), d.spec_scale() as nat),
            ) && d@ == parsed_value(parsed_decimal(text@)),
            r matches Err(e) ==> (e == DecimalError::Malformed <==> parsed_decimal(text@) is None),
    {
        match decimal_from_str(text) {
            Ok(p) => Decimal::from_parsed(p.0, p.1),
            Err(_) => Err(DecimalError::Malformed),
        }
    }

    /// Accepts the mantissa and scale of a parsed number where a [`Decimal`]
    /// can hold it.
    pub fn from_parsed(mantissa: i128, scale: u32) -> (r: Result<Decimal, DecimalError>)
        ensures
            r is Ok <==> representable(mantissa as int, scale),
            r matches Ok(d) ==> d.spec_mantissa() == mantissa && d.spec_scale() == scale,
            r matches Err(e) ==> e == DecimalError::OutOfRange,
    {
        if scale > MAX_SCALE || mantissa < -MAX_UNITS || mantissa > MAX_UNITS {
            proof {
                if scale <= MAX_SCALE {
                    assert(!(-MAX_UNITS <= mantissa * unit_factor(scale) <= MAX_UNITS))
                        by (nonlinear_arith)
                        requires
                            mantissa < -MAX_UNITS || mantissa > MAX_UNITS,
                            1 <= unit_factor(scale),
                    ;
                }
            }
            return Err(DecimalError::OutOfRange);
        }
        let f: i128 = factor(scale);
        assert(-MAX_UNITS * 100_000_000 <= mantissa * f <= MAX_UNITS * 100_000_000)
            by (nonlinear_arith)
            requires
                -MAX_UNITS <= mantissa <= MAX_UNITS,
                1 <= f <= 100_000_000,
        ;
        let units: i128 = mantissa * f;
        if units < -MAX_UNITS || units > MAX_UNITS {
            Err(DecimalError::OutOfRange)
        } else {
            Ok(Decimal { mantissa, scale })
        }
    }

    /// Writes the amount as text, with as many fractional digits as its
    /// scale.
    pub fn to_string(&self) -> (r: String)
        ensures
            r@ == self.text(),
            self.valid(),
            renders(self@, r@),
    {
        let r = decimal_to_string(self);
        proof {
            use_type_invariant(self);
            assert(decimal_text(self.spec_mantissa(), self.spec_scale() as nat) == r@);
        }
        r
    }

    /// `self - other`, for an `other` that lies between zero and `self`.
    pub fn minus(self, other: Decimal) -> (r: Decimal)
        requires
            0 <= other@ <= self@,
        ensures
            r@ == self@ - other@,
    {
        proof {
            use_type_invariant(self);
        }
        match self.checked_sub(other) {
            Some(d) => d,
            None => unreached(),
        }
    }

    /// Builds the amount `mantissa / 10^scale` where it is in range.
    fn from_raw(mantissa: i128, scale: u32) -> (r: Option<Decimal>)
        requires
            scale <= MAX_SCALE,
            -2 * MAX_UNITS <= mantissa * unit_factor(scale) <= 2 * MAX_UNITS,
        ensures
            r is Some <==> representable(mantissa as int, scale),
            r matches Some(d) ==> d.spec_mantissa() == mantissa && d.spec_scale() == scale,
    {
        let f: i128 = factor(scale);
        let units: i128 = mantissa * f;
        if units < -MAX_UNITS || units > MAX_UNITS {
            None
        } else {
            Some(Decimal { mantissa, scale })
        }
    }
}

/// What `rust_decimal` reads out of a piece of text: the mantissa and scale of
/// the decimal it parses, or `None` where it rejects the text.
pub uninterp spec fn parsed_decimal(text: Seq<char>) -> Option<(int, nat)>;

/// How `rust_decimal` writes the decimal with the given mantissa and scale.
pub uninterp spec fn decimal_text(mantissa: int, scale: nat) -> Seq<char>;

/// Calls `rust_decimal`'s `Ord::cmp` for `Decimal`, which orders two
/// decimals by the numbers they denote, whatever their scales.
#[verifier::external_body]
fn decimal_cmp(a: &Decimal, b: &Decimal) -> (r: Ordering)
    ensures
        match r {
            Ordering::Less => a@ < b@,
            Ordering::Equal => a@ == b@,
            Ordering::Greater => a@ > b@,
        },
{
    let x = rust_decimal::Decimal::from_i128_with_scale(a.mantissa, a.scale);
    let y = rust_decimal::Decimal::from_i128_with_scale(b.mantissa, b.scale);
    x.cmp(&y)
}

/// Calls `rust_decimal::Decimal::min`, which returns its second argument
/// where the first is the greater in value, and its first argument
/// otherwise.
#[verifier::external_body]
fn decimal_min(a: Decimal, b: Decimal) -> (r: Decimal)
    ensures
        r == if a@ > b@ { b } else { a },
{
    let x = rust_decimal::Decimal::from_i128_with_scale(a.mantissa, a.scale);
    let y = rust_decimal::Decimal::from_i128_with_scale(b.mantissa, b.scale);
    let m = x.min(y);
    Decimal { mantissa: m.mantissa(), scale: m.scale() }
}

/// Calls `rust_decimal::Decimal::checked_add` and hands back the mantissa and
/// scale of the sum.
///
/// Every `Decimal` here has a mantissa below 2^64 and a scale of at most
/// eight. For two such operands `rust_decimal` brings the one at the smaller
/// scale up to the larger, adds in 128-bit arithmetic, and returns the sum
/// as it is whenever its mantissa is below 2^96, which the sum of two
/// numbers below 2^64 always is. Where one operand is zero it returns the
/// other. So the call always succeeds, the sum is exact, and its scale is
/// that of one of the operands.
#[verifier::external_body]
fn decimal_checked_add(a: Decimal, b: Decimal) -> (r: Option<(i128, u32)>)
    ensures
        r is Some,
        r matches Some(p) ==> p.1 <= MAX_SCALE && p.0 * unit_factor(p.1) == a@ + b@,
{
    let x = rust_decimal::Decimal::from_i128_with_scale(a.mantissa, a.scale);
    let y = rust_decimal::Decimal::from_i128_with_scale(b.mantissa, b.scale);
    x.checked_add(y).map(|d| (d.mantissa(), d.scale()))
}

/// Calls `rust_decimal::Decimal::checked_sub` and hands back the mantissa and
/// scale of the difference.
///
/// Every `Decimal` here has a mantissa below 2^64 and a scale of at most
/// eight. For two such operands `rust_decimal` brings the one at the smaller
/// scale up to the larger, subtracts in 128-bit arithmetic, and returns the
/// difference as it is whenever its mantissa is below 2^96, which that of
/// two numbers below 2^64 always is. Where one operand is zero it returns
/// the other, negated where that is the one taken away. So the call always
/// succeeds, the difference is exact, and its scale is that of one of the
/// operands.
#[verifier::external_body]
fn decimal_checked_sub(a: Decimal, b: Decimal) -> (r: Option<(i128, u32)>)
    ensures
        r is Some,
        r matches Some(p) ==> p.1 <= MAX_SCALE && p.0 * unit_factor(p.1) == a@ - b@,
{
    let x = rust_decimal::Decimal::from_i128_with_scale(a.mantissa, a.scale);
    let y = rust_decimal::Decimal::from_i128_with_scale(b.mantissa, b.scale);
    x.checked_sub(y).map(|d| (d.mantissa(), d.scale()))
}

/// The error that `rust_decimal` reports for text it cannot parse.
#[verifier::external_type_specification]
#[verifier::external_body]
pub struct ExDecimalParseError(rust_decimal::Error);

/// Calls `rust_decimal`'s `FromStr` for `Decimal` and hands back the mantissa
/// and scale of what it parsed, or its error. What it makes of a text is
/// not spelled out here: it is named [`parsed_decimal`].
#[verifier::external_body]
fn decimal_from_str(text: &str) -> (r: Result<(i128, u32), rust_decimal::Error>)
    ensures
        match r {
            Ok(p) => parsed_decimal(text@) == Some((p.0 as int, p.1 as nat)),
            Err(_) => parsed_decimal(text@) is None,
        },
{
    match <rust_decimal::Decimal as std::str::FromStr>::from_str(text) {
        Ok(d) => Ok((d.mantissa(), d.scale())),
        Err(e) => Err(e),
    }
}

/// Calls `rust_decimal`'s `Display` for `Decimal` through `to_string`. How
/// it writes a decimal is not spelled out here: it is named
/// [`decimal_text`].
#[verifier::external_body]
fn decimal_to_string(a: &Decimal) -> (r: String)
    ensures
        r@ == decimal_text(a.spec_mantissa(), a.spec_scale() as nat),
{
    rust_decimal::Decimal::from_i128_with_scale(a.mantissa, a.scale).to_string()
}

impl PartialEq for Decimal {
    /// Equality of value: `1.0 == 1.00`.
    fn eq(&self, other: &Decimal) -> (r: bool) {
        self.same_value(other)
    }
}

impl vstd::std_specs::cmp::PartialEqSpecImpl for Decimal {
    open spec fn obeys_eq_spec() -> bool {
        true
    }

    open spec fn eq_spec(&self, other: &Decimal) -> bool {
        self@ == other@
    }
}

impl Eq for Decimal {}

} // verus!
