use vstd::prelude::*;
use vstd::arithmetic::power::pow;

verus! {

/// The largest number of digits after the decimal point.
pub const MAX_SCALE: u32 = 28;

/// The largest absolute value of the digits of a number: 96 bits, all set.
pub const MAX_MANTISSA: i128 = 0xFFFF_FFFF_FFFF_FFFF_FFFF_FFFF;

/// A decimal number as mathematics sees it: `mantissa / 10^scale`.
pub struct DecimalValue {
    pub mantissa: int,
    pub scale: nat,
}

impl DecimalValue {
    /// Whether a decimal number of the machine can hold these digits and this scale.
    pub open spec fn representable(self) -> bool {
        self.scale <= MAX_SCALE && -MAX_MANTISSA <= self.mantissa <= MAX_MANTISSA
    }

    /// Whether the two stand for the same number, whatever their scales:
    /// `1.50` and `1.5` do.
    pub open spec fn same_number(self, other: DecimalValue) -> bool {
        self.mantissa * pow(10, other.scale) == other.mantissa * pow(10, self.scale)
    }

    /// The number with the given digits and scale, where there is one.
    pub open spec fn from_parts(parts: Option<(int, nat)>) -> Option<DecimalValue> {
        match parts {
            Some(p) => Some(DecimalValue { mantissa: p.0, scale: p.1 }),
            None => None,
        }
    }

    /// What reading a text as a decimal number gives.
    pub open spec fn read(text: Seq<char>) -> Option<DecimalValue> {
        Self::from_parts(decimal_from_text(text))
    }

    /// What reading a text as a decimal number gives when no digit may be lost.
    pub open spec fn read_exact(text: Seq<char>) -> Option<DecimalValue> {
        Self::from_parts(decimal_from_exact_text(text))
    }

    /// The sum, where it can be held.
    pub open spec fn plus(self, other: DecimalValue) -> Option<DecimalValue> {
        Self::from_parts(decimal_sum(self.mantissa, self.scale, other.mantissa, other.scale))
    }

    /// The difference, where it can be held.
    pub open spec fn minus(self, other: DecimalValue) -> Option<DecimalValue> {
        Self::from_parts(decimal_difference(self.mantissa, self.scale, other.mantissa, other.scale))
    }

    /// Zero, with no digit after the point.
    pub open spec fn zero() -> DecimalValue {
        DecimalValue { mantissa: 0, scale: 0 }
    }
}

/// A decimal number of at most 96 bits of digits and at most 28 digits after the point.
#[derive(Clone, Copy, Debug)]
pub struct Decimal {
    mantissa: i128,
    scale: u32,
}

impl View for Decimal {
    type V = DecimalValue;

    closed spec fn view(&self) -> DecimalValue {
        DecimalValue { mantissa: self.mantissa as int, scale: self.scale as nat }
    }
}

/// Declares `rust_decimal::Error`, the error of rust_decimal's parsers, as an opaque type.
#[verifier::external_type_specification]
#[verifier::external_body]
pub struct ExDecimalError(rust_decimal::Error);

/// The digits and scale that `<rust_decimal::Decimal as FromStr>::from_str`
/// reads from a text, or `None` where it rejects the text.
pub uninterp spec fn decimal_from_text(text: Seq<char>) -> Option<(int, nat)>;

/// The digits and scale that `rust_decimal::Decimal::from_str_exact` reads
/// from a text, or `None` where it rejects the text.
pub uninterp spec fn decimal_from_exact_text(text: Seq<char>) -> Option<(int, nat)>;

/// The digits and scale of what `rust_decimal::Decimal::checked_add` returns
/// for two numbers given by their digits and scales, or `None` where it returns none.
pub uninterp spec fn decimal_sum(a_mantissa: int, a_scale: nat, b_mantissa: int, b_scale: nat) -> Option<(int, nat)>;

/// The digits and scale of what `rust_decimal::Decimal::checked_sub` returns
/// for two numbers given by their digits and scales, or `None` where it returns none.
pub uninterp spec fn decimal_difference(a_mantissa: int, a_scale: nat, b_mantissa: int, b_scale: nat) -> Option<(int, nat)>;

/// Calls `str::parse::<rust_decimal::Decimal>`, that is
/// `<rust_decimal::Decimal as FromStr>::from_str`. Trusted: the outcome is the
/// named result for this text, and a number that comes back is one the machine type holds.
#[verifier::external_body]
fn read_decimal(text: &str) -> (r: Result<Decimal, rust_decimal::Error>)
    ensures
        match r {
            Ok(d) => decimal_from_text(text@) == Some((d@.mantissa, d@.scale)) && d@.representable(),
            Err(_) => decimal_from_text(text@).is_none(),
        },
{
    match text.parse::<rust_decimal::Decimal>() {
        Ok(d) => Ok(Decimal { mantissa: d.mantissa(), scale: d.scale() }),
        Err(e) => Err(e),
    }
}

/// Calls `rust_decimal::Decimal::from_str_exact`. Trusted: the outcome is the
/// named result for this text, and a number that comes back is one the machine type holds.
#[verifier::external_body]
fn read_decimal_exact(text: &str) -> (r: Result<Decimal, rust_decimal::Error>)
    ensures
        match r {
            Ok(d) => decimal_from_exact_text(text@) == Some((d@.mantissa, d@.scale))
                && d@.representable(),
            Err(_) => decimal_from_exact_text(text@).is_none(),
        },
{
    match rust_decimal::Decimal::from_str_exact(text) {
        Ok(d) => Ok(Decimal { mantissa: d.mantissa(), scale: d.scale() }),
        Err(e) => Err(e),
    }
}

/// Calls `rust_decimal::Decimal::checked_add` on the two numbers, each built
/// with `rust_decimal::Decimal::from_i128_with_scale`. Trusted: the outcome is
/// the named sum, and a number that comes back is one the machine type holds.
#[verifier::external_body]
fn add_decimals(a: Decimal, b: Decimal) -> (r: Option<Decimal>)
    requires
        a@.representable(),
        b@.representable(),
    ensures
        match r {
            Some(d) => decimal_sum(a@.mantissa, a@.scale, b@.mantissa, b@.scale) == Some(
                (d@.mantissa, d@.scale),
            ) && d@.representable(),
            None => decimal_sum(a@.mantissa, a@.scale, b@.mantissa, b@.scale).is_none(),
        },
{
    let x = rust_decimal::Decimal::from_i128_with_scale(a.mantissa, a.scale);
    let y = rust_decimal::Decimal::from_i128_with_scale(b.mantissa, b.scale);
    match x.checked_add(y) {
        Some(d) => Some(Decimal { mantissa: d.mantissa(), scale: d.scale() }),
        None => None,
    }
}

/// Calls `rust_decimal::Decimal::checked_sub` on the two numbers, each built
/// with `rust_decimal::Decimal::from_i128_with_scale`. Trusted: the outcome is
/// the named difference, and a number that comes back is one the machine type holds.
#[verifier::external_body]
fn subtract_decimals(a: Decimal, b: Decimal) -> (r: Option<Decimal>)
    requires
        a@.representable(),
        b@.representable(),
    ensures
        match r {
            Some(d) => decimal_difference(a@.mantissa, a@.scale, b@.mantissa, b@.scale) == Some(
                (d@.mantissa, d@.scale),
            ) && d@.representable(),
            None => decimal_difference(a@.mantissa, a@.scale, b@.mantissa, b@.scale).is_none(),
        },
{
    let x = rust_decimal::Decimal::from_i128_with_scale(a.mantissa, a.scale);
    let y = rust_decimal::Decimal::from_i128_with_scale(b.mantissa, b.scale);
    match x.checked_sub(y) {
        Some(d) => Some(Decimal { mantissa: d.mantissa(), scale: d.scale() }),
        None => None,
    }
}

/// Calls `==` of `rust_decimal::Decimal` on the two numbers, each built with
/// `rust_decimal::Decimal::from_i128_with_scale`. Trusted: that `==` compares
/// the numbers and not their scales.
#[verifier::external_body]
fn decimals_equal(a: Decimal, b: Decimal) -> (r: bool)
    requires
        a@.representable(),
        b@.representable(),
    ensures
        r == a@.same_number(b@),
{
    let x = rust_decimal::Decimal::from_i128_with_scale(a.mantissa, a.scale);
    let y = rust_decimal::Decimal::from_i128_with_scale(b.mantissa, b.scale);
    x == y
}

impl Decimal {
    #[verifier::type_invariant]
    spec fn holds(self) -> bool {
        self@.representable()
    }

    /// The number `mantissa / 10^scale`, where the machine type holds it.
    pub fn new(mantissa: i128, scale: u32) -> (r: Option<Decimal>)
        ensures
            r.is_some() == (DecimalValue { mantissa: mantissa as int, scale: scale as nat }).representable(),
            r matches Some(d) ==> d@ == (DecimalValue { mantissa: mantissa as int, scale: scale as nat }),
    {
        if scale <= MAX_SCALE && -MAX_MANTISSA <= mantissa && mantissa <= MAX_MANTISSA {
            Some(Decimal { mantissa, scale })
        } else {
            None
        }
    }

    /// Zero, with no digit after the point.
    pub fn zero() -> (r: Decimal)
        ensures
            r@ == DecimalValue::zero(),
    {
        Decimal { mantissa: 0, scale: 0 }
    }

    /// The digits of the number, as one signed integer.
    pub fn mantissa(&self) -> (r: i128)
        ensures
            r as int == self@.mantissa,
            -MAX_MANTISSA <= r <= MAX_MANTISSA,
    {
        proof {
            use_type_invariant(self);
        }
        self.mantissa
    }

    /// How many of the digits stand after the decimal point.
    pub fn scale(&self) -> (r: u32)
        ensures
            r as nat == self@.scale,
            r <= MAX_SCALE,
    {
        proof {
            use_type_invariant(self);
        }
        self.scale
    }

    /// Reads a decimal number; digits beyond what can be held are rounded away.
    pub fn parse(text: &str) -> (r: Option<Decimal>)
        ensures
            r.is_some() == DecimalValue::read(text@).is_some(),
            r matches Some(d) ==> DecimalValue::read(text@) == Some(d@),
    {
        match read_decimal(text) {
            Ok(d) => Some(d),
            Err(_) => None,
        }
    }

    /// Reads a decimal number and refuses a text whose digits cannot all be held.
    pub fn parse_exact(text: &str) -> (r: Option<Decimal>)
        ensures
            r.is_some() == DecimalValue::read_exact(text@).is_some(),
            r matches Some(d) ==> DecimalValue::read_exact(text@) == Some(d@),
    {
        match read_decimal_exact(text) {
            Ok(d) => Some(d),
            Err(_) => None,
        }
    }

    /// The sum of the two numbers, or `None` where it cannot be held.
    pub fn checked_add(&self, other: &Decimal) -> (r: Option<Decimal>)
        ensures
            r.is_some() == self@.plus(other@).is_some(),
            r matches Some(d) ==> self@.plus(other@) == Some(d@),
    {
        proof {
            use_type_invariant(self);
            use_type_invariant(other);
        }
        add_decimals(*self, *other)
    }

    /// The difference of the two numbers, or `None` where it cannot be held.
    pub fn checked_sub(&self, other: &Decimal) -> (r: Option<Decimal>)
        ensures
            r.is_some() == self@.minus(other@).is_some(),
            r matches Some(d) ==> self@.minus(other@) == Some(d@),
    {
        proof {
            use_type_invariant(self);
            use_type_invariant(other);
        }
        subtract_decimals(*self, *other)
    }

    /// Whether the two are the same number: the scale does not count.
    pub fn same_number(&self, other: &Decimal) -> (r: bool)
        ensures
            r == self@.same_number(other@),
    {
        proof {
            use_type_invariant(self);
            use_type_invariant(other);
        }
        decimals_equal(*self, *other)
    }
}

} // verus!
