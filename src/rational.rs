use vstd::prelude::*;
use fraction::{CheckedAdd, CheckedDiv, CheckedMul, CheckedSub, Fraction, GenericFraction, Sign};

verus! {

/// A rational number written as (signed numerator, denominator).
pub type Rat = (int, int);

/// Greatest common divisor of two naturals, by Euclid's algorithm.
pub open spec fn gcd(a: nat, b: nat) -> nat
    decreases b,
{
    if b == 0 {
        a
    } else {
        gcd(b, (a % b) as nat)
    }
}

pub open spec fn abs(x: int) -> nat {
    if x < 0 {
        (-x) as nat
    } else {
        x as nat
    }
}

/// The lowest-terms form of `q`, for a positive denominator.
pub open spec fn reduce(q: Rat) -> Rat {
    let g = gcd(abs(q.0), q.1 as nat) as int;
    (q.0 / g, q.1 / g)
}

pub open spec fn rat_add(a: Rat, b: Rat) -> Rat {
    (a.0 * b.1 + b.0 * a.1, a.1 * b.1)
}

pub open spec fn rat_sub(a: Rat, b: Rat) -> Rat {
    (a.0 * b.1 - b.0 * a.1, a.1 * b.1)
}

pub open spec fn rat_mul(a: Rat, b: Rat) -> Rat {
    (a.0 * b.0, a.1 * b.1)
}

/// The quotient `a / b` with its denominator kept positive (`b` nonzero).
pub open spec fn rat_div(a: Rat, b: Rat) -> Rat {
    if b.0 < 0 {
        (-(a.0 * b.1), a.1 * -b.0)
    } else {
        (a.0 * b.1, a.1 * b.0)
    }
}

/// Whether fraction's checked addition of two canonical values gives a value.
pub uninterp spec fn fraction_add_fits(a: Rat, b: Rat) -> bool;

/// Whether fraction's checked subtraction of two canonical values gives a value.
pub uninterp spec fn fraction_sub_fits(a: Rat, b: Rat) -> bool;

/// Whether fraction's checked multiplication of two canonical values gives a value.
pub uninterp spec fn fraction_mul_fits(a: Rat, b: Rat) -> bool;

/// Whether fraction's checked division of two canonical values gives a value.
pub uninterp spec fn fraction_div_fits(a: Rat, b: Rat) -> bool;

/// An exact rational number: a sign, a numerator and a denominator in `u64`.
#[derive(Debug, Clone, Copy, PartialEq, Eq)]
pub struct Value {
    pub negative: bool,
    pub numer: u64,
    pub denom: u64,
}

impl View for Value {
    type V = Rat;

    open spec fn view(&self) -> Rat {
        (if self.negative { -(self.numer as int) } else { self.numer as int }, self.denom as int)
    }
}

impl Value {
    /// Canonical form: positive denominator, lowest terms, zero carries no sign.
    pub open spec fn wf(&self) -> bool {
        &&& self.denom > 0
        &&& gcd(self.numer as nat, self.denom as nat) == 1
        &&& (self.numer == 0 ==> !self.negative)
    }

    /// The integer `n` as a rational.
    pub fn from_integer(n: u64) -> (r: Value)
        ensures
            r.wf(),
            r@ == (n as int, 1int),
    {
        let r = Value { negative: false, numer: n, denom: 1 };
        proof {
            assert(gcd(n as nat, 1) == gcd(1, 0));
        }
        r
    }

    pub fn is_zero(&self) -> (r: bool)
        ensures
            r == (self@.0 == 0),
    {
        self.numer == 0
    }
}

/// Relies on fraction's `CheckedAdd` for `GenericFraction<u64>`: on two finite
/// values it gives, when the arithmetic fits in `u64`, the reduced exact sum,
/// with zero signed `Plus`.
#[verifier::external_body]
pub(crate) fn fraction_add(a: Value, b: Value) -> (r: Option<Value>)
    requires
        a.wf(),
        b.wf(),
    ensures
        r is Some <==> fraction_add_fits(a@, b@),
        r matches Some(v) ==> v.wf() && v@ == reduce(rat_add(a@, b@)),
{
    let x = Fraction::new_raw_signed(if a.negative { Sign::Minus } else { Sign::Plus }, a.numer, a.denom);
    let y = Fraction::new_raw_signed(if b.negative { Sign::Minus } else { Sign::Plus }, b.numer, b.denom);
    match x.checked_add(&y) {
        Some(GenericFraction::Rational(s, q)) => Some(Value { negative: s == Sign::Minus, numer: *q.numer(), denom: *q.denom() }),
        _ => None,
    }
}

/// Relies on fraction's `CheckedSub` for `GenericFraction<u64>`: on two finite
/// values it gives, when the arithmetic fits in `u64`, the reduced exact
/// difference, with zero signed `Plus`.
#[verifier::external_body]
pub(crate) fn fraction_sub(a: Value, b: Value) -> (r: Option<Value>)
    requires
        a.wf(),
        b.wf(),
    ensures
        r is Some <==> fraction_sub_fits(a@, b@),
        r matches Some(v) ==> v.wf() && v@ == reduce(rat_sub(a@, b@)),
{
    let x = Fraction::new_raw_signed(if a.negative { Sign::Minus } else { Sign::Plus }, a.numer, a.denom);
    let y = Fraction::new_raw_signed(if b.negative { Sign::Minus } else { Sign::Plus }, b.numer, b.denom);
    match x.checked_sub(&y) {
        Some(GenericFraction::Rational(s, q)) => Some(Value { negative: s == Sign::Minus, numer: *q.numer(), denom: *q.denom() }),
        _ => None,
    }
}

/// Relies on fraction's `CheckedMul` for `GenericFraction<u64>`: on two finite
/// values it gives, when the arithmetic fits in `u64`, the reduced exact
/// product, with zero signed `Plus`.
#[verifier::external_body]
pub(crate) fn fraction_mul(a: Value, b: Value) -> (r: Option<Value>)
    requires
        a.wf(),
        b.wf(),
    ensures
        r is Some <==> fraction_mul_fits(a@, b@),
        r matches Some(v) ==> v.wf() && v@ == reduce(rat_mul(a@, b@)),
{
    let x = Fraction::new_raw_signed(if a.negative { Sign::Minus } else { Sign::Plus }, a.numer, a.denom);
    let y = Fraction::new_raw_signed(if b.negative { Sign::Minus } else { Sign::Plus }, b.numer, b.denom);
    match x.checked_mul(&y) {
        Some(GenericFraction::Rational(s, q)) => Some(Value { negative: s == Sign::Minus, numer: *q.numer(), denom: *q.denom() }),
        _ => None,
    }
}

/// Relies on fraction's `CheckedDiv` for `GenericFraction<u64>`: on two finite
/// values with a nonzero divisor it gives, when the arithmetic fits in `u64`,
/// the reduced exact quotient, with zero signed `Plus`.
#[verifier::external_body]
pub(crate) fn fraction_div(a: Value, b: Value) -> (r: Option<Value>)
    requires
        a.wf(),
        b.wf(),
        b@.0 != 0,
    ensures
        r is Some <==> fraction_div_fits(a@, b@),
        r matches Some(v) ==> v.wf() && v@ == reduce(rat_div(a@, b@)),
{
    let x = Fraction::new_raw_signed(if a.negative { Sign::Minus } else { Sign::Plus }, a.numer, a.denom);
    let y = Fraction::new_raw_signed(if b.negative { Sign::Minus } else { Sign::Plus }, b.numer, b.denom);
    match x.checked_div(&y) {
        Some(GenericFraction::Rational(s, q)) => Some(Value { negative: s == Sign::Minus, numer: *q.numer(), denom: *q.denom() }),
        _ => None,
    }
}

} // verus!
