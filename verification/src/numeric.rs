//! Numbers as they occur in configuration documents.

use vstd::prelude::*;

verus! {

/// A number of a document: a non-negative integer, a negative integer or a
/// floating-point number.
#[derive(Debug)]
pub enum Numeric {
    PosInt(u64),
    /// Always less than zero.
    NegInt(i64),
    Float(serde_yaml::Number),
}

/// The mathematical content of a [`Numeric`]; a float is known by its IEEE 754 bits.
pub enum NumericView {
    PosInt(u64),
    NegInt(i64),
    Float(u64),
}

/// `serde_yaml::Number`, of which [`Numeric`] keeps the floats.
#[verifier::external_type_specification]
#[verifier::external_body]
pub struct ExYamlNumber(serde_yaml::Number);

/// The IEEE 754 bits of what `serde_yaml::Number::as_f64` returns.
pub uninterp spec fn float_bits(n: serde_yaml::Number) -> u64;

impl View for Numeric {
    type V = NumericView;

    open spec fn view(&self) -> NumericView {
        match *self {
            Numeric::PosInt(u) => NumericView::PosInt(u),
            Numeric::NegInt(i) => NumericView::NegInt(i),
            Numeric::Float(f) => NumericView::Float(float_bits(f)),
        }
    }
}

/// The exponent field of an IEEE 754 double.
pub open spec fn exponent_field(bits: u64) -> int {
    (bits as int / 0x10_0000_0000_0000) % 0x800
}

/// The fraction field of an IEEE 754 double.
pub open spec fn fraction_field(bits: u64) -> int {
    bits as int % 0x10_0000_0000_0000
}

/// The double is neither infinite nor NaN.
pub open spec fn is_finite(bits: u64) -> bool {
    exponent_field(bits) != 0x7ff
}

/// The double is NaN.
pub open spec fn is_nan(bits: u64) -> bool {
    exponent_field(bits) == 0x7ff && fraction_field(bits) != 0
}

/// The double is positive or negative zero.
pub open spec fn is_zero(bits: u64) -> bool {
    bits as int % 0x8000_0000_0000_0000 == 0
}

/// Equality of numbers: integers by value, floats by value with NaN equal to
/// NaN, and no integer equal to a float.
pub open spec fn same_number(a: NumericView, b: NumericView) -> bool {
    match (a, b) {
        (NumericView::PosInt(x), NumericView::PosInt(y)) => x == y,
        (NumericView::NegInt(x), NumericView::NegInt(y)) => x == y,
        (NumericView::Float(x), NumericView::Float(y)) => {
            ||| x == y
            ||| is_zero(x) && is_zero(y)
            ||| is_nan(x) && is_nan(y)
        },
        _ => false,
    }
}

/// `serde_yaml::Number::clone`: the copy holds the same float.
#[verifier::external_body]
fn clone_float(n: &serde_yaml::Number) -> (r: serde_yaml::Number)
    ensures
        float_bits(r) == float_bits(*n),
{
    n.clone()
}

/// `serde_yaml::Number::as_f64`, which always yields a value: its bits.
#[verifier::external_body]
fn read_float(n: &serde_yaml::Number) -> (bits: u64)
    ensures
        bits == float_bits(*n),
{
    n.as_f64().unwrap().to_bits()
}

impl Clone for Numeric {
    fn clone(&self) -> (r: Self)
        ensures
            r@ == self@,
    {
        match self {
            Numeric::PosInt(u) => Numeric::PosInt(*u),
            Numeric::NegInt(i) => Numeric::NegInt(*i),
            Numeric::Float(f) => Numeric::Float(clone_float(f)),
        }
    }
}

impl Numeric {
    /// Whether two numbers are equal.
    pub fn same_as(&self, other: &Numeric) -> (r: bool)
        ensures
            r == same_number(self@, other@),
    {
        match (self, other) {
            (Numeric::PosInt(x), Numeric::PosInt(y)) => *x == *y,
            (Numeric::NegInt(x), Numeric::NegInt(y)) => *x == *y,
            (Numeric::Float(x), Numeric::Float(y)) => {
                let a: u64 = read_float(x);
                let b: u64 = read_float(y);
                let zeros = a % 0x8000_0000_0000_0000 == 0 && b % 0x8000_0000_0000_0000 == 0;
                let a_nan = (a / 0x10_0000_0000_0000) % 0x800 == 0x7ff && a % 0x10_0000_0000_0000 != 0;
                let b_nan = (b / 0x10_0000_0000_0000) % 0x800 == 0x7ff && b % 0x10_0000_0000_0000 != 0;
                a == b || zeros || (a_nan && b_nan)
            },
            _ => false,
        }
    }
}

} // verus!
