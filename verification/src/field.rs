use vstd::prelude::*;

verus! {

/// A tagged numeric value: either a 64-bit signed integer, or an IEEE
/// binary64 floating-point number carried as its raw bit pattern.
#[derive(Clone, Copy, Debug, PartialEq, Eq, Structural)]
pub enum FieldType {
    Integer(i64),
    Float(u64),
}

/// Bit pattern of the IEEE binary64 sum of the two values whose bit
/// patterns are given, rounded to nearest, ties to even.
pub uninterp spec fn float_add_bits(a: u64, b: u64) -> u64;

/// Bit pattern of the IEEE binary64 value that a 64-bit signed integer
/// widens to, rounded to nearest, ties to even.
pub uninterp spec fn float_of_int_bits(i: i64) -> u64;

/// Relies on rustc_apfloat's `Double` addition: IEEE binary64 addition on
/// bit patterns with the default rounding (nearest, ties to even), a
/// function of the two bit patterns alone.
#[verifier::external_body]
fn add_float_bits(a: u64, b: u64) -> (r: u64)
    ensures
        r == float_add_bits(a, b),
{
    let x = <rustc_apfloat::ieee::Double as rustc_apfloat::Float>::from_bits(a as u128);
    let y = <rustc_apfloat::ieee::Double as rustc_apfloat::Float>::from_bits(b as u128);
    <rustc_apfloat::ieee::Double as rustc_apfloat::Float>::to_bits((x + y).value) as u64
}

/// Relies on rustc_apfloat's `Double::from_i128`: the IEEE binary64 value
/// nearest to the given integer (ties to even), a function of the integer
/// alone.
#[verifier::external_body]
fn widen_int_to_float_bits(i: i64) -> (r: u64)
    ensures
        r == float_of_int_bits(i),
{
    let v = <rustc_apfloat::ieee::Double as rustc_apfloat::Float>::from_i128(i as i128).value;
    <rustc_apfloat::ieee::Double as rustc_apfloat::Float>::to_bits(v) as u64
}

/// Two's-complement wrapping sum of two 64-bit signed integers.
pub open spec fn wrap_add_i64(a: i64, b: i64) -> i64 {
    if a + b > i64::MAX {
        (a + b - 0x1_0000_0000_0000_0000) as i64
    } else if a + b < i64::MIN {
        (a + b + 0x1_0000_0000_0000_0000) as i64
    } else {
        (a + b) as i64
    }
}

/// The combination rule on tagged values: Integer + Integer is the integer
/// sum, and any combination involving a Float is the IEEE binary64 sum,
/// with an Integer operand widened to floating point first. Integer
/// overflow wraps (two's complement).
pub open spec fn spec_combine(a: FieldType, b: FieldType) -> FieldType {
    match (a, b) {
        (FieldType::Integer(x), FieldType::Integer(y)) => FieldType::Integer(wrap_add_i64(x, y)),
        (FieldType::Integer(x), FieldType::Float(y)) => FieldType::Float(
            float_add_bits(float_of_int_bits(x), y),
        ),
        (FieldType::Float(x), FieldType::Integer(y)) => FieldType::Float(
            float_add_bits(x, float_of_int_bits(y)),
        ),
        (FieldType::Float(x), FieldType::Float(y)) => FieldType::Float(float_add_bits(x, y)),
    }
}

/// Combine two tagged values per the promotion rule: the result is an
/// Integer only when both operands are Integers; otherwise it is a Float.
pub fn combine(a: FieldType, b: FieldType) -> (r: FieldType)
    ensures
        r == spec_combine(a, b),
{
    match (a, b) {
        (FieldType::Integer(x), FieldType::Integer(y)) => FieldType::Integer(x.wrapping_add(y)),
        (FieldType::Integer(x), FieldType::Float(y)) => FieldType::Float(
            add_float_bits(widen_int_to_float_bits(x), y),
        ),
        (FieldType::Float(x), FieldType::Integer(y)) => FieldType::Float(
            add_float_bits(x, widen_int_to_float_bits(y)),
        ),
        (FieldType::Float(x), FieldType::Float(y)) => FieldType::Float(add_float_bits(x, y)),
    }
}

} // verus!
