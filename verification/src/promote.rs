//! Promotion of numbers to floating point.
//!
//! Floating-point numbers are held as their IEEE 754 bit patterns. The
//! conversions themselves are `apache_avro`'s. An integer of 32 bits is
//! promoted as the integer of 64 bits of the same value. What is no number
//! is promoted without a conversion: which of the many patterns of a NaN a
//! conversion gives is not fixed, so every NaN becomes one and the same.

use apache_avro::types::Value as AvroValue;
use apache_avro::{from_avro_datum, Schema as AvroSchema};
use vstd::prelude::*;

verus! {

/// The bits of the single-precision number that a 64-bit integer becomes.
pub uninterp spec fn float_of_long(n: i64) -> u32;

/// The bits of the double-precision number that a 64-bit integer becomes.
pub uninterp spec fn double_of_long(n: i64) -> u64;

/// The bits of the double-precision number that the single-precision number
/// with the bits `bits` becomes. Nothing is said of it where `bits` is the
/// pattern of a NaN.
pub uninterp spec fn double_of_float(bits: u32) -> u64;

/// The pattern of the one NaN of double precision that every NaN of single
/// precision is promoted to: quiet, positive, with no payload.
pub const QUIET_NAN: u64 = 0x7ff8_0000_0000_0000;

/// Whether `bits` is the pattern of a NaN of single precision: behind the
/// sign, an exponent of all ones and a fraction that is not zero.
pub open spec fn is_nan(bits: u32) -> bool {
    bits % 0x8000_0000 > 0x7f80_0000
}

/// The bits of the double-precision number that the single-precision number
/// with the bits `bits` is promoted to.
pub open spec fn widened(bits: u32) -> u64 {
    if is_nan(bits) {
        QUIET_NAN
    } else {
        double_of_float(bits)
    }
}

/// Resolves a `long` into a `float` with `apache_avro`'s `Value::resolve`.
/// Trusted: that this succeeds with a `Float`, which depends on `n` alone.
#[verifier::external_body]
pub(crate) fn long_to_float(n: i64) -> (r: Option<u32>)
    ensures
        r == Some(float_of_long(n)),
{
    match AvroValue::Long(n).resolve(&AvroSchema::Float) {
        Ok(AvroValue::Float(x)) => Some(x.to_bits()),
        _ => None,
    }
}

/// Resolves a `long` into a `double` with `apache_avro`'s `Value::resolve`.
/// Trusted: that this succeeds with a `Double`, which depends on `n` alone.
#[verifier::external_body]
pub(crate) fn long_to_double(n: i64) -> (r: Option<u64>)
    ensures
        r == Some(double_of_long(n)),
{
    match AvroValue::Long(n).resolve(&AvroSchema::Double) {
        Ok(AvroValue::Double(x)) => Some(x.to_bits()),
        _ => None,
    }
}

/// Reads the four bytes of a `float` that is no NaN and resolves it into a
/// `double` with `apache_avro`'s `from_avro_datum`. Trusted: that this
/// succeeds with a `Double`, which depends on `bits` alone: the conversion of
/// a number or an infinity is exact.
#[verifier::external_body]
fn float_to_double(bits: u32) -> (r: Option<u64>)
    requires
        !is_nan(bits),
    ensures
        r == Some(double_of_float(bits)),
{
    let wire = bits.to_le_bytes();
    match from_avro_datum(&AvroSchema::Float, &mut &wire[..], Some(&AvroSchema::Double)) {
        Ok(AvroValue::Double(x)) => Some(x.to_bits()),
        _ => None,
    }
}

/// Whether `bits` is the pattern of a NaN of single precision.
pub fn is_nan_pattern(bits: u32) -> (b: bool)
    ensures
        b == is_nan(bits),
{
    bits % 0x8000_0000 > 0x7f80_0000
}

/// Promotes the single-precision number with the bits `bits` to double
/// precision: a NaN to the one quiet NaN, anything else to the number of the
/// same value.
pub fn widen_float(bits: u32) -> (r: Option<u64>)
    ensures
        r == Some(widened(bits)),
{
    if is_nan_pattern(bits) {
        Some(QUIET_NAN)
    } else {
        float_to_double(bits)
    }
}

} // verus!
