//! IEEE-754 double-precision scalars, carried as their 64-bit patterns.
//!
//! Verified code never looks inside a bit pattern; every arithmetic step
//! goes through one of the trusted operations below, and contracts speak
//! of the uninterpreted names `add_bits`, `sub_bits`, `mul_bits` and
//! `tanh_bits`.

use rustc_apfloat::Float;
use vstd::prelude::*;

verus! {

/// Bit pattern of the double 0.0.
pub const F64_ZERO_BITS: u64 = 0;

/// Bit pattern of the double 1.0.
pub const F64_ONE_BITS: u64 = 0x3FF0_0000_0000_0000;

/// Bit pattern of the double 2.0.
pub const F64_TWO_BITS: u64 = 0x4000_0000_0000_0000;

/// The IEEE-754 double sum (round to nearest, ties to even) of the doubles
/// with bit patterns `a` and `b`, as a bit pattern.
pub uninterp spec fn add_bits(a: u64, b: u64) -> u64;

/// The IEEE-754 double difference of the doubles with bit patterns `a` and `b`.
pub uninterp spec fn sub_bits(a: u64, b: u64) -> u64;

/// The IEEE-754 double product of the doubles with bit patterns `a` and `b`.
pub uninterp spec fn mul_bits(a: u64, b: u64) -> u64;

/// The hyperbolic tangent of the double with bit pattern `a`, as computed
/// by libm, as a bit pattern.
pub uninterp spec fn tanh_bits(a: u64) -> u64;

/// Relies on rustc_apfloat's `ieee::Double`: `add_r` with round to nearest,
/// ties to even, is IEEE-754 double addition, and its result depends on the
/// two argument bit patterns alone.
#[verifier::external_body]
pub(crate) fn add_bits_exec(a: u64, b: u64) -> (r: u64)
    ensures
        r == add_bits(a, b),
{
    let x = rustc_apfloat::ieee::Double::from_bits(a as u128);
    let y = rustc_apfloat::ieee::Double::from_bits(b as u128);
    let s = rustc_apfloat::Float::add_r(x, y, rustc_apfloat::Round::NearestTiesToEven);
    rustc_apfloat::Float::to_bits(s.value) as u64
}

/// Relies on rustc_apfloat's `ieee::Double`: `sub_r` with round to nearest,
/// ties to even, is IEEE-754 double subtraction, a function of the two
/// argument bit patterns alone.
#[verifier::external_body]
pub(crate) fn sub_bits_exec(a: u64, b: u64) -> (r: u64)
    ensures
        r == sub_bits(a, b),
{
    let x = rustc_apfloat::ieee::Double::from_bits(a as u128);
    let y = rustc_apfloat::ieee::Double::from_bits(b as u128);
    let s = rustc_apfloat::Float::sub_r(x, y, rustc_apfloat::Round::NearestTiesToEven);
    rustc_apfloat::Float::to_bits(s.value) as u64
}

/// Relies on rustc_apfloat's `ieee::Double`: `mul_r` with round to nearest,
/// ties to even, is IEEE-754 double multiplication, a function of the two
/// argument bit patterns alone.
#[verifier::external_body]
pub(crate) fn mul_bits_exec(a: u64, b: u64) -> (r: u64)
    ensures
        r == mul_bits(a, b),
{
    let x = rustc_apfloat::ieee::Double::from_bits(a as u128);
    let y = rustc_apfloat::ieee::Double::from_bits(b as u128);
    let s = rustc_apfloat::Float::mul_r(x, y, rustc_apfloat::Round::NearestTiesToEven);
    rustc_apfloat::Float::to_bits(s.value) as u64
}

/// Relies on libm::tanh, the hyperbolic tangent of a double, whose result
/// depends on the argument alone; bytemuck::cast reinterprets the bit
/// pattern as a double on the way in and back on the way out.
#[verifier::external_body]
pub(crate) fn tanh_bits_exec(a: u64) -> (r: u64)
    ensures
        r == tanh_bits(a),
{
    bytemuck::cast::<_, u64>(libm::tanh(bytemuck::cast::<u64, _>(a)))
}

} // verus!
