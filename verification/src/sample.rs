//! Audio samples as 32-bit IEEE-754 bit patterns.
//!
//! The engine moves samples around as plain `u32` bit patterns; the few
//! arithmetic steps a behavior needs are done by `rustc_apfloat`'s
//! software implementation of IEEE-754 single precision, behind trusted
//! wrappers. Each wrapped operation is a pure function of its argument
//! bit patterns, so its result carries an uninterpreted name that the
//! behavior contracts compose.

use vstd::prelude::*;
use rustc_apfloat::Float;
use rustc_apfloat::ieee::Single;

verus! {

/// Bit pattern of +0.0, the silence sample.
pub const ZERO_BITS: u32 = 0x0000_0000;

/// Bit pattern of 1.0, the unit for per-sample products.
pub const ONE_BITS: u32 = 0x3F80_0000;

/// Bit pattern of 44100.0, the sample rate in Hz.
pub const SAMPLE_RATE_BITS: u32 = 0x472C_4400;

/// Bit pattern of 2*pi/44100, radians per phase unit.
pub const TWO_PI_OVER_SR_BITS: u32 = 0x3915_6592;

/// Bit pattern of pi.
pub const PI_BITS: u32 = 0x4049_0FDB;

/// Bit pattern of pi/2.
pub const HALF_PI_BITS: u32 = 0x3FC9_0FDB;

/// Bit pattern of -1/6, the cubic sine coefficient.
pub const SIN_C3_BITS: u32 = 0xBE2A_AAAB;

/// Bit pattern of 1/120, the quintic sine coefficient.
pub const SIN_C5_BITS: u32 = 0x3C08_8889;

/// Bit pattern of -1/5040, the degree-seven sine coefficient.
pub const SIN_C7_BITS: u32 = 0xB950_0D01;

/// Bit pattern of 1/362880, the degree-nine sine coefficient.
pub const SIN_C9_BITS: u32 = 0x3638_EF1D;

/// The IEEE sign bit.
pub const SIGN_MASK: u32 = 0x8000_0000;

/// Whether a bit pattern encodes an IEEE NaN: exponent all ones with a
/// nonzero significand.
pub open spec fn is_nan_sample(a: u32) -> bool {
    (a >> 23) & 0xFF == 0xFF && a & 0x7F_FFFF != 0
}

/// The sum of two samples, as IEEE single addition of their bit patterns.
pub uninterp spec fn add_sample(a: u32, b: u32) -> u32;

/// The product of two samples, as IEEE single multiplication.
pub uninterp spec fn mul_sample(a: u32, b: u32) -> u32;

/// The C `fmod` remainder of two samples.
pub uninterp spec fn fmod_sample(a: u32, b: u32) -> u32;

/// Whether the first sample compares strictly below the second.
pub uninterp spec fn lt_sample(a: u32, b: u32) -> bool;

/// Relies on rustc_apfloat's `add_r` (round to nearest even), IEEE single
/// addition: the result depends on the two bit patterns alone. Adding
/// positive zero is the identity on anything but a NaN (whose payload may
/// be quieted) or negative zero (where the sum rounds to positive zero).
#[verifier::external_body]
pub(crate) fn add_bits(a: u32, b: u32) -> (r: u32)
    ensures
        r == add_sample(a, b),
        b == ZERO_BITS && !is_nan_sample(a) && a != SIGN_MASK ==> r == a,
{
    let x = Single::from_bits(a as u128);
    let y = Single::from_bits(b as u128);
    (x + y).value.to_bits() as u32
}

/// Relies on rustc_apfloat's `mul_r` (round to nearest even), IEEE single
/// multiplication: the result depends on the two bit patterns alone.
#[verifier::external_body]
pub(crate) fn mul_bits(a: u32, b: u32) -> (r: u32)
    ensures
        r == mul_sample(a, b),
{
    let x = Single::from_bits(a as u128);
    let y = Single::from_bits(b as u128);
    (x * y).value.to_bits() as u32
}

/// Relies on rustc_apfloat's `c_fmod`, the C `fmod` remainder: the result
/// depends on the two bit patterns alone. A non-negative value below the
/// modulus is returned unchanged: bit patterns under `SAMPLE_RATE_BITS`
/// encode exactly the finite values in `[0, 44100)`, for which the
/// remainder's subtraction loop never runs.
#[verifier::external_body]
pub(crate) fn fmod_bits(a: u32, b: u32) -> (r: u32)
    ensures
        r == fmod_sample(a, b),
        b == SAMPLE_RATE_BITS && a < SAMPLE_RATE_BITS ==> r == a,
{
    let x = Single::from_bits(a as u128);
    let y = Single::from_bits(b as u128);
    x.c_fmod(y).value.to_bits() as u32
}

/// Relies on rustc_apfloat's `PartialOrd` for `Single`, the IEEE ordering:
/// the result depends on the two bit patterns alone.
#[verifier::external_body]
pub(crate) fn lt_bits(a: u32, b: u32) -> (r: bool)
    ensures
        r == lt_sample(a, b),
{
    let x = Single::from_bits(a as u128);
    let y = Single::from_bits(b as u128);
    x < y
}

/// IEEE negation flips the sign bit and leaves the rest of the pattern.
pub open spec fn neg_sample(a: u32) -> u32 {
    a ^ SIGN_MASK
}

/// Flip the sign bit: exact IEEE negation, no rounding involved.
pub(crate) fn neg_bits(a: u32) -> (r: u32)
    ensures
        r == neg_sample(a),
{
    a ^ SIGN_MASK
}

/// The degree-nine Taylor polynomial of sine, evaluated by Horner's rule.
pub open spec fn sine_poly(u: u32) -> u32 {
    let u2 = mul_sample(u, u);
    let acc = add_sample(mul_sample(SIN_C9_BITS, u2), SIN_C7_BITS);
    let acc = add_sample(mul_sample(acc, u2), SIN_C5_BITS);
    let acc = add_sample(mul_sample(acc, u2), SIN_C3_BITS);
    let acc = add_sample(mul_sample(acc, u2), ONE_BITS);
    mul_sample(u, acc)
}

/// Fold the polynomial argument into the first quadrant: pick the sign from
/// the half-period and reflect the angle about pi/2.
pub open spec fn sine_of_angle(t: u32) -> u32 {
    let (u, flip) = if lt_sample(t, PI_BITS) {
        (t, false)
    } else {
        (add_sample(t, neg_sample(PI_BITS)), true)
    };
    let u = if lt_sample(HALF_PI_BITS, u) {
        add_sample(PI_BITS, neg_sample(u))
    } else {
        u
    };
    let s = sine_poly(u);
    if flip {
        neg_sample(s)
    } else {
        s
    }
}

/// The sample a sine oscillator emits at phase `phase`: the angle is
/// `phase * 2*pi/44100`, and the sine of the angle is taken by quadrant
/// folding and the degree-nine polynomial.
pub open spec fn sine_at_phase(phase: u32) -> u32 {
    sine_of_angle(mul_sample(phase, TWO_PI_OVER_SR_BITS))
}

/// The phase an oscillator holds after consuming one frequency sample.
pub open spec fn next_phase(phase: u32, freq: u32) -> u32 {
    fmod_sample(add_sample(phase, freq), SAMPLE_RATE_BITS)
}

/// Evaluate the sine of an angle `t` in radians, by quadrant folding and
/// the degree-nine Taylor polynomial.
pub(crate) fn sine_of_angle_bits(t: u32) -> (r: u32)
    ensures
        r == sine_of_angle(t),
{
    let (u0, flip) = if lt_bits(t, PI_BITS) {
        (t, false)
    } else {
        (add_bits(t, neg_bits(PI_BITS)), true)
    };
    let u = if lt_bits(HALF_PI_BITS, u0) {
        add_bits(PI_BITS, neg_bits(u0))
    } else {
        u0
    };
    let u2 = mul_bits(u, u);
    let mut acc = add_bits(mul_bits(SIN_C9_BITS, u2), SIN_C7_BITS);
    acc = add_bits(mul_bits(acc, u2), SIN_C5_BITS);
    acc = add_bits(mul_bits(acc, u2), SIN_C3_BITS);
    acc = add_bits(mul_bits(acc, u2), ONE_BITS);
    let s = mul_bits(u, acc);
    if flip {
        neg_bits(s)
    } else {
        s
    }
}

/// Evaluate the sine oscillator's output sample for a phase.
pub(crate) fn sine_at_phase_bits(phase: u32) -> (r: u32)
    ensures
        r == sine_at_phase(phase),
{
    sine_of_angle_bits(mul_bits(phase, TWO_PI_OVER_SR_BITS))
}

} // verus!
