//! Sample arithmetic for 16-bit PCM mixing.
//!
//! Volumes are fixed-point numbers counted in sample quanta: `UNIT_VOLUME`
//! (one quantum per quantum, i.e. 32767/32767) is unity gain.  Scaling
//! truncates toward zero, as a float-to-integer sample cast would, and
//! saturates to the 16-bit signed range; mixing accumulates with
//! saturating addition so that overloads clip instead of wrapping.

use vstd::prelude::*;

verus! {

/// Unity gain: a volume of `UNIT_VOLUME` quanta leaves samples unchanged.
pub const UNIT_VOLUME: u32 = 32767;

/// Clamp an unbounded integer to the 16-bit signed sample range.
pub open spec fn clamp_i16(x: int) -> int {
    if x > 32767 {
        32767
    } else if x < -32768 {
        -32768
    } else {
        x
    }
}

/// The sample `e` scaled by `v` volume quanta: magnitude `|e| * v / 32767`
/// truncated toward zero, then saturated to the sample range.
pub open spec fn scale_spec(e: int, v: int) -> int {
    let mag = (if e >= 0 { e } else { -e }) * v / 32767;
    if e >= 0 {
        if mag > 32767 { 32767 } else { mag }
    } else {
        if mag > 32768 { -32768 } else { -mag }
    }
}

/// At unity volume, scaling is the identity.
pub proof fn lemma_scale_unit(e: int)
    requires
        -32768 <= e <= 32767,
    ensures
        scale_spec(e, UNIT_VOLUME as int) == e,
{
    let m = if e >= 0 { e } else { -e };
    assert(m * 32767 / 32767 == m) by (nonlinear_arith)
        requires m >= 0;
}

/// Saturating 16-bit addition: the sum clamped to the sample range,
/// never wrapped.
pub fn sat_add_i16(a: i16, b: i16) -> (r: i16)
    ensures
        r as int == clamp_i16(a as int + b as int),
{
    let s: i32 = a as i32 + b as i32;
    if s > 32767 {
        32767
    } else if s < -32768 {
        -32768
    } else {
        s as i16
    }
}

/// Scale `e` by `v` volume quanta.  When the volume is within one sample
/// quantum of unity the multiplication is skipped entirely.
pub fn scale_sample(e: i16, v: u32) -> (r: i16)
    ensures
        r as int == scale_spec(e as int, v as int),
{
    if v == UNIT_VOLUME {
        proof {
            lemma_scale_unit(e as int);
        }
        return e;
    }
    let neg = e < 0;
    let mag_in: u64 = if neg {
        (-(e as i64)) as u64
    } else {
        e as u64
    };
    proof {
        assert(mag_in * (v as u64) <= 32768 * 0xffff_ffffu64) by (nonlinear_arith)
            requires
                mag_in <= 32768,
                v as u64 <= 0xffff_ffffu64,
        ;
    }
    let mag: u64 = mag_in * (v as u64) / 32767;
    assert(mag == (if e as int >= 0 { e as int } else { -(e as int) }) * (v as int) / 32767);
    if neg {
        if mag > 32768 {
            -32768
        } else {
            (-(mag as i64)) as i16
        }
    } else {
        if mag > 32767 {
            32767
        } else {
            mag as i16
        }
    }
}

} // verus!
