//! Keys and pitch bend on the target's fixed-point pitch scale.
use vstd::prelude::*;

verus! {

/// Target pitch units per semitone.
pub const SEMITONE_UNITS: i64 = 256;

/// Target pitch units that a full-range bend moves a note by. Tuned by ear
/// (ten semitones' worth of units), not taken from the target's documentation.
pub const BEND_RANGE_UNITS: i64 = 2560;

/// Bend steps in a full range: a bend value `b` is the fraction `b / 0x2000`.
pub const BEND_STEPS: i64 = 0x2000;

/// `x / d` rounded toward zero.
pub open spec fn div_toward_zero(x: int, d: int) -> int {
    if x >= 0 { x / d } else { -((-x) / d) }
}

/// The pitch offset of a bend, rounded toward zero.
pub open spec fn bend_offset_of(bend: i16) -> int {
    div_toward_zero(bend * BEND_RANGE_UNITS, BEND_STEPS as int)
}

/// The pitch of `key` shifted by `base_key` semitones and bent by `bend`,
/// rounded toward zero: `(key + base_key) * 256 + bend * 2560 / 0x2000`.
pub open spec fn key_pitch_of(key: u8, base_key: u8, bend: i16) -> int {
    div_toward_zero((key + base_key) * SEMITONE_UNITS * BEND_STEPS + bend * BEND_RANGE_UNITS, BEND_STEPS as int)
}

fn div_toward_zero_exec(x: i64) -> (r: i32)
    requires
        -0x100_0000_0000 <= x <= 0x100_0000_0000,
    ensures
        r == div_toward_zero(x as int, BEND_STEPS as int),
{
    if x >= 0 {
        ((x as u64) / (BEND_STEPS as u64)) as i32
    } else {
        let q = ((-x) as u64) / (BEND_STEPS as u64);
        -(q as i32)
    }
}

/// The pitch offset of a bend.
pub fn bend_offset(bend: i16) -> (r: i32)
    ensures
        r == bend_offset_of(bend),
        bend == 0 ==> r == 0,
{
    div_toward_zero_exec(bend as i64 * BEND_RANGE_UNITS)
}

/// The pitch of a key under a base-key shift and a bend.
pub fn key_pitch(key: u8, base_key: u8, bend: i16) -> (r: i32)
    ensures
        r == key_pitch_of(key, base_key, bend),
{
    let raw = (key as i64 + base_key as i64) * SEMITONE_UNITS * BEND_STEPS;
    div_toward_zero_exec(raw + bend as i64 * BEND_RANGE_UNITS)
}

} // verus!
