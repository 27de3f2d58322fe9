use vstd::prelude::*;

verus! {

/// A fixed-point number with 16 fraction bits.
pub type Fixed16 = i32;

pub const FIXED16_ONE: Fixed16 = 65536;

pub const FIXED16_HALF: Fixed16 = 32768;

/// `v` rounded to the nearest integer, halves up.
pub open spec fn round16(v: int) -> int {
    (v + FIXED16_HALF) / (FIXED16_ONE as int)
}

/// `v` rounded down to an integer.
pub open spec fn floor16(v: int) -> int {
    v / (FIXED16_ONE as int)
}

/// Division rounding toward zero, by a positive divisor.
pub open spec fn trunc_div(a: int, b: int) -> int {
    if a >= 0 {
        a / b
    } else {
        -((-a) / b)
    }
}

/// The fixed-point value of an integer.
pub fn int_to_fixed16(x: i32) -> (r: Fixed16)
    requires
        -32768 <= x < 32768,
    ensures
        r == x * 65536,
{
    x * FIXED16_ONE
}

/// `v` rounded to the nearest integer, halves up.
pub fn fixed16_round_to_int(v: Fixed16) -> (r: i32)
    requires
        v <= i32::MAX - FIXED16_HALF,
    ensures
        r == round16(v as int),
{
    let w = v + FIXED16_HALF;
    assert(w >> 16u32 == w / 65536) by (bit_vector);
    w >> 16u32
}

/// `v` rounded down to an integer.
pub fn fixed16_floor_to_int(v: Fixed16) -> (r: i32)
    ensures
        r == floor16(v as int),
{
    assert(v >> 16u32 == v / 65536) by (bit_vector);
    v >> 16u32
}

/// Fixed-point product: `x * y` in 16-bit fixed point, rounded down, cut to 32 bits.
pub open spec fn fixed16_mul_value(x: i32, y: i32) -> i32 {
    floor16(x * y) as i32
}

/// Fixed-point quotient: `x / y` in 16-bit fixed point, rounded toward zero, cut to 32 bits.
pub open spec fn fixed16_div_value(x: i32, y: i32) -> i32 {
    trunc_div(x * 65536, y as int) as i32
}

/// `x * y / z`, rounded toward zero, cut to 32 bits.
pub open spec fn fixed16_mul_div_value(x: i32, y: i32, z: i32) -> i32 {
    trunc_div(x * y, z as int) as i32
}

/// Fixed-point product of two fixed-point numbers.
pub fn fixed16_mul(x: Fixed16, y: Fixed16) -> (r: Fixed16)
    ensures
        r == fixed16_mul_value(x, y),
{
    assert(-0x4000_0000_0000_0000 <= (x as int) * (y as int) <= 0x4000_0000_0000_0000) by (nonlinear_arith)
        requires
            -0x8000_0000 <= x <= 0x7fff_ffff,
            -0x8000_0000 <= y <= 0x7fff_ffff,
    ;
    let p = (x as i64) * (y as i64);
    assert(p >> 16u64 == p / 65536) by (bit_vector);
    (p >> 16u64) as i32
}

/// Fixed-point quotient of two fixed-point numbers, for a positive divisor.
pub fn fixed16_div(x: Fixed16, y: Fixed16) -> (r: Fixed16)
    requires
        y > 0,
    ensures
        r == fixed16_div_value(x, y),
{
    let n = (x as i64) * 65536;
    (n / (y as i64)) as i32
}

/// `x * y / z` for a positive `z`.
pub fn fixed16_mul_div(x: Fixed16, y: Fixed16, z: Fixed16) -> (r: Fixed16)
    requires
        z > 0,
    ensures
        r == fixed16_mul_div_value(x, y, z),
{
    assert(-0x4000_0000_0000_0000 <= (x as int) * (y as int) <= 0x4000_0000_0000_0000) by (nonlinear_arith)
        requires
            -0x8000_0000 <= x <= 0x7fff_ffff,
            -0x8000_0000 <= y <= 0x7fff_ffff,
    ;
    let p = (x as i64) * (y as i64);
    (p / (z as i64)) as i32
}

} // verus!
