use vstd::prelude::*;

verus! {

/// `b` lies in the cyclic interval `[a, c)`.
pub open spec fn in_cyclic(a: int, b: int, c: int) -> bool {
    if a <= c {
        a <= b && b < c
    } else {
        a <= b || b < c
    }
}

/// Luminance of an RGB triple, `0.2126 R + 0.7153 G + 0.0721 B`, rounded.
pub open spec fn lum_of(r: int, g: int, b: int) -> int {
    (2126 * r + 7153 * g + 721 * b + 5000) / 10000
}

/// Clamp `v` into `[lo, hi]`.
pub open spec fn clamp_spec(v: int, lo: int, hi: int) -> int {
    if v < lo {
        lo
    } else if v > hi {
        hi
    } else {
        v
    }
}

pub open spec fn sign_spec(v: int) -> int {
    if v > 0 {
        1
    } else if v < 0 {
        -1
    } else {
        0
    }
}

/// `a mod n` for a nonnegative `a`.
pub fn modulo(a: usize, n: usize) -> (r: usize)
    requires
        n > 0,
    ensures
        r == a % n,
        r < n,
{
    if a >= n {
        a % n
    } else {
        proof {
            vstd::arithmetic::div_mod::lemma_small_mod(a as nat, n as nat);
        }
        a
    }
}

/// True when `a <= b < c` in a cyclic sense.
pub fn cyclic(a: usize, b: usize, c: usize) -> (r: bool)
    ensures
        r == in_cyclic(a as int, b as int, c as int),
{
    if a <= c {
        a <= b && b < c
    } else {
        a <= b || b < c
    }
}

/// Sign of an integer: 1, -1 or 0.
pub fn sign(n: i64) -> (r: i64)
    ensures
        r == sign_spec(n as int),
{
    if n > 0 {
        1
    } else if n < 0 {
        -1
    } else {
        0
    }
}

/// Perceptual luminance of an RGB triple, rounded to the nearest level.
pub fn luminance(r: u8, g: u8, b: u8) -> (l: usize)
    ensures
        l == lum_of(r as int, g as int, b as int),
        l <= 255,
{
    let v: u32 = 2126 * (r as u32) + 7153 * (g as u32) + 721 * (b as u32) + 5000;
    (v / 10000) as usize
}

/// Clamp `v` into `[lo, hi]`.
pub fn clamp(v: i32, lo: i32, hi: i32) -> (r: i32)
    requires
        lo <= hi,
    ensures
        r == clamp_spec(v as int, lo as int, hi as int),
{
    if v < lo {
        lo
    } else if v > hi {
        hi
    } else {
        v
    }
}

/// Largest `r` with `r * r <= n`.
pub fn isqrt(n: u64) -> (r: u32)
    ensures
        r as int * r as int <= n as int,
        n < (r as int + 1) * (r as int + 1),
{
    let mut lo: u64 = 0;
    let mut hi: u64 = 4294967296;
    assert(n < hi * hi) by (nonlinear_arith)
        requires
            hi == 4294967296,
    ;
    while hi - lo > 1
        invariant
            lo < hi <= 4294967296,
            lo * lo <= n,
            n < hi * hi,
        decreases hi - lo,
    {
        let mid: u64 = lo + (hi - lo) / 2;
        assert(mid * mid <= 4294967296 * 4294967296) by (nonlinear_arith)
            requires
                mid < 4294967296,
        ;
        if (mid as u128) * (mid as u128) <= n as u128 {
            lo = mid;
        } else {
            hi = mid;
        }
    }
    lo as u32
}

/// Largest `r` with `r * r <= n`, for wide values.
pub fn isqrt_wide(n: u128) -> (r: u128)
    ensures
        r * r <= n,
        n < (r + 1) * (r + 1),
{
    let mut lo: u128 = 0;
    let mut hi: u128 = 0x1_0000_0000_0000_0000;
    assert(n < hi * hi) by (nonlinear_arith)
        requires
            hi == 0x1_0000_0000_0000_0000,
            n <= u128::MAX,
    ;
    while hi - lo > 1
        invariant
            lo < hi <= 0x1_0000_0000_0000_0000,
            lo * lo <= n,
            n < hi * hi,
        decreases hi - lo,
    {
        let mid: u128 = lo + (hi - lo) / 2;
        assert(mid * mid < 0x1_0000_0000_0000_0000 * 0x1_0000_0000_0000_0000) by (nonlinear_arith)
            requires
                mid < 0x1_0000_0000_0000_0000,
        ;
        if mid * mid <= n {
            lo = mid;
        } else {
            hi = mid;
        }
    }
    lo
}

} // verus!
