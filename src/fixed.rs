//! Fixed-point scalars: an `i64` holding a real number times `SCALE`.
//! Every operation saturates at `LIMIT`, so values never leave `[-LIMIT, LIMIT]`.
use vstd::prelude::*;

verus! {

/// The raw value of the real number 1.
pub const SCALE: i64 = 65536;

/// The largest magnitude a fixed-point value may take (2^40 raw, 2^24 units).
pub const LIMIT: i64 = 1099511627776;

/// A raw value that a fixed-point operation may produce.
pub open spec fn in_range(v: int) -> bool {
    -LIMIT <= v <= LIMIT
}

/// Saturation to `[-LIMIT, LIMIT]`.
pub open spec fn clamp(v: int) -> int {
    if v > LIMIT {
        LIMIT as int
    } else if v < -LIMIT {
        -LIMIT
    } else {
        v
    }
}

/// Division rounding toward zero, as machine division does.
pub open spec fn tdiv(n: int, d: int) -> int {
    if d < 0 {
        -tdiv_pos(n, -d)
    } else {
        tdiv_pos(n, d)
    }
}

pub open spec fn tdiv_pos(n: int, d: int) -> int {
    if n >= 0 {
        n / d
    } else {
        -((-n) / d)
    }
}

pub open spec fn add_spec(a: int, b: int) -> int {
    clamp(a + b)
}

pub open spec fn sub_spec(a: int, b: int) -> int {
    clamp(a - b)
}

pub open spec fn mul_spec(a: int, b: int) -> int {
    clamp(tdiv(a * b, SCALE as int))
}

pub open spec fn div_spec(a: int, b: int) -> int {
    clamp(tdiv(a * SCALE, b))
}

/// `r` is the integer square root of `n`.
pub open spec fn is_isqrt(n: int, r: int) -> bool {
    0 <= r && r * r <= n < (r + 1) * (r + 1)
}

/// The integer square root of `n`, where one exists.
pub open spec fn sqrt_of(n: int) -> int {
    choose|r: int| #[trigger] is_isqrt(n, r)
}

/// The fixed-point square root: the integer root of `a * SCALE`.
pub open spec fn sqrt_spec(a: int) -> int {
    sqrt_of(a * SCALE)
}

/// The integer square root is unique.
pub proof fn lemma_isqrt_unique(n: int, r1: int, r2: int)
    requires
        is_isqrt(n, r1),
        is_isqrt(n, r2),
    ensures
        r1 == r2,
{
    if r1 < r2 {
        assert((r1 + 1) * (r1 + 1) <= r2 * r2) by (nonlinear_arith)
            requires
                0 <= r1 + 1 <= r2,
        ;
    } else if r2 < r1 {
        assert((r2 + 1) * (r2 + 1) <= r1 * r1) by (nonlinear_arith)
            requires
                0 <= r2 + 1 <= r1,
        ;
    }
}

/// Every nonnegative integer has an integer square root.
pub proof fn lemma_isqrt_exists(n: int)
    requires
        n >= 0,
    ensures
        is_isqrt(n, sqrt_of(n)),
    decreases n,
{
    if n > 0 {
        lemma_isqrt_exists(n - 1);
        let r = sqrt_of(n - 1);
        if (r + 1) * (r + 1) <= n {
            assert(n < (r + 2) * (r + 2)) by (nonlinear_arith)
                requires
                    n - 1 < (r + 1) * (r + 1),
                    r >= 0,
            ;
            assert(is_isqrt(n, r + 1));
        } else {
            assert(is_isqrt(n, r));
        }
    } else {
        assert(is_isqrt(0, 0));
    }
}

/// Saturates a wide intermediate to the fixed-point range.
pub fn clamp_wide(v: i128) -> (r: i64)
    ensures
        r == clamp(v as int),
{
    if v > LIMIT as i128 {
        LIMIT
    } else if v < -(LIMIT as i128) {
        -LIMIT
    } else {
        v as i64
    }
}

/// Division of a wide value by a positive divisor, rounding toward zero.
pub fn div_toward_zero(n: i128, d: i128) -> (r: i128)
    requires
        d > 0,
        n > i128::MIN,
    ensures
        r == tdiv_pos(n as int, d as int),
{
    if n >= 0 {
        n / d
    } else {
        let m: i128 = -n;
        assert(0 <= m / d <= m) by (nonlinear_arith)
            requires
                m > 0,
                d > 0,
        ;
        -(m / d)
    }
}

pub fn fx_add(a: i64, b: i64) -> (r: i64)
    requires
        in_range(a as int),
        in_range(b as int),
    ensures
        r == add_spec(a as int, b as int),
{
    clamp_wide(a as i128 + b as i128)
}

pub fn fx_sub(a: i64, b: i64) -> (r: i64)
    requires
        in_range(a as int),
        in_range(b as int),
    ensures
        r == sub_spec(a as int, b as int),
{
    clamp_wide(a as i128 - b as i128)
}

pub fn fx_mul(a: i64, b: i64) -> (r: i64)
    requires
        in_range(a as int),
        in_range(b as int),
    ensures
        r == mul_spec(a as int, b as int),
{
    proof {
        lemma_product_bound(a as int, b as int);
    }
    let p: i128 = a as i128 * b as i128;
    clamp_wide(div_toward_zero(p, SCALE as i128))
}

/// Divides `a` by a nonzero `b`.
pub fn fx_div(a: i64, b: i64) -> (r: i64)
    requires
        in_range(a as int),
        in_range(b as int),
        b != 0,
    ensures
        r == div_spec(a as int, b as int),
{
    let n: i128 = a as i128 * SCALE as i128;
    if b < 0 {
        let q = div_toward_zero(n, -(b as i128));
        clamp_wide(-q)
    } else {
        clamp_wide(div_toward_zero(n, b as i128))
    }
}

/// The fixed-point square root of a nonnegative value.
pub fn fx_sqrt(a: i64) -> (r: i64)
    requires
        0 <= a <= LIMIT,
    ensures
        r == sqrt_spec(a as int),
        is_isqrt(a * SCALE, r as int),
        0 <= r <= 268435456,
{
    let n: i64 = a * SCALE;
    let mut lo: i64 = 0;
    let mut hi: i64 = 268435457;
    assert(n < hi * hi) by (nonlinear_arith)
        requires
            n == a * 65536,
            a <= 1099511627776,
            hi == 268435457,
    ;
    while hi - lo > 1
        invariant
            0 <= lo < hi <= 268435457,
            lo * lo <= n < hi * hi,
            n == a * SCALE,
        decreases hi - lo,
    {
        let mid: i64 = lo + (hi - lo) / 2;
        assert(mid * mid <= 268435457 * 268435457) by (nonlinear_arith)
            requires
                0 <= mid <= 268435457,
        ;
        if mid * mid <= n {
            lo = mid;
        } else {
            hi = mid;
        }
    }
    proof {
        assert(is_isqrt(n as int, lo as int));
        lemma_isqrt_unique(n as int, lo as int, sqrt_spec(a as int));
    }
    lo
}

/// The integer square root of a wide value below 2^127.
pub fn isqrt_wide(n: u128) -> (r: u128)
    requires
        n < 0x8000_0000_0000_0000_0000_0000_0000_0000u128,
    ensures
        is_isqrt(n as int, r as int),
        r < 0x1_0000_0000_0000_0000u128,
{
    let mut lo: u128 = 0;
    let mut hi: u128 = 0xffff_ffff_ffff_ffffu128;
    assert(n < hi * hi) by (nonlinear_arith)
        requires
            n < 0x8000_0000_0000_0000_0000_0000_0000_0000u128,
            hi == 0xffff_ffff_ffff_ffffu128,
    ;
    while hi - lo > 1
        invariant
            0 <= lo < hi <= 0xffff_ffff_ffff_ffffu128,
            lo * lo <= n < hi * hi,
        decreases hi - lo,
    {
        let mid: u128 = lo + (hi - lo) / 2;
        assert(mid * mid <= 0xffff_ffff_ffff_ffffu128 * 0xffff_ffff_ffff_ffffu128) by (nonlinear_arith)
            requires
                0 <= mid <= 0xffff_ffff_ffff_ffffu128,
        ;
        if mid * mid <= n {
            lo = mid;
        } else {
            hi = mid;
        }
    }
    lo
}

pub proof fn lemma_product_bound(a: int, b: int)
    requires
        in_range(a),
        in_range(b),
    ensures
        -LIMIT * LIMIT <= a * b <= LIMIT * LIMIT,
{
    assert(-LIMIT * LIMIT <= a * b <= LIMIT * LIMIT) by (nonlinear_arith)
        requires
            -LIMIT <= a <= LIMIT,
            -LIMIT <= b <= LIMIT,
    ;
}

} // verus!
