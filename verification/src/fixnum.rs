//! Fixed-point arithmetic kernel.
//!
//! Every quantity of the library (dates as year fractions, rates, prices,
//! matrix entries) is carried as an `i64` holding the value scaled by
//! `SCALE`, so one unit is a millionth.  All operations are total: where a
//! mathematical result would leave the `i64` range the operation saturates,
//! and a division by zero yields zero.  The contracts state the exact value
//! produced, over the spec-level counterparts `fadd_s`, `fmul_s`, `fdiv_s`
//! and `sqrt_fix`.

use vstd::prelude::*;
use vstd::arithmetic::power2::*;

verus! {

/// Number of fixed-point units in 1.0.
pub const SCALE: i64 = 1_000_000;

/// Fixed-point representation of one half.
pub const HALF: i64 = 500_000;

pub open spec fn iabs(x: int) -> int {
    if x < 0 {
        -x
    } else {
        x
    }
}

/// Clamp a mathematical integer into the `i64` range.
pub open spec fn sat64(x: int) -> int {
    if x > i64::MAX {
        i64::MAX as int
    } else if x < i64::MIN {
        i64::MIN as int
    } else {
        x
    }
}

/// Division rounding toward zero, the behaviour of machine division.
pub open spec fn tdiv(x: int, d: int) -> int
    recommends
        d != 0,
{
    if (x >= 0) == (d >= 0) {
        iabs(x) / iabs(d)
    } else {
        -(iabs(x) / iabs(d))
    }
}

pub open spec fn fadd_s(a: int, b: int) -> int {
    sat64(a + b)
}

pub open spec fn fsub_s(a: int, b: int) -> int {
    sat64(a - b)
}

pub open spec fn fneg_s(a: int) -> int {
    sat64(-a)
}

pub open spec fn fmul_s(a: int, b: int) -> int {
    sat64(tdiv(a * b, SCALE as int))
}

pub open spec fn fdiv_s(a: int, b: int) -> int {
    if b == 0 {
        0
    } else {
        sat64(tdiv(a * SCALE, b))
    }
}

fn clamp128(s: i128) -> (r: i64)
    ensures
        r as int == sat64(s as int),
{
    if s > i64::MAX as i128 {
        i64::MAX
    } else if s < i64::MIN as i128 {
        i64::MIN
    } else {
        s as i64
    }
}

/// Saturating fixed-point addition.
pub fn fadd(a: i64, b: i64) -> (r: i64)
    ensures
        r as int == fadd_s(a as int, b as int),
{
    clamp128(a as i128 + b as i128)
}

/// Saturating fixed-point subtraction.
pub fn fsub(a: i64, b: i64) -> (r: i64)
    ensures
        r as int == fsub_s(a as int, b as int),
{
    clamp128(a as i128 - b as i128)
}

/// Saturating negation.
pub fn fneg(a: i64) -> (r: i64)
    ensures
        r as int == fneg_s(a as int),
{
    clamp128(-(a as i128))
}

proof fn lemma_tdiv_matches_machine(x: int, d: int)
    requires
        d != 0,
    ensures
        tdiv(x, d) == if x == 0 {
            0int
        } else if x > 0 && d > 0 {
            x / d
        } else if x < 0 && d < 0 {
            (x * -1) / (d * -1)
        } else if x < 0 {
            ((x * -1) / d) * -1
        } else {
            (x / (d * -1)) * -1
        },
{
    if x == 0 {
        assert(iabs(0int) / iabs(d) == 0int / iabs(d));
        assert(0int / iabs(d) == 0int) by (nonlinear_arith)
            requires
                iabs(d) > 0,
        ;
    }
}

proof fn lemma_tdiv_magnitude(x: int, d: int)
    requires
        d != 0,
    ensures
        iabs(tdiv(x, d)) <= iabs(x),
{
    assert(iabs(x) / iabs(d) <= iabs(x) && iabs(x) / iabs(d) >= 0) by (nonlinear_arith)
        requires
            iabs(x) >= 0,
            iabs(d) >= 1,
    ;
}

/// Saturating fixed-point multiplication: `r` is `a * b / SCALE`, rounded
/// toward zero.
pub fn fmul(a: i64, b: i64) -> (r: i64)
    ensures
        r as int == fmul_s(a as int, b as int),
{
    proof {
        assert(iabs(a as int * b as int) <= 0x4000_0000_0000_0000_0000_0000_0000_0000int)
            by (nonlinear_arith)
            requires
                iabs(a as int) <= 0x8000_0000_0000_0000int,
                iabs(b as int) <= 0x8000_0000_0000_0000int,
        ;
    }
    let p: i128 = (a as i128) * (b as i128);
    proof {
        lemma_tdiv_matches_machine(p as int, SCALE as int);
        lemma_tdiv_magnitude(p as int, SCALE as int);
    }
    let q: i128 = match p.checked_div(SCALE as i128) {
        Some(v) => v,
        None => 0,  // unreachable: the divisor is nonzero and the quotient fits
    };
    clamp128(q)
}

/// Saturating fixed-point division: `r` is `a * SCALE / b`, rounded toward
/// zero; division by zero yields 0.
pub fn fdiv(a: i64, b: i64) -> (r: i64)
    ensures
        r as int == fdiv_s(a as int, b as int),
{
    if b == 0 {
        return 0;
    }
    proof {
        assert(iabs(a as int * SCALE) <= 0x8000_0000_0000_0000int * SCALE) by (nonlinear_arith)
            requires
                iabs(a as int) <= 0x8000_0000_0000_0000int,
        ;
    }
    let p: i128 = (a as i128) * (SCALE as i128);
    proof {
        lemma_tdiv_matches_machine(p as int, b as int);
        lemma_tdiv_magnitude(p as int, b as int);
    }
    let q: i128 = match p.checked_div(b as i128) {
        Some(v) => v,
        None => 0,  // unreachable: the divisor is nonzero and the quotient fits
    };
    clamp128(q)
}

/// `r` is an integer square root of `n` when `r^2 <= n < (r+1)^2`.
pub open spec fn is_isqrt(n: int, r: int) -> bool {
    0 <= r && r * r <= n && n < (r + 1) * (r + 1)
}

pub proof fn lemma_isqrt_exists(n: int)
    requires
        n >= 0,
    ensures
        exists|r: int| #[trigger] is_isqrt(n, r),
    decreases n,
{
    if n == 0 {
        assert(is_isqrt(0, 0)) by (nonlinear_arith);
    } else {
        lemma_isqrt_exists(n - 1);
        let r = choose|r: int| #[trigger] is_isqrt(n - 1, r);
        if n < (r + 1) * (r + 1) {
            assert(is_isqrt(n, r));
        } else {
            assert(n == (r + 1) * (r + 1));
            assert((r + 1 + 1) * (r + 1 + 1) > (r + 1) * (r + 1)) by (nonlinear_arith)
                requires
                    r >= 0,
            ;
            assert(is_isqrt(n, r + 1));
        }
    }
}

pub proof fn lemma_isqrt_unique(n: int, r1: int, r2: int)
    requires
        is_isqrt(n, r1),
        is_isqrt(n, r2),
    ensures
        r1 == r2,
{
    if r1 < r2 {
        assert((r1 + 1) * (r1 + 1) <= r2 * r2) by (nonlinear_arith)
            requires
                0 <= r1 + 1 <= r2,
        ;
    }
    if r2 < r1 {
        assert((r2 + 1) * (r2 + 1) <= r1 * r1) by (nonlinear_arith)
            requires
                0 <= r2 + 1 <= r1,
        ;
    }
}

/// Fixed-point square root: the integer square root of `x * SCALE`, so that
/// the result is again in fixed-point units.  Non-positive arguments yield 0.
pub open spec fn sqrt_fix(x: int) -> int {
    if x <= 0 {
        0
    } else {
        choose|r: int| #[trigger] is_isqrt(x * SCALE, r)
    }
}

/// Fixed-point square root.  A negative argument has no real square root
/// and yields 0.
pub fn fsqrt(x: i64) -> (r: i64)
    ensures
        r as int == sqrt_fix(x as int),
        r >= 0,
{
    if x <= 0 {
        return 0;
    }
    proof {
        assert(x as int * SCALE <= 0x8000_0000_0000_0000int * SCALE) by (nonlinear_arith)
            requires
                0 <= x as int <= 0x8000_0000_0000_0000int,
        ;
    }
    let n: u128 = (x as u128) * (SCALE as u128);
    let ghost ni = x as int * SCALE;
    assert(n == ni);
    let mut lo: u128 = 0;
    let mut hi: u128 = 4398046511104;  // 2^42
    proof {
        assert(ni < hi * hi) by (nonlinear_arith)
            requires
                ni <= 0x8000_0000_0000_0000u128 as int * 0x10_0000,
                hi == 4398046511104,
        ;
    }
    while hi - lo > 1
        invariant
            lo * lo <= ni < hi * hi,
            lo < hi <= 4398046511104,
            n == ni,
        decreases hi - lo,
    {
        let mid: u128 = lo + (hi - lo) / 2;
        proof {
            assert(mid * mid < 0x1_0000_0000_0000_0000_0000_0000u128) by (nonlinear_arith)
                requires
                    mid <= 4398046511104,
            ;
        }
        if mid * mid <= n {
            lo = mid;
        } else {
            hi = mid;
        }
    }
    proof {
        assert(is_isqrt(ni, lo as int));
        lemma_isqrt_exists(ni);
        let c = choose|r: int| #[trigger] is_isqrt(ni, r);
        lemma_isqrt_unique(ni, lo as int, c);
    }
    lo as i64
}

/// Fixed-point representation of the natural logarithm of 2.
pub const LN2: i64 = 693_147;

/// Truncating integer division on `i64` for non-negative numerators.
fn idiv(a: i64, b: i64) -> (r: i64)
    requires
        a >= 0,
        b > 0,
    ensures
        r as int == tdiv(a as int, b as int),
        0 <= r <= a,
{
    proof {
        lemma_tdiv_matches_machine(a as int, b as int);
        lemma_tdiv_magnitude(a as int, b as int);
    }
    match a.checked_div(b) {
        Some(v) => v,
        None => 0,  // unreachable under the preconditions
    }
}

/// `k` saturating doublings of `v`.
pub open spec fn dbl_sat(v: int, k: nat) -> int
    decreases k,
{
    if k == 0 {
        v
    } else {
        dbl_sat(fadd_s(v, v), (k - 1) as nat)
    }
}

fn dbl_exec(v: i64, k: u32) -> (res: i64)
    ensures
        res as int == dbl_sat(v as int, k as nat),
    decreases k,
{
    if k == 0 {
        v
    } else {
        dbl_exec(fadd(v, v), k - 1)
    }
}

/// Tail of the Taylor series of the exponential from term `term` at index
/// `k` on, in fixed point: the next term is `term * r / SCALE / (k + 1)`.
pub open spec fn exp_series(r: int, term: int, k: int) -> int
    decreases 13 - k,
{
    if k >= 13 {
        term
    } else {
        fadd_s(term, exp_series(r, tdiv(fmul_s(term, r), k + 1), k + 1))
    }
}

fn exp_series_exec(r: i64, term: i64, k: i64) -> (res: i64)
    requires
        0 <= r,
        0 <= term,
        1 <= k,
    ensures
        res as int == exp_series(r as int, term as int, k as int),
    decreases 13 - k,
{
    if k >= 13 {
        term
    } else {
        let num = fmul(term, r);
        proof {
            assert(iabs(num as int) / iabs(k + 1) >= 0) by (nonlinear_arith)
                requires
                    iabs(num as int) >= 0,
                    iabs(k + 1 as int) >= 1,
            ;
        }
        let next = idiv(num, k + 1);
        fadd(term, exp_series_exec(r, next, k + 1))
    }
}

/// Fixed-point exponential of a non-negative argument: range reduction by
/// `LN2`, a truncated Taylor series on the remainder, and doublings.
/// Arguments of 42 ln 2 or more saturate.
pub open spec fn exp_pos_fix(y: int) -> int
    recommends
        y >= 0,
{
    let k = y / (LN2 as int);
    let r = y % (LN2 as int);
    if k >= 42 {
        i64::MAX as int
    } else {
        dbl_sat(fadd_s(SCALE as int, exp_series(r, fmul_s(SCALE as int, r), 1)), k as nat)
    }
}

/// Fixed-point exponential, `e` raised to `x / SCALE`, totalized by
/// saturation.
pub open spec fn exp_fix(x: int) -> int {
    if x >= 0 {
        exp_pos_fix(x)
    } else {
        fdiv_s(SCALE as int, exp_pos_fix(fneg_s(x)))
    }
}

fn fexp_pos(y: i64) -> (res: i64)
    requires
        y >= 0,
    ensures
        res as int == exp_pos_fix(y as int),
{
    let k = idiv(y, LN2);
    proof {
        assert(tdiv(y as int, LN2 as int) == y as int / (LN2 as int));
        assert(0 <= (y as int / (LN2 as int)) * LN2 <= y) by (nonlinear_arith)
            requires
                y >= 0,
                LN2 == 693_147,
        ;
        assert(y as int % (LN2 as int) == y - (y as int / (LN2 as int)) * LN2);
    }
    let r = y - k * LN2;
    if k >= 42 {
        i64::MAX
    } else {
        let t1 = fmul(SCALE, r);
        let sum = fadd(SCALE, exp_series_exec(r, t1, 1));
        dbl_exec(sum, k as u32)
    }
}

/// Fixed-point exponential.
pub fn fexp(x: i64) -> (res: i64)
    ensures
        res as int == exp_fix(x as int),
{
    if x >= 0 {
        fexp_pos(x)
    } else {
        let y = fneg(x);
        fdiv(SCALE, fexp_pos(y))
    }
}

/// Halve `m` until it falls under `2 * SCALE`; the result is the remaining
/// mantissa and the number of halvings.
pub open spec fn ln_shift_down(m: int) -> (int, int)
    decreases m,
{
    if m < 2 * SCALE {
        (m, 0int)
    } else {
        let p = ln_shift_down(m / 2);
        (p.0, p.1 + 1)
    }
}

/// Double `m` until it reaches `SCALE`; the result is the mantissa and the
/// number of doublings.
pub open spec fn ln_shift_up(m: int) -> (int, int)
    decreases 2 * SCALE - m,
{
    if m >= SCALE {
        (m, 0int)
    } else if m <= 0 {
        (SCALE as int, 0int)
    } else {
        let p = ln_shift_up(2 * m);
        (p.0, p.1 + 1)
    }
}

fn ln_shift_down_exec(m: i64) -> (res: (i64, u32))
    requires
        m >= SCALE,
    ensures
        (res.0 as int, res.1 as int) == ln_shift_down(m as int),
        SCALE <= res.0 < 2 * SCALE,
        res.0 * pow2(res.1 as nat) <= m,
        res.1 <= 63,
    decreases m,
{
    if m < 2 * SCALE {
        proof {
            lemma2_to64();
        }
        (m, 0)
    } else {
        let half = m / 2;
        let p = ln_shift_down_exec(half);
        proof {
            lemma_pow2_unfold((p.1 + 1) as nat);
            assert(p.0 * pow2((p.1 + 1) as nat) == 2 * (p.0 * pow2(p.1 as nat))) by (nonlinear_arith)
                requires
                    pow2((p.1 + 1) as nat) == 2 * pow2(p.1 as nat),
            ;
            assert(p.1 < 63) by {
                if p.1 >= 63 {
                    if p.1 > 63 {
                        lemma_pow2_strictly_increases(63, p.1 as nat);
                    }
                    lemma2_to64_rest();
                    assert(p.0 * pow2(p.1 as nat) >= SCALE * 0x8000_0000_0000_0000)
                        by (nonlinear_arith)
                        requires
                            p.0 >= SCALE,
                            pow2(p.1 as nat) >= 0x8000_0000_0000_0000,
                            SCALE == 1_000_000,
                    ;
                }
            }
        }
        (p.0, p.1 + 1)
    }
}

fn ln_shift_up_exec(m: i64) -> (res: (i64, u32))
    requires
        1 <= m < 2 * SCALE,
    ensures
        (res.0 as int, res.1 as int) == ln_shift_up(m as int),
        SCALE <= res.0 < 2 * SCALE,
        res.1 <= 21,
        m * pow2(res.1 as nat) == res.0,
    decreases 2 * SCALE - m,
{
    if m >= SCALE {
        proof {
            lemma2_to64();
        }
        (m, 0)
    } else {
        let p = ln_shift_up_exec(2 * m);
        proof {
            lemma_pow2_unfold((p.1 + 1) as nat);
            assert(m * pow2((p.1 + 1) as nat) == (2 * m) * pow2(p.1 as nat)) by (nonlinear_arith)
                requires
                    pow2((p.1 + 1) as nat) == 2 * pow2(p.1 as nat),
            ;
            assert(p.1 + 1 <= 21) by {
                if p.1 + 1 > 21 {
                    lemma_pow2_strictly_increases(21, (p.1 + 1) as nat);
                    lemma2_to64();
                    assert(m * pow2((p.1 + 1) as nat) >= pow2(21)) by (nonlinear_arith)
                        requires
                            m >= 1,
                            pow2((p.1 + 1) as nat) >= pow2(21),
                    ;
                }
            }
        }
        (p.0, p.1 + 1)
    }
}

/// Tail of the series `ln(m) = 2 (z + z^3/3 + z^5/5 + ...)` from the term
/// with numerator `term` at index `k` on; `zsq` is `z^2` in fixed point.
pub open spec fn ln_series(zsq: int, term: int, k: int) -> int
    decreases 7 - k,
{
    if k >= 7 {
        0
    } else {
        fadd_s(tdiv(term, 2 * k + 1), ln_series(zsq, fmul_s(term, zsq), k + 1))
    }
}

fn ln_series_exec(zsq: i64, term: i64, k: i64) -> (res: i64)
    requires
        0 <= zsq,
        0 <= term,
        0 <= k,
    ensures
        res as int == ln_series(zsq as int, term as int, k as int),
    decreases 7 - k,
{
    if k >= 7 {
        0
    } else {
        let c = idiv(term, 2 * k + 1);
        fadd(c, ln_series_exec(zsq, fmul(term, zsq), k + 1))
    }
}

/// Fixed-point natural logarithm, totalized: a non-positive argument has
/// no real logarithm and yields 0.
pub open spec fn ln_fix(x: int) -> int {
    if x <= 0 {
        0
    } else {
        let md = if x >= SCALE {
            ln_shift_down(x)
        } else {
            ln_shift_up(x)
        };
        let sign: int = if x >= SCALE {
            1
        } else {
            -1
        };
        let m = md.0;
        let z = fdiv_s(m - SCALE, m + SCALE);
        let zsq = fmul_s(z, z);
        let sum = ln_series(zsq, z, 0);
        fadd_s(sign * md.1 * LN2, fadd_s(sum, sum))
    }
}

/// Fixed-point natural logarithm.
pub fn fln(x: i64) -> (res: i64)
    ensures
        res as int == ln_fix(x as int),
{
    if x <= 0 {
        return 0;
    }
    let (m, k, neg): (i64, u32, bool) = if x >= SCALE {
        let p = ln_shift_down_exec(x);
        (p.0, p.1, false)
    } else {
        let p = ln_shift_up_exec(x);
        (p.0, p.1, true)
    };
    let z = fdiv(m - SCALE, m + SCALE);
    let zsq = fmul(z, z);
    let sum = ln_series_exec(zsq, z, 0);
    let kl = (k as i64) * LN2;
    let base = if neg {
        -kl
    } else {
        kl
    };
    proof {
        let xi = x as int;
        let md = if xi >= SCALE {
            ln_shift_down(xi)
        } else {
            ln_shift_up(xi)
        };
        assert(md.0 == m as int && md.1 == k as int);
        if xi >= SCALE {
            assert(base as int == 1 * md.1 * LN2) by (nonlinear_arith)
                requires
                    base as int == md.1 * (LN2 as int),
            ;
        } else {
            assert(base as int == -1 * md.1 * LN2) by (nonlinear_arith)
                requires
                    base as int == -(md.1 * (LN2 as int)),
            ;
        }
    }
    fadd(base, fadd(sum, sum))
}

pub proof fn lemma_dbl_sat_bounds(v: int, k: nat)
    requires
        i64::MIN <= v <= i64::MAX,
    ensures
        i64::MIN <= dbl_sat(v, k) <= i64::MAX,
    decreases k,
{
    if k > 0 {
        lemma_dbl_sat_bounds(fadd_s(v, v), (k - 1) as nat);
    }
}

/// The fixed-point exponential always fits the value range.
pub proof fn lemma_exp_fix_bounds(x: int)
    ensures
        i64::MIN <= exp_fix(x) <= i64::MAX,
{
    if x >= 0 {
        let k = x / (LN2 as int);
        let r = x % (LN2 as int);
        if k < 42 {
            lemma_dbl_sat_bounds(
                fadd_s(SCALE as int, exp_series(r, fmul_s(SCALE as int, r), 1)),
                k as nat,
            );
        }
    } else {
        let y = fneg_s(x);
        let k = y / (LN2 as int);
        let r = y % (LN2 as int);
        if k < 42 {
            lemma_dbl_sat_bounds(
                fadd_s(SCALE as int, exp_series(r, fmul_s(SCALE as int, r), 1)),
                k as nat,
            );
        }
    }
}


} // verus!
