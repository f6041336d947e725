//! Regression, interpolation and the normal inverse CDF, and the
//! correlated-variate simulator.

use vstd::prelude::*;
use rand::Rng;
use crate::fixnum::{
    fadd, fsub, fmul, fdiv, fneg, fsqrt, fln, fadd_s, fsub_s, fmul_s, fdiv_s, fneg_s, ln_fix,
    sqrt_fix, SCALE, HALF,
};
use crate::matrix::{Matrix, cholesky, transpose, multiply, transpose_spec, multiply_spec,
    chol_matrix_spec};

verus! {

/// The ordinary least-squares parameter vector by the normal equations:
/// `(X^t X)^-1 X^t y` over the fixed-point matrix operations.
pub open spec fn normal_equations_spec(xd: Seq<i64>, rows: int, cols: int, y: Seq<i64>) -> Seq<i64> {
    let xt = crate::matrix::transpose_spec(xd, rows, cols);
    let nrm = crate::matrix::multiply_spec(xt, xd, cols, rows, cols);
    let inv = crate::matrix::gj_inverse(nrm, cols);
    let c = crate::matrix::multiply_spec(inv, xt, cols, cols, rows);
    crate::matrix::multiply_spec(c, y, cols, rows, 1)
}

/// Solves the normal equations `(X^t X)^-1 X^t y` for the parameter vector
/// of an ordinary least-squares fit; `x` already carries the trailing
/// column of ones for the intercept.
pub fn linear_regression(x: &Matrix, y: &Vec<i64>) -> (d: Vec<i64>)
    requires
        x.wf(),
        x.rows == y@.len(),
        x.cols >= 1,
        x.rows * x.cols <= usize::MAX,
        x.cols * (2 * x.cols) <= usize::MAX,
    ensures
        d@.len() == x.cols,
        d@ == normal_equations_spec(x.data@, x.rows as int, x.cols as int, y@),
{
    proof {
        assert(x.cols * x.cols <= x.cols * (2 * x.cols) && x.rows as int * x.cols == x.cols as int
            * x.rows && x.cols as int * x.cols == x.cols as int * x.cols && y@.len() as int * 1
            == y@.len()) by (nonlinear_arith)
            requires
                x.cols >= 1,
                x.rows >= 0,
        ;
    }
    let xt = x.transpose();
    let a = xt.multiply(x);
    let b = a.inverse();
    let xt2 = x.transpose();
    let c = b.multiply(&xt2);
    proof {
        assert(c.rows as int * c.cols == c.data@.len());
        assert(c.rows as int * 1 == c.rows);
    }
    let d = multiply(&c.data, c.rows, c.cols, y, y.len(), 1);
    d
}

/// The running sums of a one-variable regression over the first `k` points:
/// (count, sum x, sum y, sum xy, sum xx), each accumulated with the
/// saturating operations.
pub open spec fn ols_sums(d: Seq<(i64, i64)>, k: int) -> (int, int, int, int, int)
    decreases k,
{
    if k <= 0 {
        (0int, 0int, 0int, 0int, 0int)
    } else {
        let p = ols_sums(d, k - 1);
        let x = d[k - 1].0 as int;
        let y = d[k - 1].1 as int;
        (
            fadd_s(p.0, SCALE as int),
            fadd_s(p.1, x),
            fadd_s(p.2, y),
            fadd_s(p.3, fmul_s(x, y)),
            fadd_s(p.4, fmul_s(x, x)),
        )
    }
}

/// Ordinary least squares with a single predictor: the pair
/// (intercept, slope) from the closed-form sums.
#[verifier::loop_isolation(false)]
pub fn linear_regression_one_var(data: &Vec<(i64, i64)>) -> (r: (i64, i64))
    ensures
        ({
            let s = ols_sums(data@, data@.len() as int);
            let beta = fdiv_s(
                fsub_s(fmul_s(s.0, s.3), fmul_s(s.1, s.2)),
                fsub_s(fmul_s(s.0, s.4), fmul_s(s.1, s.1)),
            );
            let alpha = fsub_s(fdiv_s(s.2, s.0), fmul_s(beta, fdiv_s(s.1, s.0)));
            r.0 as int == alpha && r.1 as int == beta
        }),
{
    let mut n: i64 = 0;
    let mut sum_x: i64 = 0;
    let mut sum_y: i64 = 0;
    let mut sum_xy: i64 = 0;
    let mut sum_xx: i64 = 0;
    let mut i: usize = 0;
    while i < data.len()
        invariant
            i <= data@.len(),
            (n as int, sum_x as int, sum_y as int, sum_xy as int, sum_xx as int) == ols_sums(
                data@,
                i as int,
            ),
        decreases data@.len() - i,
    {
        let (x, y) = data[i];
        n = fadd(n, SCALE);
        sum_x = fadd(sum_x, x);
        sum_y = fadd(sum_y, y);
        sum_xy = fadd(sum_xy, fmul(x, y));
        sum_xx = fadd(sum_xx, fmul(x, x));
        i += 1;
    }
    let beta = fdiv(fsub(fmul(n, sum_xy), fmul(sum_x, sum_y)), fsub(fmul(n, sum_xx), fmul(sum_x, sum_x)));
    let alpha = fsub(fdiv(sum_y, n), fmul(beta, fdiv(sum_x, n)));
    (alpha, beta)
}

/// Some point's abscissa equals `x`.
pub open spec fn curve_has(d: Seq<(i64, i64)>, x: int) -> bool {
    exists|i: int| 0 <= i < d.len() && d[i].0 == x
}

/// The index of the point whose abscissa equals `x`.
pub open spec fn curve_pos(d: Seq<(i64, i64)>, x: int) -> int {
    choose|i: int| 0 <= i < d.len() && d[i].0 == x
}

/// `u` is the sorted insertion point of `x` among the abscissas.
pub open spec fn is_curve_ins(d: Seq<(i64, i64)>, x: int, u: int) -> bool {
    &&& 0 <= u <= d.len()
    &&& forall|j: int| 0 <= j < u ==> d[j].0 < x
    &&& forall|j: int| u <= j < d.len() ==> d[j].0 > x
}

/// The sorted insertion point of `x` among the abscissas.
pub open spec fn curve_ins(d: Seq<(i64, i64)>, x: int) -> int {
    choose|u: int| is_curve_ins(d, x, u)
}

/// The abscissas are strictly increasing.
pub open spec fn curve_sorted(d: Seq<(i64, i64)>) -> bool {
    forall|i: int, j: int| 0 <= i < j < d.len() ==> d[i].0 < d[j].0
}

pub proof fn lemma_curve_pos_unique(d: Seq<(i64, i64)>, x: int, i: int)
    requires
        curve_sorted(d),
        0 <= i < d.len(),
        d[i].0 == x,
    ensures
        curve_has(d, x),
        curve_pos(d, x) == i,
{
    assert(curve_has(d, x));
    let j = curve_pos(d, x);
    if i < j {
        assert(d[i].0 < d[j].0);
    }
    if j < i {
        assert(d[j].0 < d[i].0);
    }
}

pub proof fn lemma_curve_ins_unique(d: Seq<(i64, i64)>, x: int, u: int)
    requires
        is_curve_ins(d, x, u),
    ensures
        !curve_has(d, x),
        curve_ins(d, x) == u,
{
    let v = curve_ins(d, x);
    assert(is_curve_ins(d, x, v));
    if u < v {
        assert(d[u].0 > x && d[u].0 < x);
    }
    if v < u {
        assert(d[v].0 > x && d[v].0 < x);
    }
}

/// The value of linear interpolation over a list of (x, y) points with
/// strictly increasing abscissas: clamped to the end values outside the
/// range, the exact ordinate at a grid point, and the linear blend
/// strictly between two points.
pub open spec fn interp_value(d: Seq<(i64, i64)>, xi: int) -> int {
    if d.len() == 0 {
        0
    } else if xi <= d[0].0 {
        d[0].1 as int
    } else if xi >= d[d.len() - 1].0 {
        d[d.len() - 1].1 as int
    } else if curve_has(d, xi) {
        d[curve_pos(d, xi)].1 as int
    } else {
        let u = curve_ins(d, xi);
        fadd_s(
            fmul_s(
                fdiv_s(
                    fsub_s(d[u].1 as int, d[u - 1].1 as int),
                    fsub_s(d[u].0 as int, d[u - 1].0 as int),
                ),
                fsub_s(xi, d[u - 1].0 as int),
            ),
            d[u - 1].1 as int,
        )
    }
}

/// Linear interpolation over a list of (x, y) points with strictly
/// increasing abscissas.
#[verifier::loop_isolation(false)]
pub fn interpolate(data: &Vec<(i64, i64)>, x: i64) -> (r: i64)
    requires
        data@.len() >= 1,
        curve_sorted(data@),
    ensures
        r as int == interp_value(data@, x as int),
{
    if x <= data[0].0 {
        return data[0].1;
    }
    if x >= data[data.len() - 1].0 {
        return data[data.len() - 1].1;
    }
    let mut lo: usize = 0;
    let mut hi: usize = data.len();
    loop
        invariant
            lo <= hi <= data@.len(),
            forall|j: int| 0 <= j < lo ==> data@[j].0 < x,
            forall|j: int| hi <= j < data@.len() ==> data@[j].0 > x,
            data@.len() >= 1,
            curve_sorted(data@),
            data@[0].0 < x,
            data@[data@.len() - 1].0 > x,
        decreases hi - lo,
    {
        if lo >= hi {
            break ;
        }
        let mid: usize = lo + (hi - lo) / 2;
        let v: i64 = data[mid].0;
        if v == x {
            proof {
                lemma_curve_pos_unique(data@, x as int, mid as int);
            }
            return data[mid].1;
        } else if v < x {
            proof {
                assert(forall|j: int|
                    0 <= j <= mid ==> data@[j].0 <= data@[mid as int].0);
            }
            lo = mid + 1;
        } else {
            proof {
                assert(forall|j: int|
                    mid <= j < data@.len() ==> data@[j].0 >= data@[mid as int].0);
            }
            hi = mid;
        }
    }
    proof {
        lemma_curve_ins_unique(data@, x as int, lo as int);
        assert(lo > 0);
        assert(lo < data@.len());
    }
    let up: usize = lo;
    let down: usize = lo - 1;
    let num = fsub(data[up].1, data[down].1);
    let den = fsub(data[up].0, data[down].0);
    fadd(fmul(fdiv(num, den), fsub(x, data[down].0)), data[down].1)
}

/// The rational-polynomial core of the normal inverse CDF, evaluated at a
/// tail probability `p`: with `t = sqrt(2 ln(1/p))`,
/// `t - (c0 + c1 t + c2 t^2) / (1 + d1 t + d2 t^2 + d3 t^3)`.
pub open spec fn normal_g_fix(p: int) -> int {
    let u = fdiv_s(SCALE as int, p);
    let l = ln_fix(u);
    let t = sqrt_fix(fadd_s(l, l));
    let t2 = fmul_s(t, t);
    let t3 = fmul_s(t2, t);
    let num = fadd_s(fadd_s(2_515_517int, fmul_s(802_853int, t)), fmul_s(10_328int, t2));
    let den = fadd_s(
        fadd_s(fadd_s(SCALE as int, fmul_s(1_432_788int, t)), fmul_s(189_269int, t2)),
        fmul_s(1_308int, t3),
    );
    fsub_s(t, fdiv_s(num, den))
}

/// The normal inverse CDF: antisymmetric composition of the rational
/// approximation around one half.
pub open spec fn invcdf_fix(p: int) -> int {
    if p < HALF {
        fneg_s(normal_g_fix(p))
    } else {
        normal_g_fix(SCALE as int - p)
    }
}

fn normal_g(p: i64) -> (r: i64)
    ensures
        r as int == normal_g_fix(p as int),
{
    let u = fdiv(SCALE, p);
    let l = fln(u);
    let t = fsqrt(fadd(l, l));
    let c0: i64 = 2_515_517;
    let c1: i64 = 802_853;
    let c2: i64 = 10_328;
    let d1: i64 = 1_432_788;
    let d2: i64 = 189_269;
    let d3: i64 = 1_308;
    let t2 = fmul(t, t);
    let t3 = fmul(t2, t);
    let num = fadd(fadd(c0, fmul(c1, t)), fmul(c2, t2));
    let den = fadd(fadd(fadd(SCALE, fmul(d1, t)), fmul(d2, t2)), fmul(d3, t3));
    fsub(t, fdiv(num, den))
}

/// The inverse CDF of the standard normal distribution, by the fixed
/// rational-polynomial approximation, antisymmetric about one half.
pub fn normal_invcdf(p: i64) -> (r: i64)
    ensures
        r as int == invcdf_fix(p as int),
{
    if p < HALF {
        fneg(normal_g(p))
    } else {
        normal_g(SCALE - p)
    }
}

/// Antisymmetry of the normal inverse CDF: for probabilities below one
/// half, `invcdf(p) == -invcdf(1 - p)`.  At exactly one half the rational
/// approximation itself is not exactly antisymmetric, so that point is
/// excluded; by substitution the law covers probabilities above one half
/// as well.
pub proof fn lemma_invcdf_antisymmetric(p: int)
    requires
        0 < p < HALF,
    ensures
        invcdf_fix(p) == fneg_s(invcdf_fix(SCALE as int - p)),
{
    assert(SCALE as int - p > HALF);
    assert(invcdf_fix(SCALE as int - p) == normal_g_fix(p));
    assert(invcdf_fix(p) == fneg_s(normal_g_fix(p)));
}

/// Relies on rand's `Rng::gen_range` on an integer range: the result is
/// uniformly distributed in the half-open range `1..SCALE`, so it is a
/// uniform draw from the open unit interval in fixed-point units.
#[verifier::external_body]
fn sample_open_unit() -> (r: i64)
    ensures
        1 <= r < SCALE,
{
    rand::thread_rng().gen_range(1..SCALE)
}

/// Each draw mapped through the normal inverse CDF.
pub open spec fn invcdf_map(ps: Seq<i64>) -> Seq<i64> {
    Seq::new(ps.len(), |k: int| invcdf_fix(ps[k] as int) as i64)
}

/// `out` is a simulation outcome for the draws `ps`: every draw lies
/// strictly inside the unit interval, and `out` is the transposed product
/// of the normal variates with the transposed Cholesky factor of the
/// correlation matrix.
pub open spec fn sim_witness(
    ps: Seq<i64>,
    corr: Seq<i64>,
    num_var: int,
    sample_size: int,
    out: Seq<i64>,
) -> bool {
    &&& ps.len() == sample_size * num_var
    &&& forall|k: int| 0 <= k < ps.len() ==> 1 <= #[trigger] ps[k] < SCALE
    &&& out == transpose_spec(
        multiply_spec(
            invcdf_map(ps),
            transpose_spec(chol_matrix_spec(corr, num_var), num_var, num_var),
            sample_size,
            num_var,
            num_var,
        ),
        sample_size,
        num_var,
    )
}

/// Simulates `sample_size` vectors of `num_var` standard normal variates
/// with the correlation structure of `correlation_matrix` imposed through
/// its Cholesky factor.  The layout of the result is variate-major:
/// the sample for variable `j` of draw `i` is at `j * sample_size + i`.
#[verifier::loop_isolation(false)]
pub fn simulate_normal_variates(num_var: usize, sample_size: usize, correlation_matrix: &Vec<i64>) -> (r:
    Vec<i64>)
    requires
        correlation_matrix@.len() == num_var * num_var,
        sample_size * num_var <= usize::MAX,
    ensures
        r@.len() == sample_size * num_var,
        exists|ps: Seq<i64>|
            sim_witness(ps, correlation_matrix@, num_var as int, sample_size as int, r@),
{
    let total: usize = sample_size * num_var;
    let mut result: Vec<i64> = vec![0i64; total];
    let ghost mut draws: Seq<i64> = Seq::empty();
    let mut i: usize = 0;
    while i < sample_size
        invariant
            i <= sample_size,
            result@.len() == sample_size * num_var,
            draws.len() == i * num_var,
            forall|k: int| 0 <= k < draws.len() ==> 1 <= #[trigger] draws[k] < SCALE,
            forall|k: int|
                0 <= k < draws.len() ==> #[trigger] result@[k] as int == invcdf_fix(
                    draws[k] as int,
                ),
        decreases sample_size - i,
    {
        let mut j: usize = 0;
        while j < num_var
            invariant
                i < sample_size,
                j <= num_var,
                result@.len() == sample_size * num_var,
                draws.len() == i * num_var + j,
                forall|k: int| 0 <= k < draws.len() ==> 1 <= #[trigger] draws[k] < SCALE,
                forall|k: int|
                    0 <= k < draws.len() ==> #[trigger] result@[k] as int == invcdf_fix(
                        draws[k] as int,
                    ),
            decreases num_var - j,
        {
            proof {
                crate::matrix::lemma_grid_bounds(
                    i as int,
                    j as int,
                    sample_size as int,
                    num_var as int,
                );
            }
            let p = sample_open_unit();
            let normal_val = normal_invcdf(p);
            let idx: usize = i * num_var + j;
            result[idx] = normal_val;
            proof {
                draws = draws.push(p);
            }
            j += 1;
        }
        proof {
            assert(i as int * num_var + num_var == (i + 1) as int * num_var) by (nonlinear_arith);
        }
        i += 1;
    }
    proof {
        assert(result@ =~= invcdf_map(draws));
        let n = num_var as int;
        crate::fixnum::lemma_isqrt_exists(correlation_matrix@.len() as int);
        assert(crate::fixnum::is_isqrt((num_var * num_var) as int, num_var as int))
            by (nonlinear_arith)
            requires
                num_var >= 0,
        ;
        assert(crate::fixnum::is_isqrt(
            correlation_matrix@.len() as int,
            crate::matrix::mat_side(correlation_matrix@.len()),
        ));
        crate::fixnum::lemma_isqrt_unique(
            correlation_matrix@.len() as int,
            num_var as int,
            crate::matrix::mat_side(correlation_matrix@.len()),
        );
    }
    let chol = cholesky(&correlation_matrix);
    let chol_transposed = transpose(&chol, num_var, num_var);
    let x = multiply(&result, sample_size, num_var, &chol_transposed, num_var, num_var);
    let y = transpose(&x, sample_size, num_var);
    proof {
        assert(sample_size as int * num_var == num_var as int * sample_size) by (nonlinear_arith);
        assert(sim_witness(
            draws,
            correlation_matrix@,
            num_var as int,
            sample_size as int,
            y@,
        ));
    }
    y
}

} // verus!
