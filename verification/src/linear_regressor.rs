//! Multi-variate linear regression.
//!
//! A regressor is a parameter vector of length `num_predictors + 1`, the
//! last entry being the intercept; it is fitted once by ordinary least
//! squares through the normal equations and evaluates a prediction as a dot
//! product with an implicit trailing one.

use vstd::prelude::*;
use crate::fixnum::{fadd, fmul, fadd_s, fmul_s, SCALE};
use crate::matrix::Matrix;
use crate::math::{linear_regression, normal_equations_spec};

verus! {

/// The design matrix of a fit: `n` rows of `nv` features each, extended by
/// a trailing column of ones for the intercept.
pub open spec fn design_spec(x: Seq<i64>, n: int, nv: int) -> Seq<i64> {
    Seq::new(
        (n * (nv + 1)) as nat,
        |idx: int|
            {
                let r = idx / (nv + 1);
                let j = idx % (nv + 1);
                if j < nv {
                    x[r * nv + j]
                } else {
                    SCALE
                }
            },
    )
}

/// Failure of a regression fit.
#[derive(Clone, Copy, Debug, PartialEq, Eq, Structural)]
pub enum RegressionError {
    /// An empty response vector: there is nothing to fit.
    NoDataCases,
}

/// A fitted linear regressor.
pub struct LinearRegressor {
    pub parameters: Vec<i64>,
}

/// The dot product of the first `k` parameters with the first `k` features,
/// accumulated left to right with the saturating operations.
pub open spec fn reg_dot(p: Seq<i64>, x: Seq<i64>, k: int) -> int
    decreases k,
{
    if k <= 0 {
        0
    } else {
        fadd_s(reg_dot(p, x, k - 1), fmul_s(p[k - 1] as int, x[k - 1] as int))
    }
}

impl LinearRegressor {
    /// Fits a regressor by ordinary least squares from `x` (`n` rows of
    /// `num_variables` features, flat) against `y` (`n` responses); a
    /// trailing column of ones is appended for the intercept.  An empty
    /// response vector cannot be fitted.
    #[verifier::loop_isolation(false)]
    pub fn create_regressor(x: &Vec<i64>, y: &Vec<i64>) -> (r: Result<
        LinearRegressor,
        RegressionError,
    >)
        requires
            ({
                let n = y@.len() as int;
                let nv = if n > 0 {
                    x@.len() as int / n
                } else {
                    0int
                };
                n > 0 ==> {
                    &&& n * (nv + 1) <= usize::MAX
                    &&& (nv + 1) * (2 * (nv + 1)) <= usize::MAX
                    &&& x@.len() + y@.len() <= usize::MAX
                }
            }),
        ensures
            ({
                let n = y@.len() as int;
                let nv = if n > 0 {
                    x@.len() as int / n
                } else {
                    0int
                };
                match r {
                    Ok(reg) => n > 0 && reg.parameters@.len() == nv + 1
                        && reg.parameters@ == normal_equations_spec(
                        design_spec(x@, n, nv),
                        n,
                        nv + 1,
                        y@,
                    ),
                    Err(e) => n == 0 && e == RegressionError::NoDataCases,
                }
            }),
    {
        if y.len() > 0 {
            let n: usize = y.len();
            let num_variables: usize = x.len() / n;
            let ghost nv = num_variables as int;
            proof {
                assert(nv * n <= x@.len()) by (nonlinear_arith)
                    requires
                        nv == x@.len() as int / n as int,
                        n > 0,
                        nv >= 0,
                ;
            }
            let width: usize = num_variables + 1;
            let total: usize = n * width;
            let mut m_data: Vec<i64> = vec![0i64; total];
            let mut i: usize = 0;
            while i < n
                invariant
                    i <= n,
                    m_data@.len() == n * width,
                    width == nv + 1,
                    forall|i2: int, j2: int|
                        0 <= i2 < i && 0 <= j2 < width ==> #[trigger] m_data@[i2 * width + j2] == (
                        if j2 < nv {
                            x@[i2 * nv + j2]
                        } else {
                            SCALE
                        }),
                decreases n - i,
            {
                let mut j: usize = 0;
                while j < num_variables
                    invariant
                        i < n,
                        j <= num_variables,
                        m_data@.len() == n * width,
                        width == nv + 1,
                        forall|i2: int, j2: int|
                            0 <= i2 < i && 0 <= j2 < width ==> #[trigger] m_data@[i2 * width + j2]
                                == (if j2 < nv {
                                x@[i2 * nv + j2]
                            } else {
                                SCALE
                            }),
                        forall|j2: int|
                            0 <= j2 < j ==> #[trigger] m_data@[i as int * width + j2] == x@[i as int
                                * nv + j2],
                    decreases num_variables - j,
                {
                    proof {
                        crate::matrix::lemma_grid_bounds(i as int, j as int, n as int, width as int);
                        assert(i as int * nv + j < n as int * nv <= x@.len()) by (nonlinear_arith)
                            requires
                                0 <= i < n,
                                0 <= j < nv,
                                nv * n <= x@.len(),
                        ;
                        assert(x.len() == x@.len());
                    }
                    let src: usize = i * num_variables + j;
                    let dst: usize = i * width + j;
                    m_data[dst] = x[src];
                    proof {
                        assert forall|i2: int, j2: int|
                            0 <= i2 < i && 0 <= j2 < width implies #[trigger] m_data@[i2 * width
                            + j2] == (if j2 < nv {
                            x@[i2 * nv + j2]
                        } else {
                            SCALE
                        }) by {
                            assert(i2 * width + j2 < i as int * width) by (nonlinear_arith)
                                requires
                                    0 <= i2 < i,
                                    0 <= j2 < width,
                            ;
                        }
                    }
                    j += 1;
                }
                proof {
                    crate::matrix::lemma_grid_bounds(
                        i as int,
                        num_variables as int,
                        n as int,
                        width as int,
                    );
                }
                let dst: usize = i * width + num_variables;
                m_data[dst] = crate::fixnum::SCALE;
                proof {
                    assert forall|i2: int, j2: int|
                        0 <= i2 < i + 1 && 0 <= j2 < width implies #[trigger] m_data@[i2 * width
                        + j2] == (if j2 < nv {
                        x@[i2 * nv + j2]
                    } else {
                        SCALE
                    }) by {
                        if i2 < i {
                            assert(i2 * width + j2 < i as int * width) by (nonlinear_arith)
                                requires
                                    0 <= i2 < i,
                                    0 <= j2 < width,
                            ;
                        }
                    }
                }
                i += 1;
            }
            proof {
                assert forall|idx: int|
                    0 <= idx < n as int * width implies m_data@[idx] == design_spec(
                    x@,
                    n as int,
                    nv,
                )[idx] by {
                    crate::matrix::lemma_flat_decompose(idx, n as int, width as int);
                }
                assert(m_data@ =~= design_spec(x@, n as int, nv));
            }
            let m_x = Matrix { data: m_data, rows: n, cols: width };
            let params = linear_regression(&m_x, y);
            Ok(LinearRegressor { parameters: params })
        } else {
            Err(RegressionError::NoDataCases)
        }
    }

    /// Evaluates the regression at a feature vector: the dot product of the
    /// leading parameters with the features, plus the intercept.
    #[verifier::loop_isolation(false)]
    pub fn get_value(&self, x: &Vec<i64>) -> (r: i64)
        requires
            self.parameters@.len() == x@.len() + 1,
        ensures
            r as int == fadd_s(
                reg_dot(self.parameters@, x@, x@.len() as int),
                self.parameters@[self.parameters@.len() - 1] as int,
            ),
    {
        let mut res: i64 = 0;
        let mut i: usize = 0;
        while i < x.len()
            invariant
                i <= x@.len(),
                res as int == reg_dot(self.parameters@, x@, i as int),
            decreases x@.len() - i,
        {
            res = fadd(res, fmul(self.parameters[i], x[i]));
            i += 1;
        }
        res = fadd(res, self.parameters[self.parameters.len() - 1]);
        res
    }
}

} // verus!
