//! Interest rate curves: a list of (tenor, rate) points with interpolated
//! lookup, discount factors and forward rates, in fixed point.

use vstd::prelude::*;
use crate::fixnum::{fadd, fsub, fmul, fdiv, fneg, fexp, fln, fadd_s, fsub_s, fmul_s, fdiv_s, fneg_s,
    exp_fix, ln_fix, SCALE};
use crate::math::{interpolate, interp_value, curve_sorted};

verus! {

/// A curve is a list of (tenor, value) points; tenors are year fractions.
#[derive(Clone, Debug)]
pub struct Curve {
    pub data: Vec<(i64, i64)>,
}

/// `b` raised to the power `e`, as `exp(e ln b)` in fixed point.
pub open spec fn pow_fix(b: int, e: int) -> int {
    exp_fix(fmul_s(e, ln_fix(b)))
}

/// `b` raised to the power `e`, computed as `exp(e ln b)`.  A non-positive
/// base has no real logarithm; it is taken as 0 and the power degenerates
/// to `exp(0) == 1`.
fn fpow(b: i64, e: i64) -> (r: i64)
    ensures
        r as int == pow_fix(b as int, e as int),
{
    fexp(fmul(e, fln(b)))
}

impl Curve {
    /// A usable curve: at least one point, with strictly increasing tenors.
    pub open spec fn wf(&self) -> bool {
        &&& self.data@.len() >= 1
        &&& curve_sorted(self.data@)
    }

    /// Creates a curve from a list of (tenor, value) points.
    pub fn from_vector(data: &Vec<(i64, i64)>) -> (c: Curve)
        ensures
            c.data@ == data@,
    {
        let mut d: Vec<(i64, i64)> = Vec::new();
        let mut i: usize = 0;
        while i < data.len()
            invariant
                i <= data@.len(),
                d@ == data@.subrange(0, i as int),
            decreases data@.len() - i,
        {
            d.push(data[i]);
            proof {
                assert(d@ == data@.subrange(0, i + 1 as int));
            }
            i += 1;
        }
        proof {
            assert(data@.subrange(0, data@.len() as int) == data@);
        }
        Curve { data: d }
    }

    /// The interpolated curve value at a tenor.
    pub fn get_value(&self, tenor: i64) -> (r: Result<i64, ()>)
        requires
            self.wf(),
        ensures
            r == Ok::<i64, ()>(interp_value(self.data@, tenor as int) as i64),
    {
        Ok(interpolate(&self.data, tenor))
    }

    /// Discount factor at a tenor with annual compounding:
    /// `(1 + r)^(-tenor)`.
    pub fn get_annu_df(&self, tenor: i64) -> (r: Result<i64, ()>)
        requires
            self.wf(),
        ensures
            ({
                let rate = interp_value(self.data@, tenor as int);
                r == Ok::<i64, ()>(
                    pow_fix(fadd_s(SCALE as int, rate), fneg_s(tenor as int)) as i64,
                )
            }),
    {
        let rate = interpolate(&self.data, tenor);
        Ok(fpow(fadd(SCALE, rate), fneg(tenor)))
    }

    /// Discount factor at a tenor with continuous compounding:
    /// `exp(-r tenor)`.
    pub fn get_cont_df(&self, tenor: i64) -> (r: Result<i64, ()>)
        requires
            self.wf(),
        ensures
            ({
                let rate = interp_value(self.data@, tenor as int);
                r == Ok::<i64, ()>(exp_fix(fmul_s(rate, fneg_s(tenor as int))) as i64)
            }),
    {
        let rate = interpolate(&self.data, tenor);
        Ok(fexp(fmul(rate, fneg(tenor))))
    }

    /// Forward rate between two tenors with annual compounding:
    /// `(df_long / df_short)^(-1 / (long - short)) - 1`.
    pub fn get_annu_fwd(&self, short_tenor: i64, long_tenor: i64) -> (r: Result<i64, ()>)
        requires
            self.wf(),
        ensures
            ({
                let sdf = pow_fix(
                    fadd_s(SCALE as int, interp_value(self.data@, short_tenor as int)),
                    fneg_s(short_tenor as int),
                );
                let ldf = pow_fix(
                    fadd_s(SCALE as int, interp_value(self.data@, long_tenor as int)),
                    fneg_s(long_tenor as int),
                );
                let fwd_df = fdiv_s(ldf, sdf);
                r == Ok::<i64, ()>(
                    fsub_s(
                        pow_fix(
                            fwd_df,
                            fdiv_s(fneg_s(SCALE as int), fsub_s(long_tenor as int, short_tenor as int)),
                        ),
                        SCALE as int,
                    ) as i64,
                )
            }),
    {
        let short_df = match self.get_annu_df(short_tenor) {
            Ok(v) => v,
            Err(_) => 0,
        };
        let long_df = match self.get_annu_df(long_tenor) {
            Ok(v) => v,
            Err(_) => 0,
        };
        proof {
            crate::fixnum::lemma_exp_fix_bounds(
                fmul_s(
                    fneg_s(short_tenor as int),
                    ln_fix(fadd_s(SCALE as int, interp_value(self.data@, short_tenor as int))),
                ),
            );
            crate::fixnum::lemma_exp_fix_bounds(
                fmul_s(
                    fneg_s(long_tenor as int),
                    ln_fix(fadd_s(SCALE as int, interp_value(self.data@, long_tenor as int))),
                ),
            );
        }
        let fwd_df = fdiv(long_df, short_df);
        Ok(fsub(fpow(fwd_df, fdiv(fneg(SCALE), fsub(long_tenor, short_tenor))), SCALE))
    }

    /// Forward rate between two tenors with continuous compounding:
    /// `-ln(df_long / df_short) / (long - short)`.
    pub fn get_cont_fwd(&self, short_tenor: i64, long_tenor: i64) -> (r: Result<i64, ()>)
        requires
            self.wf(),
        ensures
            ({
                let sdf = exp_fix(
                    fmul_s(interp_value(self.data@, short_tenor as int), fneg_s(short_tenor as int)),
                );
                let ldf = exp_fix(
                    fmul_s(interp_value(self.data@, long_tenor as int), fneg_s(long_tenor as int)),
                );
                let fwd_df = fdiv_s(ldf, sdf);
                r == Ok::<i64, ()>(
                    fdiv_s(
                        fneg_s(ln_fix(fwd_df)),
                        fsub_s(long_tenor as int, short_tenor as int),
                    ) as i64,
                )
            }),
    {
        let short_df = match self.get_cont_df(short_tenor) {
            Ok(v) => v,
            Err(_) => 0,
        };
        let long_df = match self.get_cont_df(long_tenor) {
            Ok(v) => v,
            Err(_) => 0,
        };
        proof {
            crate::fixnum::lemma_exp_fix_bounds(
                fmul_s(interp_value(self.data@, short_tenor as int), fneg_s(short_tenor as int)),
            );
            crate::fixnum::lemma_exp_fix_bounds(
                fmul_s(interp_value(self.data@, long_tenor as int), fneg_s(long_tenor as int)),
            );
        }
        let fwd_df = fdiv(long_df, short_df);
        Ok(fdiv(fneg(fln(fwd_df)), fsub(long_tenor, short_tenor)))
    }
}

} // verus!
