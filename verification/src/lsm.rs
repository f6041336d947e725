//! The backward-induction engine for American Monte Carlo pricing
//! (Longstaff-Schwartz least-squares regression).
//!
//! The engine sweeps an instrument-values cube in reverse date order,
//! asking a collaborator bundle for model variables, exercise values,
//! cashflows and discount rates, fits per-date regressors for the
//! continuation value, decides exercise per scenario under a
//! single-exercise-per-path constraint, and returns per-scenario cashflow
//! streams sorted by date together with a 0/1 exercise-indicator cube.

use vstd::prelude::*;
use vstd::seq_lib::*;
use crate::data_cube::{Cube, lemma_flat_index_in_bounds, lemma_set_get_round_trip};
use crate::fixnum::{fadd, fsub, fmul, fneg, fexp, fadd_s, fsub_s, fmul_s, fneg_s, exp_fix, SCALE};
use crate::linear_regressor::{LinearRegressor, RegressionError};

verus! {

/// The collaborator bundle consumed by the sweep: model variables,
/// exercise values, cashflows and discount rates are supplied from outside
/// the engine.
pub trait LsmCallbacks {
    /// What the model variable lookup returns for a date.  An
    /// implementation written outside the verifier keeps the default, and
    /// the method contracts then speak of that default.
    open spec fn variables_spec(&self, date: i64) -> Seq<i64> {
        Seq::empty()
    }

    /// What the exercise-value lookup returns for a scenario and date.
    open spec fn exercise_spec(&self, scenario: int, date: i64) -> i64 {
        0i64
    }

    /// What the cashflow lookup returns for a scenario and window.
    open spec fn cashflows_spec(&self, scenario: int, from_date: i64, to_date: i64) -> Seq<
        (i64, i64),
    > {
        Seq::empty()
    }

    /// What the discount-rate lookup returns.
    open spec fn rate_spec(&self, scenario: int, date: i64, term: i64) -> i64 {
        0i64
    }

    /// The model variable values for every scenario at a date, flattened
    /// scenario-major.
    fn models_variables_values(&self, date: i64) -> (r: Vec<i64>)
        ensures
            r@ == self.variables_spec(date),
    ;

    /// The immediate exercise value of a scenario at a date.
    fn exercise_value(&self, scenario: usize, date: i64) -> (r: i64)
        ensures
            r == self.exercise_spec(scenario as int, date),
    ;

    /// The effective cashflows of a scenario with dates in the window
    /// `(from_date, to_date]`.
    fn cashflows(&self, scenario: usize, from_date: i64, to_date: i64) -> (r: Vec<(i64, i64)>)
        ensures
            r@ == self.cashflows_spec(scenario as int, from_date, to_date),
    ;

    /// The zero-coupon discount rate for a scenario, as-of date and term.
    fn discount_rate(&self, scenario: usize, date: i64, term: i64) -> (r: i64)
        ensures
            r == self.rate_spec(scenario as int, date, term),
    ;
}

/// Cashflows ordered by date, non-decreasing.
pub open spec fn sorted_by_date(cf: Seq<(i64, i64)>) -> bool {
    forall|i: int, j: int| 0 <= i < j < cf.len() ==> (cf[i].0 <= cf[j].0)
}

/// Well-formedness of an exercise-indicator cube relative to the exercise
/// flags: every entry is 0 or 1 (in fixed point), a 1 stands only on a
/// flagged date at or after `lo`, and each scenario holds at most one 1.
pub open spec fn exercise_cube_ok(exc: Cube, flags: Seq<bool>, lo: int) -> bool {
    &&& forall|s: int, d: int|
        0 <= s < exc.num_scenarios && 0 <= d < exc.dates@.len() ==> #[trigger] exc.value_at(s, 0, d)
            == 0 || exc.value_at(s, 0, d) == SCALE
    &&& forall|s: int, d: int|
        0 <= s < exc.num_scenarios && 0 <= d < exc.dates@.len() && #[trigger] exc.value_at(s, 0, d)
            == SCALE ==> flags[d] && d >= lo
    &&& forall|s: int, d1: int, d2: int|
        0 <= s < exc.num_scenarios && 0 <= d1 < d2 < exc.dates@.len() ==> !(#[trigger] exc.value_at(
            s,
            0,
            d1,
        ) == SCALE && #[trigger] exc.value_at(s, 0, d2) == SCALE)
}


/// A single-series cube's contents as one row-major sequence: the entry of
/// scenario `s` at date index `d` sits at `s * num_dates + d`.
pub open spec fn cube_row_major(c: Cube) -> Seq<i64> {
    Seq::new(
        (c.num_scenarios * c.dates@.len()) as nat,
        |i: int| c.value_at(i / c.dates@.len() as int, 0, i % c.dates@.len() as int),
    )
}

proof fn lemma_row_major_index(c: Cube, s: int, d: int)
    requires
        0 <= s < c.num_scenarios,
        0 <= d < c.dates@.len(),
    ensures
        0 <= s * c.dates@.len() + d < c.num_scenarios * c.dates@.len(),
        cube_row_major(c)[s * c.dates@.len() + d] == c.value_at(s, 0, d),
{
    let dd = c.dates@.len() as int;
    assert(0 <= s * dd + d < c.num_scenarios * dd && (s * dd + d) / dd == s && (s * dd + d) % dd
        == d) by (nonlinear_arith)
        requires
            0 <= s < c.num_scenarios,
            0 <= d < dd,
            dd > 0,
    ;
}

proof fn lemma_row_major_change(c1: Cube, c2: Cube, s: int, d: int, v: i64)
    requires
        c1.num_scenarios == c2.num_scenarios,
        c1.dates@.len() == c2.dates@.len(),
        0 <= s < c1.num_scenarios,
        0 <= d < c1.dates@.len(),
        c2.value_at(s, 0, d) == v,
        forall|s2: int, d2: int|
            0 <= s2 < c1.num_scenarios && 0 <= d2 < c1.dates@.len() && !(s2 == s && d2 == d)
                ==> #[trigger] c2.value_at(s2, 0, d2) == c1.value_at(s2, 0, d2),
    ensures
        cube_row_major(c2) == cube_row_major(c1).update(s * c1.dates@.len() + d, v),
{
    let dd = c1.dates@.len() as int;
    lemma_row_major_index(c1, s, d);
    assert forall|i: int|
        0 <= i < c1.num_scenarios * dd implies cube_row_major(c2)[i] == cube_row_major(c1).update(
        s * dd + d,
        v,
    )[i] by {
        crate::matrix::lemma_flat_decompose(i, c1.num_scenarios as int, dd);
        let s2 = i / dd;
        let d2 = i % dd;
        lemma_row_major_index(c1, s2, d2);
        lemma_row_major_index(c2, s2, d2);
        if i == s * dd + d {
            crate::matrix::lemma_grid_injective(s2, d2, s, d, dd);
        }
    }
    assert(cube_row_major(c2) =~= cube_row_major(c1).update(s * dd + d, v));
}

proof fn lemma_row_major_same(c1: Cube, c2: Cube)
    requires
        c1.num_scenarios == c2.num_scenarios,
        c1.dates@.len() == c2.dates@.len(),
        forall|s2: int, d2: int|
            0 <= s2 < c1.num_scenarios && 0 <= d2 < c1.dates@.len() ==> #[trigger] c2.value_at(
                s2,
                0,
                d2,
            ) == c1.value_at(s2, 0, d2),
    ensures
        cube_row_major(c2) == cube_row_major(c1),
{
    let dd = c1.dates@.len() as int;
    assert forall|i: int|
        0 <= i < c1.num_scenarios * dd implies cube_row_major(c2)[i] == cube_row_major(c1)[i] by {
        crate::matrix::lemma_flat_decompose(i, c1.num_scenarios as int, dd);
        lemma_row_major_index(c1, i / dd, i % dd);
        lemma_row_major_index(c2, i / dd, i % dd);
    }
    assert(cube_row_major(c2) =~= cube_row_major(c1));
}

/// One entry of a row-major state overwritten.
pub open spec fn state_write(q: Seq<i64>, num_dates: int, s: int, d: int, v: i64) -> Seq<i64> {
    q.update(s * num_dates + d, v)
}

/// A scenario's entries strictly after a date index zeroed.
pub open spec fn state_clear_tail(q: Seq<i64>, num_dates: int, s: int, d: int) -> Seq<i64> {
    Seq::new(
        q.len(),
        |i: int|
            if s * num_dates + d < i < s * num_dates + num_dates {
                0i64
            } else {
                q[i]
            },
    )
}

proof fn lemma_row_major_exercise(c1: Cube, c2: Cube, s: int, d: int, v: i64)
    requires
        c1.num_scenarios == c2.num_scenarios,
        c1.dates@.len() == c2.dates@.len(),
        0 <= s < c1.num_scenarios,
        0 <= d < c1.dates@.len(),
        c2.value_at(s, 0, d) == v,
        forall|d2: int|
            d < d2 < c1.dates@.len() ==> #[trigger] c2.value_at(s, 0, d2) == 0i64,
        forall|s2: int, d2: int|
            0 <= s2 < c1.num_scenarios && 0 <= d2 < c1.dates@.len() && !(s2 == s && d2 >= d)
                ==> #[trigger] c2.value_at(s2, 0, d2) == c1.value_at(s2, 0, d2),
    ensures
        cube_row_major(c2) == state_write(
            state_clear_tail(cube_row_major(c1), c1.dates@.len() as int, s, d),
            c1.dates@.len() as int,
            s,
            d,
            v,
        ),
{
    let dd = c1.dates@.len() as int;
    lemma_row_major_index(c1, s, d);
    assert forall|i: int|
        0 <= i < c1.num_scenarios * dd implies cube_row_major(c2)[i] == state_write(
        state_clear_tail(cube_row_major(c1), dd, s, d),
        dd,
        s,
        d,
        v,
    )[i] by {
        crate::matrix::lemma_flat_decompose(i, c1.num_scenarios as int, dd);
        let s2 = i / dd;
        let d2 = i % dd;
        lemma_row_major_index(c1, s2, d2);
        lemma_row_major_index(c2, s2, d2);
        if s2 == s {
            assert(i == s * dd + d2);
            assert(s * dd + d < i <==> d < d2) by (nonlinear_arith)
                requires
                    i == s * dd + d2,
                    0 <= d2 < dd,
                    0 <= d < dd,
            ;
            assert(i < s * dd + dd <==> d2 < dd) by (nonlinear_arith)
                requires
                    i == s * dd + d2,
            ;
            if i == s * dd + d {
                crate::matrix::lemma_grid_injective(s2, d2, s, d, dd);
            }
        } else {
            if i == s * dd + d {
                crate::matrix::lemma_grid_injective(s2, d2, s, d, dd);
            }
            assert(!(s * dd + d < i < s * dd + dd)) by (nonlinear_arith)
                requires
                    i == s2 * dd + d2,
                    0 <= d2 < dd,
                    0 <= d < dd,
                    s2 != s,
                    s2 >= 0,
                    s >= 0,
            ;
        }
    }
    assert(cube_row_major(c2) =~= state_write(
        state_clear_tail(cube_row_major(c1), dd, s, d),
        dd,
        s,
        d,
        v,
    ));
}

/// The next settlement of a scenario in a row-major mark state: the first
/// index after `d` that carries a mark, or the terminal index.
pub open spec fn next_settle_spec(marks: Seq<i64>, num_dates: int, s: int, d: int) -> int
    decreases num_dates - d,
    when d < num_dates
{
    if d + 1 >= num_dates - 1 {
        num_dates - 1
    } else if marks[s * num_dates + d + 1] > 0 {
        d + 1
    } else {
        next_settle_spec(marks, num_dates, s, d + 1)
    }
}

/// The discount rates the sweep fetches for a window's cashflows.
pub open spec fn cf_rates_spec<M: LsmCallbacks>(
    cb: &M,
    s: int,
    dt: i64,
    cfs: Seq<(i64, i64)>,
) -> Seq<i64> {
    Seq::new(cfs.len(), |c: int| cb.rate_spec(s, dt, fsub_s(cfs[c].0 as int, dt as int) as i64))
}

/// The continuation value of scenario `s` at date index `d` over a
/// row-major state: the value at the next settlement discounted over the
/// span, plus the discounted window cashflows.
pub open spec fn continuation_spec<M: LsmCallbacks>(
    cb: &M,
    dates: Seq<i64>,
    vals: Seq<i64>,
    marks: Seq<i64>,
    s: int,
    d: int,
) -> int {
    let num_dates = dates.len() as int;
    let nxt = next_settle_spec(marks, num_dates, s, d);
    let dt = dates[d];
    let next_dt = dates[nxt];
    let span = fsub_s(next_dt as int, dt as int) as i64;
    let rate = cb.rate_spec(s, dt, span);
    let cfs = cb.cashflows_spec(s, dt, next_dt);
    cashflow_sum_spec(
        discounted_spec(vals[s * num_dates + nxt] as int, rate as int, span as int),
        cfs,
        cf_rates_spec(cb, s, dt, cfs),
        dt as int,
        cfs.len() as int,
    )
}

/// The continuation values of every scenario at a date.
pub open spec fn next_values_spec<M: LsmCallbacks>(
    cb: &M,
    dates: Seq<i64>,
    vals: Seq<i64>,
    marks: Seq<i64>,
    num_scenarios: int,
    d: int,
) -> Seq<i64> {
    Seq::new(num_scenarios as nat, |s: int| continuation_spec(cb, dates, vals, marks, s, d) as i64)
}

/// The exercise values of every scenario at a date.
pub open spec fn exercise_row_spec<M: LsmCallbacks>(cb: &M, num_scenarios: int, dt: i64) -> Seq<
    i64,
> {
    Seq::new(num_scenarios as nat, |s: int| cb.exercise_spec(s, dt))
}

/// How many of the first `k` exercise values are strictly positive.
pub open spec fn count_itm_spec(evs: Seq<i64>, k: int) -> int
    decreases k,
{
    if k <= 0 {
        0
    } else {
        count_itm_spec(evs, k - 1) + if evs[k - 1] > 0 {
            1int
        } else {
            0int
        }
    }
}

/// The quadratic feature vector of one scenario: its variables followed by
/// their squares.
pub open spec fn features_spec(vars: Seq<i64>, nv: int, s: int) -> Seq<i64> {
    Seq::new(
        (2 * nv) as nat,
        |i: int|
            if i < nv {
                vars[s * nv + i]
            } else {
                fmul_s(vars[s * nv + (i - nv)] as int, vars[s * nv + (i - nv)] as int) as i64
            },
    )
}

/// The flat feature matrix of the first `k` in-the-money scenarios.
pub open spec fn itm_design_spec(vars: Seq<i64>, nv: int, evs: Seq<i64>, k: int) -> Seq<i64>
    decreases k,
{
    if k <= 0 {
        Seq::empty()
    } else {
        let p = itm_design_spec(vars, nv, evs, k - 1);
        if evs[k - 1] > 0 {
            p + features_spec(vars, nv, k - 1)
        } else {
            p
        }
    }
}

/// The continuation values of the first `k` in-the-money scenarios.
pub open spec fn itm_responses_spec(nvals: Seq<i64>, evs: Seq<i64>, k: int) -> Seq<i64>
    decreases k,
{
    if k <= 0 {
        Seq::empty()
    } else {
        let p = itm_responses_spec(nvals, evs, k - 1);
        if evs[k - 1] > 0 {
            p.push(nvals[k - 1])
        } else {
            p
        }
    }
}

/// The flat feature matrix of the first `k` scenarios.
pub open spec fn all_design_spec(vars: Seq<i64>, nv: int, k: int) -> Seq<i64>
    decreases k,
{
    if k <= 0 {
        Seq::empty()
    } else {
        all_design_spec(vars, nv, k - 1) + features_spec(vars, nv, k - 1)
    }
}

/// Whether a fit's intermediate sizes stay within `usize`; a fit outside
/// this range degenerates to the constant-zero regressor.
pub open spec fn fit_in_range(x: Seq<i64>, y: Seq<i64>) -> bool {
    let n = y.len() as int;
    let nv = if n > 0 {
        x.len() as int / n
    } else {
        0int
    };
    &&& nv + 1 <= usize::MAX
    &&& n * (nv + 1) <= usize::MAX
    &&& 2 * (nv + 1) <= usize::MAX
    &&& (nv + 1) * (2 * (nv + 1)) <= usize::MAX
    &&& x.len() + y.len() <= usize::MAX
}

/// The regression estimate from a fit of `x` against `y`, evaluated at the
/// feature vector `feats`: the fitted parameters' dot product with the
/// features plus the intercept, or 0 when the fit is degenerate.
pub open spec fn estimate_spec(x: Seq<i64>, y: Seq<i64>, feats: Seq<i64>) -> int {
    if y.len() > 0 && fit_in_range(x, y) {
        let n = y.len() as int;
        let nv = x.len() as int / n;
        let params = crate::math::normal_equations_spec(
            crate::linear_regressor::design_spec(x, n, nv),
            n,
            nv + 1,
            y,
        );
        fadd_s(
            crate::linear_regressor::reg_dot(params, feats, feats.len() as int),
            params[params.len() - 1] as int,
        )
    } else {
        0
    }
}

/// The per-scenario decisions of one date applied to the first `k`
/// scenarios of a row-major state: at a flagged date a scenario whose
/// exercise value beats the in-the-money regression estimate (with some
/// path in the money) is marked, its later values and marks cleared, and
/// the exercise value written; otherwise the estimate is written — from
/// the in-the-money fit at flagged dates and the all-paths fit elsewhere.
pub open spec fn decide_fold(
    vals: Seq<i64>,
    marks: Seq<i64>,
    num_dates: int,
    d: int,
    flagged: bool,
    num_itm: int,
    evs: Seq<i64>,
    vars: Seq<i64>,
    nv: int,
    itm_x: Seq<i64>,
    itm_y: Seq<i64>,
    all_x: Seq<i64>,
    nvals: Seq<i64>,
    k: int,
) -> (Seq<i64>, Seq<i64>)
    decreases k,
{
    if k <= 0 {
        (vals, marks)
    } else {
        let p = decide_fold(
            vals,
            marks,
            num_dates,
            d,
            flagged,
            num_itm,
            evs,
            vars,
            nv,
            itm_x,
            itm_y,
            all_x,
            nvals,
            k - 1,
        );
        let s = k - 1;
        let feats = features_spec(vars, nv, s);
        if flagged {
            let est = estimate_spec(itm_x, itm_y, feats);
            if num_itm > 0 && evs[s] > est {
                (
                    state_write(state_clear_tail(p.0, num_dates, s, d), num_dates, s, d, evs[s]),
                    state_write(state_clear_tail(p.1, num_dates, s, d), num_dates, s, d, SCALE),
                )
            } else {
                (state_write(p.0, num_dates, s, d, est as i64), p.1)
            }
        } else {
            let est = estimate_spec(all_x, nvals, feats);
            (state_write(p.0, num_dates, s, d, est as i64), p.1)
        }
    }
}

/// The window cashflows every scenario contributes at one date, given the
/// mark state of that moment.
pub open spec fn date_windows_spec<M: LsmCallbacks>(
    cb: &M,
    dates: Seq<i64>,
    vals_marks: Seq<i64>,
    num_scenarios: int,
    d: int,
) -> Seq<Seq<(i64, i64)>> {
    Seq::new(
        num_scenarios as nat,
        |s: int|
            cb.cashflows_spec(
                s,
                dates[d],
                dates[next_settle_spec(vals_marks, dates.len() as int, s, d)],
            ),
    )
}

/// One full date of the sweep on a row-major state: fetch the variables
/// and exercise values, compute the continuation values, fit the
/// in-the-money and all-paths regressors, and apply the per-scenario
/// decisions.
pub open spec fn date_step_spec<M: LsmCallbacks>(
    cb: &M,
    dates: Seq<i64>,
    flags: Seq<bool>,
    num_scenarios: int,
    vals: Seq<i64>,
    marks: Seq<i64>,
    d: int,
) -> (Seq<i64>, Seq<i64>) {
    let dt = dates[d];
    let vars = cb.variables_spec(dt);
    let nv = vars.len() as int / num_scenarios;
    let evs = exercise_row_spec(cb, num_scenarios, dt);
    let nvals = next_values_spec(cb, dates, vals, marks, num_scenarios, d);
    decide_fold(
        vals,
        marks,
        dates.len() as int,
        d,
        flags[d],
        count_itm_spec(evs, num_scenarios),
        evs,
        vars,
        nv,
        itm_design_spec(vars, nv, evs, num_scenarios),
        itm_responses_spec(nvals, evs, num_scenarios),
        all_design_spec(vars, nv, num_scenarios),
        nvals,
        num_scenarios,
    )
}

/// The maturity convention applied to the first `k` scenarios: the value
/// at the terminal date is 0.
pub open spec fn maturity_zero_spec(vals: Seq<i64>, num_dates: int, k: int) -> Seq<i64>
    decreases k,
{
    if k <= 0 {
        vals
    } else {
        state_write(maturity_zero_spec(vals, num_dates, k - 1), num_dates, k - 1, num_dates - 1, 0)
    }
}

/// The state of the sweep after its first `k` iterations (latest dates
/// first): the terminal date takes the maturity convention, every earlier
/// date one full decision step; the third component collects each
/// scenario's window cashflows in sweep order.
pub open spec fn sweep_spec<M: LsmCallbacks>(
    cb: &M,
    dates: Seq<i64>,
    flags: Seq<bool>,
    num_scenarios: int,
    vals: Seq<i64>,
    marks: Seq<i64>,
    k: int,
) -> (Seq<i64>, Seq<i64>, Seq<Seq<(i64, i64)>>)
    decreases k,
{
    let num_dates = dates.len() as int;
    if k <= 0 {
        (vals, marks, Seq::new(num_scenarios as nat, |s: int| Seq::<(i64, i64)>::empty()))
    } else {
        let p = sweep_spec(cb, dates, flags, num_scenarios, vals, marks, k - 1);
        if k == 1 {
            (maturity_zero_spec(p.0, num_dates, num_scenarios), p.1, p.2)
        } else {
            let d = num_dates - k;
            let stepped = date_step_spec(cb, dates, flags, num_scenarios, p.0, p.1, d);
            let windows = date_windows_spec(cb, dates, p.1, num_scenarios, d);
            (
                stepped.0,
                stepped.1,
                Seq::new(num_scenarios as nat, |s: int| p.2[s] + windows[s]),
            )
        }
    }
}

/// Reads one value of a single-series cube.
fn get_one(cube: &Cube, s: usize, d: usize) -> (r: i64)
    requires
        cube.wf(),
        cube.num_series == 1,
        s < cube.num_scenarios,
        d < cube.dates@.len(),
    ensures
        r == cube.value_at(s as int, 0, d as int),
{
    proof {
        lemma_flat_index_in_bounds(*cube, s as int, 0, d as int);
    }
    match cube.get_item(s, 0, d) {
        Ok(v) => v,
        Err(_) => 0,  // unreachable: the offset is in bounds
    }
}

/// Writes one value of a single-series cube, leaving every other entry
/// unchanged.
fn set_one(cube: &mut Cube, s: usize, d: usize, v: i64)
    requires
        old(cube).wf(),
        old(cube).num_series == 1,
        s < old(cube).num_scenarios,
        d < old(cube).dates@.len(),
    ensures
        final(cube).wf(),
        final(cube).dates@ == old(cube).dates@,
        final(cube).time_series_names@ == old(cube).time_series_names@,
        final(cube).num_scenarios == old(cube).num_scenarios,
        final(cube).num_series == old(cube).num_series,
        final(cube).value_at(s as int, 0, d as int) == v,
        forall|s2: int, d2: int|
            0 <= s2 < old(cube).num_scenarios && 0 <= d2 < old(cube).dates@.len() && !(s2 == s && d2
                == d) ==> #[trigger] final(cube).value_at(s2, 0, d2) == old(cube).value_at(s2, 0, d2),
{
    proof {
        lemma_flat_index_in_bounds(*cube, s as int, 0, d as int);
    }
    let ghost before = *cube;
    let _ = cube.set_item(s, 0, d, v);
    proof {
        lemma_set_get_round_trip(before, *cube, s as int, 0, d as int, v);
        assert forall|s2: int, d2: int|
            0 <= s2 < old(cube).num_scenarios && 0 <= d2 < old(cube).dates@.len() && !(s2 == s && d2
                == d) implies #[trigger] cube.value_at(s2, 0, d2) == old(cube).value_at(
            s2,
            0,
            d2,
        ) by {
            assert(before.valid_coords(s2, 0, d2));
        }
    }
}

/// Zeroes every entry of a scenario strictly after a date index.
fn zero_tail(cube: &mut Cube, s: usize, dt_idx: usize)
    requires
        old(cube).wf(),
        old(cube).num_series == 1,
        s < old(cube).num_scenarios,
        dt_idx < old(cube).dates@.len(),
    ensures
        final(cube).wf(),
        final(cube).dates@ == old(cube).dates@,
        final(cube).time_series_names@ == old(cube).time_series_names@,
        final(cube).num_scenarios == old(cube).num_scenarios,
        final(cube).num_series == old(cube).num_series,
        forall|s2: int, d2: int|
            0 <= s2 < old(cube).num_scenarios && 0 <= d2 < old(cube).dates@.len()
                ==> #[trigger] final(cube).value_at(s2, 0, d2) == (if s2 == s && d2 > dt_idx {
                0i64
            } else {
                old(cube).value_at(s2, 0, d2)
            }),
{
    let num_dates: usize = cube.dates.len();
    let mut d: usize = dt_idx + 1;
    while d < num_dates
        invariant
            dt_idx < d <= num_dates,
            num_dates == cube.dates@.len(),
            cube.wf(),
            cube.num_series == 1,
            s < cube.num_scenarios,
            cube.dates@ == old(cube).dates@,
            cube.time_series_names@ == old(cube).time_series_names@,
            cube.num_scenarios == old(cube).num_scenarios,
            cube.num_series == old(cube).num_series,
            forall|s2: int, d2: int|
                0 <= s2 < old(cube).num_scenarios && 0 <= d2 < old(cube).dates@.len()
                    ==> #[trigger] cube.value_at(s2, 0, d2) == (if s2 == s && dt_idx < d2 < d {
                    0i64
                } else {
                    old(cube).value_at(s2, 0, d2)
                }),
        decreases num_dates - d,
    {
        set_one(cube, s, d, 0);
        d += 1;
    }
}

/// Copies a vector of values.
fn copy_values(v: &Vec<i64>) -> (r: Vec<i64>)
    ensures
        r@ == v@,
{
    let mut out: Vec<i64> = Vec::new();
    let mut i: usize = 0;
    while i < v.len()
        invariant
            i <= v@.len(),
            out@ == v@.subrange(0, i as int),
        decreases v@.len() - i,
    {
        out.push(v[i]);
        proof {
            assert(out@ == v@.subrange(0, i + 1 as int));
        }
        i += 1;
    }
    proof {
        assert(v@.subrange(0, v@.len() as int) == v@);
    }
    out
}

/// The index of the next settlement of a scenario: the first date index
/// after `dt_idx` that is marked exercised, or the terminal index.
fn find_next_settle(exc: &Cube, s: usize, dt_idx: usize) -> (r: usize)
    requires
        exc.wf(),
        exc.num_series == 1,
        s < exc.num_scenarios,
        exc.dates@.len() >= 2,
        dt_idx < exc.dates@.len() - 1,
    ensures
        dt_idx < r < exc.dates@.len(),
        r == exc.dates@.len() - 1 || exc.value_at(s as int, 0, r as int) > 0,
        forall|d2: int| dt_idx < d2 < r ==> #[trigger] exc.value_at(s as int, 0, d2) <= 0,
        r as int == next_settle_spec(
            cube_row_major(*exc),
            exc.dates@.len() as int,
            s as int,
            dt_idx as int,
        ),
{
    let num_dates: usize = exc.dates.len();
    let ghost marks = cube_row_major(*exc);
    let mut next_dt_idx: usize = dt_idx;
    loop
        invariant
            dt_idx <= next_dt_idx < num_dates - 1,
            num_dates == exc.dates@.len(),
            exc.wf(),
            exc.num_series == 1,
            s < exc.num_scenarios,
            num_dates >= 2,
            marks == cube_row_major(*exc),
            forall|d2: int|
                dt_idx < d2 <= next_dt_idx ==> #[trigger] exc.value_at(s as int, 0, d2) <= 0,
            next_settle_spec(marks, num_dates as int, s as int, dt_idx as int)
                == next_settle_spec(marks, num_dates as int, s as int, next_dt_idx as int),
        decreases num_dates - next_dt_idx,
    {
        let ghost before = next_dt_idx as int;
        next_dt_idx += 1;
        if next_dt_idx == num_dates - 1 {
            return next_dt_idx;
        }
        let v = get_one(exc, s, next_dt_idx);
        proof {
            lemma_row_major_index(*exc, s as int, next_dt_idx as int);
        }
        if v > 0 {
            return next_dt_idx;
        }
    }
}

/// Fits a regressor after checking that the fit's intermediate sizes stay
/// within `usize`; an empty response vector, like one whose sizes do not,
/// degenerates to an error that callers replace by a constant-zero
/// regressor.
fn fit_regressor(x: &Vec<i64>, y: &Vec<i64>) -> (r: Result<LinearRegressor, RegressionError>)
    ensures
        ({
            let n = y@.len() as int;
            let nv = if n > 0 {
                x@.len() as int / n
            } else {
                0int
            };
            match r {
                Ok(reg) => n > 0 && fit_in_range(x@, y@) && reg.parameters@.len() == nv + 1
                    && reg.parameters@ == crate::math::normal_equations_spec(
                    crate::linear_regressor::design_spec(x@, n, nv),
                    n,
                    nv + 1,
                    y@,
                ),
                Err(e) => e == RegressionError::NoDataCases && (n == 0 || !fit_in_range(x@, y@)),
            }
        }),
{
    if y.len() == 0 {
        return Err(RegressionError::NoDataCases);
    }
    let n: usize = y.len();
    let nv: usize = x.len() / n;
    let w: usize = match nv.checked_add(1) {
        Some(w) => w,
        None => {
            return Err(RegressionError::NoDataCases);
        },
    };
    if n.checked_mul(w).is_none() {
        return Err(RegressionError::NoDataCases);
    }
    let w2: usize = match w.checked_mul(2) {
        Some(w2) => w2,
        None => {
            return Err(RegressionError::NoDataCases);
        },
    };
    if w.checked_mul(w2).is_none() {
        return Err(RegressionError::NoDataCases);
    }
    if x.len().checked_add(y.len()).is_none() {
        return Err(RegressionError::NoDataCases);
    }
    LinearRegressor::create_regressor(x, y)
}

/// The quadratic feature vector of one scenario: its model variables
/// followed by their squares.
#[verifier::loop_isolation(false)]
fn quadratic_features(variable_values: &Vec<i64>, num_variables: usize, s: usize) -> (r: Vec<i64>)
    requires
        (s + 1) * num_variables <= variable_values@.len(),
    ensures
        r@.len() == 2 * num_variables,
        forall|i: int|
            0 <= i < num_variables ==> #[trigger] r@[i] == variable_values@[s as int
                * num_variables + i],
        forall|i: int|
            0 <= i < num_variables ==> (#[trigger] r@[num_variables + i]) as int == fmul_s(
                variable_values@[s as int * num_variables + i] as int,
                variable_values@[s as int * num_variables + i] as int,
            ),
        r@ == features_spec(variable_values@, num_variables as int, s as int),
{
    let mut x: Vec<i64> = Vec::new();
    let mut i: usize = 0;
    while i < num_variables
        invariant
            i <= num_variables,
            x@.len() == i,
            forall|i2: int|
                0 <= i2 < i ==> #[trigger] x@[i2] == variable_values@[s as int * num_variables
                    + i2],
        decreases num_variables - i,
    {
        proof {
            assert(s as int * num_variables + i < (s + 1) as int * num_variables)
                by (nonlinear_arith)
                requires
                    0 <= i < num_variables,
                    s >= 0,
            ;
            assert(variable_values.len() == variable_values@.len());
            assert(0 <= s as int * num_variables) by (nonlinear_arith)
                requires
                    s >= 0,
                    num_variables >= 0,
            ;
        }
        let idx: usize = s * num_variables + i;
        x.push(variable_values[idx]);
        i += 1;
    }
    let mut i: usize = 0;
    while i < num_variables
        invariant
            i <= num_variables,
            x@.len() == num_variables + i,
            forall|i2: int|
                0 <= i2 < num_variables ==> #[trigger] x@[i2] == variable_values@[s as int
                    * num_variables + i2],
            forall|i2: int|
                0 <= i2 < i ==> (#[trigger] x@[num_variables + i2]) as int == fmul_s(
                    variable_values@[s as int * num_variables + i2] as int,
                    variable_values@[s as int * num_variables + i2] as int,
                ),
        decreases num_variables - i,
    {
        proof {
            assert(s as int * num_variables + i < (s + 1) as int * num_variables)
                by (nonlinear_arith)
                requires
                    0 <= i < num_variables,
                    s >= 0,
            ;
            assert(variable_values.len() == variable_values@.len());
            assert(0 <= s as int * num_variables) by (nonlinear_arith)
                requires
                    s >= 0,
                    num_variables >= 0,
            ;
        }
        let idx: usize = s * num_variables + i;
        let val = variable_values[idx];
        x.push(fmul(val, val));
        i += 1;
    }
    proof {
        assert forall|i2: int|
            0 <= i2 < 2 * num_variables implies x@[i2] == features_spec(
            variable_values@,
            num_variables as int,
            s as int,
        )[i2] by {
            if i2 < num_variables {
                assert(x@[i2] == variable_values@[s as int * num_variables + i2]);
            } else {
                assert(x@[num_variables + (i2 - num_variables)] as int == fmul_s(
                    variable_values@[s as int * num_variables + (i2 - num_variables)] as int,
                    variable_values@[s as int * num_variables + (i2 - num_variables)] as int,
                ));
            }
        }
        assert(x@ =~= features_spec(variable_values@, num_variables as int, s as int));
    }
    x
}

/// The value at the next settlement discounted back over the span:
/// `v * exp(-rate * span)`.
pub open spec fn discounted_spec(v: int, rate: int, span: int) -> int {
    fmul_s(v, exp_fix(fneg_s(fmul_s(rate, span))))
}

/// `start` plus the first `k` cashflow amounts, each discounted by its own
/// rate over its term from `dt`, accumulated with the saturating
/// operations.
pub open spec fn cashflow_sum_spec(
    start: int,
    cfs: Seq<(i64, i64)>,
    rates: Seq<i64>,
    dt: int,
    k: int,
) -> int
    decreases k,
{
    if k <= 0 {
        start
    } else {
        let term = fsub_s(cfs[k - 1].0 as int, dt);
        fadd_s(
            cashflow_sum_spec(start, cfs, rates, dt, k - 1),
            fmul_s(cfs[k - 1].1 as int, exp_fix(fneg_s(fmul_s(rates[k - 1] as int, term)))),
        )
    }
}

/// The continuation value of a scenario at `dt`: the value at the next
/// settlement discounted over the span, plus every window cashflow
/// discounted by its own rate over its term.
#[verifier::loop_isolation(false)]
fn continuation_value(
    next_value: i64,
    rate: i64,
    span: i64,
    cfs: &Vec<(i64, i64)>,
    cf_rates: &Vec<i64>,
    dt: i64,
) -> (v: i64)
    requires
        cf_rates@.len() == cfs@.len(),
    ensures
        v as int == cashflow_sum_spec(
            discounted_spec(next_value as int, rate as int, span as int),
            cfs@,
            cf_rates@,
            dt as int,
            cfs@.len() as int,
        ),
{
    let mut v: i64 = fmul(next_value, fexp(fneg(fmul(rate, span))));
    let mut c: usize = 0;
    while c < cfs.len()
        invariant
            c <= cfs@.len(),
            v as int == cashflow_sum_spec(
                discounted_spec(next_value as int, rate as int, span as int),
                cfs@,
                cf_rates@,
                dt as int,
                c as int,
            ),
        decreases cfs@.len() - c,
    {
        let (cf_date, cf_amount) = cfs[c];
        let term = fsub(cf_date, dt);
        let df = fexp(fneg(fmul(cf_rates[c], term)));
        v = fadd(v, fmul(cf_amount, df));
        c += 1;
    }
    v
}

/// The exercise rule of the sweep at a flagged date: exercise exactly when
/// some path is in the money and the immediate exercise value strictly
/// beats the regression estimate of the continuation value.
fn decide_exercise(num_paths_itm: usize, exercise_value: i64, estimate: i64) -> (r: bool)
    ensures
        r == (num_paths_itm > 0 && exercise_value > estimate),
{
    num_paths_itm > 0 && exercise_value > estimate
}

/// Applies one scenario's decision at a date: an exercise marks the
/// exercise cube there, clears every later mark and instrument value of
/// the scenario, and writes `value` (the exercise value); no exercise
/// writes `value` (the regression estimate) and leaves the marks alone.
fn apply_decision(
    ivc: &mut Cube,
    exc: &mut Cube,
    s: usize,
    dt_idx: usize,
    exercised: bool,
    value: i64,
)
    requires
        old(ivc).wf(),
        old(ivc).num_series == 1,
        s < old(ivc).num_scenarios,
        dt_idx < old(ivc).dates@.len(),
        old(exc).wf(),
        old(exc).num_series == 1,
        old(exc).num_scenarios == old(ivc).num_scenarios,
        old(exc).dates@ == old(ivc).dates@,
    ensures
        final(ivc).wf(),
        final(ivc).dates@ == old(ivc).dates@,
        final(ivc).time_series_names@ == old(ivc).time_series_names@,
        final(ivc).num_scenarios == old(ivc).num_scenarios,
        final(ivc).num_series == old(ivc).num_series,
        final(exc).wf(),
        final(exc).dates@ == old(exc).dates@,
        final(exc).time_series_names@ == old(exc).time_series_names@,
        final(exc).num_scenarios == old(exc).num_scenarios,
        final(exc).num_series == old(exc).num_series,
        forall|s2: int, d2: int|
            0 <= s2 < old(exc).num_scenarios && 0 <= d2 < old(exc).dates@.len()
                ==> #[trigger] final(exc).value_at(s2, 0, d2) == (if exercised && s2 == s && d2
                == dt_idx {
                SCALE as i64
            } else if exercised && s2 == s && d2 > dt_idx {
                0i64
            } else {
                old(exc).value_at(s2, 0, d2)
            }),
        forall|s2: int, d2: int|
            0 <= s2 < old(ivc).num_scenarios && 0 <= d2 < old(ivc).dates@.len()
                ==> #[trigger] final(ivc).value_at(s2, 0, d2) == (if s2 == s && d2 == dt_idx {
                value
            } else if exercised && s2 == s && d2 > dt_idx {
                0i64
            } else {
                old(ivc).value_at(s2, 0, d2)
            }),
{
    if exercised {
        set_one(exc, s, dt_idx, SCALE);
        zero_tail(exc, s, dt_idx);
        zero_tail(ivc, s, dt_idx);
        set_one(ivc, s, dt_idx, value);
    } else {
        set_one(ivc, s, dt_idx, value);
    }
}

/// Sorts a cashflow list ascending by date, keeping the order of equal
/// dates, by insertion into a sorted copy.
#[verifier::loop_isolation(false)]
pub fn sort_cashflows(v: &Vec<(i64, i64)>) -> (r: Vec<(i64, i64)>)
    ensures
        sorted_by_date(r@),
        r@.to_multiset() == v@.to_multiset(),
{
    broadcast use vstd::seq_lib::group_to_multiset_ensures;

    let mut out: Vec<(i64, i64)> = Vec::new();
    let mut i: usize = 0;
    while i < v.len()
        invariant
            i <= v@.len(),
            sorted_by_date(out@),
            out@.to_multiset() == v@.subrange(0, i as int).to_multiset(),
        decreases v@.len() - i,
    {
        let elem = v[i];
        let mut p: usize = 0;
        while p < out.len() && out[p].0 <= elem.0
            invariant
                p <= out@.len(),
                forall|j: int| 0 <= j < p ==> (out@[j].0 <= elem.0),
            decreases out@.len() - p,
        {
            p += 1;
        }
        proof {
            assert(forall|j: int| p <= j < out@.len() ==> (out@[j].0 > elem.0));
        }
        let ghost prev = out@;
        out.insert(p, elem);
        proof {
            assert(out@ == prev.insert(p as int, elem));
            assert forall|a: int, b: int| 0 <= a < b < out@.len() implies (out@[a].0
                <= out@[b].0) by {
                if a < p && b == p {
                } else if a == p && b > p {
                } else if a < p && b > p {
                    assert(out@[a] == prev[a] && out@[b] == prev[b - 1]);
                } else if a < p && b < p {
                    assert(out@[a] == prev[a] && out@[b] == prev[b]);
                } else if a > p && b > p {
                    assert(out@[a] == prev[a - 1] && out@[b] == prev[b - 1]);
                }
            }
            assert(v@.subrange(0, i as int).push(elem) == v@.subrange(0, i + 1 as int));
        }
        i += 1;
    }
    proof {
        assert(v@.subrange(0, v@.len() as int) == v@);
    }
    out
}

/// Runs the backward-induction sweep.
///
/// The last date of `instrument_values_cube` is the maturity date, where
/// the value is set to 0 by convention; every earlier date receives either
/// the regression estimate of the continuation value or, on an exercise
/// date where the immediate exercise value beats the estimate, the
/// exercise value, in which case all later values and exercise marks of
/// that scenario are cleared.  The result is the per-scenario cashflow
/// streams, sorted ascending by date, and the 0/1 exercise-indicator cube:
/// each scenario exercises at most once, only on flagged dates; the final
/// cubes and streams equal the functional sweep `sweep_spec` of the
/// collaborator's spec functions.
///
/// The grid must hold at least one date (the maturity date), and at least
/// one scenario: the per-scenario variable count is the collaborator's
/// flattened variable vector divided by the scenario count, which no
/// scenario would leave undefined.
#[verifier::loop_isolation(false)]
#[verifier::rlimit(100)]
pub fn compute_lsm_values<M: LsmCallbacks>(
    instrument_values_cube: &mut Cube,
    exercise_flags: &Vec<bool>,
    callbacks: &M,
) -> (r: (Vec<Vec<(i64, i64)>>, Cube))
    requires
        old(instrument_values_cube).wf(),
        old(instrument_values_cube).num_series == 1,
        old(instrument_values_cube).num_scenarios >= 1,
        old(instrument_values_cube).dates@.len() >= 1,
        exercise_flags@.len() == old(instrument_values_cube).dates@.len(),
    ensures
        final(instrument_values_cube).wf(),
        final(instrument_values_cube).dates@ == old(instrument_values_cube).dates@,
        final(instrument_values_cube).num_scenarios == old(instrument_values_cube).num_scenarios,
        final(instrument_values_cube).num_series == old(instrument_values_cube).num_series,
        final(instrument_values_cube).time_series_names@ == old(instrument_values_cube).time_series_names@,
        forall|s: int|
            0 <= s < old(instrument_values_cube).num_scenarios ==> #[trigger] final(instrument_values_cube).value_at(s, 0, old(instrument_values_cube).dates@.len() - 1) == 0,
        r.1.wf(),
        r.1.num_series == 1,
        r.1.num_scenarios == old(instrument_values_cube).num_scenarios,
        r.1.dates@ == old(instrument_values_cube).dates@,
        exercise_cube_ok(r.1, exercise_flags@, 0),
        forall|s: int, d: int|
            0 <= s < old(instrument_values_cube).num_scenarios && 0 <= d < old(instrument_values_cube).dates@.len() && #[trigger] r.1.value_at(s, 0, d) == SCALE ==> final(instrument_values_cube).value_at(s, 0, d) == callbacks.exercise_spec(
                s,
                old(instrument_values_cube).dates@[d],
            ),
        forall|s: int, d: int, d2: int|
            0 <= s < old(instrument_values_cube).num_scenarios && 0 <= d < d2 < old(instrument_values_cube).dates@.len() && #[trigger] r.1.value_at(s, 0, d) == SCALE ==> #[trigger] final(instrument_values_cube).value_at(s, 0, d2) == 0,
        r.0@.len() == old(instrument_values_cube).num_scenarios,
        forall|s: int| 0 <= s < r.0@.len() ==> sorted_by_date(#[trigger] r.0@[s]@),
        ({
            let nd = old(instrument_values_cube).dates@.len() as int;
            let ns = old(instrument_values_cube).num_scenarios as int;
            let st = sweep_spec(
                callbacks,
                old(instrument_values_cube).dates@,
                exercise_flags@,
                ns,
                cube_row_major(*old(instrument_values_cube)),
                Seq::new((ns * nd) as nat, |i: int| 0i64),
                nd,
            );
            &&& forall|s: int, d: int|
                0 <= s < ns && 0 <= d < nd ==> #[trigger] final(instrument_values_cube).value_at(
                    s,
                    0,
                    d,
                ) == st.0[s * nd + d]
            &&& forall|s: int, d: int|
                0 <= s < ns && 0 <= d < nd ==> #[trigger] r.1.value_at(s, 0, d) == st.1[s * nd + d]
            &&& forall|s: int|
                0 <= s < ns ==> (#[trigger] r.0@[s])@.to_multiset() == st.2[s].to_multiset()
        }),
{
    let num_scenarios: usize = instrument_values_cube.num_scenarios;
    let num_dates: usize = instrument_values_cube.dates.len();
    let ghost flags = exercise_flags@;

    let mut ret_cashflows: Vec<Vec<(i64, i64)>> = Vec::new();
    let mut s0: usize = 0;
    while s0 < num_scenarios
        invariant
            s0 <= num_scenarios,
            ret_cashflows@.len() == s0,
            forall|s2: int|
                0 <= s2 < s0 ==> (#[trigger] ret_cashflows@[s2])@ == Seq::<(i64, i64)>::empty(),
        decreases num_scenarios - s0,
    {
        ret_cashflows.push(Vec::new());
        s0 += 1;
    }

    proof {
        assert(instrument_values_cube.spec_data().len() == instrument_values_cube.dates@.len()
            * num_scenarios * 1);
        assert(instrument_values_cube.data.len() == instrument_values_cube.spec_data().len());
        assert(num_dates * num_scenarios * 1 == num_dates * num_scenarios) by (nonlinear_arith);
        assert(num_dates as int * num_scenarios <= usize::MAX);
    }
    let grid_dates = copy_values(&instrument_values_cube.dates);
    let mut exercise_values_cube: Cube = Cube::make_empty_cube(grid_dates, num_scenarios, 1);
    proof {
        assert forall|s2: int, d2: int|
            0 <= s2 < num_scenarios && 0 <= d2 < exercise_values_cube.dates@.len()
            implies #[trigger] exercise_values_cube.value_at(s2, 0, d2) == 0i64 by {
            lemma_flat_index_in_bounds(exercise_values_cube, s2, 0, d2);
        }
    }
    let ghost dates0 = instrument_values_cube.dates@;
    let ghost init_vals = cube_row_major(*instrument_values_cube);
    let ghost init_marks = cube_row_major(exercise_values_cube);
    proof {
        assert forall|i: int|
            0 <= i < num_scenarios as int * num_dates implies init_marks[i] == 0i64 by {
            crate::matrix::lemma_flat_decompose(i, num_scenarios as int, num_dates as int);
            lemma_row_major_index(
                exercise_values_cube,
                i / num_dates as int,
                i % num_dates as int,
            );
        }
        assert(init_marks =~= Seq::new((num_scenarios as int * num_dates) as nat, |i: int| 0i64));
    }

    let mut dt_inv_idx: usize = 0;
    while dt_inv_idx < num_dates
        invariant
            dt_inv_idx <= num_dates,
            num_dates == old(instrument_values_cube).dates@.len(),
            num_scenarios == old(instrument_values_cube).num_scenarios,
            instrument_values_cube.wf(),
            instrument_values_cube.dates@ == old(instrument_values_cube).dates@,
            instrument_values_cube.num_scenarios == num_scenarios,
            instrument_values_cube.num_series == 1,
            instrument_values_cube.time_series_names@ == old(instrument_values_cube).time_series_names@,
            exercise_values_cube.wf(),
            exercise_values_cube.dates@ == old(instrument_values_cube).dates@,
            exercise_values_cube.num_scenarios == num_scenarios,
            exercise_values_cube.num_series == 1,
            exercise_cube_ok(exercise_values_cube, flags, num_dates - dt_inv_idx),
            forall|s2: int, d2: int|
                0 <= s2 < num_scenarios && 0 <= d2 < num_dates
                    && #[trigger] exercise_values_cube.value_at(s2, 0, d2) == SCALE
                    ==> instrument_values_cube.value_at(s2, 0, d2) == callbacks.exercise_spec(
                    s2,
                    old(instrument_values_cube).dates@[d2],
                ),
            forall|s2: int, d2: int, d3: int|
                0 <= s2 < num_scenarios && 0 <= d2 < d3 < num_dates
                    && #[trigger] exercise_values_cube.value_at(s2, 0, d2) == SCALE
                    ==> #[trigger] instrument_values_cube.value_at(s2, 0, d3) == 0,
            ret_cashflows@.len() == num_scenarios,
            dt_inv_idx >= 1 ==> forall|s: int|
                0 <= s < num_scenarios ==> #[trigger] instrument_values_cube.value_at(
                    s,
                    0,
                    num_dates - 1,
                ) == 0,
            ({
                let st = sweep_spec(
                    callbacks,
                    dates0,
                    flags,
                    num_scenarios as int,
                    init_vals,
                    init_marks,
                    dt_inv_idx as int,
                );
                &&& cube_row_major(*instrument_values_cube) == st.0
                &&& cube_row_major(exercise_values_cube) == st.1
                &&& forall|s2: int|
                    0 <= s2 < num_scenarios ==> (#[trigger] ret_cashflows@[s2])@ == st.2[s2]
            }),
        decreases num_dates - dt_inv_idx,
    {
        let dt_idx: usize = num_dates - dt_inv_idx - 1;
        let ghost stv = sweep_spec(
            callbacks,
            dates0,
            flags,
            num_scenarios as int,
            init_vals,
            init_marks,
            dt_inv_idx as int,
        );
        let ghost v0 = stv.0;
        let ghost m0 = stv.1;
        if dt_inv_idx == 0 {
            // terminal convention: the value at maturity is 0 for every
            // scenario; any payoff there is captured as a cashflow
            let mut s: usize = 0;
            while s < num_scenarios
                invariant
                    s <= num_scenarios,
                    dt_idx == num_dates - 1,
                    instrument_values_cube.wf(),
                    instrument_values_cube.dates@ == old(instrument_values_cube).dates@,
                    instrument_values_cube.num_scenarios == num_scenarios,
                    instrument_values_cube.num_series == 1,
                    instrument_values_cube.time_series_names@ == old(instrument_values_cube).time_series_names@,
                    forall|s2: int|
                        0 <= s2 < s ==> #[trigger] instrument_values_cube.value_at(
                            s2,
                            0,
                            num_dates - 1,
                        ) == 0,
                    exercise_cube_ok(exercise_values_cube, flags, num_dates as int),
                    cube_row_major(*instrument_values_cube) == maturity_zero_spec(
                        v0,
                        num_dates as int,
                        s as int,
                    ),
                    cube_row_major(exercise_values_cube) == m0,
                decreases num_scenarios - s,
            {
                let ghost before = *instrument_values_cube;
                set_one(instrument_values_cube, s, dt_idx, 0);
                proof {
                    lemma_row_major_change(
                        before,
                        *instrument_values_cube,
                        s as int,
                        dt_idx as int,
                        0,
                    );
                }
                s += 1;
            }
        } else {
            let dt: i64 = instrument_values_cube.dates[dt_idx];
            let variable_values: Vec<i64> = callbacks.models_variables_values(dt);
            let num_variables: usize = variable_values.len() / num_scenarios;
            proof {
                assert(variable_values.len() == variable_values@.len());
                assert(num_scenarios as int * num_variables <= variable_values@.len())
                    by (nonlinear_arith)
                    requires
                        num_variables == variable_values@.len() as int / num_scenarios as int,
                        num_scenarios >= 1,
                        num_variables >= 0,
                ;
            }
            let ghost vars0 = variable_values@;
            let ghost evs_row = exercise_row_spec(callbacks, num_scenarios as int, dt);
            let ghost nvals_row = next_values_spec(
                callbacks,
                dates0,
                v0,
                m0,
                num_scenarios as int,
                dt_idx as int,
            );
            proof {
                assert(dt == dates0[dt_idx as int]);
                assert(cube_row_major(*instrument_values_cube) == v0);
                assert(cube_row_major(exercise_values_cube) == m0);
            }

            let mut exercise_values: Vec<i64> = Vec::new();
            let mut num_paths_itm: usize = 0;
            let mut s: usize = 0;
            while s < num_scenarios
                invariant
                    s <= num_scenarios,
                    exercise_values@.len() == s,
                    num_paths_itm <= s,
                    forall|s2: int|
                        0 <= s2 < s ==> #[trigger] exercise_values@[s2]
                            == callbacks.exercise_spec(s2, dt),
                    num_paths_itm as int == count_itm_spec(evs_row, s as int),
                decreases num_scenarios - s,
            {
                let ev = callbacks.exercise_value(s, dt);
                exercise_values.push(ev);
                proof {
                    assert(evs_row[s as int] == callbacks.exercise_spec(s as int, dt));
                }
                if ev > 0 {
                    num_paths_itm += 1;
                }
                s += 1;
            }
            proof {
                assert(exercise_values@ =~= evs_row);
            }

            // continuation values: discount the value at the next exercised
            // or terminal date and add the discounted intermediate cashflows
            let mut next_values: Vec<i64> = Vec::new();
            let mut s: usize = 0;
            while s < num_scenarios
                invariant
                    s <= num_scenarios,
                    next_values@.len() == s,
                    dt_idx < num_dates - 1,
                    num_dates == instrument_values_cube.dates@.len(),
                    num_scenarios == instrument_values_cube.num_scenarios,
                    instrument_values_cube.wf(),
                    instrument_values_cube.dates@ == old(instrument_values_cube).dates@,
                    instrument_values_cube.num_series == 1,
                    instrument_values_cube.time_series_names@ == old(instrument_values_cube).time_series_names@,
                    exercise_values_cube.wf(),
                    exercise_values_cube.dates@ == old(instrument_values_cube).dates@,
                    exercise_values_cube.num_scenarios == num_scenarios,
                    exercise_values_cube.num_series == 1,
                    ret_cashflows@.len() == num_scenarios,
                    forall|s2: int| 0 <= s2 < s ==> #[trigger] next_values@[s2] == nvals_row[s2],
                    forall|s2: int|
                        0 <= s2 < s ==> (#[trigger] ret_cashflows@[s2])@ == stv.2[s2]
                            + date_windows_spec(
                            callbacks,
                            dates0,
                            m0,
                            num_scenarios as int,
                            dt_idx as int,
                        )[s2],
                    forall|s2: int|
                        s <= s2 < num_scenarios ==> (#[trigger] ret_cashflows@[s2])@ == stv.2[s2],
                decreases num_scenarios - s,
            {
                let next_dt_idx = find_next_settle(&exercise_values_cube, s, dt_idx);
                let ghost nxt = next_settle_spec(m0, num_dates as int, s as int, dt_idx as int);
                proof {
                    assert(next_dt_idx as int == nxt);
                    lemma_row_major_index(*instrument_values_cube, s as int, nxt);
                }
                let next_dt: i64 = instrument_values_cube.dates[next_dt_idx];
                let next_value: i64 = get_one(instrument_values_cube, s, next_dt_idx);
                let span = fsub(next_dt, dt);
                let rate = callbacks.discount_rate(s, dt, span);
                let mut cfs = callbacks.cashflows(s, dt, next_dt);
                let mut cf_rates: Vec<i64> = Vec::new();
                let mut c: usize = 0;
                while c < cfs.len()
                    invariant
                        c <= cfs@.len(),
                        cf_rates@.len() == c,
                        cfs@ == callbacks.cashflows_spec(s as int, dt, next_dt),
                        forall|c2: int|
                            0 <= c2 < c ==> #[trigger] cf_rates@[c2] == callbacks.rate_spec(
                                s as int,
                                dt,
                                fsub_s(cfs@[c2].0 as int, dt as int) as i64,
                            ),
                    decreases cfs@.len() - c,
                {
                    let term = fsub(cfs[c].0, dt);
                    cf_rates.push(callbacks.discount_rate(s, dt, term));
                    c += 1;
                }
                proof {
                    assert(cf_rates@ =~= cf_rates_spec(callbacks, s as int, dt, cfs@));
                }
                let v = continuation_value(next_value, rate, span, &cfs, &cf_rates, dt);
                proof {
                    assert(v as int == continuation_spec(
                        callbacks,
                        dates0,
                        v0,
                        m0,
                        s as int,
                        dt_idx as int,
                    ));
                    assert(nvals_row[s as int] == v);
                }
                next_values.push(v);
                let ghost cfs0 = cfs@;
                ret_cashflows[s].append(&mut cfs);
                proof {
                    assert(date_windows_spec(
                        callbacks,
                        dates0,
                        m0,
                        num_scenarios as int,
                        dt_idx as int,
                    )[s as int] == cfs0);
                }
                s += 1;
            }

            // regression of continuation values on the quadratic basis,
            // restricted to in-the-money scenarios
            let mut itm_x: Vec<i64> = Vec::new();
            let mut itm_y: Vec<i64> = Vec::new();
            proof {
                assert(0int * (2 * num_variables as int) == 0) by (nonlinear_arith);
            }
            let mut s: usize = 0;
            while s < num_scenarios
                invariant
                    s <= num_scenarios,
                    exercise_values@.len() == num_scenarios,
                    next_values@.len() == num_scenarios,
                    itm_x@.len() == itm_y@.len() * (2 * num_variables as int),
                    num_scenarios as int * num_variables <= variable_values@.len(),
                    itm_x@ == itm_design_spec(vars0, num_variables as int, evs_row, s as int),
                    itm_y@ == itm_responses_spec(nvals_row, evs_row, s as int),
                decreases num_scenarios - s,
            {
                if exercise_values[s] > 0 {
                    proof {
                        assert((s + 1) as int * num_variables <= num_scenarios as int
                            * num_variables) by (nonlinear_arith)
                            requires
                                s < num_scenarios,
                                num_variables >= 0,
                        ;
                    }
                    let mut feats = quadratic_features(&variable_values, num_variables, s);
                    let ghost ylen = itm_y@.len() as int;
                    itm_x.append(&mut feats);
                    itm_y.push(next_values[s]);
                    proof {
                        assert(itm_x@.len() == (ylen + 1) * (2 * num_variables as int))
                            by (nonlinear_arith)
                            requires
                                itm_x@.len() == ylen * (2 * num_variables as int) + 2
                                    * num_variables,
                        ;
                    }
                }
                s += 1;
            }
            proof {
                assert(next_values@ =~= nvals_row);
            }
            let regressor = fit_regressor(&itm_x, &itm_y);

            // a second regressor over all scenarios, for non-decision dates
            let mut all_x: Vec<i64> = Vec::new();
            let mut s: usize = 0;
            while s < num_scenarios
                invariant
                    s <= num_scenarios,
                    next_values@.len() == num_scenarios,
                    all_x@.len() == s * (2 * num_variables as int),
                    num_scenarios as int * num_variables <= variable_values@.len(),
                    all_x@ == all_design_spec(vars0, num_variables as int, s as int),
                decreases num_scenarios - s,
            {
                proof {
                    assert((s + 1) as int * num_variables <= num_scenarios as int * num_variables)
                        by (nonlinear_arith)
                        requires
                            s < num_scenarios,
                            num_variables >= 0,
                    ;
                }
                let mut feats = quadratic_features(&variable_values, num_variables, s);
                let ghost xlen = all_x@.len() as int;
                all_x.append(&mut feats);
                proof {
                    assert((s + 1) as int * (2 * num_variables as int) == s as int * (2
                        * num_variables as int) + 2 * num_variables) by (nonlinear_arith);
                }
                s += 1;
            }
            let pricing_regressor = fit_regressor(&all_x, &next_values);

            // per-scenario decision
            let mut s: usize = 0;
            while s < num_scenarios
                invariant
                    s <= num_scenarios,
                    dt_idx < num_dates - 1,
                    exercise_values@.len() == num_scenarios,
                    num_dates == instrument_values_cube.dates@.len(),
                    num_scenarios == instrument_values_cube.num_scenarios,
                    instrument_values_cube.wf(),
                    instrument_values_cube.dates@ == old(instrument_values_cube).dates@,
                    instrument_values_cube.num_series == 1,
                    instrument_values_cube.time_series_names@ == old(instrument_values_cube).time_series_names@,
                    exercise_values_cube.wf(),
                    exercise_values_cube.dates@ == old(instrument_values_cube).dates@,
                    exercise_values_cube.num_scenarios == num_scenarios,
                    exercise_values_cube.num_series == 1,
                    exercise_cube_ok(exercise_values_cube, flags, dt_idx as int),
                    forall|s2: int, d2: int|
                        s <= s2 < num_scenarios && 0 <= d2 < num_dates
                            && #[trigger] exercise_values_cube.value_at(s2, 0, d2) == SCALE ==> d2
                            > dt_idx,
                    forall|s2: int, d2: int|
                        0 <= s2 < num_scenarios && 0 <= d2 < num_dates
                            && #[trigger] exercise_values_cube.value_at(s2, 0, d2) == SCALE
                            ==> instrument_values_cube.value_at(s2, 0, d2)
                            == callbacks.exercise_spec(
                            s2,
                            old(instrument_values_cube).dates@[d2],
                        ),
                    forall|s2: int, d2: int, d3: int|
                        0 <= s2 < num_scenarios && 0 <= d2 < d3 < num_dates
                            && #[trigger] exercise_values_cube.value_at(s2, 0, d2) == SCALE
                            ==> #[trigger] instrument_values_cube.value_at(s2, 0, d3) == 0,
                    forall|s2: int|
                        0 <= s2 < num_scenarios ==> #[trigger] instrument_values_cube.value_at(
                            s2,
                            0,
                            num_dates - 1,
                        ) == 0,
                    num_scenarios as int * num_variables <= variable_values@.len(),
                    itm_x@.len() == itm_y@.len() * (2 * num_variables as int),
                    all_x@.len() == num_scenarios as int * (2 * num_variables as int),
                    next_values@.len() == num_scenarios,
                    ({
                        let n = itm_y@.len() as int;
                        let nv = if n > 0 {
                            itm_x@.len() as int / n
                        } else {
                            0int
                        };
                        match regressor {
                            Ok(ref reg) => n > 0 && reg.parameters@.len() == nv + 1,
                            Err(e) => e == RegressionError::NoDataCases,
                        }
                    }),
                    ({
                        let n = next_values@.len() as int;
                        let nv = if n > 0 {
                            all_x@.len() as int / n
                        } else {
                            0int
                        };
                        match pricing_regressor {
                            Ok(ref reg) => n > 0 && reg.parameters@.len() == nv + 1,
                            Err(e) => e == RegressionError::NoDataCases,
                        }
                    }),
                    ({
                        let p = decide_fold(
                            v0,
                            m0,
                            num_dates as int,
                            dt_idx as int,
                            flags[dt_idx as int],
                            count_itm_spec(evs_row, num_scenarios as int),
                            evs_row,
                            vars0,
                            num_variables as int,
                            itm_x@,
                            itm_y@,
                            all_x@,
                            nvals_row,
                            s as int,
                        );
                        cube_row_major(*instrument_values_cube) == p.0 && cube_row_major(
                            exercise_values_cube,
                        ) == p.1
                    }),
                decreases num_scenarios - s,
            {
                proof {
                    assert((s + 1) as int * num_variables <= num_scenarios as int * num_variables)
                        by (nonlinear_arith)
                        requires
                            s < num_scenarios,
                            num_variables >= 0,
                    ;
                }
                let ghost feats = features_spec(vars0, num_variables as int, s as int);
                let regression_value: i64 = match regressor {
                    Ok(ref reg) => {
                        let x = quadratic_features(&variable_values, num_variables, s);
                        proof {
                            let n = itm_y@.len() as int;
                            assert(n > 0);
                            assert(itm_x@.len() as int / n == 2 * num_variables)
                                by (nonlinear_arith)
                                requires
                                    itm_x@.len() == n * (2 * num_variables as int),
                                    n > 0,
                            ;
                        }
                        let rv = reg.get_value(&x);
                        proof {
                            assert(rv as int == estimate_spec(itm_x@, itm_y@, feats));
                        }
                        rv
                    },
                    Err(_) => {
                        proof {
                            assert(estimate_spec(itm_x@, itm_y@, feats) == 0);
                        }
                        0
                    },
                };
                let ghost pfold = decide_fold(
                    v0,
                    m0,
                    num_dates as int,
                    dt_idx as int,
                    flags[dt_idx as int],
                    count_itm_spec(evs_row, num_scenarios as int),
                    evs_row,
                    vars0,
                    num_variables as int,
                    itm_x@,
                    itm_y@,
                    all_x@,
                    nvals_row,
                    s as int,
                );
                let ghost ivb = *instrument_values_cube;
                let ghost exb = exercise_values_cube;
                if exercise_flags[dt_idx] {
                    let exercise_value: i64 = exercise_values[s];
                    let exercised = decide_exercise(num_paths_itm, exercise_value, regression_value);
                    let written = if exercised {
                        exercise_value
                    } else {
                        regression_value
                    };
                    apply_decision(
                        instrument_values_cube,
                        &mut exercise_values_cube,
                        s,
                        dt_idx,
                        exercised,
                        written,
                    );
                    proof {
                        if exercised {
                            lemma_row_major_exercise(
                                ivb,
                                *instrument_values_cube,
                                s as int,
                                dt_idx as int,
                                written,
                            );
                            lemma_row_major_exercise(
                                exb,
                                exercise_values_cube,
                                s as int,
                                dt_idx as int,
                                SCALE,
                            );
                        } else {
                            lemma_row_major_change(
                                ivb,
                                *instrument_values_cube,
                                s as int,
                                dt_idx as int,
                                written,
                            );
                            lemma_row_major_same(exb, exercise_values_cube);
                        }
                    }
                } else {
                    let pricing_value: i64 = match pricing_regressor {
                        Ok(ref reg) => {
                            let x = quadratic_features(&variable_values, num_variables, s);
                            proof {
                                let n = next_values@.len() as int;
                                assert(n > 0);
                                assert(all_x@.len() as int / n == 2 * num_variables)
                                    by (nonlinear_arith)
                                    requires
                                        all_x@.len() == n * (2 * num_variables as int),
                                        n > 0,
                                ;
                            }
                            let rv = reg.get_value(&x);
                            proof {
                                assert(rv as int == estimate_spec(all_x@, nvals_row, feats));
                            }
                            rv
                        },
                        Err(_) => {
                            proof {
                                assert(estimate_spec(all_x@, nvals_row, feats) == 0);
                            }
                            0
                        },
                    };
                    apply_decision(
                        instrument_values_cube,
                        &mut exercise_values_cube,
                        s,
                        dt_idx,
                        false,
                        pricing_value,
                    );
                    proof {
                        lemma_row_major_change(
                            ivb,
                            *instrument_values_cube,
                            s as int,
                            dt_idx as int,
                            pricing_value,
                        );
                        lemma_row_major_same(exb, exercise_values_cube);
                    }
                }
                s += 1;
            }
            proof {
                let ns = num_scenarios as int;
                let nd = num_dates as int;
                let di = dt_idx as int;
                let ki = dt_inv_idx as int + 1;
                let dsi = date_step_spec(callbacks, dates0, flags, ns, v0, m0, di);
                assert(vars0 == callbacks.variables_spec(dates0[di]));
                assert(num_variables as int == vars0.len() as int / ns);
                assert(evs_row == exercise_row_spec(callbacks, ns, dates0[di]));
                assert(cube_row_major(*instrument_values_cube) == dsi.0);
                assert(cube_row_major(exercise_values_cube) == dsi.1);
                let nst = sweep_spec(callbacks, dates0, flags, ns, init_vals, init_marks, ki);
                assert(ki >= 2);
                assert(nd - ki == di);
                assert forall|s2: int|
                    0 <= s2 < ns implies (#[trigger] ret_cashflows@[s2])@ == nst.2[s2] by {
                    assert(ret_cashflows@[s2]@ == stv.2[s2] + date_windows_spec(
                        callbacks,
                        dates0,
                        m0,
                        ns,
                        di,
                    )[s2]);
                }
            }
        }
        dt_inv_idx += 1;
    }

    // re-sort each scenario's cashflows ascending by date
    let mut sorted: Vec<Vec<(i64, i64)>> = Vec::new();
    let mut s: usize = 0;
    while s < num_scenarios
        invariant
            s <= num_scenarios,
            ret_cashflows@.len() == num_scenarios,
            sorted@.len() == s,
            forall|s2: int| 0 <= s2 < s ==> sorted_by_date(#[trigger] sorted@[s2]@),
            forall|s2: int|
                0 <= s2 < s ==> (#[trigger] sorted@[s2])@.to_multiset()
                    == ret_cashflows@[s2]@.to_multiset(),
        decreases num_scenarios - s,
    {
        sorted.push(sort_cashflows(&ret_cashflows[s]));
        s += 1;
    }
    proof {
        let ns = num_scenarios as int;
        let nd = num_dates as int;
        let st = sweep_spec(callbacks, dates0, flags, ns, init_vals, init_marks, nd);
        assert(init_vals == cube_row_major(*old(instrument_values_cube)));
        assert(init_marks == Seq::new((ns * nd) as nat, |i: int| 0i64));
        assert forall|s2: int, d2: int|
            0 <= s2 < ns && 0 <= d2 < nd implies #[trigger] instrument_values_cube.value_at(
            s2,
            0,
            d2,
        ) == st.0[s2 * nd + d2] by {
            lemma_row_major_index(*instrument_values_cube, s2, d2);
        }
        assert forall|s2: int, d2: int|
            0 <= s2 < ns && 0 <= d2 < nd implies #[trigger] exercise_values_cube.value_at(
            s2,
            0,
            d2,
        ) == st.1[s2 * nd + d2] by {
            lemma_row_major_index(exercise_values_cube, s2, d2);
        }
    }
    (sorted, exercise_values_cube)
}

/// Two dates within the merge tolerance of each other.
pub open spec fn near_dates(a: int, b: int) -> bool {
    -10 < a - b < 10
}

/// `i` is the first entry whose date lies within the tolerance of `date`.
pub open spec fn is_first_near(s: Seq<(bool, i64)>, date: int, i: int) -> bool {
    &&& 0 <= i < s.len()
    &&& near_dates(s[i].1 as int, date)
    &&& forall|j: int| 0 <= j < i ==> !near_dates(s[j].1 as int, date)
}

/// The index of the first entry within the tolerance of `date`.
pub open spec fn first_near(s: Seq<(bool, i64)>, date: int) -> int {
    choose|i: int| is_first_near(s, date, i)
}

pub proof fn lemma_first_near_unique(s: Seq<(bool, i64)>, date: int, i: int)
    requires
        is_first_near(s, date, i),
    ensures
        first_near(s, date) == i,
{
    let j = first_near(s, date);
    assert(is_first_near(s, date, j));
    if i < j {
        assert(!near_dates(s[i].1 as int, date));
    }
    if j < i {
        assert(!near_dates(s[j].1 as int, date));
    }
}

/// What adding one rich date does: when an entry within the tolerance
/// already exists, the first such entry's flag is overwritten and its date
/// kept; otherwise the pair is appended.
pub open spec fn add_rich_spec(s: Seq<(bool, i64)>, flag: bool, date: i64) -> Seq<(bool, i64)> {
    if exists|i: int| is_first_near(s, date as int, i) {
        let i = first_near(s, date as int);
        s.update(i, (flag, s[i].1))
    } else {
        s.push((flag, date))
    }
}

/// Adds a (is_call_date, date) pair to a list of rich dates, merging dates
/// that fall within the tolerance: a near-duplicate date keeps its place
/// and takes the new flag.
#[verifier::loop_isolation(false)]
pub fn add_rich_date(rich_dates: &mut Vec<(bool, i64)>, is_call_date: bool, date: i64)
    ensures
        final(rich_dates)@ == add_rich_spec(old(rich_dates)@, is_call_date, date),
{
    let mut rd: usize = 0;
    while rd < rich_dates.len()
        invariant
            rd <= rich_dates@.len(),
            rich_dates@ == old(rich_dates)@,
            forall|j: int| 0 <= j < rd ==> !near_dates(rich_dates@[j].1 as int, date as int),
        decreases rich_dates@.len() - rd,
    {
        let d: i64 = rich_dates[rd].1;
        let diff: i128 = d as i128 - date as i128;
        if -10 < diff && diff < 10 {
            proof {
                assert(is_first_near(rich_dates@, date as int, rd as int));
                lemma_first_near_unique(rich_dates@, date as int, rd as int);
            }
            rich_dates[rd] = (is_call_date, d);
            return;
        }
        rd += 1;
    }
    proof {
        if exists|i: int| is_first_near(rich_dates@, date as int, i) {
            let i = choose|i: int| is_first_near(rich_dates@, date as int, i);
            assert(!near_dates(rich_dates@[i].1 as int, date as int));
        }
    }
    rich_dates.push((is_call_date, date));
}

/// The reporting dates lying at least the maturity threshold before
/// maturity, flagged non-exercisable, in order.
pub open spec fn filter_reporting(dates: Seq<i64>, maturity: int, k: int) -> Seq<(bool, i64)>
    decreases k,
{
    if k <= 0 {
        Seq::empty()
    } else {
        let p = filter_reporting(dates, maturity, k - 1);
        if maturity - dates[k - 1] > 1000 {
            p.push((false, dates[k - 1]))
        } else {
            p
        }
    }
}

/// The call dates folded into a rich date list, flagged exercisable.
pub open spec fn add_call_dates(s: Seq<(bool, i64)>, calls: Seq<i64>, k: int) -> Seq<(bool, i64)>
    decreases k,
{
    if k <= 0 {
        s
    } else {
        add_rich_spec(add_call_dates(s, calls, k - 1), true, calls[k - 1])
    }
}

/// The merged rich date list before sorting: the filtered reporting dates,
/// then the exercisable call dates, then the maturity date last, so that a
/// call date within the tolerance of maturity is left non-exercisable (the
/// maturity entry never is).
pub open spec fn rich_merge(reporting: Seq<i64>, calls: Seq<i64>, maturity: i64) -> Seq<(bool, i64)> {
    add_rich_spec(
        add_call_dates(
            filter_reporting(reporting, maturity as int, reporting.len() as int),
            calls,
            calls.len() as int,
        ),
        false,
        maturity,
    )
}

/// The flags and dates zipped back into pairs.
pub open spec fn pairs_of(flags: Seq<bool>, dates: Seq<i64>) -> Seq<(bool, i64)> {
    Seq::new(dates.len(), |i: int| (flags[i], dates[i]))
}

/// Rich dates ordered by date, non-decreasing.
pub open spec fn rich_sorted(s: Seq<(bool, i64)>) -> bool {
    forall|i: int, j: int| 0 <= i < j < s.len() ==> (s[i].1 <= s[j].1)
}

/// Sorts a rich date list ascending by date, keeping the order of equal
/// dates.
#[verifier::loop_isolation(false)]
fn sort_rich(v: &Vec<(bool, i64)>) -> (r: Vec<(bool, i64)>)
    ensures
        rich_sorted(r@),
        r@.to_multiset() == v@.to_multiset(),
{
    broadcast use vstd::seq_lib::group_to_multiset_ensures;

    let mut out: Vec<(bool, i64)> = Vec::new();
    let mut i: usize = 0;
    while i < v.len()
        invariant
            i <= v@.len(),
            rich_sorted(out@),
            out@.to_multiset() == v@.subrange(0, i as int).to_multiset(),
        decreases v@.len() - i,
    {
        let elem = v[i];
        let mut p: usize = 0;
        while p < out.len() && out[p].1 <= elem.1
            invariant
                p <= out@.len(),
                forall|j: int| 0 <= j < p ==> (out@[j].1 <= elem.1),
            decreases out@.len() - p,
        {
            p += 1;
        }
        proof {
            assert(forall|j: int| p <= j < out@.len() ==> (out@[j].1 > elem.1));
        }
        let ghost prev = out@;
        out.insert(p, elem);
        proof {
            assert(out@ == prev.insert(p as int, elem));
            assert forall|a: int, b: int| 0 <= a < b < out@.len() implies (out@[a].1
                <= out@[b].1) by {
                if a < p && b > p {
                    assert(out@[a] == prev[a] && out@[b] == prev[b - 1]);
                } else if a < p && b < p {
                    assert(out@[a] == prev[a] && out@[b] == prev[b]);
                } else if a > p && b > p {
                    assert(out@[a] == prev[a - 1] && out@[b] == prev[b - 1]);
                }
            }
            assert(v@.subrange(0, i as int).push(elem) == v@.subrange(0, i + 1 as int));
        }
        i += 1;
    }
    proof {
        assert(v@.subrange(0, v@.len() as int) == v@);
    }
    out
}

/// Builds the rich date list that drives a sweep: the union of the
/// reporting dates strictly before maturity, the exercisable call dates,
/// and the maturity date, which is never flagged exercisable (a call date
/// within the tolerance of it is merged and loses the flag);
/// near-duplicates merged within the tolerance, sorted ascending by date.
/// The result is the pair of parallel exercise-flag and date lists.
#[verifier::loop_isolation(false)]
pub fn build_rich_dates(reporting_dates: &Vec<i64>, call_dates: &Vec<i64>, maturity_date: i64) -> (r: (
    Vec<bool>,
    Vec<i64>,
))
    ensures
        r.0@.len() == r.1@.len(),
        forall|i: int, j: int| 0 <= i < j < r.1@.len() ==> (r.1@[i] <= r.1@[j]),
        pairs_of(r.0@, r.1@).to_multiset() == rich_merge(
            reporting_dates@,
            call_dates@,
            maturity_date,
        ).to_multiset(),
{
    let mut rich: Vec<(bool, i64)> = Vec::new();
    let mut i: usize = 0;
    while i < reporting_dates.len()
        invariant
            i <= reporting_dates@.len(),
            rich@ == filter_reporting(reporting_dates@, maturity_date as int, i as int),
        decreases reporting_dates@.len() - i,
    {
        let d: i64 = reporting_dates[i];
        let diff: i128 = maturity_date as i128 - d as i128;
        if diff > 1000 {
            rich.push((false, d));
        }
        i += 1;
    }
    let ghost base = rich@;
    let mut i: usize = 0;
    while i < call_dates.len()
        invariant
            i <= call_dates@.len(),
            rich@ == add_call_dates(base, call_dates@, i as int),
        decreases call_dates@.len() - i,
    {
        add_rich_date(&mut rich, true, call_dates[i]);
        i += 1;
    }
    add_rich_date(&mut rich, false, maturity_date);
    let ordered = sort_rich(&rich);
    let mut flags: Vec<bool> = Vec::new();
    let mut dates: Vec<i64> = Vec::new();
    let mut i: usize = 0;
    while i < ordered.len()
        invariant
            i <= ordered@.len(),
            flags@.len() == i,
            dates@.len() == i,
            forall|j: int| 0 <= j < i ==> flags@[j] == ordered@[j].0 && dates@[j] == ordered@[j].1,
        decreases ordered@.len() - i,
    {
        flags.push(ordered[i].0);
        dates.push(ordered[i].1);
        i += 1;
    }
    proof {
        assert(pairs_of(flags@, dates@) =~= ordered@);
        assert forall|a: int, b: int| 0 <= a < b < dates@.len() implies (dates@[a]
            <= dates@[b]) by {
            assert(ordered@[a].1 <= ordered@[b].1);
        }
    }
    (flags, dates)
}

/// A data-driven collaborator bundle: variable and exercise values are
/// tabulated per grid date, the cashflows of a scenario are a fixed dated
/// list filtered by window, and discounting uses one flat rate per
/// scenario.
pub struct TableCallbacks {
    pub grid_dates: Vec<i64>,
    pub variables: Vec<Vec<i64>>,
    pub exercise_table: Vec<Vec<i64>>,
    pub cashflow_lists: Vec<Vec<(i64, i64)>>,
    pub discount_rates: Vec<i64>,
}

/// `i` is the first grid entry equal to `date`.
pub open spec fn is_first_at(dates: Seq<i64>, date: i64, i: int) -> bool {
    &&& 0 <= i < dates.len()
    &&& dates[i] == date
    &&& forall|j: int| 0 <= j < i ==> dates[j] != date
}

/// The index of the first grid entry equal to `date`.
pub open spec fn first_at(dates: Seq<i64>, date: i64) -> int {
    choose|i: int| is_first_at(dates, date, i)
}

pub proof fn lemma_first_at_unique(dates: Seq<i64>, date: i64, i: int)
    requires
        is_first_at(dates, date, i),
    ensures
        first_at(dates, date) == i,
{
    let j = first_at(dates, date);
    assert(is_first_at(dates, date, j));
    if i < j {
        assert(dates[i] != date);
    }
    if j < i {
        assert(dates[j] != date);
    }
}

/// The cashflows of the first `k` entries whose dates fall in the window
/// `(from, to]`, in order.
pub open spec fn window_spec(cfs: Seq<(i64, i64)>, from: i64, to: i64, k: int) -> Seq<(i64, i64)>
    decreases k,
{
    if k <= 0 {
        Seq::empty()
    } else {
        let p = window_spec(cfs, from, to, k - 1);
        if from < cfs[k - 1].0 <= to {
            p.push(cfs[k - 1])
        } else {
            p
        }
    }
}

fn table_date_index(dates: &Vec<i64>, date: i64) -> (r: Option<usize>)
    ensures
        match r {
            Some(i) => is_first_at(dates@, date, i as int),
            None => forall|i: int| 0 <= i < dates@.len() ==> dates@[i] != date,
        },
{
    let mut i: usize = 0;
    while i < dates.len()
        invariant
            i <= dates@.len(),
            forall|j: int| 0 <= j < i ==> dates@[j] != date,
        decreases dates@.len() - i,
    {
        if dates[i] == date {
            return Some(i);
        }
        i += 1;
    }
    None
}

impl LsmCallbacks for TableCallbacks {
    open spec fn variables_spec(&self, date: i64) -> Seq<i64> {
        if exists|i: int| is_first_at(self.grid_dates@, date, i) {
            let i = first_at(self.grid_dates@, date);
            if i < self.variables@.len() {
                self.variables@[i]@
            } else {
                Seq::empty()
            }
        } else {
            Seq::empty()
        }
    }

    open spec fn exercise_spec(&self, scenario: int, date: i64) -> i64 {
        if exists|i: int| is_first_at(self.grid_dates@, date, i) {
            let i = first_at(self.grid_dates@, date);
            if i < self.exercise_table@.len() && 0 <= scenario < self.exercise_table@[i]@.len() {
                self.exercise_table@[i]@[scenario]
            } else {
                0i64
            }
        } else {
            0i64
        }
    }

    open spec fn cashflows_spec(&self, scenario: int, from_date: i64, to_date: i64) -> Seq<
        (i64, i64),
    > {
        if 0 <= scenario < self.cashflow_lists@.len() {
            window_spec(
                self.cashflow_lists@[scenario]@,
                from_date,
                to_date,
                self.cashflow_lists@[scenario]@.len() as int,
            )
        } else {
            Seq::empty()
        }
    }

    open spec fn rate_spec(&self, scenario: int, date: i64, term: i64) -> i64 {
        if 0 <= scenario < self.discount_rates@.len() {
            self.discount_rates@[scenario]
        } else {
            0i64
        }
    }

    fn models_variables_values(&self, date: i64) -> (r: Vec<i64>) {
        match table_date_index(&self.grid_dates, date) {
            Some(i) => {
                proof {
                    lemma_first_at_unique(self.grid_dates@, date, i as int);
                }
                if i < self.variables.len() {
                    copy_values(&self.variables[i])
                } else {
                    Vec::new()
                }
            },
            None => {
                proof {
                    if exists|i: int| is_first_at(self.grid_dates@, date, i) {
                        let i = choose|i: int| is_first_at(self.grid_dates@, date, i);
                        assert(self.grid_dates@[i] != date);
                    }
                }
                Vec::new()
            },
        }
    }

    fn exercise_value(&self, scenario: usize, date: i64) -> (r: i64) {
        match table_date_index(&self.grid_dates, date) {
            Some(i) => {
                proof {
                    lemma_first_at_unique(self.grid_dates@, date, i as int);
                }
                if i < self.exercise_table.len() && scenario < self.exercise_table[i].len() {
                    self.exercise_table[i][scenario]
                } else {
                    0
                }
            },
            None => {
                proof {
                    if exists|i: int| is_first_at(self.grid_dates@, date, i) {
                        let i = choose|i: int| is_first_at(self.grid_dates@, date, i);
                        assert(self.grid_dates@[i] != date);
                    }
                }
                0
            },
        }
    }

    fn cashflows(&self, scenario: usize, from_date: i64, to_date: i64) -> (r: Vec<(i64, i64)>) {
        let mut out: Vec<(i64, i64)> = Vec::new();
        if scenario < self.cashflow_lists.len() {
            let mut i: usize = 0;
            while i < self.cashflow_lists[scenario].len()
                invariant
                    scenario < self.cashflow_lists@.len(),
                    i <= self.cashflow_lists@[scenario as int]@.len(),
                    out@ == window_spec(
                        self.cashflow_lists@[scenario as int]@,
                        from_date,
                        to_date,
                        i as int,
                    ),
                decreases self.cashflow_lists@[scenario as int]@.len() - i,
            {
                let (d, a) = self.cashflow_lists[scenario][i];
                if from_date < d && d <= to_date {
                    out.push((d, a));
                }
                i += 1;
            }
        }
        out
    }

    fn discount_rate(&self, scenario: usize, date: i64, term: i64) -> (r: i64) {
        if scenario < self.discount_rates.len() {
            self.discount_rates[scenario]
        } else {
            0
        }
    }
}


/// With no exercisable date at all, the sweep degenerates to pure
/// continuation valuation: an exercise-indicator cube that satisfies the
/// engine's guarantee never marks an exercise.
pub proof fn lemma_no_flags_no_exercise(exc: Cube, flags: Seq<bool>)
    requires
        exercise_cube_ok(exc, flags, 0),
        forall|d: int| 0 <= d < flags.len() ==> !flags[d],
        exc.dates@.len() == flags.len(),
    ensures
        forall|s: int, d: int|
            0 <= s < exc.num_scenarios && 0 <= d < exc.dates@.len() ==> #[trigger] exc.value_at(
                s,
                0,
                d,
            ) == 0,
{
    assert forall|s: int, d: int|
        0 <= s < exc.num_scenarios && 0 <= d < exc.dates@.len() implies #[trigger] exc.value_at(
        s,
        0,
        d,
    ) == 0 by {
        if exc.value_at(s, 0, d) == SCALE {
            assert(flags[d]);
        }
    }
}


} // verus!
