//! Tests of the matrix and regression kernel and the fixed-point numerics.

use monaco::fixnum::{fadd, fdiv, fexp, fln, fmul, fsqrt, SCALE};
use monaco::linear_regressor::{LinearRegressor, RegressionError};
use monaco::math::{linear_regression_one_var, normal_invcdf};
use monaco::matrix::{multiply, Matrix};

fn fx(x: f64) -> i64 {
    (x * 1_000_000.0).round() as i64
}

fn fl(v: i64) -> f64 {
    v as f64 / 1_000_000.0
}

#[test]
fn chol_one_element() {
    let m = vec![fx(4.0)];
    let chol: Vec<i64> = monaco::matrix::cholesky(&m);
    assert!(f64::abs(fl(chol[0]) - 2.0) < 0.001);
}

#[test]
fn invcdf99() {
    let x1 = normal_invcdf(fx(0.5));
    assert!(f64::abs(fl(x1) - 0.0) < 0.001);
    let x2 = normal_invcdf(fx(0.99));
    assert!(f64::abs(fl(x2) - 2.3263478740408408) < 0.001);
    let x3 = normal_invcdf(fx(0.999));
    assert!(f64::abs(fl(x3) - 3.090232306167813) < 0.001);

    let x4 = normal_invcdf(fx(0.5));
    assert!(f64::abs(fl(x4) - (-fl(x1))) < 0.001);
    let x5 = normal_invcdf(fx(0.01));
    println!("x5: {}, x2: {}", fl(x5), fl(x2));
    assert!(f64::abs(fl(x5) - (-fl(x2))) < 0.001);
    let x6 = normal_invcdf(fx(0.001));
    assert!(f64::abs(fl(x6) - (-fl(x3))) < 0.001);

    let x7 = normal_invcdf(fx(0.1));
    assert!(f64::abs(fl(x7) - (-1.2815515655446004)) < 0.001);
    let x8 = normal_invcdf(fx(0.25));
    assert!(f64::abs(fl(x8) - (-0.6744897501960817)) < 0.001);
    let x9 = normal_invcdf(fx(0.4));
    assert!(f64::abs(fl(x9) - (-0.2533471031357997)) < 0.001);
}

#[test]
fn inv() {
    let m: Matrix = Matrix {
        data: vec![
            fx(1.0),
            fx(0.3),
            fx(0.8),
            fx(0.3),
            fx(1.0),
            fx(-0.3),
            fx(0.8),
            fx(-0.3),
            fx(1.0),
        ],
        rows: 3,
        cols: 3,
    };
    let inv = m.inverse();
    assert!(inv.data.len() == 9);
    assert!(f64::abs(fl(inv.data[0]) - 25.27777778) < 0.001);
}

#[test]
fn mult() {
    let matrix_a = vec![
        fx(1.0),
        fx(2.0),
        fx(3.0),
        fx(4.0),
        fx(5.0),
        fx(6.0),
        fx(7.0),
        fx(8.0),
        fx(9.0),
    ];
    let matrix_b = vec![fx(1.0), fx(2.0), fx(3.0), fx(4.0), fx(5.0), fx(6.0)];
    let c = multiply(&matrix_a, 3, 3, &matrix_b, 3, 2);
    assert!(c.len() == 6);
    assert!(f64::abs(fl(c[0]) - 22.0) < 0.001);
    assert!(f64::abs(fl(c[1]) - 28.0) < 0.001);
    assert!(f64::abs(fl(c[2]) - 49.0) < 0.001);
    assert!(f64::abs(fl(c[3]) - 64.0) < 0.001);
    assert!(f64::abs(fl(c[4]) - 76.0) < 0.001);
    assert!(f64::abs(fl(c[5]) - 100.0) < 0.001);
}

#[test]
fn cholesky() {
    let m: Vec<i64> = vec![
        fx(1.0),
        fx(0.3),
        fx(0.8),
        fx(0.3),
        fx(1.0),
        fx(-0.3),
        fx(0.8),
        fx(-0.3),
        fx(1.0),
    ];
    let chol: Vec<i64> = monaco::matrix::cholesky(&m);
    assert!(f64::abs(fl(chol[0]) - 1.0) < 0.001);
    assert!(f64::abs(fl(chol[1]) - 0.0) < 0.001);
    assert!(f64::abs(fl(chol[2]) - 0.0) < 0.001);
    assert!(f64::abs(fl(chol[3]) - 0.3) < 0.001);
    assert!(f64::abs(fl(chol[4]) - 0.9539392) < 0.001);
    assert!(f64::abs(fl(chol[5]) - 0.0) < 0.001);
    assert!(f64::abs(fl(chol[6]) - 0.8) < 0.001);
    assert!(f64::abs(fl(chol[7]) - (-0.56607381)) < 0.001);
    assert!(f64::abs(fl(chol[8]) - 0.19889806) < 0.001);
}

#[test]
fn inverse_times_original_is_identity() {
    let m: Matrix = Matrix {
        data: vec![
            fx(1.0),
            fx(0.3),
            fx(0.8),
            fx(0.3),
            fx(1.0),
            fx(-0.3),
            fx(0.8),
            fx(-0.3),
            fx(1.0),
        ],
        rows: 3,
        cols: 3,
    };
    let inv = m.inverse();
    let prod = m.multiply(&inv);
    assert_eq!(prod.rows, 3);
    assert_eq!(prod.cols, 3);
    for i in 0..3usize {
        for j in 0..3usize {
            let expected = if i == j { 1.0 } else { 0.0 };
            assert!(f64::abs(fl(prod.data[i * 3 + j]) - expected) < 0.001);
        }
    }
}

#[test]
fn cholesky_product_recovers_matrix() {
    let a = vec![
        fx(1.0),
        fx(0.3),
        fx(0.8),
        fx(0.3),
        fx(1.0),
        fx(-0.3),
        fx(0.8),
        fx(-0.3),
        fx(1.0),
    ];
    let l = monaco::matrix::cholesky(&a);
    let lt = monaco::matrix::transpose(&l, 3, 3);
    let prod = multiply(&l, 3, 3, &lt, 3, 3);
    for k in 0..9usize {
        assert!(f64::abs(fl(prod[k]) - fl(a[k])) < 0.001);
    }
}

#[test]
fn fixed_point_basics() {
    assert_eq!(fmul(fx(2.0), fx(3.0)), fx(6.0));
    assert_eq!(fdiv(fx(3.0), fx(2.0)), fx(1.5));
    assert_eq!(fdiv(fx(1.0), 0), 0);
    assert_eq!(fadd(fx(1.25), fx(0.75)), fx(2.0));
    assert_eq!(fsqrt(fx(4.0)), fx(2.0));
    assert_eq!(fsqrt(fx(-1.0)), 0);
    assert_eq!(fexp(0), SCALE);
    assert!(f64::abs(fl(fexp(fx(1.0))) - 2.718281828) < 0.001);
    assert!(f64::abs(fl(fexp(fx(-1.0))) - 0.367879441) < 0.001);
    assert_eq!(fln(SCALE), 0);
    assert!(f64::abs(fl(fln(fx(2.0))) - 0.693147) < 0.001);
    assert!(f64::abs(fl(fln(fx(0.5))) - (-0.693147)) < 0.001);
    assert!(f64::abs(fl(fln(fx(100.0))) - 4.605170) < 0.001);
}

#[test]
fn one_var_regression_exact_line() {
    let data = vec![(fx(1.0), fx(3.0)), (fx(2.0), fx(5.0)), (fx(3.0), fx(7.0))];
    let (alpha, beta) = linear_regression_one_var(&data);
    assert_eq!(beta, fx(2.0));
    assert_eq!(alpha, fx(1.0));
}

#[test]
fn regressor_fits_line() {
    let x = vec![fx(1.0), fx(2.0), fx(3.0)];
    let y = vec![fx(3.0), fx(5.0), fx(7.0)];
    let reg = LinearRegressor::create_regressor(&x, &y).unwrap();
    assert_eq!(reg.parameters.len(), 2);
    assert!(f64::abs(fl(reg.parameters[0]) - 2.0) < 0.001);
    assert!(f64::abs(fl(reg.parameters[1]) - 1.0) < 0.001);
    let v = reg.get_value(&vec![fx(4.0)]);
    assert!(f64::abs(fl(v) - 9.0) < 0.001);
}

#[test]
fn regressor_without_data_is_refused() {
    let x: Vec<i64> = Vec::new();
    let y: Vec<i64> = Vec::new();
    let r = LinearRegressor::create_regressor(&x, &y);
    match r {
        Err(e) => assert_eq!(e, RegressionError::NoDataCases),
        Ok(_) => panic!("an empty fit must be refused"),
    }
}
