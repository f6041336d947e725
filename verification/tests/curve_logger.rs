//! Tests of curves, plain interpolation, the logger decision, and the
//! correlated variate simulator.

use monaco::curve::Curve;
use monaco::logger::Logger;
use monaco::math::{interpolate, simulate_normal_variates};

fn fx(x: f64) -> i64 {
    (x * 1_000_000.0).round() as i64
}

fn fl(v: i64) -> f64 {
    v as f64 / 1_000_000.0
}

#[test]
fn exp_discount() {
    let c: Curve = Curve {
        data: vec![
            (fx(0.001), fx(0.02)),
            (fx(0.1), fx(0.0025)),
            (fx(0.5), fx(0.03)),
            (fx(1.0), fx(0.028)),
        ],
    };
    let df: i64 = c.get_cont_df(fx(0.8)).unwrap();
    assert!(f64::abs(fl(df) - 0.9772233940) < 0.001);
}

#[test]
fn curve_values_and_forwards() {
    let c = Curve::from_vector(&vec![(fx(1.0), fx(0.02)), (fx(2.0), fx(0.04))]);
    // clamped below, exact at a point, blended between
    assert_eq!(c.get_value(fx(0.5)).unwrap(), fx(0.02));
    assert_eq!(c.get_value(fx(1.0)).unwrap(), fx(0.02));
    assert_eq!(c.get_value(fx(1.5)).unwrap(), fx(0.03));
    assert_eq!(c.get_value(fx(3.0)).unwrap(), fx(0.04));
    // continuous forward between 1y and 2y: (0.04*2 - 0.02*1) / 1 = 0.06
    let fwd = c.get_cont_fwd(fx(1.0), fx(2.0)).unwrap();
    assert!(f64::abs(fl(fwd) - 0.06) < 0.001);
    // annual discount factor at 1y: 1 / 1.02
    let df = c.get_annu_df(fx(1.0)).unwrap();
    assert!(f64::abs(fl(df) - 1.0 / 1.02) < 0.001);
}

#[test]
fn interpolate_cases() {
    let data = vec![(fx(1.0), fx(10.0)), (fx(2.0), fx(20.0)), (fx(4.0), fx(40.0))];
    assert_eq!(interpolate(&data, fx(0.5)), fx(10.0));
    assert_eq!(interpolate(&data, fx(1.0)), fx(10.0));
    assert_eq!(interpolate(&data, fx(2.0)), fx(20.0));
    assert_eq!(interpolate(&data, fx(3.0)), fx(30.0));
    assert_eq!(interpolate(&data, fx(5.0)), fx(40.0));
}

#[test]
fn logger_tag_filter() {
    let logger = Logger { log_tags: vec![("Lsm".to_string(), 2), ("app".to_string(), 0)] };
    assert!(logger.should_log("LSM"));
    assert!(logger.should_log("lsm"));
    assert!(logger.should_log("App"));
    assert!(!logger.should_log("controller"));
    assert!(logger.should_log_with_check("lsm", 2));
    assert!(!logger.should_log_with_check("lsm", 3));
    assert!(logger.should_log_with_check("APP", 0));
    assert!(!logger.should_log_with_check("app", 1));
}

#[test]
fn simulated_variates_have_the_right_shape() {
    // identity correlation: the draws pass through unchanged, so every
    // variate is a normal inverse CDF value of a probability strictly
    // inside the unit interval, bounded well below 6
    let corr = vec![fx(1.0), 0, 0, fx(1.0)];
    let sample = simulate_normal_variates(2, 10, &corr);
    assert_eq!(sample.len(), 20);
    for v in sample.iter() {
        assert!(v.abs() < fx(6.0));
    }
}
