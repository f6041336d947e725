//! Tests of the backward-induction engine, the rich date merge and the
//! cashflow ordering.

use monaco::data_cube::Cube;
use monaco::lsm::{add_rich_date, build_rich_dates, compute_lsm_values, sort_cashflows,
    TableCallbacks};

fn fx(x: f64) -> i64 {
    (x * 1_000_000.0).round() as i64
}

const ONE: i64 = 1_000_000;

#[test]
fn end_to_end_exercise_decision() {
    // 2 scenarios, dates [0.5, 1.0], maturity non-exercisable, one
    // exercise date at 0.5; scenario 0's exercise value beats the fitted
    // continuation estimate and must be exercised, scenario 1 keeps the
    // estimate.
    let dates = vec![fx(0.5), fx(1.0)];
    let mut values = Cube::make_empty_cube(dates.clone(), 2, 1);
    let flags = vec![true, false];
    let callbacks = TableCallbacks {
        grid_dates: dates.clone(),
        variables: vec![vec![], vec![]],
        exercise_table: vec![vec![fx(12.0), 0], vec![0, 0]],
        cashflow_lists: vec![vec![], vec![]],
        discount_rates: vec![0, 0],
    };
    let (cashflows, exercise_cube) = compute_lsm_values(&mut values, &flags, &callbacks);

    // scenario 0 exercises at 0.5: value there is the exercise value, the
    // value at maturity is forced to 0
    assert_eq!(values.get_item(0, 0, 0).unwrap(), fx(12.0));
    assert_eq!(values.get_item(0, 0, 1).unwrap(), 0);
    assert_eq!(exercise_cube.get_item(0, 0, 0).unwrap(), ONE);
    assert_eq!(exercise_cube.get_item(0, 0, 1).unwrap(), 0);

    // scenario 1 stays alive with the fitted continuation estimate
    assert_eq!(values.get_item(1, 0, 0).unwrap(), 0);
    assert_eq!(values.get_item(1, 0, 1).unwrap(), 0);
    assert_eq!(exercise_cube.get_item(1, 0, 0).unwrap(), 0);
    assert_eq!(exercise_cube.get_item(1, 0, 1).unwrap(), 0);

    assert_eq!(cashflows.len(), 2);
    assert!(cashflows[0].is_empty());
    assert!(cashflows[1].is_empty());
}

#[test]
fn degenerate_case_is_pure_discounted_continuation() {
    // no exercise date at all: the engine reduces to discounted
    // continuation valuation; with a zero rate and both scenarios alike,
    // the value at the non-terminal date is exactly the sum of the future
    // cashflows plus the (zero) terminal value, and nothing is exercised.
    let dates = vec![fx(0.5), fx(1.0)];
    let mut values = Cube::make_empty_cube(dates.clone(), 2, 1);
    let flags = vec![false, false];
    let callbacks = TableCallbacks {
        grid_dates: dates.clone(),
        variables: vec![vec![], vec![]],
        exercise_table: vec![vec![0, 0], vec![0, 0]],
        cashflow_lists: vec![vec![(fx(0.8), fx(7.0))], vec![(fx(0.8), fx(7.0))]],
        discount_rates: vec![0, 0],
    };
    let (cashflows, exercise_cube) = compute_lsm_values(&mut values, &flags, &callbacks);

    for s in 0..2usize {
        assert_eq!(values.get_item(s, 0, 0).unwrap(), fx(7.0));
        assert_eq!(values.get_item(s, 0, 1).unwrap(), 0);
        assert_eq!(exercise_cube.get_item(s, 0, 0).unwrap(), 0);
        assert_eq!(exercise_cube.get_item(s, 0, 1).unwrap(), 0);
        assert_eq!(cashflows[s], vec![(fx(0.8), fx(7.0))]);
    }
}

#[test]
fn single_exercise_and_sorted_cashflows() {
    // one scenario over three dates with two exercise opportunities: the
    // later one is taken, the earlier one declined, and the collected
    // cashflow stream comes out ascending by date.
    let dates = vec![fx(0.25), fx(0.5), fx(1.0)];
    let mut values = Cube::make_empty_cube(dates.clone(), 1, 1);
    let flags = vec![true, true, false];
    let callbacks = TableCallbacks {
        grid_dates: dates.clone(),
        variables: vec![vec![], vec![], vec![]],
        exercise_table: vec![vec![fx(10.0)], vec![fx(5.0)], vec![0]],
        cashflow_lists: vec![vec![(fx(0.3), fx(1.0)), (fx(0.9), fx(2.0)), (fx(0.4), fx(5.0))]],
        discount_rates: vec![0],
    };
    let (cashflows, exercise_cube) = compute_lsm_values(&mut values, &flags, &callbacks);

    // exercised at 0.5 only: 5.0 beats the continuation estimate 2.0
    // there, while at 0.25 the estimate 11.0 beats 10.0
    assert_eq!(exercise_cube.get_item(0, 0, 0).unwrap(), 0);
    assert_eq!(exercise_cube.get_item(0, 0, 1).unwrap(), ONE);
    assert_eq!(exercise_cube.get_item(0, 0, 2).unwrap(), 0);
    let mut ones = 0;
    for d in 0..3usize {
        if exercise_cube.get_item(0, 0, d).unwrap() == ONE {
            ones += 1;
        }
    }
    assert!(ones <= 1);

    assert_eq!(values.get_item(0, 0, 0).unwrap(), fx(11.0));
    assert_eq!(values.get_item(0, 0, 1).unwrap(), fx(5.0));
    assert_eq!(values.get_item(0, 0, 2).unwrap(), 0);

    // the stream is re-sorted ascending by date
    assert_eq!(
        cashflows[0],
        vec![(fx(0.3), fx(1.0)), (fx(0.4), fx(5.0)), (fx(0.9), fx(2.0))]
    );
}

#[test]
fn single_date_grid_is_just_the_maturity_row() {
    // a grid holding only the maturity date: the sweep sets that row to 0
    // and collects nothing
    let dates = vec![fx(1.0)];
    let mut values = Cube::make_empty_cube(dates.clone(), 2, 1);
    values.set_item(0, 0, 0, fx(5.0)).unwrap();
    let flags = vec![false];
    let callbacks = TableCallbacks {
        grid_dates: dates.clone(),
        variables: vec![vec![]],
        exercise_table: vec![vec![0, 0]],
        cashflow_lists: vec![vec![], vec![]],
        discount_rates: vec![0, 0],
    };
    let (cashflows, exercise_cube) = compute_lsm_values(&mut values, &flags, &callbacks);
    assert_eq!(values.get_item(0, 0, 0).unwrap(), 0);
    assert_eq!(values.get_item(1, 0, 0).unwrap(), 0);
    assert_eq!(exercise_cube.get_item(0, 0, 0).unwrap(), 0);
    assert_eq!(exercise_cube.get_item(1, 0, 0).unwrap(), 0);
    assert_eq!(cashflows.len(), 2);
    assert!(cashflows[0].is_empty());
    assert!(cashflows[1].is_empty());
}

#[test]
fn cashflow_sort_orders_by_date() {
    let v = vec![(fx(2.0), 5), (fx(0.5), 1), (fx(1.0), 2), (fx(0.5), 7)];
    let r = sort_cashflows(&v);
    assert_eq!(r, vec![(fx(0.5), 1), (fx(0.5), 7), (fx(1.0), 2), (fx(2.0), 5)]);
}

#[test]
fn rich_date_merge() {
    let mut rich: Vec<(bool, i64)> = Vec::new();
    add_rich_date(&mut rich, false, fx(0.5));
    add_rich_date(&mut rich, false, fx(1.0));
    // a near-duplicate within the tolerance overwrites the flag and keeps
    // the date already in the list
    add_rich_date(&mut rich, true, fx(0.5) + 5);
    assert_eq!(rich, vec![(true, fx(0.5)), (false, fx(1.0))]);
    // a date outside the tolerance is appended
    add_rich_date(&mut rich, true, fx(0.75));
    assert_eq!(rich.len(), 3);
}

#[test]
fn rich_date_list_construction() {
    let reporting = vec![fx(0.25), fx(0.5), fx(1.0)];
    let calls = vec![fx(0.5) + 5, fx(0.75)];
    let (flags, dates) = build_rich_dates(&reporting, &calls, fx(1.0));
    assert_eq!(dates, vec![fx(0.25), fx(0.5), fx(0.75), fx(1.0)]);
    assert_eq!(flags, vec![false, true, true, false]);
}

#[test]
fn maturity_is_never_exercisable() {
    // a call date within the merge tolerance of maturity is folded into
    // the maturity entry and loses its exercise flag
    let reporting = vec![fx(0.5), fx(1.0)];
    let calls = vec![fx(1.0) + 5];
    let (flags, dates) = build_rich_dates(&reporting, &calls, fx(1.0));
    assert_eq!(dates, vec![fx(0.5), fx(1.0) + 5]);
    assert_eq!(flags, vec![false, false]);
}
