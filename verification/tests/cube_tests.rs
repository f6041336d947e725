//! Tests of the data cube: storage round trips, date search,
//! interpolation and its error cases.

use monaco::data_cube::{Cube, CubeError};

fn fx(x: f64) -> i64 {
    (x * 1_000_000.0).round() as i64
}

fn fl(v: i64) -> f64 {
    v as f64 / 1_000_000.0
}

fn sample_cube() -> Cube {
    // 2 scenarios, 3 dates, 2 series, zero-filled
    Cube::make_empty_cube(vec![fx(0.5), fx(1.0), fx(2.0)], 2, 2)
}

#[test]
fn set_then_get_round_trip() {
    let mut c = sample_cube();
    for s in 0..2usize {
        for series in 0..2usize {
            for d in 0..3usize {
                let v = fx((s * 100 + series * 10 + d) as f64);
                c.set_item(s, series, d, v).unwrap();
                assert_eq!(c.get_item(s, series, d).unwrap(), v);
            }
        }
    }
    // a later write elsewhere leaves other entries alone
    c.set_item(1, 1, 2, fx(9.0)).unwrap();
    assert_eq!(c.get_item(0, 0, 0).unwrap(), fx(0.0));
    assert_eq!(c.get_item(1, 1, 2).unwrap(), fx(9.0));
}

#[test]
fn out_of_bounds_lookup_is_an_index_error() {
    let mut c = sample_cube();
    assert_eq!(c.get_item(2, 0, 0), Err(CubeError::IndexError));
    assert_eq!(c.set_item(2, 0, 0, 1), Err(CubeError::IndexError));
    assert_eq!(c.get_date(3), Err(CubeError::IndexError));
    assert_eq!(c.get_date(1), Ok(fx(1.0)));
}

#[test]
fn date_index_search() {
    let c = sample_cube();
    // exact matches give the exact index
    assert_eq!(c.get_date_index(fx(0.5)), Ok(0));
    assert_eq!(c.get_date_index(fx(1.0)), Ok(1));
    assert_eq!(c.get_date_index(fx(2.0)), Ok(2));
    // misses give the sorted insertion point
    assert_eq!(c.get_date_index(fx(0.25)), Err(0));
    assert_eq!(c.get_date_index(fx(0.75)), Err(1));
    assert_eq!(c.get_date_index(fx(1.5)), Err(2));
    assert_eq!(c.get_date_index(fx(3.0)), Err(3));
}

#[test]
fn last_at_or_before() {
    let mut c = sample_cube();
    c.set_item(0, 0, 0, fx(10.0)).unwrap();
    c.set_item(0, 0, 1, fx(20.0)).unwrap();
    c.set_item(0, 0, 2, fx(30.0)).unwrap();
    assert_eq!(c.get_item_last(0, 0, fx(1.5)), Ok((1, fx(20.0))));
    assert_eq!(c.get_item_last(0, 0, fx(1.0)), Ok((1, fx(20.0))));
    assert_eq!(c.get_item_last(0, 0, fx(5.0)), Ok((2, fx(30.0))));
    assert_eq!(c.get_item_last(0, 0, fx(0.25)), Err(CubeError::DateRangeError));
}

#[test]
fn interpolation_is_exact_on_the_grid() {
    let mut c = sample_cube();
    c.set_item(0, 0, 0, 123_456_789).unwrap();
    c.set_item(0, 0, 1, 987_654_321).unwrap();
    // the stored value comes back bit for bit, with equal bracket indices
    assert_eq!(c.get_item_interp(0, 0, fx(0.5), false), Ok((0, 0, 123_456_789)));
    assert_eq!(c.get_item_interp(0, 0, fx(1.0), false), Ok((1, 1, 987_654_321)));
}

#[test]
fn interpolation_is_the_linear_blend_between_grid_dates() {
    let mut c = sample_cube();
    c.set_item(0, 0, 0, fx(10.0)).unwrap();
    c.set_item(0, 0, 1, fx(20.0)).unwrap();
    // halfway between 0.5 and 1.0
    let (down, up, v) = c.get_item_interp(0, 0, fx(0.75), false).unwrap();
    assert_eq!((down, up), (0, 1));
    assert_eq!(v, fx(15.0));
    // a quarter of the way
    let (_, _, v2) = c.get_item_interp(0, 0, fx(0.625), false).unwrap();
    assert!(f64::abs(fl(v2) - 12.5) < 0.001);
}

#[test]
fn extrapolation_policy() {
    let mut c = sample_cube();
    c.set_item(0, 0, 0, fx(10.0)).unwrap();
    c.set_item(0, 0, 2, fx(30.0)).unwrap();
    // before the first grid date
    assert_eq!(c.get_item_interp(0, 0, fx(0.25), false), Err(CubeError::DateRangeError));
    assert_eq!(c.get_item_interp(0, 0, fx(0.25), true), Ok((0, 0, fx(10.0))));
    // after the last grid date
    assert_eq!(c.get_item_interp(0, 0, fx(9.0), false), Err(CubeError::DateRangeError));
    assert_eq!(c.get_item_interp(0, 0, fx(9.0), true), Ok((2, 3, fx(30.0))));
}

#[test]
fn vector_lookups() {
    let mut c = sample_cube();
    c.set_item(0, 0, 1, fx(1.0)).unwrap();
    c.set_item(0, 1, 1, fx(2.0)).unwrap();
    let v = c.get_item_vector(0, 1).unwrap();
    assert_eq!(v, vec![fx(1.0), fx(2.0)]);
    let (d, vl) = c.get_item_vector_last(0, fx(1.5)).unwrap();
    assert_eq!(d, 1);
    assert_eq!(vl, vec![fx(1.0), fx(2.0)]);
    let (down, up, vi) = c.get_item_vector_interp(0, fx(0.75), false).unwrap();
    assert_eq!((down, up), (0, 1));
    assert_eq!(vi, vec![fx(0.5), fx(1.0)]);
}

#[test]
fn series_names() {
    let mut c = sample_cube();
    assert_eq!(c.time_series_names.len(), 2);
    assert_eq!(c.time_series_names[0], "0");
    assert_eq!(c.time_series_names[1], "1");
    c.set_time_series_name(1, "rate");
    assert_eq!(c.time_series_names[1], "rate");
    assert_eq!(c.get_len(), 12);
}

#[test]
fn scenario_block_copy() {
    let mut c = sample_cube();
    for series in 0..2usize {
        for d in 0..3usize {
            c.set_item(1, series, d, fx((10 * series + d) as f64)).unwrap();
        }
    }
    // the last scenario's block is returned in full
    let block = c.get_scenario(1).unwrap();
    assert_eq!(block.len(), 6);
    assert_eq!(
        block,
        vec![fx(0.0), fx(10.0), fx(1.0), fx(11.0), fx(2.0), fx(12.0)]
    );
    assert_eq!(c.get_scenario(2), Err(monaco::data_cube::CubeError::IndexError));
}

#[test]
fn make_cube_wraps_existing_data() {
    let data: Vec<i64> = (0..12).collect();
    let c = Cube::make_cube(data, vec![fx(0.5), fx(1.0), fx(2.0)], 2, 2);
    assert_eq!(c.num_scenarios, 2);
    assert_eq!(c.num_series, 2);
    assert_eq!(c.get_item(0, 0, 0).unwrap(), 0);
    assert_eq!(c.get_item(1, 1, 2).unwrap(), 11);
}
