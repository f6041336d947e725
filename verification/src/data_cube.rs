//! The data cube: a 3-dimensional store of fixed-point values.
//!
//! The three dimensions are scenarios, time (a list of dates, as fixed-point
//! year fractions), and series.  Values are stored flat, scenario-major,
//! then date, then series.  The list of time series names is kept to
//! facilitate usage; names are initially the ordinal position of the series
//! as a string and can be changed afterwards.
//!
//! A strictly increasing date grid is relied upon by the date searches, not
//! checked at construction: it is a documented precondition.

use vstd::prelude::*;
use crate::fixnum::{fadd, fsub, fmul, fdiv, fadd_s, fsub_s, fmul_s, fdiv_s};

verus! {

/// Errors of cube lookups.
#[derive(Clone, Copy, Debug, PartialEq, Eq, Structural)]
pub enum CubeError {
    /// A computed flat offset lies outside the storage.
    IndexError,
    /// The query date precedes the first grid date, or follows the last one
    /// and extrapolation was not allowed.
    DateRangeError,
}

/// A sequence of dates with no equal or out-of-order entries.
pub open spec fn strictly_increasing(s: Seq<i64>) -> bool {
    forall|i: int, j: int| 0 <= i < j < s.len() ==> s[i] < s[j]
}

/// Some grid date equals `date`.
pub open spec fn has_date(dates: Seq<i64>, date: int) -> bool {
    exists|i: int| 0 <= i < dates.len() && dates[i] == date
}

/// The index of the grid date equal to `date`.
pub open spec fn date_pos(dates: Seq<i64>, date: int) -> int {
    choose|i: int| 0 <= i < dates.len() && dates[i] == date
}

/// `u` is the sorted insertion point of `date`: everything before it is
/// smaller, everything from it on is larger.
pub open spec fn is_insertion_point(dates: Seq<i64>, date: int, u: int) -> bool {
    &&& 0 <= u <= dates.len()
    &&& forall|j: int| 0 <= j < u ==> dates[j] < date
    &&& forall|j: int| u <= j < dates.len() ==> dates[j] > date
}

/// The sorted insertion point of a date that is not on the grid.
pub open spec fn insertion_point(dates: Seq<i64>, date: int) -> int {
    choose|u: int| is_insertion_point(dates, date, u)
}

pub proof fn lemma_date_pos_unique(dates: Seq<i64>, date: int, i: int)
    requires
        strictly_increasing(dates),
        0 <= i < dates.len(),
        dates[i] == date,
    ensures
        date_pos(dates, date) == i,
        has_date(dates, date),
{
    assert(has_date(dates, date));
    let j = date_pos(dates, date);
    if i < j {
        assert(dates[i] < dates[j]);
    }
    if j < i {
        assert(dates[j] < dates[i]);
    }
}

pub proof fn lemma_insertion_point_unique(dates: Seq<i64>, date: int, u: int)
    requires
        is_insertion_point(dates, date, u),
    ensures
        insertion_point(dates, date) == u,
        !has_date(dates, date),
{
    let v = insertion_point(dates, date);
    assert(is_insertion_point(dates, date, v));
    if u < v {
        assert(dates[u] > date && dates[u] < date);
    }
    if v < u {
        assert(dates[v] > date && dates[v] < date);
    }
}

/// `j` is the index of the last grid date at or before `date`.
pub open spec fn is_last_le(dates: Seq<i64>, date: int, j: int) -> bool {
    &&& 0 <= j < dates.len()
    &&& dates[j] <= date
    &&& j == dates.len() - 1 || dates[j + 1] > date
}

/// The index of the last grid date at or before `date`.
pub open spec fn last_le(dates: Seq<i64>, date: int) -> int {
    choose|j: int| is_last_le(dates, date, j)
}

pub proof fn lemma_last_le_exists(dates: Seq<i64>, date: int)
    requires
        strictly_increasing(dates),
        dates.len() > 0,
        dates[0] <= date,
    ensures
        is_last_le(dates, date, last_le(dates, date)),
    decreases dates.len(),
{
    let n = dates.len() as int;
    if dates[n - 1] <= date {
        assert(is_last_le(dates, date, n - 1));
    } else {
        let prefix = dates.subrange(0, n - 1);
        assert(strictly_increasing(prefix));
        lemma_last_le_exists(prefix, date);
        let j = last_le(prefix, date);
        assert(is_last_le(prefix, date, j));
        assert(prefix[j] == dates[j]);
        if j < n - 2 {
            assert(prefix[j + 1] == dates[j + 1]);
        }
        assert(is_last_le(dates, date, j));
    }
    let w = choose|j: int| is_last_le(dates, date, j);
    assert(is_last_le(dates, date, w));
}

pub proof fn lemma_last_le_unique(dates: Seq<i64>, date: int, j: int)
    requires
        strictly_increasing(dates),
        is_last_le(dates, date, j),
    ensures
        last_le(dates, date) == j,
{
    let k = last_le(dates, date);
    assert(is_last_le(dates, date, k));
    if j < k {
        assert(j + 1 <= k);
        if j + 1 < k {
            assert(dates[j + 1] < dates[k]);
        }
        assert(dates[j + 1] <= dates[k] <= date);
    }
    if k < j {
        if k + 1 < j {
            assert(dates[k + 1] < dates[j]);
        }
        assert(dates[k + 1] <= dates[j] <= date);
    }
}

/// The linear blend used by interpolated lookups, in the operation order of
/// the implementation: `(up_v - down_v) / (up_d - down_d) * (date - down_d)
/// + down_v`.
pub open spec fn interp_blend(down_v: i64, up_v: i64, down_d: i64, up_d: i64, date: int) -> int {
    fadd_s(
        fmul_s(
            fdiv_s(fsub_s(up_v as int, down_v as int), fsub_s(up_d as int, down_d as int)),
            fsub_s(date, down_d as int),
        ),
        down_v as int,
    )
}

/// The decimal rendering of a number.
pub uninterp spec fn decimal_str(n: int) -> Seq<char>;

/// Relies on the standard `to_string` for `usize` (its `Display`
/// implementation): the decimal rendering depends on the value alone.
#[verifier::external_body]
fn ordinal_name(n: usize) -> (r: String)
    ensures
        r@ == decimal_str(n as int),
{
    n.to_string()
}

/// A data cube.
#[derive(Clone, Debug)]
pub struct Cube {
    pub data: Vec<i64>,
    pub dates: Vec<i64>,
    pub time_series_names: Vec<String>,
    pub num_scenarios: usize,
    pub num_series: usize,
}

impl Cube {
    /// The flat offset of (scenario, series, date index).
    pub open spec fn flat_index(&self, scenario: int, series: int, dt_pos: int) -> int {
        self.dates@.len() * self.num_series * scenario + dt_pos * self.num_series + series
    }

    /// The stored value at (scenario, series, date index).
    pub open spec fn value_at(&self, scenario: int, series: int, dt_pos: int) -> i64 {
        self.data@[self.flat_index(scenario, series, dt_pos)]
    }

    pub open spec fn spec_data(&self) -> Seq<i64> {
        self.data@
    }

    /// Dimensional consistency of the storage.
    pub open spec fn wf(&self) -> bool {
        &&& self.data@.len() == self.dates@.len() * self.num_scenarios * self.num_series
        &&& self.time_series_names@.len() == self.num_series
    }

    pub open spec fn valid_coords(&self, scenario: int, series: int, dt_pos: int) -> bool {
        &&& 0 <= scenario < self.num_scenarios
        &&& 0 <= series < self.num_series
        &&& 0 <= dt_pos < self.dates@.len()
    }

    /// The flat-offset arithmetic stays within `usize`.
    pub open spec fn index_args_ok(&self, scenario: int, series: int, dt_pos: int) -> bool {
        &&& self.dates@.len() * self.num_series <= usize::MAX
        &&& self.dates@.len() * self.num_series * scenario <= usize::MAX
        &&& self.flat_index(scenario, series, dt_pos) <= usize::MAX
    }
}

pub proof fn lemma_flat_index_in_bounds(c: Cube, scenario: int, series: int, dt_pos: int)
    requires
        c.wf(),
        c.valid_coords(scenario, series, dt_pos),
    ensures
        0 <= c.flat_index(scenario, series, dt_pos) < c.spec_data().len(),
        c.index_args_ok(scenario, series, dt_pos),
{
    let d = c.dates@.len() as int;
    let ns = c.num_series as int;
    let s = c.num_scenarios as int;
    assert(c.data.len() == c.data@.len());
    assert(0 <= d * ns * scenario + dt_pos * ns + series && d * ns * scenario + dt_pos * ns
        + series < d * s * ns && d * ns <= d * s * ns && d * ns * scenario <= d * s * ns)
        by (nonlinear_arith)
        requires
            0 <= scenario < s,
            0 <= series < ns,
            0 <= dt_pos < d,
            0 < s,
            0 < ns,
            0 < d,
    ;
    assert(d * s * ns == d * ns * s) by (nonlinear_arith);
    assert(c.spec_data().len() == d * s * ns);
}

/// The whole series vector at (scenario, date index) lies inside the storage.
pub proof fn lemma_flat_index_in_bounds_edge(c: Cube, scenario: int, dt_pos: int)
    requires
        c.wf(),
        0 <= scenario < c.num_scenarios,
        0 <= dt_pos < c.dates@.len(),
    ensures
        0 <= c.flat_index(scenario, 0, dt_pos),
        c.flat_index(scenario, 0, dt_pos) + c.num_series <= c.spec_data().len(),
        c.flat_index(scenario, 0, dt_pos) + c.num_series <= usize::MAX,
        c.dates@.len() * c.num_series <= usize::MAX,
        c.dates@.len() * c.num_series * scenario <= usize::MAX,
{
    let d = c.dates@.len() as int;
    let ns = c.num_series as int;
    let s = c.num_scenarios as int;
    assert(c.data.len() == c.data@.len());
    assert(0 <= d * ns * scenario + dt_pos * ns && d * ns * scenario + dt_pos * ns + ns <= d * s
        * ns && d * ns <= d * s * ns && d * ns * scenario <= d * s * ns) by (nonlinear_arith)
        requires
            0 <= scenario < s,
            0 <= dt_pos < d,
            0 <= ns,
            0 < s,
            0 < d,
    ;
    assert(d * s * ns == d * ns * s) by (nonlinear_arith);
    assert(c.spec_data().len() == d * s * ns);
}

/// Distinct valid coordinates have distinct flat offsets.
pub proof fn lemma_flat_index_injective(
    c: Cube,
    s1: int,
    se1: int,
    d1: int,
    s2: int,
    se2: int,
    d2: int,
)
    requires
        c.wf(),
        c.valid_coords(s1, se1, d1),
        c.valid_coords(s2, se2, d2),
        c.flat_index(s1, se1, d1) == c.flat_index(s2, se2, d2),
    ensures
        s1 == s2 && se1 == se2 && d1 == d2,
{
    let d = c.dates@.len() as int;
    let ns = c.num_series as int;
    assert((d * s1 + d1) * ns + se1 == c.flat_index(s1, se1, d1) && (d * s2 + d2) * ns + se2
        == c.flat_index(s2, se2, d2)) by (nonlinear_arith)
        requires
            c.flat_index(s1, se1, d1) == d * ns * s1 + d1 * ns + se1,
            c.flat_index(s2, se2, d2) == d * ns * s2 + d2 * ns + se2,
    ;
    let a1 = d * s1 + d1;
    let a2 = d * s2 + d2;
    assert(a1 == a2 && se1 == se2) by (nonlinear_arith)
        requires
            a1 * ns + se1 == a2 * ns + se2,
            0 <= se1 < ns,
            0 <= se2 < ns,
    ;
    assert(s1 == s2 && d1 == d2) by (nonlinear_arith)
        requires
            d * s1 + d1 == d * s2 + d2,
            0 <= d1 < d,
            0 <= d2 < d,
    ;
}

/// The value written by an in-place update is read back unchanged, and no
/// other entry moves: the round trip of `set_item` and `get_item`, stated
/// over the flat storage.
pub proof fn lemma_set_get_round_trip(
    c1: Cube,
    c2: Cube,
    scenario: int,
    series: int,
    dt_pos: int,
    v: i64,
)
    requires
        c1.wf(),
        c1.valid_coords(scenario, series, dt_pos),
        c2.dates@ == c1.dates@,
        c2.num_scenarios == c1.num_scenarios,
        c2.num_series == c1.num_series,
        c2.spec_data() == c1.spec_data().update(c1.flat_index(scenario, series, dt_pos), v),
    ensures
        c2.value_at(scenario, series, dt_pos) == v,
        forall|s2: int, se2: int, d2: int|
            c1.valid_coords(s2, se2, d2) && !(s2 == scenario && se2 == series && d2 == dt_pos)
                ==> c2.value_at(s2, se2, d2) == c1.value_at(s2, se2, d2),
{
    lemma_flat_index_in_bounds(c1, scenario, series, dt_pos);
    assert forall|s2: int, se2: int, d2: int|
        c1.valid_coords(s2, se2, d2) && !(s2 == scenario && se2 == series && d2 == dt_pos)
        implies c2.value_at(s2, se2, d2) == c1.value_at(s2, se2, d2) by {
        lemma_flat_index_in_bounds(c1, s2, se2, d2);
        if c1.flat_index(s2, se2, d2) == c1.flat_index(scenario, series, dt_pos) {
            lemma_flat_index_injective(c1, s2, se2, d2, scenario, series, dt_pos);
        }
    }
}

impl Cube {
    /// Creates a zero-filled data cube with the given dimensions.
    pub fn make_empty_cube(dates: Vec<i64>, num_scenarios: usize, num_series: usize) -> (c: Cube)
        requires
            dates@.len() * num_scenarios * num_series <= usize::MAX,
            dates@.len() * num_scenarios <= usize::MAX,
        ensures
            c.wf(),
            c.dates@ == dates@,
            c.num_scenarios == num_scenarios,
            c.num_series == num_series,
            c.spec_data().len() == dates@.len() * num_scenarios * num_series,
            forall|i: int| 0 <= i < c.spec_data().len() ==> c.spec_data()[i] == 0i64,
            forall|i: int|
                0 <= i < num_series ==> (#[trigger] c.time_series_names@[i])@ == decimal_str(i),
    {
        let mut names: Vec<String> = Vec::new();
        let mut s: usize = 0;
        while s < num_series
            invariant
                names@.len() == s,
                s <= num_series,
                forall|i: int| 0 <= i < s ==> (#[trigger] names@[i])@ == decimal_str(i),
            decreases num_series - s,
        {
            names.push(ordinal_name(s));
            s += 1;
        }
        proof {
            assert(dates@.len() * num_scenarios * num_series
                == (dates@.len() * num_scenarios) * num_series) by (nonlinear_arith);
        }
        let n: usize = dates.len() * num_scenarios * num_series;
        Cube {
            data: vec![0i64; n],
            dates,
            num_scenarios,
            num_series,
            time_series_names: names,
        }
    }

    /// Creates a data cube around existing data.
    ///
    /// `dates.len() * num_scenarios * num_series` must equal `data.len()`.
    pub fn make_cube(data: Vec<i64>, dates: Vec<i64>, num_scenarios: usize, num_series: usize) -> (c:
        Cube)
        requires
            data@.len() == dates@.len() * num_scenarios * num_series,
        ensures
            c.wf(),
            c.spec_data() == data@,
            c.dates@ == dates@,
            c.num_scenarios == num_scenarios,
            c.num_series == num_series,
            forall|i: int|
                0 <= i < num_series ==> (#[trigger] c.time_series_names@[i])@ == decimal_str(i),
    {
        let mut names: Vec<String> = Vec::new();
        let mut s: usize = 0;
        while s < num_series
            invariant
                names@.len() == s,
                s <= num_series,
                forall|i: int| 0 <= i < s ==> (#[trigger] names@[i])@ == decimal_str(i),
            decreases num_series - s,
        {
            names.push(ordinal_name(s));
            s += 1;
        }
        Cube { data, dates, num_scenarios, num_series, time_series_names: names }
    }

    /// Length of the flat data vector.
    pub fn get_len(&self) -> (r: usize)
        ensures
            r == self.spec_data().len(),
    {
        self.data.len()
    }

    /// Returns the grid date at `index`.
    pub fn get_date(&self, index: usize) -> (r: Result<i64, CubeError>)
        ensures
            index < self.dates@.len() ==> r == Ok::<i64, CubeError>(self.dates@[index as int]),
            index >= self.dates@.len() ==> r == Err::<i64, CubeError>(CubeError::IndexError),
    {
        if index < self.dates.len() {
            Ok(self.dates[index])
        } else {
            Err(CubeError::IndexError)
        }
    }

    /// Binary search for a date on the grid: the exact index when the date
    /// is on the grid, otherwise the sorted insertion point.
    pub fn get_date_index(&self, date: i64) -> (r: Result<usize, usize>)
        requires
            strictly_increasing(self.dates@),
        ensures
            match r {
                Ok(i) => i < self.dates@.len() && self.dates@[i as int] == date,
                Err(u) => is_insertion_point(self.dates@, date as int, u as int),
            },
    {
        let mut lo: usize = 0;
        let mut hi: usize = self.dates.len();
        while lo < hi
            invariant
                lo <= hi <= self.dates@.len(),
                strictly_increasing(self.dates@),
                forall|j: int| 0 <= j < lo ==> self.dates@[j] < date,
                forall|j: int| hi <= j < self.dates@.len() ==> self.dates@[j] > date,
            decreases hi - lo,
        {
            let mid: usize = lo + (hi - lo) / 2;
            let v: i64 = self.dates[mid];
            if v == date {
                return Ok(mid);
            } else if v < date {
                assert(forall|j: int|
                    0 <= j <= mid ==> self.dates@[j] <= self.dates@[mid as int]);
                lo = mid + 1;
            } else {
                assert(forall|j: int|
                    mid <= j < self.dates@.len() ==> self.dates@[j] >= self.dates@[mid as int]);
                hi = mid;
            }
        }
        Err(lo)
    }

    /// Computes the flat offset of (scenario, series, date index), checked
    /// against the storage length.
    pub fn get_index(&self, scenario: usize, series: usize, dt_pos: usize) -> (r: Result<
        usize,
        CubeError,
    >)
        requires
            self.index_args_ok(scenario as int, series as int, dt_pos as int),
        ensures
            self.flat_index(scenario as int, series as int, dt_pos as int)
                < self.spec_data().len() ==> r == Ok::<usize, CubeError>(
                self.flat_index(scenario as int, series as int, dt_pos as int) as usize,
            ),
            self.flat_index(scenario as int, series as int, dt_pos as int)
                >= self.spec_data().len() ==> r == Err::<usize, CubeError>(CubeError::IndexError),
    {
        let pos: usize = self.dates.len() * self.num_series * scenario + dt_pos * self.num_series
            + series;
        if pos < self.data.len() {
            Ok(pos)
        } else {
            Err(CubeError::IndexError)
        }
    }

    /// Sets the value at (scenario, series, date index).
    pub fn set_item(&mut self, scenario: usize, series: usize, dt_pos: usize, value: i64) -> (r:
        Result<(), CubeError>)
        requires
            old(self).index_args_ok(scenario as int, series as int, dt_pos as int),
        ensures
            final(self).dates@ == old(self).dates@,
            final(self).time_series_names@ == old(self).time_series_names@,
            final(self).num_scenarios == old(self).num_scenarios,
            final(self).num_series == old(self).num_series,
            ({
                let idx = old(self).flat_index(scenario as int, series as int, dt_pos as int);
                if idx < old(self).spec_data().len() {
                    r == Ok::<(), CubeError>(()) && final(self).spec_data() == old(
                        self,
                    ).spec_data().update(idx, value)
                } else {
                    r == Err::<(), CubeError>(CubeError::IndexError) && final(self).spec_data()
                        == old(self).spec_data()
                }
            }),
    {
        let pos_r = self.get_index(scenario, series, dt_pos);
        match pos_r {
            Ok(idx) => {
                self.data[idx] = value;
                Ok(())
            },
            Err(e) => Err(e),
        }
    }

    /// Gets the value at (scenario, series, date index).
    pub fn get_item(&self, scenario: usize, series: usize, dt_pos: usize) -> (r: Result<
        i64,
        CubeError,
    >)
        requires
            self.index_args_ok(scenario as int, series as int, dt_pos as int),
        ensures
            self.flat_index(scenario as int, series as int, dt_pos as int)
                < self.spec_data().len() ==> r == Ok::<i64, CubeError>(
                self.value_at(scenario as int, series as int, dt_pos as int),
            ),
            self.flat_index(scenario as int, series as int, dt_pos as int)
                >= self.spec_data().len() ==> r == Err::<i64, CubeError>(CubeError::IndexError),
    {
        let pos: usize = self.dates.len() * self.num_series * scenario + dt_pos * self.num_series
            + series;
        if pos < self.data.len() {
            Ok(self.data[pos])
        } else {
            Err(CubeError::IndexError)
        }
    }

    /// The flat-offset arithmetic stays within `usize` for every date index.
    pub open spec fn scan_args_ok(&self, scenario: int, series: int) -> bool {
        &&& self.dates@.len() * self.num_series <= usize::MAX
        &&& self.dates@.len() * self.num_series * scenario <= usize::MAX
        &&& self.dates@.len() * self.num_series * scenario + self.dates@.len() * self.num_series
            + series <= usize::MAX
    }

    proof fn lemma_scan_covers(&self, scenario: int, series: int, dt_pos: int)
        requires
            self.scan_args_ok(scenario, series),
            0 <= dt_pos < self.dates@.len(),
            0 <= scenario,
            0 <= series,
        ensures
            self.index_args_ok(scenario, series, dt_pos),
    {
        let d = self.dates@.len() as int;
        let ns = self.num_series as int;
        assert(dt_pos * ns <= d * ns) by (nonlinear_arith)
            requires
                0 <= dt_pos < d,
                0 <= ns,
        ;
    }

    /// Finds the flat offset of the last grid date at or before `date`:
    /// the pair is (date index, flat offset).  Fails with a range error when
    /// `date` precedes the whole grid.
    pub fn get_index_last(&self, scenario: usize, series: usize, date: i64) -> (r: Result<
        (usize, usize),
        CubeError,
    >)
        requires
            strictly_increasing(self.dates@),
            self.scan_args_ok(scenario as int, series as int),
        ensures
            ({
                let dates = self.dates@;
                if dates.len() == 0 || dates[0] > date {
                    r == Err::<(usize, usize), CubeError>(CubeError::DateRangeError)
                } else {
                    let d = last_le(dates, date as int);
                    let pos = self.flat_index(scenario as int, series as int, d);
                    if pos < self.spec_data().len() {
                        r == Ok::<(usize, usize), CubeError>((d as usize, pos as usize))
                    } else {
                        r == Err::<(usize, usize), CubeError>(CubeError::IndexError)
                    }
                }
            }),
    {
        let dt_pos_result = self.get_date_index(date);
        let dt_pos: usize = match dt_pos_result {
            Ok(num) => {
                proof {
                    lemma_last_le_unique(self.dates@, date as int, num as int);
                }
                num
            },
            Err(num) => {
                if num > 0 {
                    proof {
                        lemma_last_le_unique(self.dates@, date as int, num - 1);
                    }
                    num - 1
                } else {
                    return Err(CubeError::DateRangeError);
                }
            },
        };
        proof {
            self.lemma_scan_covers(scenario as int, series as int, dt_pos as int);
        }
        let pos: usize = self.dates.len() * self.num_series * scenario + dt_pos * self.num_series
            + series;
        if pos < self.data.len() {
            Ok((dt_pos, pos))
        } else {
            Err(CubeError::IndexError)
        }
    }

    /// Step-function lookup: the value at the last grid date at or before
    /// `date`, with that date's index.
    pub fn get_item_last(&self, scenario: usize, series: usize, date: i64) -> (r: Result<
        (usize, i64),
        CubeError,
    >)
        requires
            strictly_increasing(self.dates@),
            self.scan_args_ok(scenario as int, series as int),
        ensures
            ({
                let dates = self.dates@;
                if dates.len() == 0 || dates[0] > date {
                    r == Err::<(usize, i64), CubeError>(CubeError::DateRangeError)
                } else {
                    let d = last_le(dates, date as int);
                    let pos = self.flat_index(scenario as int, series as int, d);
                    if pos < self.spec_data().len() {
                        r == Ok::<(usize, i64), CubeError>(
                            (d as usize, self.value_at(scenario as int, series as int, d)),
                        )
                    } else {
                        r == Err::<(usize, i64), CubeError>(CubeError::IndexError)
                    }
                }
            }),
    {
        let pos = self.get_index_last(scenario, series, date);
        match pos {
            Ok((p, idx)) => {
                proof {
                    let dates = self.dates@;
                    assert(!(dates.len() == 0 || dates[0] > date));
                    assert(self.dates.len() == self.dates@.len());
                    assert(self.data.len() == self.data@.len());
                    lemma_last_le_exists(dates, date as int);
                    let d = last_le(dates, date as int);
                    let fpos = self.flat_index(scenario as int, series as int, d);
                    assert(fpos < self.spec_data().len());
                    assert(fpos >= 0) by (nonlinear_arith)
                        requires
                            fpos == dates.len() * self.num_series * (scenario as int) + d
                                * self.num_series + series,
                            d >= 0,
                            scenario >= 0,
                            series >= 0,
                    ;
                    assert(p == d && idx == fpos);
                }
                Ok((p, self.data[idx]))
            },
            Err(e) => Err(e),
        }
    }

    /// Copies the block of values belonging to one scenario.
    pub fn get_scenario(&self, scenario: usize) -> (r: Result<Vec<i64>, CubeError>)
        requires
            self.scan_args_ok(scenario as int, 0),
        ensures
            ({
                let start = self.dates@.len() * self.num_series * scenario;
                let end = start + self.dates@.len() * self.num_series;
                if start < self.spec_data().len() && end <= self.spec_data().len() {
                    match r {
                        Ok(v) => v@ == self.spec_data().subrange(start as int, end as int),
                        Err(_) => false,
                    }
                } else {
                    r == Err::<Vec<i64>, CubeError>(CubeError::IndexError)
                }
            }),
    {
        let start: usize = self.dates.len() * self.num_series * scenario;
        let end: usize = start + self.dates.len() * self.num_series;
        if start < self.data.len() && end <= self.data.len() {
            let mut v: Vec<i64> = Vec::new();
            let mut i: usize = start;
            while i < end
                invariant
                    start <= i <= end,
                    end <= self.spec_data().len(),
                    v@ == self.spec_data().subrange(start as int, i as int),
                decreases end - i,
            {
                v.push(self.data[i]);
                proof {
                    assert(v@ == self.spec_data().subrange(start as int, i + 1 as int));
                }
                i += 1;
            }
            Ok(v)
        } else {
            Err(CubeError::IndexError)
        }
    }

    /// Copies the vector of series values for one scenario and date index.
    pub fn get_item_vector(&self, scenario: usize, dt_pos: usize) -> (r: Result<
        Vec<i64>,
        CubeError,
    >)
        requires
            self.wf(),
            scenario < self.num_scenarios,
            dt_pos < self.dates@.len(),
        ensures
            ({
                let start = self.flat_index(scenario as int, 0, dt_pos as int);
                match r {
                    Ok(v) => v@ == self.spec_data().subrange(
                        start,
                        start + self.num_series as int,
                    ),
                    Err(_) => false,
                }
            }),
    {
        proof {
            if self.num_series > 0 {
                lemma_flat_index_in_bounds(*self, scenario as int, self.num_series - 1, dt_pos as int);
            }
            lemma_flat_index_in_bounds_edge(*self, scenario as int, dt_pos as int);
        }
        let start: usize = self.dates.len() * self.num_series * scenario + self.num_series * dt_pos;
        let end: usize = start + self.num_series;
        let mut v: Vec<i64> = Vec::new();
        let mut i: usize = start;
        while i < end
            invariant
                start <= i <= end,
                end <= self.spec_data().len(),
                v@ == self.spec_data().subrange(start as int, i as int),
            decreases end - i,
        {
            v.push(self.data[i]);
            proof {
                assert(v@ == self.spec_data().subrange(start as int, i + 1 as int));
            }
            i += 1;
        }
        Ok(v)
    }

    /// The vector of series values at the last grid date at or before
    /// `date`, with that date's index.
    pub fn get_item_vector_last(&self, scenario: usize, date: i64) -> (r: Result<
        (usize, Vec<i64>),
        CubeError,
    >)
        requires
            self.wf(),
            strictly_increasing(self.dates@),
            scenario < self.num_scenarios,
        ensures
            ({
                let dates = self.dates@;
                if dates.len() == 0 || dates[0] > date {
                    r == Err::<(usize, Vec<i64>), CubeError>(CubeError::DateRangeError)
                } else {
                    let d = last_le(dates, date as int);
                    let start = self.flat_index(scenario as int, 0, d);
                    match r {
                        Ok((p, v)) => p == d && v@ == self.spec_data().subrange(
                            start,
                            start + self.num_series as int,
                        ),
                        Err(_) => false,
                    }
                }
            }),
    {
        let dt_pos = self.get_date_index(date);
        match dt_pos {
            Ok(p) => {
                proof {
                    lemma_last_le_unique(self.dates@, date as int, p as int);
                }
                let v = match self.get_item_vector(scenario, p) {
                    Ok(v) => v,
                    Err(_) => Vec::new(),
                };
                Ok((p, v))
            },
            Err(p) => {
                if p > 0 {
                    proof {
                        lemma_last_le_unique(self.dates@, date as int, p - 1);
                    }
                    let v = match self.get_item_vector(scenario, p - 1) {
                        Ok(v) => v,
                        Err(_) => Vec::new(),
                    };
                    Ok((p - 1, v))
                } else {
                    Err(CubeError::DateRangeError)
                }
            },
        }
    }

    /// Interpolated scalar lookup.  At a grid date the stored value is
    /// returned exactly; strictly between two grid dates the linear blend of
    /// the neighbouring values; outside the grid the nearest stored value
    /// when extrapolation is allowed, and a range error otherwise.  The
    /// returned pair of indices brackets the query date.
    pub fn get_item_interp(&self, scenario: usize, series: usize, date: i64, allow_out_of_bounds:
        bool) -> (r: Result<(usize, usize, i64), CubeError>)
        requires
            self.wf(),
            strictly_increasing(self.dates@),
            scenario < self.num_scenarios,
            series < self.num_series,
            self.dates@.len() >= 1,
        ensures
            ({
                let dates = self.dates@;
                let di = date as int;
                let sc = scenario as int;
                let se = series as int;
                if has_date(dates, di) {
                    let i = date_pos(dates, di);
                    r == Ok::<(usize, usize, i64), CubeError>(
                        (i as usize, i as usize, self.value_at(sc, se, i)),
                    )
                } else {
                    let u = insertion_point(dates, di);
                    if u == dates.len() {
                        if allow_out_of_bounds {
                            r == Ok::<(usize, usize, i64), CubeError>(
                                ((u - 1) as usize, u as usize, self.value_at(sc, se, u - 1)),
                            )
                        } else {
                            r == Err::<(usize, usize, i64), CubeError>(CubeError::DateRangeError)
                        }
                    } else if u == 0 {
                        if allow_out_of_bounds {
                            r == Ok::<(usize, usize, i64), CubeError>(
                                (0usize, 0usize, self.value_at(sc, se, 0)),
                            )
                        } else {
                            r == Err::<(usize, usize, i64), CubeError>(CubeError::DateRangeError)
                        }
                    } else {
                        r == Ok::<(usize, usize, i64), CubeError>(
                            (
                                (u - 1) as usize,
                                u as usize,
                                interp_blend(
                                    self.value_at(sc, se, u - 1),
                                    self.value_at(sc, se, u),
                                    dates[u - 1],
                                    dates[u],
                                    di,
                                ) as i64,
                            ),
                        )
                    }
                }
            }),
    {
        let dt_pos_result = self.get_date_index(date);
        match dt_pos_result {
            Ok(p) => {
                proof {
                    lemma_date_pos_unique(self.dates@, date as int, p as int);
                    lemma_flat_index_in_bounds(*self, scenario as int, series as int, p as int);
                }
                let v = match self.get_item(scenario, series, p) {
                    Ok(v) => v,
                    Err(_) => 0,
                };
                Ok((p, p, v))
            },
            Err(u) => {
                proof {
                    lemma_insertion_point_unique(self.dates@, date as int, u as int);
                }
                if u == self.dates.len() {
                    if allow_out_of_bounds {
                        proof {
                            lemma_flat_index_in_bounds(
                                *self,
                                scenario as int,
                                series as int,
                                self.dates@.len() - 1,
                            );
                        }
                        let v = match self.get_item(scenario, series, self.dates.len() - 1) {
                            Ok(v) => v,
                            Err(_) => 0,
                        };
                        Ok((u - 1, u, v))
                    } else {
                        Err(CubeError::DateRangeError)
                    }
                } else if u == 0 {
                    if allow_out_of_bounds {
                        proof {
                            lemma_flat_index_in_bounds(*self, scenario as int, series as int, 0);
                        }
                        let v = match self.get_item(scenario, series, 0) {
                            Ok(v) => v,
                            Err(_) => 0,
                        };
                        Ok((0, 0, v))
                    } else {
                        Err(CubeError::DateRangeError)
                    }
                } else {
                    proof {
                        lemma_flat_index_in_bounds(*self, scenario as int, series as int, u as int);
                        lemma_flat_index_in_bounds(*self, scenario as int, series as int, u - 1);
                    }
                    let down: usize = u - 1;
                    let up_value = match self.get_item(scenario, series, u) {
                        Ok(v) => v,
                        Err(_) => 0,
                    };
                    let down_value = match self.get_item(scenario, series, down) {
                        Ok(v) => v,
                        Err(_) => 0,
                    };
                    let period = fsub(self.dates[u], self.dates[down]);
                    let diff = fsub(date, self.dates[down]);
                    let res = fadd(fmul(fdiv(fsub(up_value, down_value), period), diff), down_value);
                    Ok((down, u, res))
                }
            },
        }
    }

    /// Interpolated vector lookup: the policy of `get_item_interp` applied
    /// across the whole series dimension at once.
    pub fn get_item_vector_interp(&self, scenario: usize, date: i64, allow_out_of_bounds: bool) -> (r:
        Result<(usize, usize, Vec<i64>), CubeError>)
        requires
            self.wf(),
            strictly_increasing(self.dates@),
            scenario < self.num_scenarios,
            self.dates@.len() >= 1,
        ensures
            ({
                let dates = self.dates@;
                let di = date as int;
                let sc = scenario as int;
                let ns = self.num_series as int;
                if has_date(dates, di) {
                    let i = date_pos(dates, di);
                    let start = self.flat_index(sc, 0, i);
                    match r {
                        Ok((dwn, up, v)) => dwn == i && up == i && v@ == self.spec_data().subrange(
                            start,
                            start + ns,
                        ),
                        Err(_) => false,
                    }
                } else {
                    let u = insertion_point(dates, di);
                    if u == 0 {
                        if allow_out_of_bounds {
                            let start = self.flat_index(sc, 0, 0);
                            match r {
                                Ok((dwn, up, v)) => dwn == 0 && up == 0 && v@
                                    == self.spec_data().subrange(start, start + ns),
                                Err(_) => false,
                            }
                        } else {
                            r == Err::<(usize, usize, Vec<i64>), CubeError>(
                                CubeError::DateRangeError,
                            )
                        }
                    } else if u == dates.len() {
                        if allow_out_of_bounds {
                            let start = self.flat_index(sc, 0, u - 1);
                            match r {
                                Ok((dwn, up, v)) => dwn == u - 1 && up == u && v@
                                    == self.spec_data().subrange(start, start + ns),
                                Err(_) => false,
                            }
                        } else {
                            r == Err::<(usize, usize, Vec<i64>), CubeError>(
                                CubeError::DateRangeError,
                            )
                        }
                    } else {
                        match r {
                            Ok((dwn, up, v)) => dwn == u - 1 && up == u && v@.len() == ns
                                && forall|k: int|
                                0 <= k < ns ==> v@[k] as int == interp_blend(
                                    self.value_at(sc, k, u - 1),
                                    self.value_at(sc, k, u),
                                    dates[u - 1],
                                    dates[u],
                                    di,
                                ),
                            Err(_) => false,
                        }
                    }
                }
            }),
    {
        let dt_pos_result = self.get_date_index(date);
        match dt_pos_result {
            Ok(p) => {
                proof {
                    lemma_date_pos_unique(self.dates@, date as int, p as int);
                }
                let v = match self.get_item_vector(scenario, p) {
                    Ok(v) => v,
                    Err(_) => Vec::new(),
                };
                Ok((p, p, v))
            },
            Err(u) => {
                proof {
                    lemma_insertion_point_unique(self.dates@, date as int, u as int);
                }
                if u == 0 {
                    if allow_out_of_bounds {
                        let v = match self.get_item_vector(scenario, 0) {
                            Ok(v) => v,
                            Err(_) => Vec::new(),
                        };
                        Ok((0, 0, v))
                    } else {
                        Err(CubeError::DateRangeError)
                    }
                } else if u == self.dates.len() {
                    if allow_out_of_bounds {
                        let v = match self.get_item_vector(scenario, self.dates.len() - 1) {
                            Ok(v) => v,
                            Err(_) => Vec::new(),
                        };
                        Ok((u - 1, u, v))
                    } else {
                        Err(CubeError::DateRangeError)
                    }
                } else {
                    let down: usize = u - 1;
                    proof {
                        lemma_flat_index_in_bounds_edge(*self, scenario as int, down as int);
                        lemma_flat_index_in_bounds_edge(*self, scenario as int, u as int);
                        assert(self.data.len() == self.data@.len());
                    }
                    let down_start: usize = self.dates.len() * self.num_series * scenario
                        + down * self.num_series;
                    let up_start: usize = self.dates.len() * self.num_series * scenario
                        + u * self.num_series;
                    let period = fsub(self.dates[u], self.dates[down]);
                    let diff = fsub(date, self.dates[down]);
                    let mut v: Vec<i64> = Vec::new();
                    let mut k: usize = 0;
                    while k < self.num_series
                        invariant
                            k <= self.num_series,
                            v@.len() == k,
                            self.wf(),
                            scenario < self.num_scenarios,
                            0 <= down < u < self.dates@.len(),
                            down == u - 1,
                            down_start == self.flat_index(scenario as int, 0, down as int),
                            up_start == self.flat_index(scenario as int, 0, u as int),
                            down_start + self.num_series <= self.spec_data().len(),
                            up_start + self.num_series <= self.spec_data().len(),
                            self.spec_data().len() <= usize::MAX,
                            period as int == fsub_s(self.dates@[u as int] as int, self.dates@[down as int] as int),
                            diff as int == fsub_s(date as int, self.dates@[down as int] as int),
                            forall|j: int|
                                0 <= j < k ==> v@[j] as int == interp_blend(
                                    self.value_at(scenario as int, j, down as int),
                                    self.value_at(scenario as int, j, u as int),
                                    self.dates@[down as int],
                                    self.dates@[u as int],
                                    date as int,
                                ),
                        decreases self.num_series - k,
                    {
                        proof {
                            assert(self.flat_index(scenario as int, k as int, down as int)
                                == down_start + k);
                            assert(self.flat_index(scenario as int, k as int, u as int)
                                == up_start + k);
                        }
                        let down_value = self.data[down_start + k];
                        let up_value = self.data[up_start + k];
                        let res = fadd(
                            fmul(fdiv(fsub(up_value, down_value), period), diff),
                            down_value,
                        );
                        v.push(res);
                        k += 1;
                    }
                    Ok((down, u, v))
                }
            },
        }
    }

    /// Sets the name of one time series.
    pub fn set_time_series_name(&mut self, series_idx: usize, name: &str)
        requires
            series_idx < old(self).time_series_names@.len(),
        ensures
            final(self).time_series_names@ == old(self).time_series_names@.update(
                series_idx as int,
                final(self).time_series_names@[series_idx as int],
            ),
            final(self).time_series_names@[series_idx as int]@ == name@,
            final(self).spec_data() == old(self).spec_data(),
            final(self).dates@ == old(self).dates@,
            final(self).num_scenarios == old(self).num_scenarios,
            final(self).num_series == old(self).num_series,
    {
        self.time_series_names[series_idx] = name.to_owned();
    }
}

} // verus!
