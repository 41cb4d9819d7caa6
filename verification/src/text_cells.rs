//! The cells of a batch as texts.

use chrono::{DateTime, Offset, TimeZone};
use datafusion::arrow::array::timezone::Tz;
use datafusion::arrow::array::{Array, ArrayData, AsArray};
use datafusion::arrow::compute::cast;
use datafusion::arrow::datatypes::{DataType, TimeUnit};
use datafusion::arrow::error::ArrowError;
use vstd::prelude::*;

use crate::record_batch::{batch_columns, batch_fields, batch_rows, cells, Batch};

verus! {

/// The buffers of a column, and those of the columns inside it.
#[verifier::external_type_specification]
#[verifier::external_body]
pub struct ExArrayData(datafusion::arrow::array::ArrayData);

/// A unit of time.
#[derive(Debug, Clone, Copy, PartialEq, Eq, Structural)]
pub enum Unit {
    Second,
    Millisecond,
    Microsecond,
    Nanosecond,
}

impl Unit {
    /// How many of them a second has.
    pub open spec fn of_second(self) -> int {
        match self {
            Unit::Second => 1,
            Unit::Millisecond => 1_000,
            Unit::Microsecond => 1_000_000,
            Unit::Nanosecond => 1_000_000_000,
        }
    }
}

/// The buffers of the column of a batch at a position.
pub uninterp spec fn column_data(batch: Batch, index: int) -> ArrayData;

/// The buffers of the columns that are directly inside a column.
pub uninterp spec fn data_children(data: ArrayData) -> Seq<ArrayData>;

/// The time zone of a column, and the numbers of units since the epoch that it holds, also where no
/// cell shows them, where it is one of timestamps with a time zone.
pub uninterp spec fn zoned_times(data: ArrayData) -> Option<(Unit, Seq<char>, Seq<i64>)>;

/// By how many seconds local time is ahead in a time zone, at a second since the epoch; nothing where
/// there is no such time zone.
pub uninterp spec fn zone_offset(zone: Seq<char>, second: i64) -> Option<i32>;

/// The texts that the cells of a column of a batch give, unless they give none.
pub uninterp spec fn column_texts(batch: Batch, index: int) -> Option<Seq<Option<Seq<char>>>>;

/// `Array::to_data`, of the column at a position.
#[verifier::external_body]
fn data_of_column(batch: &Batch, index: usize) -> (data: ArrayData)
    requires
        index < batch_fields(*batch).len(),
    ensures
        data == column_data(*batch, index as int),
{
    batch.columns.column(index).to_data()
}

/// `ArrayData::child_data`.
#[verifier::external_body]
fn children(data: &ArrayData) -> (inner: Vec<ArrayData>)
    ensures
        inner@ == data_children(*data),
{
    data.child_data().to_vec()
}

/// `ArrayData::buffer`, of timestamps with a time zone.
#[verifier::external_body]
fn times(data: &ArrayData) -> (found: Option<(Unit, String, Vec<i64>)>)
    ensures
        match found {
            Some((unit, zone, values)) => zoned_times(*data) == Some((unit, zone@, values@)),
            None => zoned_times(*data) is None,
        },
{
    let (unit, zone) = match data.data_type() {
        DataType::Timestamp(TimeUnit::Second, Some(zone)) => (Unit::Second, zone),
        DataType::Timestamp(TimeUnit::Millisecond, Some(zone)) => (Unit::Millisecond, zone),
        DataType::Timestamp(TimeUnit::Microsecond, Some(zone)) => (Unit::Microsecond, zone),
        DataType::Timestamp(TimeUnit::Nanosecond, Some(zone)) => (Unit::Nanosecond, zone),
        _ => return None,
    };
    Some((unit, zone.to_string(), data.buffer::<i64>(0).to_vec()))
}

/// `TimeZone::offset_from_utc_datetime`, of the time zone that `Tz::from_str` reads. The time is one
/// that a date can have.
#[verifier::external_body]
fn offset_in(zone: &str, second: i64) -> (offset: Option<i32>)
    requires
        FIRST_SECOND <= second <= LAST_SECOND,
    ensures
        offset == zone_offset(zone@, second),
{
    let time = DateTime::from_timestamp(second, 0)?.naive_utc();
    let zone = zone.parse::<Tz>().ok()?;
    Some(zone.offset_from_utc_datetime(&time).fix().local_minus_utc())
}

/// The first second that a date can have.
pub const FIRST_SECOND: i64 = -8_334_601_228_800;

/// The last second that a date can have.
pub const LAST_SECOND: i64 = 8_210_266_876_799;

/// The number of seconds of a day.
pub const DAY: i64 = 86_400;

/// The second of a time.
pub open spec fn second_of(unit: Unit, time: i64) -> int {
    time as int / unit.of_second()
}

/// Whether a second is one that a date can have.
pub open spec fn is_date(second: int) -> bool {
    FIRST_SECOND <= second <= LAST_SECOND
}

/// Whether a time that a date can have is one also in the local time of its zone: so it is a day away
/// from the first and the last.
pub open spec fn time_fits(unit: Unit, zone: Seq<char>, time: i64) -> bool {
    let second = second_of(unit, time);
    ||| !is_date(second)
    ||| FIRST_SECOND + DAY <= second <= LAST_SECOND - DAY
    ||| match zone_offset(zone, second as i64) {
        Some(offset) => is_date(second + offset),
        None => true,
    }
}

/// Whether times all fit.
pub open spec fn all_fit(unit: Unit, zone: Seq<char>, times: Seq<i64>) -> bool {
    forall|i: int| 0 <= i < times.len() ==> time_fits(unit, zone, #[trigger] times[i])
}

/// Whether the times with a time zone in a column, and in those inside it, all fit; no more than
/// `depth` columns are in each other.
pub open spec fn times_fit(data: ArrayData, depth: nat) -> bool
    decreases depth,
{
    &&& depth > 0
    &&& zoned_times(data) matches Some(found) ==> all_fit(found.0, found.1, found.2)
    &&& forall|k: int|
        0 <= k < data_children(data).len() ==> times_fit(
            #[trigger] data_children(data)[k],
            (depth - 1) as nat,
        )
}

/// A depth that no columns reach.
pub const DEPTH_LIMIT: u64 = 0xffff_ffff_ffff_ffff;

/// The second of a time that is not before the first.
fn second_in(unit: Unit, time: i64) -> (second: i64)
    requires
        time >= FIRST_SECOND * unit.of_second(),
    ensures
        second == second_of(unit, time),
        second >= FIRST_SECOND,
{
    let n: u64 = match unit {
        Unit::Second => 1,
        Unit::Millisecond => 1_000,
        Unit::Microsecond => 1_000_000,
        Unit::Nanosecond => 1_000_000_000,
    };
    let start: i128 = FIRST_SECOND as i128 * n as i128;
    let since: u128 = (time as i128 - start) as u128;
    let whole: u128 = since / n as u128;
    proof {
        let q = whole as int;
        let r = since as int % n as int;
        vstd::arithmetic::div_mod::lemma_fundamental_div_mod(since as int, n as int);
        assert(time == (q + FIRST_SECOND) * n + r) by (nonlinear_arith)
            requires
                since == time - FIRST_SECOND * n,
                since == n * q + r,
        ;
        vstd::arithmetic::div_mod::lemma_fundamental_div_mod_converse(
            time as int,
            n as int,
            q + FIRST_SECOND,
            r,
        );
        assert(whole <= since) by (nonlinear_arith)
            requires
                since == n * q + r,
                q == whole,
                n >= 1,
                r >= 0,
                q >= 0,
        ;
        assert(q + FIRST_SECOND <= i64::MAX) by (nonlinear_arith)
            requires
                time == (q + FIRST_SECOND) * n + r,
                time <= i64::MAX,
                n >= 1,
                r >= 0,
        ;
    }
    (whole as i128 + FIRST_SECOND as i128) as i64
}

fn check_time(unit: Unit, zone: &str, time: i64) -> (fits: bool)
    ensures
        fits == time_fits(unit, zone@, time),
{
    let n: i128 = match unit {
        Unit::Second => 1,
        Unit::Millisecond => 1_000,
        Unit::Microsecond => 1_000_000,
        Unit::Nanosecond => 1_000_000_000,
    };
    if (time as i128) < FIRST_SECOND as i128 * n {
        proof {
            vstd::arithmetic::div_mod::lemma_fundamental_div_mod(time as int, n as int);
            let q = second_of(unit, time);
            assert(q < FIRST_SECOND) by (nonlinear_arith)
                requires
                    time == n * q + time as int % n as int,
                    time as int % n as int >= 0,
                    time < FIRST_SECOND * n,
                    n >= 1,
            ;
        }
        return true;
    }
    let second = second_in(unit, time);
    if second > LAST_SECOND {
        return true;
    }
    if FIRST_SECOND + DAY <= second && second <= LAST_SECOND - DAY {
        return true;
    }
    match offset_in(zone, second) {
        Some(offset) => {
            let local: i64 = second + offset as i64;
            FIRST_SECOND <= local && local <= LAST_SECOND
        },
        None => true,
    }
}

fn check_times(data: &ArrayData, depth: u64) -> (fits: bool)
    ensures
        fits == times_fit(*data, depth as nat),
    decreases depth,
{
    if depth == 0 {
        return false;
    }
    if let Some((unit, zone, found)) = times(data) {
        let mut i: usize = 0;
        while i < found.len()
            invariant
                i <= found@.len(),
                zoned_times(*data) == Some((unit, zone@, found@)),
                forall|k: int| 0 <= k < i ==> time_fits(unit, zone@, #[trigger] found@[k]),
            decreases found@.len() - i,
        {
            if !check_time(unit, zone.as_str(), found[i]) {
                assert(!all_fit(unit, zone@, found@));
                return false;
            }
            i = i + 1;
        }
    }
    let inner = children(data);
    let mut k: usize = 0;
    while k < inner.len()
        invariant
            k <= inner@.len(),
            0 < depth,
            inner@ == data_children(*data),
            zoned_times(*data) matches Some(found) ==> all_fit(found.0, found.1, found.2),
            forall|j: int|
                0 <= j < k ==> times_fit(#[trigger] data_children(*data)[j], (depth - 1) as nat),
        decreases inner@.len() - k,
    {
        if !check_times(&inner[k], depth - 1) {
            assert(!times_fit(data_children(*data)[k as int], (depth - 1) as nat));
            return false;
        }
        k = k + 1;
    }
    true
}

/// Whether cells of a type in words are texts or whole numbers.
pub open spec fn is_plain(words: Seq<char>) -> bool {
    ||| words == "Utf8"@ || words == "LargeUtf8"@
    ||| words == "Int8"@ || words == "Int16"@ || words == "Int32"@ || words == "Int64"@
    ||| words == "UInt8"@ || words == "UInt16"@ || words == "UInt32"@ || words == "UInt64"@
}

/// `cast` to texts, of the column at a position: it fails where there is no cast from its type, or a
/// cell cannot be shown. A text or a whole number is its own text. The texts have 64-bit offsets,
/// which no column exceeds. It would panic on a time that only its time zone puts beyond the dates
/// that there are.
#[verifier::external_body]
fn cast_to_text(batch: &Batch, index: usize) -> (result: Result<Vec<Option<String>>, ArrowError>)
    requires
        index < batch_fields(*batch).len(),
        times_fit(column_data(*batch, index as int), DEPTH_LIMIT as nat),
    ensures
        match result {
            Ok(texts) => {
                &&& column_texts(*batch, index as int) == Some(cells(texts@))
                &&& texts@.len() == batch_rows(*batch)
                &&& is_plain(batch_fields(*batch)[index as int].1) ==> cells(texts@)
                    == batch_columns(*batch)[index as int]
            },
            Err(_) => {
                &&& column_texts(*batch, index as int) is None
                &&& !is_plain(batch_fields(*batch)[index as int].1)
            },
        },
{
    let texts = cast(batch.columns.column(index), &DataType::LargeUtf8)?;
    Ok(texts.as_string::<i64>().iter().map(|text| text.map(str::to_owned)).collect())
}

/// Why there are no texts.
#[derive(Debug)]
pub enum TextError {
    /// The cells cannot be shown.
    Cast(ArrowError),
    /// The local time of a time is beyond the dates that there are.
    TimeLimit,
}

/// The texts of the cells of a column.
pub fn texts_of(batch: &Batch, index: usize) -> (result: Result<Vec<Option<String>>, TextError>)
    requires
        index < batch_fields(*batch).len(),
    ensures
        ({
            let fit = times_fit(column_data(*batch, index as int), DEPTH_LIMIT as nat);
            match result {
                Ok(texts) => {
                    &&& fit
                    &&& column_texts(*batch, index as int) == Some(cells(texts@))
                    &&& texts@.len() == batch_rows(*batch)
                    &&& is_plain(batch_fields(*batch)[index as int].1) ==> cells(texts@)
                        == batch_columns(*batch)[index as int]
                },
                Err(TextError::Cast(_)) => {
                    &&& fit
                    &&& column_texts(*batch, index as int) is None
                    &&& !is_plain(batch_fields(*batch)[index as int].1)
                },
                Err(TextError::TimeLimit) => !fit,
            }
        }),
{
    let data = data_of_column(batch, index);
    if !check_times(&data, DEPTH_LIMIT) {
        return Err(TextError::TimeLimit);
    }
    match cast_to_text(batch, index) {
        Ok(texts) => Ok(texts),
        Err(e) => Err(TextError::Cast(e)),
    }
}

/// A time counts in the second in which it lies, and those before the epoch in the earlier one.
pub proof fn law_times_lie_in_their_second(unit: Unit, time: i64)
    ensures
        second_of(unit, time) * unit.of_second() <= time < (second_of(unit, time) + 1)
            * unit.of_second(),
        Unit::Millisecond.of_second() == 1_000 * Unit::Second.of_second(),
        Unit::Microsecond.of_second() == 1_000 * Unit::Millisecond.of_second(),
        Unit::Nanosecond.of_second() == 1_000 * Unit::Microsecond.of_second(),
        Unit::Second.of_second() == 1,
{
    let d = unit.of_second();
    let q = second_of(unit, time);
    vstd::arithmetic::div_mod::lemma_fundamental_div_mod(time as int, d);
    vstd::arithmetic::div_mod::lemma_mod_bound(time as int, d);
    assert(q * d <= time < (q + 1) * d) by (nonlinear_arith)
        requires
            time as int == d * q + time as int % d,
            0 <= time as int % d < d,
    ;
}

/// A time fits its zone where its local time is a date as well. A time that is a day within the limits
/// always fits, and so does one outside of them, which is no date in any zone.
pub proof fn law_local_times_are_dates(unit: Unit, zone: Seq<char>, time: i64)
    ensures
        ({
            let second = second_of(unit, time);
            let offset = zone_offset(zone, second as i64);
            &&& FIRST_SECOND <= second <= LAST_SECOND && offset is Some && -DAY <= offset->0 <= DAY
                ==> (time_fits(unit, zone, time) <==> FIRST_SECOND <= second + offset->0
                <= LAST_SECOND)
            &&& FIRST_SECOND + DAY <= second <= LAST_SECOND - DAY ==> time_fits(unit, zone, time)
            &&& second < FIRST_SECOND || second > LAST_SECOND ==> time_fits(unit, zone, time)
        }),
{
}

} // verus!
