//! The conversion of texts to dates that gives null for what is not a date.

use datafusion::arrow::datatypes::{DataType, Field};
use datafusion::common::config::ConfigOptions;
use datafusion::common::ScalarValue;
use datafusion::functions::datetime::to_date::ToDateFunc;
use datafusion::logical_expr::{ColumnarValue, ScalarFunctionArgs, ScalarUDFImpl};
use std::sync::Arc;
use vstd::prelude::*;

verus! {

/// The name of the function.
pub const TRY_TO_DATE: &'static str = "spark_try_to_date";

/// The date that `ToDateFunc` reads in a text, in days since the epoch; nothing where it refuses the
/// text.
pub uninterp spec fn date_in(text: Seq<char>) -> Option<i32>;

/// `ToDateFunc::invoke_with_args`, of one text and no format: the days since the epoch.
#[verifier::external_body]
fn strict_date(text: &str) -> (date: Option<i32>)
    ensures
        date == date_in(text@),
{
    let args = ScalarFunctionArgs {
        args: vec![ColumnarValue::Scalar(ScalarValue::Utf8(Some(text.to_owned())))],
        arg_fields: vec![Arc::new(Field::new("text", DataType::Utf8, true))],
        number_rows: 1,
        return_field: Arc::new(Field::new("date", DataType::Date32, true)),
        config_options: Arc::new(ConfigOptions::default()),
    };
    match ToDateFunc::new().invoke_with_args(args) {
        Ok(ColumnarValue::Scalar(ScalarValue::Date32(date))) => date,
        _ => None,
    }
}

/// Whether every text of a column, but for its nulls, is a date.
pub open spec fn are_dates(texts: Seq<Option<String>>) -> bool {
    forall|i: int|
        0 <= i < texts.len() ==> ((#[trigger] texts[i]) matches Some(t) ==> date_in(t@) is Some)
}

/// The date in a cell of a column of texts.
pub open spec fn cell_date(text: Option<String>) -> Option<i32> {
    match text {
        Some(t) => date_in(t@),
        None => None,
    }
}

/// The dates in a column of texts, in days since the epoch: null where a text is null, and all null
/// where one of the texts is no date.
pub fn try_to_date(texts: &[Option<String>]) -> (dates: Vec<Option<i32>>)
    ensures
        dates@.len() == texts@.len(),
        forall|i: int|
            0 <= i < texts@.len() ==> #[trigger] dates@[i] == if are_dates(texts@) {
                cell_date(texts@[i])
            } else {
                None
            },
{
    let mut converted: Vec<Option<i32>> = Vec::new();
    let mut i: usize = 0;
    while i < texts.len()
        invariant
            i <= texts@.len(),
            converted@.len() == i,
            forall|k: int| 0 <= k < i ==> #[trigger] converted@[k] == cell_date(texts@[k]),
            forall|k: int|
                0 <= k < i ==> ((#[trigger] texts@[k]) matches Some(t) ==> date_in(t@) is Some),
        decreases texts@.len() - i,
    {
        let date = match &texts[i] {
            Some(t) => match strict_date(t.as_str()) {
                Some(d) => Some(d),
                None => {
                    assert(texts@[i as int] is Some);
                    return nulls(texts.len());
                },
            },
            None => None,
        };
        converted.push(date);
        i = i + 1;
    }
    converted
}

/// A column of nulls.
fn nulls(rows: usize) -> (dates: Vec<Option<i32>>)
    ensures
        dates@ == Seq::new(rows as nat, |i: int| None::<i32>),
{
    let mut dates: Vec<Option<i32>> = Vec::new();
    let mut i: usize = 0;
    while i < rows
        invariant
            i <= rows,
            dates@.len() == i,
            forall|k: int| 0 <= k < i ==> #[trigger] dates@[k] == None::<i32>,
        decreases rows - i,
    {
        dates.push(None);
        i = i + 1;
    }
    assert(dates@ =~= Seq::new(rows as nat, |i: int| None::<i32>));
    dates
}

} // verus!
