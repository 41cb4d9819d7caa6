//! Record batches of the collected columns of Kafka records.

use datafusion::arrow::array::{
    ArrayRef, BinaryArray, Int32Array, Int64Array, RecordBatch, StringArray,
    TimestampMillisecondArray,
};
use datafusion::arrow::datatypes::Schema;
use datafusion::arrow::error::ArrowError;
use std::sync::Arc;
use vstd::prelude::*;
use vstd::utf8::encode_utf8;

use crate::kafka::columns::{
    byte_cells, column_at, keys, topics, values, ColumnError, ColumnModel, KafkaColumn,
    KafkaColumns, RecordModel,
};
use crate::record_batch;
use crate::record_batch::{
    batch_columns, batch_fields, batch_rows, projected_fields, schema_fields, Batch,
};
use crate::text::{signed_decimal, texts};

verus! {

/// The cells of a column in words.
pub open spec fn column_words(column: ColumnModel) -> Seq<Option<Seq<char>>> {
    match column {
        ColumnModel::Key(cells) => byte_words(cells),
        ColumnModel::Value(cells) => byte_words(cells),
        ColumnModel::Topic(cells) => cells.map_values(|t: Seq<char>| Some(t)),
        ColumnModel::Partition(cells) => cells.map_values(|n: i32| Some(signed_decimal(n as int))),
        ColumnModel::Offset(cells) => cells.map_values(|n: i64| Some(signed_decimal(n as int))),
        ColumnModel::Timestamp(cells) => cells.map_values(|n: i64| Some(signed_decimal(n as int))),
        ColumnModel::TimestampType(cells) => cells.map_values(
            |n: i32| Some(signed_decimal(n as int)),
        ),
    }
}

/// Byte strings in words: each byte as the character with its number.
pub open spec fn byte_words(cells: Seq<Option<Seq<u8>>>) -> Seq<Option<Seq<char>>> {
    cells.map_values(
        |c: Option<Seq<u8>>|
            match c {
                Some(b) => Some(b.map_values(|x: u8| x as char)),
                None => None,
            },
    )
}

/// The type of a column, as `Display` writes it.
pub open spec fn column_type(column: ColumnModel) -> Seq<char> {
    match column {
        ColumnModel::Key(_) => "Binary"@,
        ColumnModel::Value(_) => "Binary"@,
        ColumnModel::Topic(_) => "Utf8"@,
        ColumnModel::Partition(_) => "Int32"@,
        ColumnModel::Offset(_) => "Int64"@,
        ColumnModel::Timestamp(_) => "Timestamp(ms)"@,
        ColumnModel::TimestampType(_) => "Int32"@,
    }
}

/// Whether columns have the types of some fields, with nulls only where a field may hold them, and
/// the same number of rows; there is one column at least.
pub open spec fn fit(fields: Seq<(Seq<char>, Seq<char>, bool)>, columns: Seq<ColumnModel>) -> bool {
    &&& columns.len() > 0
    &&& fields.len() == columns.len()
    &&& forall|i: int|
        0 <= i < columns.len() ==> {
            &&& fields[i].1 == column_type(#[trigger] columns[i])
            &&& column_words(columns[i]).len() == column_words(columns[0]).len()
            &&& fields[i].2 || !column_words(columns[i]).contains(None)
        }
}

/// The number of bytes of byte strings.
pub open spec fn byte_len(cells: Seq<Option<Seq<u8>>>) -> nat
    decreases cells.len(),
{
    if cells.len() == 0 {
        0
    } else {
        byte_len(cells.drop_last()) + match cells.last() {
            Some(b) => b.len(),
            None => 0,
        }
    }
}

/// The number of bytes of texts.
pub open spec fn text_len(cells: Seq<Seq<char>>) -> nat
    decreases cells.len(),
{
    if cells.len() == 0 {
        0
    } else {
        text_len(cells.drop_last()) + encode_utf8(cells.last()).len()
    }
}

/// The number of bytes behind the offsets of a column, where it has any.
pub open spec fn offsets_len(column: ColumnModel) -> nat {
    match column {
        ColumnModel::Key(cells) => byte_len(cells),
        ColumnModel::Value(cells) => byte_len(cells),
        ColumnModel::Topic(cells) => text_len(cells),
        _ => 0,
    }
}

/// The columns as models.
pub open spec fn models(columns: Seq<KafkaColumn>) -> Seq<ColumnModel> {
    columns.map_values(|c: KafkaColumn| c@)
}

/// `RecordBatch::try_new` of an array for each column: the batch of the columns, where they fit the
/// schema. The offsets of an array of byte strings or texts are 32-bit numbers.
#[verifier::external_body]
fn columns_batch(schema: Arc<Schema>, columns: Vec<KafkaColumn>) -> (result: Result<
    Batch,
    ArrowError,
>)
    requires
        forall|i: int| 0 <= i < columns@.len() ==> offsets_len((#[trigger] columns@[i])@) <= i32::MAX,
    ensures
        match result {
            Ok(batch) => {
                &&& fit(schema_fields(*schema), models(columns@))
                &&& batch_fields(batch) == schema_fields(*schema)
                &&& batch_rows(batch) == column_words(models(columns@)[0]).len()
                &&& batch_columns(batch) == models(columns@).map_values(
                    |c: ColumnModel| column_words(c),
                )
            },
            Err(_) => !fit(schema_fields(*schema), models(columns@)),
        },
{
    let arrays = columns.into_iter().map(|column| -> ArrayRef {
        match column {
            KafkaColumn::Key(cells) => Arc::new(BinaryArray::from_iter(cells)),
            KafkaColumn::Value(cells) => Arc::new(BinaryArray::from_iter(cells)),
            KafkaColumn::Topic(cells) => Arc::new(StringArray::from(cells)),
            KafkaColumn::Partition(cells) => Arc::new(Int32Array::from(cells)),
            KafkaColumn::Offset(cells) => Arc::new(Int64Array::from(cells)),
            KafkaColumn::Timestamp(cells) => Arc::new(TimestampMillisecondArray::from(cells)),
            KafkaColumn::TimestampType(cells) => Arc::new(Int32Array::from(cells)),
        }
    });
    Ok(Batch { columns: RecordBatch::try_new(schema, arrays.collect())? })
}

const MAX_OFFSET: usize = 0x7fff_ffff;

proof fn lemma_byte_len_grows(cells: Seq<Option<Seq<u8>>>, n: int)
    requires
        0 <= n <= cells.len(),
    ensures
        byte_len(cells.take(n)) <= byte_len(cells),
    decreases cells.len() - n,
{
    if n < cells.len() {
        assert(cells.take(n + 1).drop_last() =~= cells.take(n));
        lemma_byte_len_grows(cells, n + 1);
    } else {
        assert(cells.take(n) =~= cells);
    }
}

proof fn lemma_text_len_grows(cells: Seq<Seq<char>>, n: int)
    requires
        0 <= n <= cells.len(),
    ensures
        text_len(cells.take(n)) <= text_len(cells),
    decreases cells.len() - n,
{
    if n < cells.len() {
        assert(cells.take(n + 1).drop_last() =~= cells.take(n));
        lemma_text_len_grows(cells, n + 1);
    } else {
        assert(cells.take(n) =~= cells);
    }
}

fn bytes_in_range(cells: &Vec<Option<Vec<u8>>>) -> (fits: bool)
    ensures
        fits == (byte_len(byte_cells(cells@)) <= i32::MAX),
{
    let ghost all = byte_cells(cells@);
    let mut len: usize = 0;
    let mut i: usize = 0;
    assert(all.take(0) =~= Seq::<Option<Seq<u8>>>::empty());
    while i < cells.len()
        invariant
            i <= cells@.len() == all.len(),
            all == byte_cells(cells@),
            len == byte_len(all.take(i as int)),
            len <= MAX_OFFSET,
        decreases cells@.len() - i,
    {
        proof {
            assert(all.take(i + 1).drop_last() =~= all.take(i as int));
            lemma_byte_len_grows(all, i + 1);
        }
        let more: usize = match &cells[i] {
            Some(b) => b.len(),
            None => 0,
        };
        if more > MAX_OFFSET - len {
            return false;
        }
        len = len + more;
        i = i + 1;
    }
    assert(all.take(i as int) =~= all);
    true
}

fn texts_in_range(cells: &Vec<String>) -> (fits: bool)
    ensures
        fits == (text_len(texts(cells@)) <= i32::MAX),
{
    let ghost all = texts(cells@);
    let mut len: usize = 0;
    let mut i: usize = 0;
    assert(all.take(0) =~= Seq::<Seq<char>>::empty());
    while i < cells.len()
        invariant
            i <= cells@.len() == all.len(),
            all == texts(cells@),
            len == text_len(all.take(i as int)),
            len <= MAX_OFFSET,
        decreases cells@.len() - i,
    {
        proof {
            assert(all.take(i + 1).drop_last() =~= all.take(i as int));
            assert(all.take(i + 1).last() == cells@[i as int]@);
            lemma_text_len_grows(all, i + 1);
        }
        let more: usize = cells[i].as_str().as_bytes().len();
        if more > MAX_OFFSET - len {
            return false;
        }
        len = len + more;
        i = i + 1;
    }
    assert(all.take(i as int) =~= all);
    true
}

fn in_range(column: &KafkaColumn) -> (fits: bool)
    ensures
        fits == (offsets_len(column@) <= i32::MAX),
{
    match column {
        KafkaColumn::Key(cells) => bytes_in_range(cells),
        KafkaColumn::Value(cells) => bytes_in_range(cells),
        KafkaColumn::Topic(cells) => texts_in_range(cells),
        _ => true,
    }
}

fn all_in_range(columns: &Vec<KafkaColumn>) -> (fits: bool)
    ensures
        fits == !some_too_long(models(columns@)),
        fits ==> forall|i: int|
            0 <= i < columns@.len() ==> offsets_len((#[trigger] columns@[i])@) <= i32::MAX,
{
    let ghost all = models(columns@);
    let mut i: usize = 0;
    while i < columns.len()
        invariant
            i <= columns@.len(),
            all == models(columns@),
            forall|k: int| 0 <= k < i ==> offsets_len(#[trigger] all[k]) <= i32::MAX,
        decreases columns@.len() - i,
    {
        assert(all[i as int] == columns@[i as int]@);
        if !in_range(&columns[i]) {
            return false;
        }
        i = i + 1;
    }
    assert forall|i: int| 0 <= i < columns@.len() implies offsets_len(
        (#[trigger] columns@[i])@,
    ) <= i32::MAX by {
        assert(all[i] == columns@[i]@);
    }
    true
}

/// Why collected records do not become a batch.
#[derive(Debug)]
pub enum BatchError {
    /// The schema has no such columns, or they do not fit it.
    Arrow(ArrowError),
    /// The columns were not collected.
    Column(ColumnError),
    /// A column is too long for the offsets into it.
    TooLarge,
}

/// The projected columns of records.
pub open spec fn projected_columns(rows: Seq<RecordModel>, projection: Seq<usize>) -> Seq<
    ColumnModel,
> {
    projection.map_values(|i: usize| column_at(rows, i))
}

/// Whether a position lies in a schema with `n` columns.
pub open spec fn in_schema(projection: Seq<usize>, n: nat) -> bool {
    forall|k: int| 0 <= k < projection.len() ==> (#[trigger] projection[k]) < n
}

/// Whether some column is too long for the offsets into it.
pub open spec fn some_too_long(columns: Seq<ColumnModel>) -> bool {
    exists|i: int| 0 <= i < columns.len() && offsets_len(#[trigger] columns[i]) > i32::MAX
}

/// The number of bytes of a record: of its key, of its value and of its topic.
pub open spec fn record_len(record: RecordModel) -> nat {
    let key = match record.key {
        Some(k) => k.len(),
        None => 0,
    };
    let value = match record.value {
        Some(v) => v.len(),
        None => 0,
    };
    key + value + encode_utf8(record.topic).len()
}

/// The number of bytes of records.
pub open spec fn records_len(rows: Seq<RecordModel>) -> nat
    decreases rows.len(),
{
    if rows.len() == 0 {
        0
    } else {
        records_len(rows.drop_last()) + record_len(rows.last())
    }
}

/// Records whose bytes stay below the reach of the offsets never make a column that is too long:
/// to bound the bytes of a batch is enough, whatever the number and the sizes of its records.
pub proof fn law_byte_bound_keeps_columns_in_range(
    rows: Seq<RecordModel>,
    projection: Seq<usize>,
)
    requires
        records_len(rows) <= i32::MAX,
    ensures
        !some_too_long(projected_columns(rows, projection)),
{
    let columns = projected_columns(rows, projection);
    assert forall|i: int| 0 <= i < columns.len() implies offsets_len(#[trigger] columns[i])
        <= i32::MAX by {
        lemma_column_len(rows);
        assert(columns[i] == column_at(rows, projection[i]));
    }
}

proof fn lemma_column_len(rows: Seq<RecordModel>)
    ensures
        byte_len(keys(rows)) <= records_len(rows),
        byte_len(values(rows)) <= records_len(rows),
        text_len(topics(rows)) <= records_len(rows),
    decreases rows.len(),
{
    if rows.len() > 0 {
        lemma_column_len(rows.drop_last());
        assert(keys(rows).drop_last() =~= keys(rows.drop_last()));
        assert(values(rows).drop_last() =~= values(rows.drop_last()));
        assert(topics(rows).drop_last() =~= topics(rows.drop_last()));
    }
}

impl KafkaColumns {
    /// The batch of the collected records, with the projected columns of a schema.
    pub fn finish_batch(self, full_schema: &Arc<Schema>, projection: &[usize]) -> (result: Result<
        Batch,
        BatchError,
    >)
        requires
            self.valid(),
        ensures
            ({
                let all = schema_fields(**full_schema);
                let fields = projected_fields(all, projection@);
                let columns = projected_columns(self.rows(), projection@);
                match result {
                    Ok(batch) => {
                        &&& in_schema(projection@, all.len())
                        &&& self.can_project(projection@)
                        &&& !some_too_long(columns)
                        &&& fit(fields, columns)
                        &&& batch_fields(batch) == fields
                        &&& batch_rows(batch) == self.rows().len()
                        &&& batch_columns(batch) == columns.map_values(
                            |c: ColumnModel| column_words(c),
                        )
                    },
                    Err(BatchError::Column(e)) => {
                        &&& in_schema(projection@, all.len())
                        &&& self.is_column_error(projection@, e)
                    },
                    Err(BatchError::TooLarge) => {
                        &&& in_schema(projection@, all.len())
                        &&& self.can_project(projection@)
                        &&& some_too_long(columns)
                    },
                    Err(BatchError::Arrow(_)) => {
                        ||| !in_schema(projection@, all.len())
                        ||| self.can_project(projection@) && !some_too_long(columns) && !fit(
                            fields,
                            columns,
                        )
                    },
                }
            }),
    {
        let ghost rows = self.rows();
        let schema = match record_batch::project_schema(full_schema, projection) {
            Ok(schema) => schema,
            Err(e) => {
                return Err(BatchError::Arrow(e));
            },
        };
        let columns = match self.finish_projected(projection) {
            Ok(columns) => columns,
            Err(e) => {
                return Err(BatchError::Column(e));
            },
        };
        let ghost expected = projected_columns(rows, projection@);
        assert(models(columns@) =~= expected);
        if !all_in_range(&columns) {
            return Err(BatchError::TooLarge);
        }
        proof {
            if expected.len() > 0 {
                assert(column_words(expected[0]).len() == rows.len());
            }
        }
        match columns_batch(Arc::new(schema), columns) {
            Ok(batch) => Ok(batch),
            Err(e) => Err(BatchError::Arrow(e)),
        }
    }
}

/// The bytes of records add up, whatever their order.
pub proof fn law_record_bytes_add_up(a: Seq<RecordModel>, b: Seq<RecordModel>)
    ensures
        records_len(a + b) == records_len(a) + records_len(b),
        records_len(a + b) == records_len(b + a),
        forall|r: RecordModel| #[trigger]
            records_len(seq![r]) == (if r.key is Some {
                r.key->0.len()
            } else {
                0
            }) + (if r.value is Some {
                r.value->0.len()
            } else {
                0
            }) + encode_utf8(r.topic).len(),
{
    lemma_records_add(a, b);
    lemma_records_add(b, a);
    assert forall|r: RecordModel| #[trigger]
        records_len(seq![r]) == (if r.key is Some {
            r.key->0.len()
        } else {
            0
        }) + (if r.value is Some {
            r.value->0.len()
        } else {
            0
        }) + encode_utf8(r.topic).len() by {
        assert(seq![r].drop_last() =~= Seq::<RecordModel>::empty());
        assert(records_len(Seq::<RecordModel>::empty()) == 0);
    }
}

proof fn lemma_records_add(a: Seq<RecordModel>, b: Seq<RecordModel>)
    ensures
        records_len(a + b) == records_len(a) + records_len(b),
    decreases b.len(),
{
    if b.len() == 0 {
        assert(a + b =~= a);
    } else {
        assert((a + b).drop_last() =~= a + b.drop_last());
        lemma_records_add(a, b.drop_last());
    }
}

/// What a column needs of the offsets of an array: the bytes of all its cells.
pub proof fn law_cell_bytes_add_up(a: Seq<Option<Seq<u8>>>, cell: Option<Seq<u8>>)
    ensures
        byte_len(a.push(cell)) == byte_len(a) + if cell is Some {
            cell->0.len()
        } else {
            0
        },
        byte_len(Seq::empty()) == 0,
{
    assert(a.push(cell).drop_last() =~= a);
}

/// Each column of a batch has a cell for each record, and shows it: bytes as they are, texts as they
/// are, and numbers in decimal; only keys and values can be missing.
pub proof fn law_batch_columns_show_the_records(rows: Seq<RecordModel>, i: int)
    requires
        0 <= i < rows.len(),
    ensures
        forall|c: usize|
            c < 7 ==> column_words(#[trigger] column_at(rows, c)).len() == rows.len(),
        column_words(column_at(rows, 0))[i] is Some <==> rows[i].key is Some,
        rows[i].key is Some ==> column_words(column_at(rows, 0))[i]->0.len() == rows[i].key->0.len()
            && forall|b: int|
            0 <= b < rows[i].key->0.len() ==> #[trigger] column_words(
                column_at(rows, 0),
            )[i]->0[b] as u32 == rows[i].key->0[b] as u32,
        column_words(column_at(rows, 1))[i] is Some <==> rows[i].value is Some,
        rows[i].value is Some ==> column_words(column_at(rows, 1))[i]->0.len()
            == rows[i].value->0.len() && forall|b: int|
            0 <= b < rows[i].value->0.len() ==> #[trigger] column_words(
                column_at(rows, 1),
            )[i]->0[b] as u32 == rows[i].value->0[b] as u32,
        column_words(column_at(rows, 2))[i] == Some(rows[i].topic),
        column_words(column_at(rows, 3))[i] == Some(signed_decimal(rows[i].partition as int)),
        column_words(column_at(rows, 4))[i] == Some(signed_decimal(rows[i].offset as int)),
        column_words(column_at(rows, 5))[i] == Some(signed_decimal(rows[i].timestamp as int)),
        column_words(column_at(rows, 6))[i] == Some(signed_decimal(rows[i].timestamp_type as int)),
{
    assert forall|c: usize| c < 7 implies column_words(#[trigger] column_at(rows, c)).len()
        == rows.len() by {
        if c == 0 {
        } else if c == 1 {
        } else if c == 2 {
        } else if c == 3 {
        } else if c == 4 {
        } else if c == 5 {
        }
    }
}

/// A projection keeps the columns that it names, in its order.
pub proof fn law_projection_picks_columns(rows: Seq<RecordModel>, projection: Seq<usize>, k: int)
    requires
        0 <= k < projection.len(),
    ensures
        projected_columns(rows, projection).len() == projection.len(),
        projected_columns(rows, projection)[k] == column_at(rows, projection[k]),
{
}

} // verus!
