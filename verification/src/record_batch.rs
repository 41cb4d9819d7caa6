//! Record batches, the schemas that they have and the decoder that makes them of JSON.

use datafusion::arrow::array::{Array, AsArray, RecordBatch, StringArray};
use datafusion::arrow::datatypes::DataType::{
    BinaryView, FixedSizeBinary, FixedSizeList, LargeList, LargeListView, ListView, RunEndEncoded,
    Utf8View,
};
use datafusion::arrow::datatypes::{DataType, Field, Schema, SchemaBuilder};
use datafusion::arrow::error::ArrowError;
use datafusion::arrow::json::reader::{infer_json_schema_from_iterator, Decoder};
use datafusion::arrow::json::ReaderBuilder;
use std::sync::Arc;
use vstd::prelude::*;
use vstd::utf8::encode_utf8;

use crate::json::{empty_object_line, is_json_text, is_space};
use crate::json_numbers::{is_readable, tokens_from, tokens_len};
use crate::schema::is_index_of;

verus! {

/// The schema of a record batch.
#[verifier::external_type_specification]
#[verifier::external_body]
pub struct ExSchema(datafusion::arrow::datatypes::Schema);

/// A batch of rows, held by columns: a `RecordBatch`.
#[verifier::external_body]
#[derive(Debug)]
pub struct Batch {
    pub columns: RecordBatch,
}

/// What ends the work on a record batch.
#[verifier::external_type_specification]
#[verifier::external_body]
pub struct ExArrowError(datafusion::arrow::error::ArrowError);

/// A decoder of JSON records.
#[verifier::external_type_specification]
#[verifier::external_body]
pub struct ExDecoder(datafusion::arrow::json::reader::Decoder);

/// The columns of a schema, in order: the name of each, its type in words and whether it may hold
/// nulls. The words are those of `Display`, but for the name of the item of a list, which is quoted
/// and escaped as other names are: no two types have the same words.
pub uninterp spec fn schema_fields(schema: Schema) -> Seq<(Seq<char>, Seq<char>, bool)>;

/// What a schema says of itself, by keys.
pub uninterp spec fn schema_metadata(schema: Schema) -> Map<Seq<char>, Seq<char>>;

/// What the type of a column is, as far as memory depends on it.
#[derive(Debug, Clone, Copy, PartialEq, Eq, Structural)]
pub enum FieldKind {
    Null,
    /// Byte strings of one width.
    Bytes { width: i32 },
    /// Lists of one size.
    FixedList { size: i32 },
    /// Runs of equal values; whether the type of their ends is one that ends can have.
    Runs { valid: bool },
    Struct { fields: usize },
    /// Lists of any size.
    List,
    /// Maps.
    Entries,
    /// Texts or byte strings behind 32-bit positions, of whatever total length.
    View,
    Other,
}

/// The type of a decimal number: in how many bits it is held, and how many of its digits stand
/// behind the point.
#[derive(Debug, Clone, Copy, PartialEq, Eq, Structural)]
pub struct Decimal {
    pub bits: u32,
    pub scale: i8,
}

/// The kind of a type, by its words, and the kinds of the fields inside it: those of each field
/// follow it, in order.
pub uninterp spec fn type_kinds(words: Seq<char>) -> Seq<FieldKind>;

/// For a type, by its words, and the fields inside it, in the same order: the name of the field, none
/// for the type itself, and its decimal where it is one.
pub uninterp spec fn type_parts(words: Seq<char>) -> Seq<(Seq<char>, Option<Decimal>)>;

/// The columns of a batch, in order: the cells of each in words, nothing where the validity buffer
/// of the column says that a cell is null. A text stands for itself; a whole number, or the number of
/// units of a timestamp, is in decimal; of a byte string each byte is the character with its number;
/// other cells are as arrow displays them.
pub uninterp spec fn batch_columns(batch: Batch) -> Seq<Seq<Option<Seq<char>>>>;

/// The number of rows of a batch.
pub uninterp spec fn batch_rows(batch: Batch) -> nat;

/// The schema of a batch.
pub uninterp spec fn batch_fields(batch: Batch) -> Seq<(Seq<char>, Seq<char>, bool)>;

/// Whether the types of the columns of a batch are those of its schema also in the names of the fields
/// inside them.
pub uninterp spec fn has_exact_types(batch: Batch) -> bool;

/// The records that a decoder has taken and not given back in a batch, each with its newline.
pub uninterp spec fn decoder_lines(decoder: Decoder) -> Seq<Seq<u8>>;

/// The number of records that a decoder takes for one batch.
pub uninterp spec fn decoder_limit(decoder: Decoder) -> nat;

/// The columns that a decoder makes of its records.
pub uninterp spec fn decoder_fields(decoder: Decoder) -> Seq<(Seq<char>, Seq<char>, bool)>;

/// Whether there is a JSON decoder for columns with these names and types.
pub uninterp spec fn reads_columns(fields: Seq<(Seq<char>, Seq<char>, bool)>) -> bool;

/// The columns that JSON records give, unless one of them does not fit the types.
pub uninterp spec fn json_columns(
    fields: Seq<(Seq<char>, Seq<char>, bool)>,
    lines: Seq<Seq<u8>>,
) -> Option<Seq<Seq<Option<Seq<char>>>>>;

/// The columns that are inferred from JSON records, each without its newline, unless the records
/// have no common form.
pub uninterp spec fn inferred_fields(lines: Seq<Seq<u8>>) -> Option<
    Seq<(Seq<char>, Seq<char>, bool)>,
>;

/// The names of columns.
pub open spec fn column_names(fields: Seq<(Seq<char>, Seq<char>, bool)>) -> Seq<Seq<char>> {
    fields.map_values(|f: (Seq<char>, Seq<char>, bool)| f.0)
}

/// Another owner of the same value: `Arc::clone`.
#[verifier::external_body]
pub(crate) fn share<T>(value: &Arc<T>) -> (other: Arc<T>)
    ensures
        other == *value,
{
    Arc::clone(value)
}

/// `Fields::find`: the position of the first column with a name.
#[verifier::external_body]
pub(crate) fn find_column(schema: &Schema, name: &str) -> (index: Option<usize>)
    ensures
        is_index_of(column_names(schema_fields(*schema)), name@, index),
{
    schema.fields().find(name).map(|(i, _)| i)
}

/// `SchemaBuilder::remove`, from the schema's own columns: the schema without one of them.
#[verifier::external_body]
pub(crate) fn without_column(schema: &Schema, index: usize) -> (rest: Schema)
    requires
        index < schema_fields(*schema).len(),
    ensures
        schema_fields(rest) == schema_fields(*schema).remove(index as int),
        schema_metadata(rest) == schema_metadata(*schema),
{
    let mut builder = SchemaBuilder::from(schema);
    builder.remove(index);
    builder.finish()
}

/// `Schema::empty`: a schema without columns.
#[verifier::external_body]
pub(crate) fn empty_schema() -> (schema: Schema)
    ensures
        schema_fields(schema) == Seq::<(Seq<char>, Seq<char>, bool)>::empty(),
{
    Schema::empty()
}

/// `Fields::len`, of a schema's own columns.
#[verifier::external_body]
pub(crate) fn column_count(schema: &Schema) -> (n: usize)
    ensures
        n == schema_fields(*schema).len(),
{
    schema.fields().len()
}

/// `Field::name`, of the column at a position.
#[verifier::external_body]
pub(crate) fn column_name(schema: &Schema, index: usize) -> (name: String)
    requires
        index < schema_fields(*schema).len(),
    ensures
        name@ == schema_fields(*schema)[index as int].0,
{
    schema.field(index).name().clone()
}

/// `SchemaBuilder::push` of a column of another schema, behind the schema's own columns.
#[verifier::external_body]
pub(crate) fn with_column_of(schema: &Schema, other: &Schema, index: usize) -> (wider: Schema)
    requires
        index < schema_fields(*other).len(),
    ensures
        schema_fields(wider) == schema_fields(*schema).push(schema_fields(*other)[index as int]),
{
    let mut builder = SchemaBuilder::from(schema);
    builder.push(other.field(index).clone());
    builder.finish()
}

/// `SchemaBuilder::push` of a column of text that may hold nulls, behind the schema's own columns.
#[verifier::external_body]
pub(crate) fn with_text_field(schema: &Schema, name: &str) -> (wider: Schema)
    ensures
        schema_fields(wider) == schema_fields(*schema).push((name@, "Utf8"@, true)),
{
    let mut builder = SchemaBuilder::from(schema);
    builder.push(Field::new(name, DataType::Utf8, true));
    builder.finish()
}

/// The contents of lines.
pub open spec fn byte_lines(lines: Seq<Vec<u8>>) -> Seq<Seq<u8>> {
    lines.map_values(|l: Vec<u8>| l@)
}

/// `infer_json_schema_from_iterator`, of records as `serde_json` reads them: the columns that they
/// have in common.
#[verifier::external_body]
pub(crate) fn infer_records(lines: &[Vec<u8>]) -> (result: Result<Schema, ArrowError>)
    ensures
        match result {
            Ok(schema) => inferred_fields(byte_lines(lines@)) == Some(schema_fields(schema)),
            Err(_) => inferred_fields(byte_lines(lines@)) is None,
        },
{
    infer_json_schema_from_iterator(lines.iter().map(|line| {
        serde_json::from_slice::<serde_json::Value>(line)
            .map_err(|e| ArrowError::JsonError(e.to_string()))
    }))
}

/// The columns of a schema at some positions.
pub open spec fn projected_fields(
    fields: Seq<(Seq<char>, Seq<char>, bool)>,
    projection: Seq<usize>,
) -> Seq<(Seq<char>, Seq<char>, bool)> {
    projection.map_values(|i: usize| fields[i as int])
}

/// `Schema::project`: the schema with the columns at some positions, unless it has none at one.
#[verifier::external_body]
pub(crate) fn project_schema(schema: &Schema, projection: &[usize]) -> (result: Result<
    Schema,
    ArrowError,
>)
    ensures
        result is Ok <==> forall|k: int|
            0 <= k < projection@.len() ==> (#[trigger] projection@[k]) < schema_fields(*schema).len(),
        result matches Ok(projected) ==> schema_fields(projected) == projected_fields(
            schema_fields(*schema),
            projection@,
        ),
{
    schema.project(projection)
}

/// The number of columns, with those inside the types of others.
pub open spec fn fields_width(fields: Seq<(Seq<char>, Seq<char>, bool)>) -> nat
    decreases fields.len(),
{
    if fields.len() == 0 {
        0
    } else {
        fields_width(fields.drop_last()) + type_kinds(fields.last().1).len()
    }
}

/// `Schema::flattened_fields`: how many there are.
#[verifier::external_body]
pub(crate) fn width(schema: &Schema) -> (n: usize)
    ensures
        n == fields_width(schema_fields(*schema)),
{
    schema.flattened_fields().len()
}

/// `Schema::flattened_fields`, of a schema with one column of another: the kind of the column and
/// the kinds of the fields inside it.
#[verifier::external_body]
pub(crate) fn column_kinds(schema: &Schema, index: usize) -> (kinds: Vec<FieldKind>)
    requires
        index < schema_fields(*schema).len(),
    ensures
        kinds@ == type_kinds(schema_fields(*schema)[index as int].1),
{
    let column = Schema::new(vec![schema.field(index).clone()]);
    let fields = column.flattened_fields().into_iter().map(|field| match field.data_type() {
        DataType::Null => FieldKind::Null,
        FixedSizeBinary(width) => FieldKind::Bytes { width: *width },
        FixedSizeList(_, size) => FieldKind::FixedList { size: *size },
        RunEndEncoded(e, _) => FieldKind::Runs { valid: e.data_type().is_run_ends_type() },
        DataType::Struct(fields) => FieldKind::Struct { fields: fields.len() },
        DataType::Map(_, _) => FieldKind::Entries,
        DataType::List(_) | LargeList(_) | ListView(_) | LargeListView(_) => FieldKind::List,
        Utf8View | BinaryView => FieldKind::View,
        _ => FieldKind::Other,
    });
    fields.collect()
}

/// `Schema::flattened_fields`, of a schema with one column of the type of another and without a name:
/// the names of the fields, and their decimals.
#[verifier::external_body]
pub(crate) fn column_parts(schema: &Schema, index: usize) -> (parts: Vec<(String, Option<Decimal>)>)
    requires
        index < schema_fields(*schema).len(),
    ensures
        parts@.map_values(|p: (String, Option<Decimal>)| (p.0@, p.1)) == type_parts(
            schema_fields(*schema)[index as int].1,
        ),
        parts@.len() == type_kinds(schema_fields(*schema)[index as int].1).len(),
{
    let column = Field::new("", schema.field(index).data_type().clone(), true);
    let schema = Schema::new(vec![column]);
    let parts = schema.flattened_fields().into_iter().map(|field| {
        let decimal = match field.data_type() {
            DataType::Decimal32(_, scale) => Some(Decimal { bits: 32, scale: *scale }),
            DataType::Decimal64(_, scale) => Some(Decimal { bits: 64, scale: *scale }),
            DataType::Decimal128(_, scale) => Some(Decimal { bits: 128, scale: *scale }),
            DataType::Decimal256(_, scale) => Some(Decimal { bits: 256, scale: *scale }),
            _ => None,
        };
        (field.name().clone(), decimal)
    });
    parts.collect()
}

/// Whether columns can be made of such a type: no size is negative, and runs have valid ends.
pub open spec fn is_sound(kind: FieldKind) -> bool {
    match kind {
        FieldKind::Bytes { width } => width >= 0,
        FieldKind::FixedList { size } => size >= 0,
        FieldKind::Runs { valid } => valid,
        _ => true,
    }
}

/// Whether columns can be made of the types of some fields.
pub open spec fn are_sound(fields: Seq<(Seq<char>, Seq<char>, bool)>) -> bool {
    forall|i: int, k: int|
        0 <= i < fields.len() && 0 <= k < type_kinds(fields[i].1).len() ==> is_sound(
            #[trigger] type_kinds(fields[i].1)[k],
        )
}

/// Whether the columns of a type have a validity buffer for their nulls.
pub open spec fn shows_nulls(words: Seq<char>) -> bool {
    type_kinds(words)[0] !is Null && type_kinds(words)[0] !is Runs
}

/// The largest factor that is told from larger ones: times the bytes of a cell, it is more than
/// memory has.
pub const REACH_LIMIT: u64 = 0x0200_0000_0000_0000;

/// How many cells of a field of some kind there are for each cell of the field around it, and what
/// is in it.
pub open spec fn spread(around: nat, kind: FieldKind) -> nat {
    let size = match kind {
        FieldKind::Bytes { width } => width as int,
        FieldKind::FixedList { size } => size as int,
        _ => 1,
    };
    if size <= 1 {
        around
    } else if around * size > REACH_LIMIT {
        REACH_LIMIT as nat
    } else {
        (around * size) as nat
    }
}

/// How many fields stand directly inside one of some kind.
pub open spec fn inside(kind: FieldKind) -> nat {
    match kind {
        FieldKind::FixedList { .. } => 1,
        FieldKind::Runs { .. } => 1,
        FieldKind::Struct { fields } => fields as nat,
        FieldKind::List => 1,
        FieldKind::Entries => 1,
        _ => 0,
    }
}

/// How many cells the fields that come next have for each token of a batch, the next one last, and
/// the most that a field before them has.
#[verifier::ext_equal]
pub struct Reach {
    pub next: Seq<nat>,
    pub most: nat,
}

/// The reach with one more field. The cells inside lists of any size are tokens of their own.
pub open spec fn reached(before: Reach, kind: FieldKind) -> Reach {
    let around = if before.next.len() > 0 {
        before.next.last()
    } else {
        1
    };
    let rest = if before.next.len() > 0 {
        before.next.drop_last()
    } else {
        before.next
    };
    let own = spread(around, kind);
    let passed: nat = if kind is List || kind is Entries {
        1
    } else {
        own
    };
    Reach {
        next: rest + Seq::new(inside(kind), |i: int| passed),
        most: if own > before.most {
            own
        } else {
            before.most
        },
    }
}

/// The reach of the fields of a type.
pub open spec fn reach_of(kinds: Seq<FieldKind>, start: nat) -> Reach
    decreases kinds.len(),
{
    if kinds.len() == 0 {
        Reach { next: Seq::empty(), most: start }
    } else {
        reached(reach_of(kinds.drop_last(), start), kinds.last())
    }
}

/// The most cells that a column has for each token of a batch.
pub open spec fn fields_reach(fields: Seq<(Seq<char>, Seq<char>, bool)>) -> nat
    decreases fields.len(),
{
    if fields.len() == 0 {
        1
    } else {
        reach_of(type_kinds(fields.last().1), fields_reach(fields.drop_last())).most
    }
}

/// Whether some column, or a field inside one, holds texts or byte strings behind 32-bit positions.
pub open spec fn has_views(fields: Seq<(Seq<char>, Seq<char>, bool)>) -> bool {
    exists|i: int, k: int|
        0 <= i < fields.len() && 0 <= k < type_kinds(fields[i].1).len() && (
        #[trigger] type_kinds(fields[i].1)[k]) is View
}

/// The most bytes that the records of a batch have: memory can be asked for the cells that they
/// make, of no more than 64 bytes each, and positions of 32 bits are enough where there are such.
pub open spec fn max_lines_len(fields: Seq<(Seq<char>, Seq<char>, bool)>) -> nat {
    let most = (isize::MAX as nat) / (64 * (fields_width(fields) + 1) * fields_reach(fields));
    if has_views(fields) && most >= u32::MAX {
        (u32::MAX - 1) as nat
    } else {
        most
    }
}

/// The most tokens that the records of a batch have: the position of each is a 32-bit number.
pub const TOKEN_LIMIT: u32 = 0xffff_fff0;

/// Whether memory can be asked for the tokens of a batch: eight bytes for each, two for each
/// column and two for each row.
pub open spec fn has_room(batch_size: usize, width: nat) -> bool {
    (batch_size * (2 * width + 2) + 1) * 8 <= isize::MAX
}

/// `ReaderBuilder::build_decoder`, for a schema and a batch size: a decoder that has taken nothing.
/// It fails only on a schema with a type that JSON records have no form for. It would panic where
/// the memory of a batch has no room, and on runs whose ends have another type than ends can have.
#[verifier::external_body]
pub(crate) fn build_decoder(schema: Arc<Schema>, batch_size: usize) -> (result: Result<
    Decoder,
    ArrowError,
>)
    requires
        has_room(batch_size, fields_width(schema_fields(*schema))),
        are_sound(schema_fields(*schema)),
    ensures
        match result {
            Ok(decoder) => {
                &&& reads_columns(schema_fields(*schema))
                &&& decoder_lines(decoder) == Seq::<Seq<u8>>::empty()
                &&& decoder_limit(decoder) == batch_size
                &&& decoder_fields(decoder) == schema_fields(*schema)
            },
            Err(_) => !reads_columns(schema_fields(*schema)),
        },
{
    ReaderBuilder::new(schema).with_batch_size(batch_size).build_decoder()
}

/// Whether some bytes are one JSON record and a newline, without white space in front.
pub open spec fn is_record_line(line: Seq<u8>) -> bool {
    &&& line.len() >= 2
    &&& line.last() == 0x0a
    &&& !is_space(line[0])
    &&& line == empty_object_line() || is_json_text(line.drop_last())
}

/// Whether two decoders make the same columns, with the same number of records for a batch.
pub open spec fn same_decoder(a: Decoder, b: Decoder) -> bool {
    decoder_limit(a) == decoder_limit(b) && decoder_fields(a) == decoder_fields(b)
}

/// `Decoder::decode` of a whole record, while the batch is not full: it is taken whole. What
/// `serde_json` reads as a JSON value the decoder takes too: it fails only on bytes that are none.
#[verifier::external_body]
pub(crate) fn decode_line(decoder: &mut Decoder, line: &[u8]) -> (result: Result<usize, ArrowError>)
    requires
        is_record_line(line@),
        decoder_lines(*old(decoder)).len() < decoder_limit(*old(decoder)),
        lines_len(decoder_lines(*old(decoder))) + line@.len() <= max_lines_len(
            decoder_fields(*old(decoder)),
        ),
        tokens_len(decoder_lines(*old(decoder))) + tokens_from(line@, 0) <= TOKEN_LIMIT,
    ensures
        match result {
            Ok(n) => {
                &&& n == line@.len()
                &&& same_decoder(*final(decoder), *old(decoder))
                &&& decoder_lines(*final(decoder)) == decoder_lines(*old(decoder)).push(line@)
            },
            Err(_) => false,
        },
{
    decoder.decode(line)
}

/// The number of bytes of some records.
pub open spec fn lines_len(lines: Seq<Seq<u8>>) -> nat
    decreases lines.len(),
{
    if lines.len() == 0 {
        0
    } else {
        lines_len(lines.drop_last()) + lines.last().len()
    }
}

/// `Decoder::flush`: the batch of the records taken so far, if there are any; of a record without
/// members every cell is null. Where a record does not fit the columns it fails, and keeps the
/// records. It would panic on a type with a negative size, where memory cannot be asked for the cells
/// or 32-bit positions do not reach the texts, and where the text of a decimal number has more digits
/// or a larger exponent than `parse_decimal` counts, or makes it divide by a power of ten that is zero
/// in the bits of the decimal.
#[verifier::external_body]
pub(crate) fn flush_decoder(decoder: &mut Decoder) -> (result: Result<
    Option<Batch>,
    ArrowError,
>)
    requires
        are_sound(decoder_fields(*old(decoder))),
        lines_len(decoder_lines(*old(decoder))) <= max_lines_len(decoder_fields(*old(decoder))),
        tokens_len(decoder_lines(*old(decoder))) <= TOKEN_LIMIT,
        forall|k: int|
            0 <= k < decoder_lines(*old(decoder)).len() ==> is_readable(
                #[trigger] decoder_lines(*old(decoder))[k],
                decoder_fields(*old(decoder)),
            ),
    ensures
        same_decoder(*final(decoder), *old(decoder)),
        match result {
            Ok(Some(batch)) => {
                &&& decoder_lines(*old(decoder)).len() > 0
                &&& decoder_lines(*final(decoder)) == Seq::<Seq<u8>>::empty()
                &&& batch_rows(batch) == decoder_lines(*old(decoder)).len()
                &&& batch_fields(batch) == decoder_fields(*old(decoder))
                &&& has_exact_types(batch)
                &&& json_columns(decoder_fields(*old(decoder)), decoder_lines(*old(decoder)))
                    == Some(batch_columns(batch))
                &&& are_cells_of(
                    batch_columns(batch),
                    decoder_fields(*old(decoder)),
                    decoder_lines(*old(decoder)),
                )
            },
            Ok(None) => {
                &&& decoder_lines(*old(decoder)).len() == 0
                &&& decoder_lines(*final(decoder)).len() == 0
            },
            Err(_) => {
                &&& decoder_lines(*old(decoder)).len() > 0
                &&& decoder_lines(*final(decoder)) == decoder_lines(*old(decoder))
                &&& json_columns(decoder_fields(*old(decoder)), decoder_lines(*old(decoder))) is None
            },
        },
{
    Ok(decoder.flush()?.map(|columns| Batch { columns }))
}

/// Whether there is a column for each field with a cell for each record, and the cells of a record
/// without members are null.
pub open spec fn are_cells_of(
    columns: Seq<Seq<Option<Seq<char>>>>,
    fields: Seq<(Seq<char>, Seq<char>, bool)>,
    lines: Seq<Seq<u8>>,
) -> bool {
    &&& columns.len() == fields.len()
    &&& forall|c: int| 0 <= c < columns.len() ==> (#[trigger] columns[c]).len() == lines.len()
    &&& forall|c: int, k: int|
        0 <= c < columns.len() && 0 <= k < lines.len() && lines[k] == empty_object_line()
            && shows_nulls(fields[c].1) ==> #[trigger] columns[c][k] is None
}

/// The cells of a column of text.
pub open spec fn cells(texts: Seq<Option<String>>) -> Seq<Option<Seq<char>>> {
    texts.map_values(
        |t: Option<String>|
            match t {
                Some(s) => Some(s@),
                None => None,
            },
    )
}

/// The number of bytes of the texts in a column.
pub open spec fn cells_len(cells: Seq<Option<Seq<char>>>) -> nat
    decreases cells.len(),
{
    if cells.len() == 0 {
        0
    } else {
        cells_len(cells.drop_last()) + match cells.last() {
            Some(text) => encode_utf8(text).len(),
            None => 0,
        }
    }
}

/// The types of columns.
pub open spec fn column_types(fields: Seq<(Seq<char>, Seq<char>, bool)>) -> Seq<Seq<char>> {
    fields.map_values(|f: (Seq<char>, Seq<char>, bool)| f.1)
}

/// Whether columns of some types have those of a schema, with nulls only where a field may hold
/// them.
pub open spec fn columns_fit(
    fields: Seq<(Seq<char>, Seq<char>, bool)>,
    types: Seq<Seq<char>>,
    columns: Seq<Seq<Option<Seq<char>>>>,
) -> bool {
    &&& fields.len() == types.len()
    &&& forall|i: int|
        0 <= i < fields.len() ==> {
            &&& (#[trigger] fields[i]).1 == types[i]
            &&& fields[i].2 || !columns[i].contains(None)
        }
}

/// `RecordBatch::clone`: a batch with the same columns.
#[verifier::external_body]
pub(crate) fn copy_batch(batch: &Batch) -> (copy: Batch)
    ensures
        copy == *batch,
{
    Batch { columns: batch.columns.clone() }
}

/// `RecordBatch::schema`.
#[verifier::external_body]
pub(crate) fn batch_schema(batch: &Batch) -> (schema: Arc<Schema>)
    ensures
        schema_fields(*schema) == batch_fields(*batch),
{
    batch.columns.schema()
}

/// `RecordBatch::num_rows`.
#[verifier::external_body]
pub(crate) fn row_count(batch: &Batch) -> (n: usize)
    ensures
        n == batch_rows(*batch),
{
    batch.columns.num_rows()
}

/// The number of cells that are null.
pub open spec fn null_cells(cells: Seq<Option<Seq<char>>>) -> nat
    decreases cells.len(),
{
    if cells.len() == 0 {
        0
    } else if cells.last() is None {
        null_cells(cells.drop_last()) + 1
    } else {
        null_cells(cells.drop_last())
    }
}

/// `Array::null_count` and `Array::len` of a column of byte strings; nothing where the column has
/// another type.
#[verifier::external_body]
pub(crate) fn binary_nulls(batch: &Batch, index: usize) -> (counts: Option<(usize, usize)>)
    requires
        index < batch_fields(*batch).len(),
    ensures
        match counts {
            Some((nulls, len)) => {
                &&& batch_fields(*batch)[index as int].1 == "Binary"@
                &&& nulls == null_cells(batch_columns(*batch)[index as int])
                &&& len == batch_columns(*batch)[index as int].len()
            },
            None => batch_fields(*batch)[index as int].1 != "Binary"@,
        },
{
    let column = batch.columns.column(index).as_binary_opt::<i32>();
    column.map(|cells| (cells.null_count(), cells.len()))
}

/// Whether columns at all the positions are there.
pub open spec fn all_within(positions: Seq<usize>, count: nat) -> bool {
    forall|k: int| 0 <= k < positions.len() ==> (#[trigger] positions[k]) < count
}

/// Whether a batch has the columns of another at some positions, and the same rows.
pub open spec fn is_projection(projected: Batch, batch: Batch, positions: Seq<usize>) -> bool {
    &&& batch_rows(projected) == batch_rows(batch)
    &&& batch_fields(projected) == projected_fields(batch_fields(batch), positions)
    &&& batch_columns(projected) == positions.map_values(
        |i: usize| batch_columns(batch)[i as int],
    )
}

/// `RecordBatch::project`: the batch with the columns at some positions, unless it has none at one.
#[verifier::external_body]
pub(crate) fn project_batch(batch: &Batch, positions: &[usize]) -> (result: Result<
    Batch,
    ArrowError,
>)
    ensures
        match result {
            Ok(projected) => {
                &&& all_within(positions@, batch_fields(*batch).len())
                &&& is_projection(projected, *batch, positions@)
            },
            Err(_) => !all_within(positions@, batch_fields(*batch).len()),
        },
{
    Ok(Batch { columns: batch.columns.project(positions)? })
}

/// `RecordBatch::try_new`, from the columns of another batch with a `StringArray` among them: the
/// batch with one more column, where the columns fit the schema.
#[verifier::external_body]
pub(crate) fn with_text_column(
    schema: Arc<Schema>,
    batch: Batch,
    index: usize,
    texts: Vec<Option<String>>,
) -> (result: Result<Batch, ArrowError>)
    requires
        has_exact_types(batch),
        index <= batch_columns(batch).len(),
        texts@.len() == batch_rows(batch),
        cells_len(cells(texts@)) <= i32::MAX,
    ensures
        ({
            let types = column_types(batch_fields(batch)).insert(index as int, "Utf8"@);
            let columns = batch_columns(batch).insert(index as int, cells(texts@));
            match result {
                Ok(wider) => {
                    &&& columns_fit(schema_fields(*schema), types, columns)
                    &&& batch_rows(wider) == batch_rows(batch)
                    &&& batch_fields(wider) == schema_fields(*schema)
                    &&& batch_columns(wider) == columns
                },
                Err(_) => !columns_fit(schema_fields(*schema), types, columns),
            }
        }),
{
    let mut columns = batch.columns.columns().to_vec();
    columns.insert(index, Arc::new(StringArray::from(texts)));
    Ok(Batch { columns: RecordBatch::try_new(schema, columns)? })
}

/// Columns with another in place of one of them.
pub open spec fn with_field(
    fields: Seq<(Seq<char>, Seq<char>, bool)>,
    index: int,
    name: Seq<char>,
    words: Seq<char>,
) -> Seq<(Seq<char>, Seq<char>, bool)> {
    fields.update(index, (name, words, true))
}

/// `RecordBatch::try_new`, from the columns of a batch with the first of another in place of one: the
/// new column has a name and may hold nulls. It fails where a column that may hold none has one, or
/// the type of another column is not that of its field also in the names inside it.
#[verifier::external_body]
pub(crate) fn replace_column(batch: &Batch, index: usize, name: &str, other: &Batch) -> (result:
    Result<Batch, ArrowError>)
    requires
        index < batch_fields(*batch).len(),
        batch_fields(*other).len() > 0,
        batch_rows(*other) == batch_rows(*batch),
    ensures
        ({
            let words = batch_fields(*other)[0].1;
            let fields = with_field(batch_fields(*batch), index as int, name@, words);
            let columns = batch_columns(*batch).update(index as int, batch_columns(*other)[0]);
            match result {
                Ok(replaced) => {
                    &&& columns_fit(fields, column_types(fields), columns)
                    &&& batch_rows(replaced) == batch_rows(*batch)
                    &&& batch_fields(replaced) == fields
                    &&& batch_columns(replaced) == columns
                },
                Err(_) => {
                    ||| !columns_fit(fields, column_types(fields), columns)
                    ||| !has_exact_types(*batch)
                },
            }
        }),
{
    let new = other.columns.column(0);
    let mut fields = batch.columns.schema().fields().to_vec();
    fields[index] = Arc::new(Field::new(name, new.data_type().clone(), true));
    let mut columns = batch.columns.columns().to_vec();
    columns[index] = Arc::clone(new);
    Ok(Batch { columns: RecordBatch::try_new(Arc::new(Schema::new(fields)), columns)? })
}

/// The bytes of lines, the bytes of cells and the missing cells of columns add up.
pub proof fn law_lengths_add_up(
    lines: Seq<Seq<u8>>,
    line: Seq<u8>,
    texts: Seq<Option<Seq<char>>>,
    text: Option<Seq<char>>,
)
    ensures
        lines_len(Seq::empty()) == 0,
        lines_len(lines.push(line)) == lines_len(lines) + line.len(),
        cells_len(Seq::empty()) == 0,
        text is None ==> cells_len(texts.push(text)) == cells_len(texts),
        text matches Some(t) ==> cells_len(texts.push(text)) == cells_len(texts) + encode_utf8(
            t,
        ).len(),
        null_cells(Seq::empty()) == 0,
        null_cells(texts.push(text)) == null_cells(texts) + if text is None {
            1nat
        } else {
            0nat
        },
{
    assert(lines.push(line).drop_last() =~= lines);
    assert(texts.push(text).drop_last() =~= texts);
}

} // verus!
