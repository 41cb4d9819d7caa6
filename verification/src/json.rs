//! JSON lines with malformed records: kept apart, dropped or refused.

use datafusion::arrow::datatypes::Schema;
use datafusion::arrow::error::ArrowError;
use datafusion::arrow::json::reader::Decoder;
use std::sync::Arc;
use vstd::prelude::*;
use vstd::slice::slice_subrange;
use vstd::utf8::{decode_utf8, decode_utf8_encode_utf8, valid_utf8};

use crate::bytes;
use crate::json_numbers::{
    check_record, count_tokens, decimal_models, fields_decimals, is_readable, schema_decimals,
    tokens_len, DecimalField,
};
use crate::record_batch;
use crate::record_batch::{
    are_cells_of, are_sound, batch_columns, batch_fields, batch_rows, byte_lines, cells, cells_len,
    column_names, column_types, columns_fit, decoder_fields, decoder_limit, decoder_lines,
    fields_reach, fields_width, has_room, has_views, inferred_fields, inside, is_record_line, is_sound,
    json_columns, lines_len, max_lines_len, reach_of, reached, reads_columns, schema_fields,
    schema_metadata, shows_nulls, spread, type_kinds, Batch, FieldKind, Reach, REACH_LIMIT,
    TOKEN_LIMIT,
};
use crate::schema::{is_index_of, lemma_one_index};
use crate::text;
use crate::text::{trimmed, uppercase};

verus! {

/// What happens to a malformed record.
#[derive(Debug, Clone, Copy, PartialEq, Eq, Structural)]
pub enum JsonMode {
    /// It becomes a row of nulls, with its text in the column for corrupt records.
    Permissive,
    /// It is dropped.
    DropMalformed,
    /// It ends the read.
    FailFast,
}

impl JsonMode {
    /// The mode with a name, in any case and with white space around it; permissive where there
    /// is none.
    pub fn parse(s: &str) -> (mode: Self)
        ensures
            mode == if uppercase(trimmed(s@)) == "DROPMALFORMED"@ {
                JsonMode::DropMalformed
            } else if uppercase(trimmed(s@)) == "FAILFAST"@ {
                JsonMode::FailFast
            } else {
                JsonMode::Permissive
            },
    {
        let bare = text::trim(s);
        let name = text::to_uppercase(bare.as_str());
        if text::str_eq(name.as_str(), "DROPMALFORMED") {
            JsonMode::DropMalformed
        } else if text::str_eq(name.as_str(), "FAILFAST") {
            JsonMode::FailFast
        } else {
            JsonMode::Permissive
        }
    }
}

/// Whether `serde_json` reads the bytes as a JSON value.
pub uninterp spec fn is_json_text(bytes: Seq<u8>) -> bool;

/// `serde_json::from_slice` into a `serde_json::Value`: whether it succeeds.
#[verifier::external_body]
fn is_json(bytes: &[u8]) -> (valid: bool)
    ensures
        valid == is_json_text(bytes@),
{
    serde_json::from_slice::<serde_json::Value>(bytes).is_ok()
}

/// `String::from_utf8`: the text that the bytes encode, where they are valid UTF-8.
#[verifier::external_body]
fn text_from_utf8(bytes: Vec<u8>) -> (text: Option<String>)
    ensures
        match text {
            Some(s) => valid_utf8(bytes@) && s@ == decode_utf8(bytes@),
            None => !valid_utf8(bytes@),
        },
{
    String::from_utf8(bytes).ok()
}

/// The text of some bytes, with replacement characters for what is not valid UTF-8.
pub uninterp spec fn lossy_text(bytes: Seq<u8>) -> Seq<char>;

/// `String::from_utf8_lossy`: the text that the bytes encode, with replacement characters for what
/// is not valid UTF-8.
#[verifier::external_body]
fn lossy(bytes: &[u8]) -> (text: String)
    ensures
        text@ == lossy_text(bytes@),
        valid_utf8(bytes@) ==> text@ == decode_utf8(bytes@),
{
    String::from_utf8_lossy(bytes).into_owned()
}

/// Whether a byte is ASCII white space.
pub open spec fn is_space(b: u8) -> bool {
    b == 0x20 || b == 0x09 || b == 0x0a || b == 0x0c || b == 0x0d
}

fn space(b: u8) -> (white: bool)
    ensures
        white == is_space(b),
{
    b == 0x20 || b == 0x09 || b == 0x0a || b == 0x0c || b == 0x0d
}

/// Bytes without ASCII white space at their start.
pub open spec fn trim_front(b: Seq<u8>) -> Seq<u8>
    decreases b.len(),
{
    if b.len() > 0 && is_space(b[0]) {
        trim_front(b.skip(1))
    } else {
        b
    }
}

/// Bytes without ASCII white space at their end.
pub open spec fn trim_back(b: Seq<u8>) -> Seq<u8>
    decreases b.len(),
{
    if b.len() > 0 && is_space(b.last()) {
        trim_back(b.drop_last())
    } else {
        b
    }
}

/// Bytes without ASCII white space at their start and end.
pub open spec fn trimmed_bytes(b: Seq<u8>) -> Seq<u8> {
    trim_back(trim_front(b))
}

/// Removes ASCII white space at the start and at the end.
pub fn trim_ascii(b: &[u8]) -> (out: &[u8])
    ensures
        out@ == trimmed_bytes(b@),
{
    let mut start: usize = 0;
    assert(b@.skip(0) =~= b@);
    while start < b.len() && space(b[start])
        invariant
            start <= b@.len(),
            trim_front(b@) == trim_front(b@.skip(start as int)),
        decreases b@.len() - start,
    {
        assert(b@.skip(start as int).skip(1) =~= b@.skip(start + 1));
        start = start + 1;
    }
    let ghost rest = b@.skip(start as int);
    assert(trim_front(b@) == rest);
    let mut end: usize = b.len();
    assert(b@.subrange(start as int, end as int) =~= rest);
    while end > start && space(b[end - 1])
        invariant
            start <= end <= b@.len(),
            trim_back(rest) == trim_back(b@.subrange(start as int, end as int)),
        decreases end,
    {
        let ghost part = b@.subrange(start as int, end as int);
        assert(part.last() == b@[end - 1]);
        assert(part.drop_last() =~= b@.subrange(start as int, end - 1));
        end = end - 1;
    }
    proof {
        let part = b@.subrange(start as int, end as int);
        if part.len() > 0 {
            assert(part.last() == b@[end - 1]);
        }
    }
    slice_subrange(b, start, end)
}

/// A line of JSON, ready to be decoded into a row, and the text of the malformed record that it
/// stands for.
#[derive(Debug)]
pub struct JsonRow {
    pub line: Vec<u8>,
    pub corrupt: Option<Vec<u8>>,
}

/// A line of JSON and the malformed record that it stands for.
#[verifier::ext_equal]
pub struct RowModel {
    pub line: Seq<u8>,
    pub corrupt: Option<Seq<u8>>,
}

impl View for JsonRow {
    type V = RowModel;

    open spec fn view(&self) -> RowModel {
        RowModel {
            line: self.line@,
            corrupt: match self.corrupt {
                Some(c) => Some(c@),
                None => None,
            },
        }
    }
}

/// What becomes of a line.
pub enum LineClass {
    Row(RowModel),
    Dropped,
    Refused,
}

/// The line that stands for a malformed record: an object without members.
pub open spec fn empty_object_line() -> Seq<u8> {
    seq![0x7bu8, 0x7du8, 0x0au8]
}

/// What becomes of a line which is, or is not, valid JSON. `capture` says whether there is a
/// column for corrupt records.
pub open spec fn line_class(line: Seq<u8>, valid: bool, mode: JsonMode, capture: bool) -> LineClass {
    if valid {
        LineClass::Row(RowModel { line: line.push(0x0a), corrupt: None })
    } else {
        match mode {
            JsonMode::Permissive => LineClass::Row(
                RowModel {
                    line: empty_object_line(),
                    corrupt: if capture {
                        Some(line)
                    } else {
                        None
                    },
                },
            ),
            JsonMode::DropMalformed => LineClass::Dropped,
            JsonMode::FailFast => LineClass::Refused,
        }
    }
}

/// A record that ends a read.
#[derive(Debug)]
pub struct MalformedRecord {
    pub line: Vec<u8>,
}

impl MalformedRecord {
    /// The error in words.
    pub fn message(&self) -> (out: String)
        ensures
            out@ == "Malformed JSON record (FAILFAST mode): "@ + lossy_text(self.line@),
            valid_utf8(self.line@) ==> out@ == "Malformed JSON record (FAILFAST mode): "@
                + decode_utf8(self.line@),
    {
        let record = lossy(self.line.as_slice());
        text::concat("Malformed JSON record (FAILFAST mode): ", record.as_str())
    }
}

/// What becomes of a line which is, or is not, valid JSON: a row, nothing, or the end of the read.
pub fn classify(line: &[u8], valid: bool, mode: JsonMode, capture: bool) -> (result: Result<
    Option<JsonRow>,
    MalformedRecord,
>)
    ensures
        match result {
            Ok(Some(row)) => line_class(line@, valid, mode, capture) == LineClass::Row(row@),
            Ok(None) => line_class(line@, valid, mode, capture) is Dropped,
            Err(e) => line_class(line@, valid, mode, capture) is Refused && e.line@ == line@,
        },
{
    if valid {
        let mut cleaned = bytes::copy(line);
        cleaned.push(0x0a);
        return Ok(Some(JsonRow { line: cleaned, corrupt: None }));
    }
    match mode {
        JsonMode::Permissive => {
            let corrupt = if capture {
                Some(bytes::copy(line))
            } else {
                None
            };
            let mut stand_in: Vec<u8> = Vec::new();
            stand_in.push(0x7b);
            stand_in.push(0x7d);
            stand_in.push(0x0a);
            assert(stand_in@ =~= empty_object_line());
            Ok(Some(JsonRow { line: stand_in, corrupt }))
        },
        JsonMode::DropMalformed => Ok(None),
        JsonMode::FailFast => Err(MalformedRecord { line: bytes::copy(line) }),
    }
}

/// The rows of some lines, each trimmed and those that are empty left out; nothing where one is
/// refused.
pub open spec fn rows_of(lines: Seq<Seq<u8>>, mode: JsonMode, capture: bool) -> Option<Seq<RowModel>>
    decreases lines.len(),
{
    if lines.len() == 0 {
        Some(Seq::empty())
    } else {
        match rows_of(lines.drop_last(), mode, capture) {
            Some(rows) => {
                let line = trimmed_bytes(lines.last());
                if line.len() == 0 {
                    Some(rows)
                } else {
                    match line_class(line, is_json_text(line), mode, capture) {
                        LineClass::Row(row) => Some(rows.push(row)),
                        LineClass::Dropped => Some(rows),
                        LineClass::Refused => None,
                    }
                }
            },
            None => None,
        }
    }
}

/// The rows of some lines up to the first that is refused.
pub open spec fn accepted_rows(lines: Seq<Seq<u8>>, mode: JsonMode, capture: bool) -> Seq<RowModel>
    decreases lines.len(),
{
    match rows_of(lines, mode, capture) {
        Some(rows) => rows,
        None => if lines.len() > 0 {
            accepted_rows(lines.drop_last(), mode, capture)
        } else {
            Seq::empty()
        },
    }
}

/// The lines that end in a newline.
pub open spec fn complete_lines(b: Seq<u8>) -> Seq<Seq<u8>>
    decreases b.len(),
{
    if b.len() == 0 {
        Seq::empty()
    } else if b.last() == 0x0a {
        complete_lines(b.drop_last()).push(last_line(b.drop_last()))
    } else {
        complete_lines(b.drop_last())
    }
}

/// What follows the last newline.
pub open spec fn last_line(b: Seq<u8>) -> Seq<u8>
    decreases b.len(),
{
    if b.len() == 0 || b.last() == 0x0a {
        Seq::empty()
    } else {
        last_line(b.drop_last()).push(b.last())
    }
}

/// The rows cut into full batches of `size`, and those that are left over: a batch is complete once
/// another row comes.
#[verifier::ext_equal]
pub struct Batches {
    pub complete: Seq<Seq<RowModel>>,
    pub current: Seq<RowModel>,
}

/// The batches before the next row: a full one is complete.
pub open spec fn made_ready(b: Batches, size: nat) -> Batches {
    if b.current.len() >= size {
        Batches { complete: b.complete.push(b.current), current: Seq::empty() }
    } else {
        b
    }
}

/// The batches with one more row.
pub open spec fn with_row(b: Batches, row: RowModel, size: nat) -> Batches {
    let ready = made_ready(b, size);
    Batches { current: ready.current.push(row), ..ready }
}

/// The batches with more rows.
pub open spec fn with_rows(b: Batches, rows: Seq<RowModel>, size: nat) -> Batches
    decreases rows.len(),
{
    if rows.len() == 0 {
        b
    } else {
        with_row(with_rows(b, rows.drop_last(), size), rows.last(), size)
    }
}

/// The state of a decoder.
#[verifier::ext_equal]
pub struct DecoderModel {
    /// The bytes of the line that is not complete.
    pub partial: Seq<u8>,
    /// The rows that wait to join the batches: those that an error has kept from it.
    pub queued: Seq<RowModel>,
    pub batches: Batches,
}

/// The lines that some bytes complete; no bytes stand for the end of the stream.
pub open spec fn fed_lines(partial: Seq<u8>, input: Seq<u8>) -> Seq<Seq<u8>> {
    if input.len() == 0 {
        seq![partial + input]
    } else {
        complete_lines(partial + input)
    }
}

/// How a decoder is set up.
#[verifier::ext_equal]
pub struct DecoderSetup {
    pub mode: JsonMode,
    /// Whether malformed records are kept.
    pub capture: bool,
    /// The number of rows of a full batch.
    pub size: nat,
    /// The columns that are decoded.
    pub fields: Seq<(Seq<char>, Seq<char>, bool)>,
    /// The position of the column for corrupt records and the columns of batches, where batches get
    /// that column.
    pub corrupt: Option<(int, Seq<(Seq<char>, Seq<char>, bool)>)>,
}

/// Why bytes do not join the batches.
pub enum Failure {
    /// A record is malformed, and none is let through.
    Malformed,
    /// A record does not fit the columns, or the columns do not fit the schema.
    DoesNotFit,
    /// A number, or a text in place of one, is too long for a decimal column.
    NumberTooLong,
    /// A batch is too large.
    TooLarge,
}

/// Whether rows make a batch: each record fits the columns, and these the schema.
pub open spec fn batch_fits(rows: Seq<RowModel>, setup: DecoderSetup) -> bool {
    json_columns(setup.fields, row_lines(rows)) matches Some(columns) && match setup.corrupt {
        Some((i, output)) => columns_fit(
            output,
            column_types(setup.fields).insert(i, "Utf8"@),
            columns.insert(i, corrupt_cells(row_records(rows))),
        ),
        None => true,
    }
}

/// Whether the records of rows are too many bytes or tokens for one batch, or the texts of the
/// malformed ones too many bytes for one column.
pub open spec fn too_long(rows: Seq<RowModel>, setup: DecoderSetup) -> bool {
    ||| lines_len(row_lines(rows)) > max_lines_len(setup.fields)
    ||| tokens_len(row_lines(rows)) > TOKEN_LIMIT
    ||| setup.corrupt is Some && cells_len(corrupt_cells(row_records(rows))) > i32::MAX
}

/// The batches after rows that make none: the rows are kept where a record does not fit the
/// columns, and are gone where the columns do not fit the schema.
pub open spec fn after_misfit(b: Batches, setup: DecoderSetup) -> Batches {
    if json_columns(setup.fields, row_lines(b.current)) is None {
        b
    } else {
        Batches { current: Seq::empty(), ..b }
    }
}

/// The batches that rows have joined, the rows that are left, and why the first of these did not
/// join them.
#[verifier::ext_equal]
pub struct Fed {
    pub batches: Batches,
    pub rest: Seq<RowModel>,
    pub error: Option<Failure>,
}

/// The batches with one more row, where the batch before it fits, decimals can take its numbers, and
/// its own batch is not too large.
pub open spec fn fed_row(b: Batches, row: RowModel, setup: DecoderSetup) -> Fed {
    if b.current.len() >= setup.size && !batch_fits(b.current, setup) {
        Fed {
            batches: after_misfit(b, setup),
            rest: seq![row],
            error: Some(Failure::DoesNotFit),
        }
    } else if !is_readable(row.line, setup.fields) {
        Fed {
            batches: made_ready(b, setup.size),
            rest: seq![row],
            error: Some(Failure::NumberTooLong),
        }
    } else if too_long(made_ready(b, setup.size).current.push(row), setup) {
        Fed {
            batches: made_ready(b, setup.size),
            rest: seq![row],
            error: Some(Failure::TooLarge),
        }
    } else {
        Fed { batches: with_row(b, row, setup.size), rest: Seq::empty(), error: None }
    }
}

/// The batches with more rows, up to the first that does not join them.
pub open spec fn fed(b: Batches, rows: Seq<RowModel>, setup: DecoderSetup) -> Fed
    decreases rows.len(),
{
    if rows.len() == 0 {
        Fed { batches: b, rest: Seq::empty(), error: None }
    } else {
        let before = fed(b, rows.drop_last(), setup);
        if before.error is Some {
            Fed { rest: before.rest.push(rows.last()), ..before }
        } else {
            fed_row(before.batches, rows.last(), setup)
        }
    }
}

/// The state after some bytes, and why not all of them were taken.
#[verifier::ext_equal]
pub struct Decoded {
    pub state: DecoderModel,
    pub error: Option<Failure>,
}

/// The state after some bytes: the rows that wait and those of the lines that the bytes complete
/// join the batches. Where one of the lines is refused, the rows of the lines before it wait too,
/// and all bytes but those at the end of the stream are kept.
pub open spec fn decoded(state: DecoderModel, input: Seq<u8>, setup: DecoderSetup) -> Decoded {
    let end = input.len() == 0;
    match rows_of(fed_lines(state.partial, input), setup.mode, setup.capture) {
        Some(rows) => {
            let f = fed(state.batches, state.queued + rows, setup);
            let partial = if end {
                Seq::empty()
            } else {
                last_line(state.partial + input)
            };
            Decoded {
                state: DecoderModel { partial, queued: f.rest, batches: f.batches },
                error: f.error,
            }
        },
        None => {
            let partial = if end {
                Seq::empty()
            } else {
                state.partial + input
            };
            let accepted = accepted_rows(
                fed_lines(state.partial, input),
                setup.mode,
                setup.capture,
            );
            Decoded {
                state: DecoderModel { partial, queued: state.queued + accepted, ..state },
                error: Some(Failure::Malformed),
            }
        },
    }
}

/// The state after pieces of a stream, up to the first that is not taken whole.
pub open spec fn decoded_all(
    state: DecoderModel,
    inputs: Seq<Seq<u8>>,
    setup: DecoderSetup,
) -> Decoded
    decreases inputs.len(),
{
    if inputs.len() == 0 {
        Decoded { state, error: None }
    } else {
        let before = decoded_all(state, inputs.drop_last(), setup);
        if before.error is Some {
            before
        } else {
            decoded(before.state, inputs.last(), setup)
        }
    }
}

/// Whether a line, trimmed, is the `k`-th of some lines and the first of them that is refused.
pub open spec fn is_first_refused(
    lines: Seq<Seq<u8>>,
    k: int,
    line: Seq<u8>,
    mode: JsonMode,
    capture: bool,
) -> bool {
    &&& 0 <= k < lines.len()
    &&& rows_of(lines.take(k), mode, capture) is Some
    &&& line == trimmed_bytes(lines[k])
    &&& line.len() > 0
    &&& line_class(line, is_json_text(line), mode, capture) is Refused
}

/// Whether a line, trimmed, is the first that is refused among some lines.
pub open spec fn has_first_refused(
    lines: Seq<Seq<u8>>,
    line: Seq<u8>,
    mode: JsonMode,
    capture: bool,
) -> bool {
    exists|k: int| #[trigger] is_first_refused(lines, k, line, mode, capture)
}

/// The rows as models.
pub open spec fn row_models(rows: Seq<JsonRow>) -> Seq<RowModel> {
    rows.map_values(|r: JsonRow| r@)
}

/// The lines of rows.
pub open spec fn row_lines(rows: Seq<RowModel>) -> Seq<Seq<u8>> {
    rows.map_values(|r: RowModel| r.line)
}

/// The malformed records that rows stand for.
pub open spec fn row_records(rows: Seq<RowModel>) -> Seq<Option<Seq<u8>>> {
    rows.map_values(|r: RowModel| r.corrupt)
}

/// The contents of records.
pub open spec fn records(metas: Seq<Option<Vec<u8>>>) -> Seq<Option<Seq<u8>>> {
    metas.map_values(
        |m: Option<Vec<u8>>|
            match m {
                Some(c) => Some(c@),
                None => None,
            },
    )
}

/// The cell of the column for corrupt records: the text of a malformed record, where it is valid
/// UTF-8.
pub open spec fn corrupt_cell(record: Option<Seq<u8>>) -> Option<Seq<char>> {
    match record {
        Some(c) => if valid_utf8(c) {
            Some(decode_utf8(c))
        } else {
            None
        },
        None => None,
    }
}

/// The column for corrupt records.
pub open spec fn corrupt_cells(records: Seq<Option<Seq<u8>>>) -> Seq<Option<Seq<char>>> {
    records.map_values(|r: Option<Seq<u8>>| corrupt_cell(r))
}

/// Whether a batch holds the columns of some rows, with the column for corrupt records at its
/// position: in the columns that are decoded, the cells of a malformed record are null.
pub open spec fn is_batch_of(batch: Batch, rows: Seq<RowModel>, setup: DecoderSetup) -> bool {
    &&& batch_fits(rows, setup)
    &&& batch_rows(batch) == rows.len()
    &&& json_columns(setup.fields, row_lines(rows)) matches Some(columns) && {
        &&& are_cells_of(columns, setup.fields, row_lines(rows))
        &&& match setup.corrupt {
            Some((i, output)) => {
                &&& batch_fields(batch) == output
                &&& batch_columns(batch) == columns.insert(i, corrupt_cells(row_records(rows)))
            },
            None => batch_fields(batch) == setup.fields && batch_columns(batch) == columns,
        }
    }
}

/// Rows that all join the batches are cut into batches of the size.
pub proof fn law_rows_are_cut_into_batches(b: Batches, rows: Seq<RowModel>, setup: DecoderSetup)
    requires
        fed(b, rows, setup).error is None,
    ensures
        fed(b, rows, setup).batches == with_rows(b, rows, setup.size),
    decreases rows.len(),
{
    if rows.len() > 0 {
        law_rows_are_cut_into_batches(b, rows.drop_last(), setup);
    }
}

proof fn lemma_trimmed_front(b: Seq<u8>)
    ensures
        trim_front(b).len() > 0 ==> !is_space(trim_front(b)[0]),
    decreases b.len(),
{
    if b.len() > 0 && is_space(b[0]) {
        lemma_trimmed_front(b.skip(1));
    }
}

proof fn lemma_trimmed_back(b: Seq<u8>)
    ensures
        trim_back(b).len() <= b.len(),
        trim_back(b).len() > 0 ==> trim_back(b)[0] == b[0],
    decreases b.len(),
{
    if b.len() > 0 && is_space(b.last()) {
        lemma_trimmed_back(b.drop_last());
    }
}

proof fn lemma_row_is_record_line(line: Seq<u8>, mode: JsonMode, capture: bool, row: RowModel)
    requires
        trimmed_bytes(line).len() > 0,
        line_class(trimmed_bytes(line), is_json_text(trimmed_bytes(line)), mode, capture)
            == LineClass::Row(row),
    ensures
        is_record_line(row.line),
{
    let bare = trimmed_bytes(line);
    lemma_trimmed_front(line);
    lemma_trimmed_back(trim_front(line));
    if is_json_text(bare) {
        assert(row.line.drop_last() =~= bare);
        assert(row.line[0] == bare[0]);
    }
}

/// What ends a read.
#[derive(Debug)]
pub enum JsonError {
    /// A malformed record, where none is let through.
    Malformed(MalformedRecord),
    /// A record that does not fit the columns, or columns that do not fit the schema.
    Arrow(ArrowError),
    /// A number, or a text in place of one, that is too long for a decimal column.
    NumberTooLong,
    /// A batch that is too large for memory, or for the offsets into its text.
    TooLarge,
    /// A type that no column can have.
    Unsound,
}

/// The state of a decoder that has taken nothing.
pub open spec fn new_decoder() -> DecoderModel {
    DecoderModel {
        partial: Seq::empty(),
        queued: Seq::empty(),
        batches: Batches { complete: Seq::empty(), current: Seq::empty() },
    }
}

/// Whether there is a decoder for columns, with room for the tokens of a batch.
pub open spec fn can_decode(
    fields: Seq<(Seq<char>, Seq<char>, bool)>,
    batch_size: usize,
) -> bool {
    &&& has_room(batch_size, fields_width(fields))
    &&& are_sound(fields)
    &&& reads_columns(fields)
}

/// Whether an error says why there is no decoder for columns.
pub open spec fn is_setup_error(
    e: JsonError,
    fields: Seq<(Seq<char>, Seq<char>, bool)>,
    batch_size: usize,
) -> bool {
    match e {
        JsonError::TooLarge => !has_room(batch_size, fields_width(fields)),
        JsonError::Unsound => has_room(batch_size, fields_width(fields)) && !are_sound(fields),
        JsonError::Arrow(_) => {
            &&& has_room(batch_size, fields_width(fields))
            &&& are_sound(fields)
            &&& !reads_columns(fields)
        },
        JsonError::Malformed(_) => false,
        JsonError::NumberTooLong => false,
    }
}

/// How many cells of a field of some kind there are for each cell of the field around it, and what
/// is in it.
fn spread_of(around: u64, kind: FieldKind) -> (own: u64)
    requires
        1 <= around <= REACH_LIMIT,
    ensures
        own == spread(around as nat, kind),
        1 <= own <= REACH_LIMIT,
{
    let size: i32 = match kind {
        FieldKind::Bytes { width } => width,
        FieldKind::FixedList { size } => size,
        _ => 1,
    };
    if size <= 1 {
        return around;
    }
    assert(around <= around * size <= 0x0200_0000_0000_0000 * 0x8000_0000) by (nonlinear_arith)
        requires
            1 < size < 0x8000_0000,
            0 <= around <= 0x0200_0000_0000_0000,
    ;
    let product: u128 = around as u128 * size as u128;
    if product > REACH_LIMIT as u128 {
        REACH_LIMIT
    } else {
        product as u64
    }
}

/// The most cells that a column has for each token of a batch, with those before it.
fn reach_with(kinds: &[FieldKind], start: u64) -> (most: u64)
    requires
        1 <= start <= REACH_LIMIT,
    ensures
        most == reach_of(kinds@, start as nat).most,
        1 <= most <= REACH_LIMIT,
{
    let mut next: Vec<u64> = Vec::new();
    let mut most: u64 = start;
    let mut i: usize = 0;
    assert(kinds@.take(0) =~= Seq::<FieldKind>::empty());
    assert(reach_of(kinds@.take(0), start as nat).next =~= counts(next@));
    while i < kinds.len()
        invariant
            i <= kinds@.len(),
            1 <= start <= REACH_LIMIT,
            1 <= most <= REACH_LIMIT,
            forall|k: int| 0 <= k < next@.len() ==> 1 <= #[trigger] next@[k] <= REACH_LIMIT,
            reach_of(kinds@.take(i as int), start as nat) == (Reach {
                next: counts(next@),
                most: most as nat,
            }),
        decreases kinds@.len() - i,
    {
        let ghost before = next@;
        proof {
            assert(kinds@.take(i + 1).drop_last() =~= kinds@.take(i as int));
            assert(kinds@.take(i + 1).last() == kinds@[i as int]);
            assert(counts(before).len() == before.len());
        }
        let around: u64 = match next.pop() {
            Some(n) => n,
            None => 1,
        };
        let kind = kinds[i];
        let ghost rest = next@;
        proof {
            if before.len() > 0 {
                assert(around == before.last());
                assert(around == before[before.len() - 1]);
                assert(rest =~= before.drop_last());
                assert(counts(rest) =~= counts(before).drop_last());
                assert(counts(before).last() == around);
            }
        }
        let own: u64 = spread_of(around, kind);
        let passed: u64 = match kind {
            FieldKind::List => 1,
            FieldKind::Entries => 1,
            _ => own,
        };
        let fields: usize = match kind {
            FieldKind::FixedList { .. } => 1,
            FieldKind::Runs { .. } => 1,
            FieldKind::Struct { fields } => fields,
            FieldKind::List => 1,
            FieldKind::Entries => 1,
            _ => 0,
        };
        let mut k: usize = 0;
        assert(rest + Seq::new(0, |j: int| passed) =~= rest);
        while k < fields
            invariant
                k <= fields,
                1 <= passed <= REACH_LIMIT,
                next@ == rest + Seq::new(k as nat, |j: int| passed),
                forall|j: int| 0 <= j < next@.len() ==> 1 <= #[trigger] next@[j] <= REACH_LIMIT,
            decreases fields - k,
        {
            next.push(passed);
            k = k + 1;
            assert(next@ =~= rest + Seq::new(k as nat, |j: int| passed));
        }
        if own > most {
            most = own;
        }
        proof {
            let now = reached(
                Reach { next: counts(before), most: reach_of(kinds@.take(i as int), start as nat).most },
                kind,
            );
            assert(now.next =~= counts(next@));
            assert(reach_of(kinds@.take(i + 1), start as nat) =~= (Reach {
                next: counts(next@),
                most: most as nat,
            }));
        }
        i = i + 1;
    }
    assert(kinds@.take(i as int) =~= kinds@);
    most
}

/// Numbers as naturals.
pub open spec fn counts(numbers: Seq<u64>) -> Seq<nat> {
    numbers.map_values(|n: u64| n as nat)
}

/// Whether the kinds are those that columns can have.
fn sound(kinds: &[FieldKind]) -> (all: bool)
    ensures
        all <==> forall|k: int| 0 <= k < kinds@.len() ==> is_sound(#[trigger] kinds@[k]),
{
    let mut i: usize = 0;
    while i < kinds.len()
        invariant
            i <= kinds@.len(),
            forall|k: int| 0 <= k < i ==> is_sound(#[trigger] kinds@[k]),
        decreases kinds@.len() - i,
    {
        let fine = match kinds[i] {
            FieldKind::Bytes { width } => width >= 0,
            FieldKind::FixedList { size } => size >= 0,
            FieldKind::Runs { valid } => valid,
            _ => true,
        };
        if !fine {
            assert(!is_sound(kinds@[i as int]));
            return false;
        }
        i = i + 1;
    }
    true
}

/// The most cells that a column has for each token of a batch; nothing where no column can have one
/// of the types.
fn reach(schema: &Schema) -> (most: Option<u64>)
    ensures
        match most {
            Some(n) => {
                &&& are_sound(schema_fields(*schema))
                &&& n == fields_reach(schema_fields(*schema))
                &&& 1 <= n <= REACH_LIMIT
            },
            None => !are_sound(schema_fields(*schema)),
        },
{
    let mut most: u64 = 1;
    let count = record_batch::column_count(schema);
    let ghost fields = schema_fields(*schema);
    let mut i: usize = 0;
    assert(fields.take(0) =~= Seq::<(Seq<char>, Seq<char>, bool)>::empty());
    while i < count
        invariant
            i <= count == fields.len(),
            fields == schema_fields(*schema),
            1 <= most <= REACH_LIMIT,
            most == fields_reach(fields.take(i as int)),
            forall|c: int, k: int|
                0 <= c < i && 0 <= k < type_kinds(fields[c].1).len() ==> is_sound(
                    #[trigger] type_kinds(fields[c].1)[k],
                ),
        decreases count - i,
    {
        proof {
            assert(fields.take(i + 1).drop_last() =~= fields.take(i as int));
            assert(fields.take(i + 1).last() == fields[i as int]);
        }
        let kinds = record_batch::column_kinds(schema, i);
        if !sound(kinds.as_slice()) {
            proof {
                let k = choose|k: int| 0 <= k < kinds@.len() && !is_sound(#[trigger] kinds@[k]);
                assert(!is_sound(type_kinds(fields[i as int].1)[k]));
            }
            return None;
        }
        most = reach_with(kinds.as_slice(), most);
        i = i + 1;
    }
    assert(fields.take(i as int) =~= fields);
    Some(most)
}

/// The most bytes that the records of a batch have.
fn line_limit(width: usize, reach: u64, views: bool) -> (limit: usize)
    requires
        1 <= reach <= REACH_LIMIT,
    ensures
        forall|fields: Seq<(Seq<char>, Seq<char>, bool)>|
            fields_width(fields) == width && fields_reach(fields) == reach && has_views(fields)
                == views ==> #[trigger] max_lines_len(fields) == limit,
{
    let cell: u128 = 64 * (width as u128 + 1);
    assert(64 <= cell <= cell * reach <= 64 * 0x1_0000_0000_0000_0000 * 0x0200_0000_0000_0000)
        by (nonlinear_arith)
        requires
            64 <= cell <= 64 * 0x1_0000_0000_0000_0000,
            1 <= reach <= 0x0200_0000_0000_0000,
    ;
    let most: u128 = isize::MAX as u128 / (cell * reach as u128);
    assert(most <= isize::MAX) by (nonlinear_arith)
        requires
            most == isize::MAX as int / (cell * reach),
            64 <= cell * reach,
    ;
    if views && most >= u32::MAX as u128 {
        0xffff_fffe
    } else {
        most as usize
    }
}

/// Whether some column, or a field inside one, holds texts or byte strings behind 32-bit positions.
fn views(schema: &Schema) -> (some: bool)
    ensures
        some == has_views(schema_fields(*schema)),
{
    let count = record_batch::column_count(schema);
    let ghost fields = schema_fields(*schema);
    let mut i: usize = 0;
    while i < count
        invariant
            i <= count == fields.len(),
            fields == schema_fields(*schema),
            forall|c: int, k: int|
                0 <= c < i && 0 <= k < type_kinds(fields[c].1).len() ==> (
                #[trigger] type_kinds(fields[c].1)[k]) !is View,
        decreases count - i,
    {
        let kinds = record_batch::column_kinds(schema, i);
        let mut k: usize = 0;
        while k < kinds.len()
            invariant
                i < count == fields.len(),
                k <= kinds@.len(),
                fields == schema_fields(*schema),
                kinds@ == type_kinds(fields[i as int].1),
                forall|j: int| 0 <= j < k ==> (#[trigger] kinds@[j]) !is View,
            decreases kinds@.len() - k,
        {
            if let FieldKind::View = kinds[k] {
                assert(type_kinds(fields[i as int].1)[k as int] is View);
                return true;
            }
            k = k + 1;
        }
        i = i + 1;
    }
    false
}

/// Cuts a stream of bytes into lines of JSON, and decodes these into batches.
pub struct PermissiveJsonDecoder {
    inner: Decoder,
    buf: Vec<u8>,
    queue: Vec<JsonRow>,
    mode: JsonMode,
    batch_size: usize,
    corrupt_col_idx: Option<usize>,
    output_schema: Option<Arc<Schema>>,
    line_limit: usize,
    decimals: Vec<DecimalField>,
    pending_rows: usize,
    pending_len: usize,
    pending_tokens: usize,
    pending_texts: Vec<Option<String>>,
    pending_text_len: usize,
    batch_queue: Vec<Batch>,
    complete: Ghost<Seq<Seq<RowModel>>>,
    current: Ghost<Seq<RowModel>>,
}

impl View for PermissiveJsonDecoder {
    type V = DecoderModel;

    closed spec fn view(&self) -> DecoderModel {
        DecoderModel {
            partial: self.buf@,
            queued: row_models(self.queue@),
            batches: Batches { complete: self.complete@, current: self.current@ },
        }
    }
}

impl PermissiveJsonDecoder {
    /// How the decoder is set up.
    pub closed spec fn setup(&self) -> DecoderSetup {
        DecoderSetup {
            mode: self.mode,
            capture: self.corrupt_col_idx is Some,
            size: decoder_limit(self.inner),
            fields: decoder_fields(self.inner),
            corrupt: match (self.corrupt_col_idx, self.output_schema) {
                (Some(i), Some(schema)) => Some((i as int, schema_fields(*schema))),
                _ => None,
            },
        }
    }

    /// What holds of every decoder.
    pub closed spec fn ready(&self) -> bool {
        let setup = self.setup();
        &&& setup.size == self.batch_size > 0
        &&& are_sound(setup.fields)
        &&& max_lines_len(setup.fields) == self.line_limit
        &&& forall|k: int|
            0 <= k < self.queue@.len() ==> is_record_line((#[trigger] self.queue@[k]).line@)
        &&& decoder_lines(self.inner) == row_lines(self.current@)
        &&& self.pending_rows == self.current@.len() <= self.batch_size
        &&& decimal_models(self.decimals@) == fields_decimals(setup.fields)
        &&& forall|k: int|
            0 <= k < self.current@.len() ==> is_readable(
                (#[trigger] self.current@[k]).line,
                setup.fields,
            )
        &&& self.pending_len == lines_len(row_lines(self.current@))
        &&& self.pending_tokens == tokens_len(row_lines(self.current@))
        &&& !too_long(self.current@, setup)
        &&& setup.corrupt matches Some((i, _)) ==> {
            &&& 0 <= i <= setup.fields.len()
            &&& cells(self.pending_texts@) == corrupt_cells(row_records(self.current@))
            &&& self.pending_text_len == cells_len(corrupt_cells(row_records(self.current@)))
        }
        &&& self.batch_queue@.len() == self.complete@.len()
        &&& forall|i: int|
            0 <= i < self.complete@.len() ==> is_batch_of(
                #[trigger] self.batch_queue@[i],
                self.complete@[i],
                setup,
            )
    }

    /// A decoder for some columns; `corrupt_col_idx` is the position of the column for corrupt
    /// records among those of `output_schema`.
    pub fn new(
        inner_schema: Arc<Schema>,
        batch_size: usize,
        mode: JsonMode,
        corrupt_col_idx: Option<usize>,
        output_schema: Option<Arc<Schema>>,
    ) -> (result: Result<Self, JsonError>)
        requires
            batch_size > 0,
            output_schema is Some && corrupt_col_idx is Some ==> corrupt_col_idx->0
                <= schema_fields(*inner_schema).len(),
        ensures
            match result {
                Ok(decoder) => {
                    &&& can_decode(schema_fields(*inner_schema), batch_size)
                    &&& decoder.ready()
                    &&& decoder.setup() == (DecoderSetup {
                        mode,
                        capture: corrupt_col_idx is Some,
                        size: batch_size as nat,
                        fields: schema_fields(*inner_schema),
                        corrupt: match (corrupt_col_idx, output_schema) {
                            (Some(i), Some(schema)) => Some((i as int, schema_fields(*schema))),
                            _ => None,
                        },
                    })
                    &&& decoder@ == new_decoder()
                },
                Err(e) => is_setup_error(e, schema_fields(*inner_schema), batch_size),
            },
    {
        let width = record_batch::width(&inner_schema);
        if !room(batch_size, width) {
            return Err(JsonError::TooLarge);
        }
        let reach = match reach(&inner_schema) {
            Some(n) => n,
            None => {
                return Err(JsonError::Unsound);
            },
        };
        let line_limit = line_limit(width, reach, views(&inner_schema));
        let decimals = schema_decimals(&inner_schema);
        let inner = match record_batch::build_decoder(inner_schema, batch_size) {
            Ok(inner) => inner,
            Err(e) => {
                return Err(JsonError::Arrow(e));
            },
        };
        let decoder = PermissiveJsonDecoder {
            inner,
            buf: Vec::new(),
            queue: Vec::new(),
            mode,
            batch_size,
            corrupt_col_idx,
            output_schema,
            line_limit,
            decimals,
            pending_rows: 0,
            pending_len: 0,
            pending_tokens: 0,
            pending_texts: Vec::new(),
            pending_text_len: 0,
            batch_queue: Vec::new(),
            complete: Ghost(Seq::empty()),
            current: Ghost(Seq::empty()),
        };
        proof {
            assert(row_models(decoder.queue@) =~= Seq::<RowModel>::empty());
            assert(row_lines(decoder.current@) =~= Seq::<Seq<u8>>::empty());
            assert(corrupt_cells(row_records(decoder.current@)) =~= Seq::empty());
            assert(cells(decoder.pending_texts@) =~= Seq::empty());
        }
        Ok(decoder)
    }

    /// The batch of the rows that the inner decoder holds, with the column for corrupt records.
    fn finish_batch(&mut self) -> (result: Result<Option<Batch>, JsonError>)
        requires
            old(self).ready(),
        ensures
            final(self).ready(),
            final(self).setup() == old(self).setup(),
            final(self).batch_queue == old(self).batch_queue,
            final(self).queue == old(self).queue,
            final(self)@.partial == old(self)@.partial,
            ({
                let b = old(self)@.batches;
                let setup = old(self).setup();
                if b.current.len() == 0 {
                    result matches Ok(None) && final(self)@.batches == b
                } else if batch_fits(b.current, setup) {
                    &&& result matches Ok(Some(batch)) && is_batch_of(batch, b.current, setup)
                    &&& final(self)@.batches == (Batches { current: Seq::empty(), ..b })
                } else {
                    &&& result matches Err(JsonError::Arrow(_))
                    &&& final(self)@.batches == after_misfit(b, setup)
                }
            }),
    {
        let ghost rows = self.current@;
        let ghost setup = self.setup();
        proof {
            assert(row_lines(rows).len() == rows.len());
            assert forall|k: int| 0 <= k < row_lines(rows).len() implies is_readable(
                #[trigger] row_lines(rows)[k],
                setup.fields,
            ) by {
                assert(is_readable(rows[k].line, setup.fields));
            }
        }
        let batch = match record_batch::flush_decoder(&mut self.inner) {
            Ok(Some(batch)) => batch,
            Ok(None) => {
                assert(decoder_lines(self.inner) =~= row_lines(self.current@));
                return Ok(None);
            },
            Err(e) => {
                return Err(JsonError::Arrow(e));
            },
        };
        self.pending_rows = 0;
        self.pending_len = 0;
        self.pending_tokens = 0;
        self.pending_text_len = 0;
        let mut texts: Vec<Option<String>> = Vec::new();
        core::mem::swap(&mut texts, &mut self.pending_texts);
        proof {
            self.current = Ghost(Seq::empty());
            assert(row_lines(self.current@) =~= Seq::<Seq<u8>>::empty());
            assert(corrupt_cells(row_records(self.current@)) =~= Seq::empty());
            assert(cells(self.pending_texts@) =~= Seq::empty());
            assert(self.setup() =~= setup);
        }
        let batch = match (&self.corrupt_col_idx, &self.output_schema) {
            (Some(index), Some(schema)) => {
                proof {
                    assert(cells(texts@).len() == texts@.len());
                    assert(corrupt_cells(row_records(rows)).len() == rows.len());
                }
                match record_batch::with_text_column(
                    record_batch::share(schema),
                    batch,
                    *index,
                    texts,
                ) {
                    Ok(batch) => batch,
                    Err(e) => {
                        return Err(JsonError::Arrow(e));
                    },
                }
            },
            _ => batch,
        };
        Ok(Some(batch))
    }

    /// Hands a row to the inner decoder; where its batch is full, that batch is complete.
    fn feed(&mut self, row: &JsonRow) -> (result: Result<(), JsonError>)
        requires
            old(self).ready(),
            is_record_line(row.line@),
        ensures
            final(self).ready(),
            final(self).setup() == old(self).setup(),
            final(self).queue == old(self).queue,
            final(self)@.partial == old(self)@.partial,
            ({
                let run = fed_row(old(self)@.batches, row@, old(self).setup());
                &&& final(self)@.batches == run.batches
                &&& match result {
                    Ok(_) => run.error is None,
                    Err(JsonError::NumberTooLong) => run.error == Some(Failure::NumberTooLong),
                    Err(JsonError::TooLarge) => run.error == Some(Failure::TooLarge),
                    Err(JsonError::Arrow(_)) => run.error == Some(Failure::DoesNotFit),
                    Err(_) => false,
                }
            }),
    {
        let ghost b = self@.batches;
        let ghost setup = self.setup();
        if self.pending_rows >= self.batch_size {
            let batch = match self.finish_batch() {
                Ok(batch) => batch,
                Err(e) => {
                    return Err(e);
                },
            };
            if let Some(batch) = batch {
                self.batch_queue.push(batch);
                proof {
                    self.complete = Ghost(self.complete@.push(old(self).current@));
                    assert(self.setup() =~= setup);
                    assert forall|i: int| 0 <= i < self.complete@.len() implies is_batch_of(
                        #[trigger] self.batch_queue@[i],
                        self.complete@[i],
                        setup,
                    ) by {
                        if i < b.complete.len() {
                            assert(self.batch_queue@[i] == old(self).batch_queue@[i]);
                        }
                    }
                }
            }
        }
        let ghost before = self.current@;
        let ghost next = before.push(row@);
        proof {
            assert(self@.batches =~= made_ready(b, setup.size));
            assert(row_lines(next) =~= row_lines(before).push(row@.line));
            assert(row_lines(next).drop_last() =~= row_lines(before));
            assert(corrupt_cells(row_records(next)) =~= corrupt_cells(row_records(before)).push(
                corrupt_cell(row@.corrupt),
            ));
            assert(corrupt_cells(row_records(next)).drop_last() =~= corrupt_cells(
                row_records(before),
            ));
        }
        if !check_record(row.line.as_slice(), self.decimals.as_slice()) {
            return Err(JsonError::NumberTooLong);
        }
        if row.line.len() > self.line_limit - self.pending_len {
            return Err(JsonError::TooLarge);
        }
        let tokens: usize = count_tokens(row.line.as_slice());
        if tokens > TOKEN_LIMIT as usize - self.pending_tokens {
            return Err(JsonError::TooLarge);
        }
        if self.corrupt_col_idx.is_some() && self.output_schema.is_some() {
            let text = match &row.corrupt {
                Some(c) => text_from_utf8(bytes::copy(c.as_slice())),
                None => None,
            };
            let len: usize = match &text {
                Some(t) => t.as_str().as_bytes().len(),
                None => 0,
            };
            let limit: usize = 0x7fff_ffff;
            if len > limit - self.pending_text_len {
                return Err(JsonError::TooLarge);
            }
            let ghost texts = self.pending_texts@;
            self.pending_texts.push(text);
            self.pending_text_len = self.pending_text_len + len;
            assert(cells(self.pending_texts@) =~= cells(texts).push(corrupt_cell(row@.corrupt)));
        }
        assert(row_lines(before).len() == before.len());
        match record_batch::decode_line(&mut self.inner, row.line.as_slice()) {
            Ok(_) => {},
            Err(e) => {
                return Err(JsonError::Arrow(e));
            },
        }
        self.pending_rows = self.pending_rows + 1;
        self.pending_len = self.pending_len + row.line.len();
        self.pending_tokens = self.pending_tokens + tokens;
        proof {
            self.current = Ghost(next);
            assert(self.setup() =~= setup);
            assert(self@.batches =~= with_row(b, row@, setup.size));
        }
        Ok(())
    }

    /// Hands the rows that wait to the inner decoder, up to the first that does not join a batch.
    fn drain_queue(&mut self) -> (result: Result<(), JsonError>)
        requires
            old(self).ready(),
        ensures
            final(self).ready(),
            final(self).setup() == old(self).setup(),
            final(self)@.partial == old(self)@.partial,
            ({
                let run = fed(old(self)@.batches, old(self)@.queued, old(self).setup());
                &&& final(self)@.batches == run.batches
                &&& final(self)@.queued == run.rest
                &&& match result {
                    Ok(_) => run.error is None,
                    Err(JsonError::NumberTooLong) => run.error == Some(Failure::NumberTooLong),
                    Err(JsonError::TooLarge) => run.error == Some(Failure::TooLarge),
                    Err(JsonError::Arrow(_)) => run.error == Some(Failure::DoesNotFit),
                    Err(_) => false,
                }
            }),
    {
        let ghost all = self@.queued;
        let ghost b = self@.batches;
        let ghost setup = self.setup();
        let mut rows: Vec<JsonRow> = Vec::new();
        core::mem::swap(&mut rows, &mut self.queue);
        let mut i: usize = 0;
        proof {
            assert(self.setup() =~= setup);
            assert(all.take(0) =~= Seq::<RowModel>::empty());
            assert(row_models(self.queue@) =~= Seq::<RowModel>::empty());
        }
        while i < rows.len()
            invariant
                i <= rows@.len(),
                all == row_models(rows@),
                all == old(self)@.queued,
                b == old(self)@.batches,
                forall|k: int| 0 <= k < rows@.len() ==> is_record_line((#[trigger] rows@[k]).line@),
                self.ready(),
                self.setup() == setup,
                setup == old(self).setup(),
                self.queue@.len() == 0,
                self@.partial == old(self)@.partial,
                fed(b, all.take(i as int), setup) == (Fed {
                    batches: self@.batches,
                    rest: Seq::empty(),
                    error: None,
                }),
            decreases rows@.len() - i,
        {
            let ghost row = rows@[i as int]@;
            proof {
                assert(all.take(i + 1).drop_last() =~= all.take(i as int));
                assert(all.take(i + 1).last() == row);
            }
            match self.feed(&rows[i]) {
                Ok(_) => {},
                Err(e) => {
                    let ghost fed_so_far = self@.batches;
                    let rest = rows.split_off(i);
                    self.queue = rest;
                    proof {
                        let x = all.take(i + 1);
                        let y = all.skip(i + 1);
                        assert(x + y =~= all);
                        lemma_fed_append(b, x, y, setup);
                        assert(fed(b, x, setup).rest =~= seq![row]);
                        assert(row_models(rest@) =~= seq![row] + y);
                        assert(self.setup() =~= setup);
                        assert(self@.batches == fed_so_far);
                    }
                    return Err(e);
                },
            }
            i = i + 1;
        }
        assert(all.take(i as int) =~= all);
        assert(row_models(self.queue@) =~= Seq::<RowModel>::empty());
        Ok(())
    }

    /// Takes more bytes of the stream, of which the rows of complete lines join the batches; no
    /// bytes stand for the end of the stream, which completes the last line. A record that is
    /// refused is the error: then no row joins the batches, and the rows before it wait for the next
    /// call, as do those that another error keeps from the batches.
    pub fn decode(&mut self, input: &[u8]) -> (result: Result<usize, JsonError>)
        requires
            old(self).ready(),
        ensures
            final(self).ready(),
            final(self).setup() == old(self).setup(),
            ({
                let run = decoded(old(self)@, input@, old(self).setup());
                &&& final(self)@ == run.state
                &&& match result {
                    Ok(n) => n == input@.len() && run.error is None,
                    Err(JsonError::Malformed(e)) => {
                        &&& run.error == Some(Failure::Malformed)
                        &&& has_first_refused(
                            fed_lines(old(self)@.partial, input@),
                            e.line@,
                            old(self).setup().mode,
                            old(self).setup().capture,
                        )
                    },
                    Err(JsonError::NumberTooLong) => run.error == Some(Failure::NumberTooLong),
                    Err(JsonError::TooLarge) => run.error == Some(Failure::TooLarge),
                    Err(JsonError::Arrow(_)) => run.error == Some(Failure::DoesNotFit),
                    Err(JsonError::Unsound) => false,
                }
            }),
    {
        let ghost setup = self.setup();
        let capture = self.corrupt_col_idx.is_some();
        let mut all: Vec<u8> = Vec::new();
        core::mem::swap(&mut all, &mut self.buf);
        bytes::append(&mut all, input);
        if input.len() == 0 {
            let ghost lines = fed_lines(old(self)@.partial, input@);
            proof {
                assert(lines == seq![all@]);
                assert(lines.drop_last() =~= Seq::<Seq<u8>>::empty());
                reveal_with_fuel(rows_of, 2);
            }
            let mut rows: Vec<JsonRow> = Vec::new();
            assert(row_models(rows@) =~= Seq::<RowModel>::empty());
            let line = trim_ascii(all.as_slice());
            if line.len() > 0 {
                match classify(line, is_json(line), self.mode, capture) {
                    Ok(Some(row)) => {
                        let ghost view = row@;
                        proof {
                            lemma_row_is_record_line(all@, self.mode, capture, view);
                        }
                        rows.push(row);
                        assert(row_models(rows@) =~= Seq::<RowModel>::empty().push(view));
                    },
                    Ok(None) => {},
                    Err(e) => {
                        proof {
                            assert(lines.take(0) =~= Seq::<Seq<u8>>::empty());
                            assert(is_first_refused(lines, 0, e.line@, self.mode, capture));
                            reveal_with_fuel(accepted_rows, 2);
                            assert(self.setup() =~= setup);
                            assert(self@.queued =~= old(self)@.queued + Seq::<RowModel>::empty());
                        }
                        return Err(JsonError::Malformed(e));
                    },
                }
            }
            let ghost new = row_models(rows@);
            self.queue.append(&mut rows);
            proof {
                assert(row_models(self.queue@) =~= old(self)@.queued + new);
                assert(self.setup() =~= setup);
            }
            return match self.drain_queue() {
                Ok(_) => Ok(0),
                Err(e) => Err(e),
            };
        }
        let (mut rows, end) = complete_rows(all.as_slice(), self.mode, capture);
        let ghost new = row_models(rows@);
        self.queue.append(&mut rows);
        assert(row_models(self.queue@) =~= old(self)@.queued + new);
        match end {
            Ok(start) => {
                self.buf = bytes::copy_range(all.as_slice(), start, all.len());
                assert(self.setup() =~= setup);
                match self.drain_queue() {
                    Ok(_) => Ok(input.len()),
                    Err(e) => Err(e),
                }
            },
            Err(e) => {
                self.buf = all;
                assert(self.setup() =~= setup);
                Err(JsonError::Malformed(e))
            },
        }
    }

    /// The next batch: the oldest complete one, else the rows collected so far, if any. It fails
    /// where these do not fit the columns, or the columns not the schema.
    pub fn flush(&mut self) -> (result: Result<Option<Batch>, JsonError>)
        requires
            old(self).ready(),
        ensures
            final(self).ready(),
            final(self).setup() == old(self).setup(),
            final(self)@.partial == old(self)@.partial,
            final(self)@.queued == old(self)@.queued,
            ({
                let b = old(self)@.batches;
                let setup = old(self).setup();
                if b.complete.len() > 0 {
                    &&& result matches Ok(Some(batch)) && is_batch_of(batch, b.complete[0], setup)
                    &&& final(self)@.batches == (Batches { complete: b.complete.skip(1), ..b })
                } else if b.current.len() == 0 {
                    result matches Ok(None) && final(self)@.batches == b
                } else if batch_fits(b.current, setup) {
                    &&& result matches Ok(Some(batch)) && is_batch_of(batch, b.current, setup)
                    &&& final(self)@.batches == (Batches { current: Seq::empty(), ..b })
                } else {
                    &&& result matches Err(JsonError::Arrow(_))
                    &&& final(self)@.batches == after_misfit(b, setup)
                }
            }),
    {
        if self.batch_queue.len() > 0 {
            let batch = self.batch_queue.remove(0);
            proof {
                let b = old(self)@.batches;
                self.complete = Ghost(b.complete.skip(1));
                assert forall|i: int| 0 <= i < self.complete@.len() implies is_batch_of(
                    #[trigger] self.batch_queue@[i],
                    self.complete@[i],
                    self.setup(),
                ) by {
                    assert(self.batch_queue@[i] == old(self).batch_queue@[i + 1]);
                }
                assert(is_batch_of(old(self).batch_queue@[0], b.complete[0], self.setup()));
            }
            return Ok(Some(batch));
        }
        self.finish_batch()
    }

    /// Whether a complete batch waits.
    pub fn can_flush_early(&self) -> (waits: bool)
        requires
            self.ready(),
        ensures
            waits == (self@.batches.complete.len() > 0),
    {
        self.batch_queue.len() > 0
    }
}

/// Whether there is room for the tokens of a batch.
fn room(batch_size: usize, width: usize) -> (fits: bool)
    requires
        batch_size > 0,
    ensures
        fits == has_room(batch_size, width as nat),
{
    let tokens = match width.checked_mul(2) {
        Some(n) => n.checked_add(2),
        None => None,
    };
    let tokens = match tokens {
        Some(n) => n,
        None => {
            assert(batch_size * (2 * width + 2) >= 2 * width + 2) by (nonlinear_arith)
                requires
                    batch_size > 0,
            ;
            return false;
        },
    };
    match batch_size.checked_mul(tokens) {
        Some(n) => (n as u128 + 1) * 8 <= isize::MAX as u128,
        None => false,
    }
}

/// The rows of the complete lines of some bytes up to the first that is refused; where none is, the
/// position behind these lines.
fn complete_rows(all: &[u8], mode: JsonMode, capture: bool) -> (result: (
    Vec<JsonRow>,
    Result<usize, MalformedRecord>,
))
    ensures
        row_models(result.0@) == accepted_rows(complete_lines(all@), mode, capture),
        forall|k: int|
            0 <= k < result.0@.len() ==> is_record_line((#[trigger] result.0@[k]).line@),
        match result.1 {
            Ok(start) => {
                &&& rows_of(complete_lines(all@), mode, capture) == Some(row_models(result.0@))
                &&& start <= all@.len()
                &&& last_line(all@) == all@.subrange(start as int, all@.len() as int)
            },
            Err(e) => {
                &&& rows_of(complete_lines(all@), mode, capture) is None
                &&& has_first_refused(complete_lines(all@), e.line@, mode, capture)
            },
        },
{
    let mut rows: Vec<JsonRow> = Vec::new();
    let mut start: usize = 0;
    let mut i: usize = 0;
    proof {
        assert(all@.take(0) =~= Seq::<u8>::empty());
        assert(complete_lines(all@.take(0)) =~= Seq::<Seq<u8>>::empty());
        assert(all@.subrange(0, 0) =~= Seq::<u8>::empty());
        assert(last_line(all@.take(0)) =~= Seq::<u8>::empty());
        assert(row_models(rows@) =~= Seq::<RowModel>::empty());
    }
    while i < all.len()
        invariant
            start <= i <= all@.len(),
            last_line(all@.take(i as int)) == all@.subrange(start as int, i as int),
            rows_of(complete_lines(all@.take(i as int)), mode, capture) == Some(row_models(rows@)),
            forall|k: int| 0 <= k < rows@.len() ==> is_record_line((#[trigger] rows@[k]).line@),
        decreases all@.len() - i,
    {
        let ghost taken = all@.take(i as int);
        let ghost next = all@.take(i + 1);
        let ghost before = row_models(rows@);
        proof {
            assert(next.drop_last() =~= taken);
            assert(next.last() == all@[i as int]);
        }
        if all[i] == 0x0a {
            let ghost lines = complete_lines(taken);
            proof {
                assert(complete_lines(next) == lines.push(last_line(taken)));
                assert(lines.push(last_line(taken)).drop_last() =~= lines);
            }
            let line = trim_ascii(slice_subrange(all, start, i));
            if line.len() > 0 {
                match classify(line, is_json(line), mode, capture) {
                    Ok(Some(row)) => {
                        let ghost view = row@;
                        proof {
                            lemma_row_is_record_line(last_line(taken), mode, capture, view);
                        }
                        rows.push(row);
                        assert(row_models(rows@) =~= before.push(view));
                    },
                    Ok(None) => {},
                    Err(e) => {
                        proof {
                            lemma_complete_lines_extend(all@, i as int);
                            lemma_complete_lines_extend(all@, i + 1);
                            let whole = complete_lines(all@);
                            lemma_accepted(whole, lines.len() as int, mode, capture);
                            assert(whole.take(lines.len() as int + 1)[lines.len() as int]
                                == last_line(taken));
                            assert(is_first_refused(
                                whole,
                                lines.len() as int,
                                e.line@,
                                mode,
                                capture,
                            ));
                        }
                        return (rows, Err(e));
                    },
                }
            }
            start = i + 1;
            assert(all@.subrange(start as int, i + 1) =~= Seq::<u8>::empty());
        } else {
            assert(all@.subrange(start as int, i + 1) =~= all@.subrange(
                start as int,
                i as int,
            ).push(all@[i as int]));
        }
        i = i + 1;
    }
    assert(all@.take(i as int) =~= all@);
    (rows, Ok(start))
}

proof fn lemma_accepted(lines: Seq<Seq<u8>>, k: int, mode: JsonMode, capture: bool)
    requires
        0 <= k < lines.len(),
        rows_of(lines.take(k), mode, capture) is Some,
        rows_of(lines.take(k + 1), mode, capture) is None,
    ensures
        rows_of(lines, mode, capture) is None,
        rows_of(lines.take(k), mode, capture) == Some(accepted_rows(lines, mode, capture)),
    decreases lines.len(),
{
    let before = lines.drop_last();
    if lines.len() == k + 1 {
        assert(lines.take(k + 1) =~= lines);
        assert(lines.take(k) =~= before);
        reveal_with_fuel(accepted_rows, 2);
    } else {
        assert(before.take(k) =~= lines.take(k));
        assert(before.take(k + 1) =~= lines.take(k + 1));
        lemma_accepted(before, k, mode, capture);
    }
}

/// The rows of batches, in order.
pub open spec fn all_rows(b: Batches) -> Seq<RowModel> {
    b.complete.flatten() + b.current
}

/// A row that does not join the batches waits, with those behind it: where columns that can be
/// decoded fit the schema of batches, no row is lost, and all keep their order, whatever the error.
pub proof fn law_errors_lose_no_row(b: Batches, rows: Seq<RowModel>, setup: DecoderSetup)
    requires
        forall|current: Seq<RowModel>| #[trigger]
            json_columns(setup.fields, row_lines(current)) is Some ==> batch_fits(current, setup),
    ensures
        ({
            let run = fed(b, rows, setup);
            all_rows(run.batches) + run.rest == all_rows(b) + rows
        }),
    decreases rows.len(),
{
    let run = fed(b, rows, setup);
    if rows.len() == 0 {
        assert(all_rows(b) + run.rest =~= all_rows(b) + rows);
    } else {
        law_errors_lose_no_row(b, rows.drop_last(), setup);
        lemma_fed_rest(b, rows.drop_last(), setup);
        let before = fed(b, rows.drop_last(), setup);
        let ready = made_ready(before.batches, setup.size);
        before.batches.complete.lemma_flatten_push(before.batches.current);
        assert(all_rows(ready) =~= all_rows(before.batches));
        assert(all_rows(before.batches) + before.rest + seq![rows.last()] =~= all_rows(b) + rows);
        assert(all_rows(run.batches) + run.rest =~= all_rows(b) + rows);
    }
}

/// Cutting rows into batches loses none and keeps their order, and no complete batch is larger
/// than the batch size.
pub proof fn law_batches_keep_every_row(b: Batches, rows: Seq<RowModel>, size: nat)
    requires
        size > 0,
        b.current.len() <= size,
        forall|i: int| 0 <= i < b.complete.len() ==> (#[trigger] b.complete[i]).len() == size,
    ensures
        all_rows(with_rows(b, rows, size)) == all_rows(b) + rows,
        with_rows(b, rows, size).current.len() <= size,
        forall|i: int|
            0 <= i < with_rows(b, rows, size).complete.len() ==> (#[trigger] with_rows(
                b,
                rows,
                size,
            ).complete[i]).len() == size,
    decreases rows.len(),
{
    if rows.len() == 0 {
        assert(all_rows(b) + rows =~= all_rows(b));
    } else {
        law_batches_keep_every_row(b, rows.drop_last(), size);
        let before = with_rows(b, rows.drop_last(), size);
        let after = with_rows(b, rows, size);
        if before.current.len() >= size {
            before.complete.lemma_flatten_push(before.current);
        }
        assert(all_rows(after) =~= all_rows(before).push(rows.last()));
        assert(all_rows(b) + rows =~= (all_rows(b) + rows.drop_last()).push(rows.last()));
    }
}

proof fn lemma_lines_append(a: Seq<u8>, b: Seq<u8>)
    ensures
        complete_lines(a + b) == complete_lines(a) + complete_lines(last_line(a) + b),
        last_line(a + b) == last_line(last_line(a) + b),
    decreases b.len(),
{
    if b.len() == 0 {
        assert(a + b =~= a);
        assert(last_line(a) + b =~= last_line(a));
        lemma_last_line_is_one_line(a);
        assert(complete_lines(a) + complete_lines(last_line(a)) =~= complete_lines(a));
    } else {
        lemma_lines_append(a, b.drop_last());
        assert((a + b).drop_last() =~= a + b.drop_last());
        assert((last_line(a) + b).drop_last() =~= last_line(a) + b.drop_last());
        assert(complete_lines(a + b) =~= complete_lines(a) + complete_lines(last_line(a) + b));
    }
}

proof fn lemma_last_line_is_one_line(a: Seq<u8>)
    ensures
        complete_lines(last_line(a)) == Seq::<Seq<u8>>::empty(),
        last_line(last_line(a)) == last_line(a),
    decreases a.len(),
{
    if a.len() > 0 && a.last() != 0x0a {
        lemma_last_line_is_one_line(a.drop_last());
        let l = last_line(a);
        assert(l.drop_last() =~= last_line(a.drop_last()));
        assert(l.last() == a.last());
    }
}

proof fn lemma_rows_append(a: Seq<Seq<u8>>, b: Seq<Seq<u8>>, mode: JsonMode, capture: bool)
    ensures
        rows_of(a + b, mode, capture) == match (
            rows_of(a, mode, capture),
            rows_of(b, mode, capture),
        ) {
            (Some(x), Some(y)) => Some(x + y),
            _ => None,
        },
    decreases b.len(),
{
    if b.len() == 0 {
        assert(a + b =~= a);
        if let Some(x) = rows_of(a, mode, capture) {
            assert(x + Seq::<RowModel>::empty() =~= x);
        }
    } else {
        lemma_rows_append(a, b.drop_last(), mode, capture);
        assert((a + b).drop_last() =~= a + b.drop_last());
        assert((a + b).last() == b.last());
        if let (Some(x), Some(y)) = (
            rows_of(a, mode, capture),
            rows_of(b.drop_last(), mode, capture),
        ) {
            let line = trimmed_bytes(b.last());
            if let LineClass::Row(row) = line_class(line, is_json_text(line), mode, capture) {
                assert((x + y).push(row) =~= x + y.push(row));
            }
        }
    }
}

proof fn lemma_fed_rest(b: Batches, rows: Seq<RowModel>, setup: DecoderSetup)
    ensures
        fed(b, rows, setup).error is None <==> fed(b, rows, setup).rest == Seq::<RowModel>::empty(),
    decreases rows.len(),
{
    if rows.len() > 0 {
        lemma_fed_rest(b, rows.drop_last(), setup);
        if fed(b, rows, setup).error is Some {
            assert(fed(b, rows, setup).rest.len() > 0);
        }
    }
}

proof fn lemma_fed_append(b: Batches, x: Seq<RowModel>, y: Seq<RowModel>, setup: DecoderSetup)
    ensures
        fed(b, x + y, setup) == if fed(b, x, setup).error is Some {
            Fed { rest: fed(b, x, setup).rest + y, ..fed(b, x, setup) }
        } else {
            fed(fed(b, x, setup).batches, y, setup)
        },
    decreases y.len(),
{
    let start = fed(b, x, setup);
    if y.len() == 0 {
        assert(x + y =~= x);
        assert(start.rest + y =~= start.rest);
        lemma_fed_rest(b, x, setup);
    } else {
        lemma_fed_append(b, x, y.drop_last(), setup);
        assert((x + y).drop_last() =~= x + y.drop_last());
        assert((x + y).last() == y.last());
        assert((start.rest + y.drop_last()).push(y.last()) =~= start.rest + y);
    }
}

/// What a decoder makes of a stream does not depend on how the stream is cut into pieces: two
/// pieces, one after the other, are taken exactly where they are as one, and then give the same.
pub proof fn law_decoding_does_not_depend_on_chunks(
    state: DecoderModel,
    first: Seq<u8>,
    second: Seq<u8>,
    setup: DecoderSetup,
)
    requires
        first.len() > 0,
        second.len() > 0,
    ensures
        ({
            let whole = decoded(state, first + second, setup);
            let start = decoded(state, first, setup);
            let end = decoded(start.state, second, setup);
            &&& whole.error is None <==> start.error is None && end.error is None
            &&& whole.error is None ==> whole.state == end.state
        }),
{
    let start = state.partial + first;
    assert(state.partial + (first + second) =~= start + second);
    lemma_lines_append(start, second);
    let a = complete_lines(start);
    let b = complete_lines(last_line(start) + second);
    lemma_rows_append(a, b, setup.mode, setup.capture);
    if let Some(x) = rows_of(a, setup.mode, setup.capture) {
        if let Some(y) = rows_of(b, setup.mode, setup.capture) {
            let queued = state.queued + x;
            assert(state.queued + (x + y) =~= queued + y);
            lemma_fed_append(state.batches, queued, y, setup);
            lemma_fed_rest(state.batches, queued, setup);
            assert(Seq::<RowModel>::empty() + y =~= y);
        }
    }
}

/// A stream that is cut once more is read as before: every piece of it is taken exactly where that
/// was so, and then the decoder holds the same batches, of which each flush gives the next.
pub proof fn law_streams_do_not_depend_on_cuts(
    before: Seq<Seq<u8>>,
    first: Seq<u8>,
    second: Seq<u8>,
    after: Seq<Seq<u8>>,
    state: DecoderModel,
    setup: DecoderSetup,
)
    requires
        first.len() > 0,
        second.len() > 0,
    ensures
        ({
            let whole = decoded_all(state, before.push(first + second) + after, setup);
            let cut = decoded_all(state, before.push(first).push(second) + after, setup);
            &&& whole.error is None <==> cut.error is None
            &&& whole.error is None ==> whole.state == cut.state
        }),
    decreases after.len(),
{
    let a = before.push(first + second) + after;
    let b = before.push(first).push(second) + after;
    if after.len() == 0 {
        assert(a =~= before.push(first + second));
        assert(b =~= before.push(first).push(second));
        assert(a.drop_last() =~= before);
        assert(b.drop_last() =~= before.push(first));
        assert(before.push(first).drop_last() =~= before);
        let start = decoded_all(state, before, setup);
        law_decoding_does_not_depend_on_chunks(start.state, first, second, setup);
        reveal_with_fuel(decoded_all, 3);
    } else {
        law_streams_do_not_depend_on_cuts(before, first, second, after.drop_last(), state, setup);
        assert(a.drop_last() =~= before.push(first + second) + after.drop_last());
        assert(b.drop_last() =~= before.push(first).push(second) + after.drop_last());
        assert(a.last() == after.last() && b.last() == after.last());
    }
}

/// The lines with something but white space, trimmed.
pub open spec fn nonempty_lines(lines: Seq<Seq<u8>>) -> Seq<Seq<u8>>
    decreases lines.len(),
{
    if lines.len() == 0 {
        Seq::empty()
    } else {
        let before = nonempty_lines(lines.drop_last());
        let line = trimmed_bytes(lines.last());
        if line.len() > 0 {
            before.push(line)
        } else {
            before
        }
    }
}

/// The permissive mode gives a row for each line that is not empty: of a valid record the row holds
/// the record and no corrupt one, of a malformed record an object without members and the record
/// itself as the corrupt one.
pub proof fn law_permissive_mode_captures_malformed_records(lines: Seq<Seq<u8>>)
    ensures
        rows_of(lines, JsonMode::Permissive, true) matches Some(rows) && {
            let all = nonempty_lines(lines);
            &&& rows.len() == all.len()
            &&& forall|i: int|
                0 <= i < rows.len() ==> #[trigger] rows[i] == if is_json_text(all[i]) {
                    RowModel { line: all[i].push(0x0a), corrupt: None }
                } else {
                    RowModel { line: empty_object_line(), corrupt: Some(all[i]) }
                }
        },
    decreases lines.len(),
{
    if lines.len() > 0 {
        law_permissive_mode_captures_malformed_records(lines.drop_last());
    }
}

/// The mode that drops malformed records gives a row for each valid record, and none besides.
pub proof fn law_malformed_records_are_dropped(lines: Seq<Seq<u8>>, capture: bool)
    ensures
        rows_of(lines, JsonMode::DropMalformed, capture) == Some(
            valid_lines(lines).map_values(
                |l: Seq<u8>| RowModel { line: l.push(0x0a), corrupt: None },
            ),
        ),
    decreases lines.len(),
{
    let row = |l: Seq<u8>| RowModel { line: l.push(0x0a), corrupt: None };
    if lines.len() > 0 {
        law_malformed_records_are_dropped(lines.drop_last(), capture);
        let before = valid_lines(lines.drop_last());
        let line = trimmed_bytes(lines.last());
        assert(before.push(line).map_values(row) =~= before.map_values(row).push(row(line)));
    } else {
        assert(valid_lines(lines).map_values(row) =~= Seq::<RowModel>::empty());
    }
}

/// The mode that fails fast reads some lines exactly where each record in them is valid.
pub proof fn law_failing_fast_accepts_only_valid_records(lines: Seq<Seq<u8>>, capture: bool)
    ensures
        rows_of(lines, JsonMode::FailFast, capture) is Some <==> nonempty_lines(lines)
            == valid_lines(lines),
        valid_lines(lines).len() <= nonempty_lines(lines).len(),
    decreases lines.len(),
{
    if lines.len() > 0 {
        law_failing_fast_accepts_only_valid_records(lines.drop_last(), capture);
        let all = nonempty_lines(lines.drop_last());
        let valid = valid_lines(lines.drop_last());
        let line = trimmed_bytes(lines.last());
        if line.len() > 0 && is_json_text(line) && all.push(line) == valid.push(line) {
            assert(all =~= all.push(line).drop_last());
            assert(valid =~= valid.push(line).drop_last());
        }
    }
}

/// The name of the column for corrupt records.
pub open spec fn corrupt_name(explicit: Seq<char>) -> Seq<char> {
    if explicit.len() == 0 {
        "_corrupt_record"@
    } else {
        explicit
    }
}

/// The name of the column for corrupt records: the given one, where it is not empty.
pub fn corrupt_col_name(explicit: &str) -> (name: &str)
    ensures
        name@ == corrupt_name(explicit@),
{
    if explicit.is_empty() {
        "_corrupt_record"
    } else {
        explicit
    }
}

/// Parts a schema into that of the columns to decode and, where it has one, the position of the
/// column for corrupt records and the whole schema.
pub fn split_corrupt_col(schema: &Arc<Schema>, col_name: &str) -> (parts: (
    Arc<Schema>,
    Option<(usize, Arc<Schema>)>,
))
    ensures
        is_index_of(
            column_names(schema_fields(**schema)),
            corrupt_name(col_name@),
            match parts.1 {
                Some((i, _)) => Some(i),
                None => None,
            },
        ),
        match parts.1 {
            Some((i, full)) => full == *schema && schema_fields(*parts.0) == schema_fields(
                **schema,
            ).remove(i as int),
            None => parts.0 == *schema,
        },
        schema_metadata(*parts.0) == schema_metadata(**schema),
{
    let name = corrupt_col_name(col_name);
    match record_batch::find_column(schema, name) {
        Some(i) => {
            assert(column_names(schema_fields(**schema)).len() == schema_fields(**schema).len());
            let inner = record_batch::without_column(schema, i);
            (Arc::new(inner), Some((i, record_batch::share(schema))))
        },
        None => (record_batch::share(schema), None),
    }
}

/// Columns without the one at a position.
pub open spec fn without(fields: Seq<(Seq<char>, Seq<char>, bool)>, at: Option<usize>) -> Seq<
    (Seq<char>, Seq<char>, bool),
> {
    match at {
        Some(i) => fields.remove(i as int),
        None => fields,
    }
}

/// A decoder for a schema: of all its columns but the one for corrupt records, which batches get in
/// its place.
pub fn decoder_for(
    schema: &Arc<Schema>,
    col_name: &str,
    batch_size: usize,
    mode: JsonMode,
) -> (result: Result<PermissiveJsonDecoder, JsonError>)
    requires
        batch_size > 0,
    ensures
        forall|at: Option<usize>| #[trigger]
            is_index_of(
                column_names(schema_fields(**schema)),
                corrupt_name(col_name@),
                at,
            ) ==> {
                let fields = without(schema_fields(**schema), at);
                match result {
                    Ok(decoder) => {
                        &&& can_decode(fields, batch_size)
                        &&& decoder.ready()
                        &&& decoder.setup() == (DecoderSetup {
                            mode,
                            capture: at is Some,
                            size: batch_size as nat,
                            fields,
                            corrupt: match at {
                                Some(i) => Some((i as int, schema_fields(**schema))),
                                None => None,
                            },
                        })
                        &&& decoder@ == new_decoder()
                    },
                    Err(e) => is_setup_error(e, fields, batch_size),
                }
            },
{
    let (inner_schema, corrupt) = split_corrupt_col(schema, col_name);
    let ghost found = match corrupt {
        Some((i, _)) => Some(i),
        None => None,
    };
    assert(forall|at: Option<usize>| #[trigger]
        is_index_of(column_names(schema_fields(**schema)), corrupt_name(col_name@), at) ==> at
            == found) by {
        lemma_one_index();
    }
    match corrupt {
        Some((index, output_schema)) => PermissiveJsonDecoder::new(
            inner_schema,
            batch_size,
            mode,
            Some(index),
            Some(output_schema),
        ),
        None => PermissiveJsonDecoder::new(inner_schema, batch_size, mode, None, None),
    }
}

/// The valid lines among some lines, trimmed.
pub open spec fn valid_lines(lines: Seq<Seq<u8>>) -> Seq<Seq<u8>>
    decreases lines.len(),
{
    if lines.len() == 0 {
        Seq::empty()
    } else {
        let before = valid_lines(lines.drop_last());
        let line = trimmed_bytes(lines.last());
        if line.len() > 0 && is_json_text(line) {
            before.push(line)
        } else {
            before
        }
    }
}

/// The lines of a file, the last with or without a newline.
pub open spec fn file_lines(raw: Seq<u8>) -> Seq<Seq<u8>> {
    complete_lines(raw).push(last_line(raw))
}

/// The valid lines of a file from which its schema is inferred: the first `max_records`, but one at
/// least where there is one.
pub open spec fn sampled(raw: Seq<u8>, max_records: usize) -> Seq<Seq<u8>> {
    let valid = valid_lines(file_lines(raw));
    let limit = if max_records == 0 {
        1
    } else {
        max_records as int
    };
    if valid.len() < limit {
        valid
    } else {
        valid.take(limit)
    }
}

/// The valid lines of a file from which its schema is inferred: the first `max_records`, but one
/// at least where there is one.
pub fn sample_lines(raw: &[u8], max_records: usize) -> (samples: Vec<Vec<u8>>)
    ensures
        byte_lines(samples@) == sampled(raw@, max_records),
{
    let limit: usize = if max_records == 0 {
        1
    } else {
        max_records
    };
    let mut samples: Vec<Vec<u8>> = Vec::new();
    let mut start: usize = 0;
    let mut i: usize = 0;
    proof {
        assert(raw@.take(0) =~= Seq::<u8>::empty());
        assert(raw@.subrange(0, 0) =~= Seq::<u8>::empty());
        assert(byte_lines(samples@) =~= valid_lines(complete_lines(raw@.take(0))));
    }
    while i < raw.len()
        invariant
            limit > 0,
            limit == (if max_records == 0 {
                1usize
            } else {
                max_records
            }),
            start <= i <= raw@.len(),
            last_line(raw@.take(i as int)) == raw@.subrange(start as int, i as int),
            samples@.len() < limit,
            byte_lines(samples@) == valid_lines(complete_lines(raw@.take(i as int))),
        decreases raw@.len() - i,
    {
        proof {
            assert(raw@.take(i + 1).drop_last() =~= raw@.take(i as int));
            assert(raw@.take(i + 1).last() == raw@[i as int]);
        }
        if raw[i] == 0x0a {
            let ghost done = complete_lines(raw@.take(i as int));
            let ghost this = last_line(raw@.take(i as int));
            sample(&mut samples, slice_subrange(raw, start, i));
            proof {
                assert(done.push(this).drop_last() =~= done);
                assert(byte_lines(samples@).len() == samples@.len());
            }
            if samples.len() >= limit {
                proof {
                    lemma_valid_prefix(raw@, done.push(this), i as int);
                }
                return samples;
            }
            start = i + 1;
            assert(raw@.subrange(i + 1, i + 1) =~= Seq::<u8>::empty());
        } else {
            assert(raw@.subrange(start as int, i + 1) =~= raw@.subrange(
                start as int,
                i as int,
            ).push(raw@[i as int]));
        }
        i = i + 1;
    }
    proof {
        assert(raw@.take(i as int) =~= raw@);
        assert(file_lines(raw@).drop_last() =~= complete_lines(raw@));
    }
    sample(&mut samples, slice_subrange(raw, start, i));
    proof {
        let valid = valid_lines(file_lines(raw@));
        assert(byte_lines(samples@).len() == samples@.len());
        assert(valid.take(valid.len() as int) =~= valid);
    }
    samples
}

/// Adds a line, trimmed, where it is valid.
fn sample(samples: &mut Vec<Vec<u8>>, line: &[u8])
    ensures
        ({
            let bare = trimmed_bytes(line@);
            byte_lines(final(samples)@) == if bare.len() > 0 && is_json_text(bare) {
                byte_lines(old(samples)@).push(bare)
            } else {
                byte_lines(old(samples)@)
            }
        }),
        final(samples)@.len() <= old(samples)@.len() + 1,
{
    let bare = trim_ascii(line);
    if bare.len() > 0 && is_json(bare) {
        samples.push(bytes::copy(bare));
        assert(byte_lines(samples@) =~= byte_lines(old(samples)@).push(bare@));
    }
}

/// The columns with those of another schema whose names are new.
pub open spec fn with_new_columns(
    merged: Seq<(Seq<char>, Seq<char>, bool)>,
    more: Seq<(Seq<char>, Seq<char>, bool)>,
) -> Seq<(Seq<char>, Seq<char>, bool)>
    decreases more.len(),
{
    if more.len() == 0 {
        merged
    } else {
        let before = with_new_columns(merged, more.drop_last());
        if column_names(before).contains(more.last().0) {
            before
        } else {
            before.push(more.last())
        }
    }
}

/// The columns inferred from some files: those of the first, then those of each other one whose
/// names are new; a file without a valid line has none. Nothing where those of a file cannot be
/// inferred.
pub open spec fn merged_columns(raws: Seq<Seq<u8>>, max_records: usize) -> Option<
    Seq<(Seq<char>, Seq<char>, bool)>,
>
    decreases raws.len(),
{
    if raws.len() == 0 {
        Some(Seq::empty())
    } else {
        let samples = sampled(raws.last(), max_records);
        match (merged_columns(raws.drop_last(), max_records), inferred_fields(samples)) {
            (Some(merged), more) => if samples.len() == 0 {
                Some(merged)
            } else {
                match more {
                    Some(fields) => Some(with_new_columns(merged, fields)),
                    None => None,
                }
            },
            (None, _) => None,
        }
    }
}

/// Columns with one of text for corrupt records, unless there is one with its name.
pub open spec fn with_corrupt_column(
    fields: Seq<(Seq<char>, Seq<char>, bool)>,
    col_name: Seq<char>,
) -> Seq<(Seq<char>, Seq<char>, bool)> {
    if column_names(fields).contains(corrupt_name(col_name)) {
        fields
    } else {
        fields.push((corrupt_name(col_name), "Utf8"@, true))
    }
}

/// Adds the columns of another schema whose names are new.
fn merge_columns(merged: Schema, more: &Schema) -> (out: Schema)
    ensures
        schema_fields(out) == with_new_columns(schema_fields(merged), schema_fields(*more)),
{
    let ghost start = schema_fields(merged);
    let ghost all = schema_fields(*more);
    let mut out = merged;
    let n = record_batch::column_count(more);
    let mut i: usize = 0;
    assert(all.take(0) =~= Seq::<(Seq<char>, Seq<char>, bool)>::empty());
    while i < n
        invariant
            i <= n == all.len(),
            all == schema_fields(*more),
            schema_fields(out) == with_new_columns(start, all.take(i as int)),
        decreases n - i,
    {
        let ghost names = column_names(schema_fields(out));
        assert(all.take(i + 1).drop_last() =~= all.take(i as int));
        assert(all.take(i + 1).last() == all[i as int]);
        let name = record_batch::column_name(more, i);
        match record_batch::find_column(&out, name.as_str()) {
            Some(k) => {
                assert(names[k as int] == name@);
            },
            None => {
                out = record_batch::with_column_of(&out, more, i);
            },
        }
        i = i + 1;
    }
    assert(all.take(i as int) =~= all);
    out
}

/// The number of lines of a file from which its schema is inferred, where none is set.
pub const SCHEMA_INFER_MAX_RECORDS: usize = 1000;

/// The number of lines of a file from which its schema is inferred.
pub open spec fn infer_limit(max_records: Option<usize>) -> usize {
    match max_records {
        Some(n) => n,
        None => SCHEMA_INFER_MAX_RECORDS,
    }
}

/// The schema of some files, inferred from the valid lines of each, with a column for corrupt
/// records.
pub fn infer_schema(raws: &[Vec<u8>], max_records: Option<usize>, col_name: &str) -> (result:
    Result<Arc<Schema>, ArrowError>)
    ensures
        match result {
            Ok(schema) => merged_columns(
                byte_lines(raws@),
                infer_limit(max_records),
            ) matches Some(fields) && schema_fields(*schema) == with_corrupt_column(
                fields,
                col_name@,
            ),
            Err(_) => merged_columns(byte_lines(raws@), infer_limit(max_records)) is None,
        },
{
    let limit = match max_records {
        Some(n) => n,
        None => SCHEMA_INFER_MAX_RECORDS,
    };
    let ghost all = byte_lines(raws@);
    let mut merged = record_batch::empty_schema();
    let mut i: usize = 0;
    assert(all.take(0) =~= Seq::<Seq<u8>>::empty());
    while i < raws.len()
        invariant
            i <= raws@.len(),
            all == byte_lines(raws@),
            limit == infer_limit(max_records),
            merged_columns(all.take(i as int), limit) == Some(schema_fields(merged)),
        decreases raws@.len() - i,
    {
        proof {
            assert(all.take(i + 1).drop_last() =~= all.take(i as int));
            assert(all.take(i + 1).last() == raws@[i as int]@);
        }
        let samples = sample_lines(raws[i].as_slice(), limit);
        assert(byte_lines(samples@).len() == samples@.len());
        if samples.len() > 0 {
            match record_batch::infer_records(samples.as_slice()) {
                Ok(schema) => {
                    merged = merge_columns(merged, &schema);
                },
                Err(e) => {
                    proof {
                        lemma_merged_columns_fail(all, i + 1, limit);
                    }
                    return Err(e);
                },
            }
        }
        i = i + 1;
    }
    assert(all.take(i as int) =~= all);
    let ghost names = column_names(schema_fields(merged));
    let name = corrupt_col_name(col_name);
    match record_batch::find_column(&merged, name) {
        Some(k) => {
            assert(names[k as int] == name@);
        },
        None => {
            merged = record_batch::with_text_field(&merged, name);
        },
    }
    Ok(Arc::new(merged))
}

proof fn lemma_merged_columns_fail(raws: Seq<Seq<u8>>, n: int, max_records: usize)
    requires
        0 <= n <= raws.len(),
        merged_columns(raws.take(n), max_records) is None,
    ensures
        merged_columns(raws, max_records) is None,
    decreases raws.len() - n,
{
    if n < raws.len() {
        assert(raws.take(n + 1).drop_last() =~= raws.take(n));
        lemma_merged_columns_fail(raws, n + 1, max_records);
    } else {
        assert(raws.take(n) =~= raws);
    }
}

proof fn lemma_valid_lines_extend(lines: Seq<Seq<u8>>, n: int)
    requires
        0 <= n <= lines.len(),
    ensures
        valid_lines(lines.take(n)).len() <= valid_lines(lines).len(),
        valid_lines(lines).take(valid_lines(lines.take(n)).len() as int) == valid_lines(
            lines.take(n),
        ),
    decreases lines.len() - n,
{
    let part = valid_lines(lines.take(n));
    if n < lines.len() {
        lemma_valid_lines_extend(lines, n + 1);
        assert(lines.take(n + 1).drop_last() =~= lines.take(n));
        let more = valid_lines(lines.take(n + 1));
        assert(more.take(part.len() as int) =~= part);
        assert(valid_lines(lines).take(part.len() as int) =~= more.take(part.len() as int));
    } else {
        assert(lines.take(n) =~= lines);
        assert(part.take(part.len() as int) =~= part);
    }
}

proof fn lemma_complete_lines_extend(raw: Seq<u8>, n: int)
    requires
        0 <= n <= raw.len(),
    ensures
        complete_lines(raw.take(n)).len() <= complete_lines(raw).len(),
        complete_lines(raw).take(complete_lines(raw.take(n)).len() as int) == complete_lines(
            raw.take(n),
        ),
    decreases raw.len() - n,
{
    let part = complete_lines(raw.take(n));
    if n < raw.len() {
        lemma_complete_lines_extend(raw, n + 1);
        assert(raw.take(n + 1).drop_last() =~= raw.take(n));
        let more = complete_lines(raw.take(n + 1));
        assert(more.take(part.len() as int) =~= part);
        assert(complete_lines(raw).take(part.len() as int) =~= more.take(part.len() as int));
    } else {
        assert(raw.take(n) =~= raw);
        assert(part.take(part.len() as int) =~= part);
    }
}

proof fn lemma_valid_prefix(raw: Seq<u8>, lines: Seq<Seq<u8>>, i: int)
    requires
        0 <= i <= raw.len(),
        i == raw.len() || raw[i] == 0x0a,
        lines == complete_lines(raw.take(i)).push(last_line(raw.take(i))),
    ensures
        valid_lines(lines).len() <= valid_lines(file_lines(raw)).len(),
        valid_lines(file_lines(raw)).take(valid_lines(lines).len() as int) == valid_lines(lines),
{
    let all = file_lines(raw);
    if i < raw.len() {
        assert(raw.take(i + 1).drop_last() =~= raw.take(i));
        assert(complete_lines(raw.take(i + 1)) == lines);
        lemma_complete_lines_extend(raw, i + 1);
        assert(all.take(lines.len() as int) =~= complete_lines(raw).take(lines.len() as int));
    } else {
        assert(raw.take(i) =~= raw);
        assert(all.take(lines.len() as int) =~= lines);
    }
    lemma_valid_lines_extend(all, lines.len() as int);
}

/// Lines, each with the newline that ends it.
pub open spec fn ended_lines(lines: Seq<Seq<u8>>) -> Seq<u8>
    decreases lines.len(),
{
    if lines.len() == 0 {
        Seq::empty()
    } else {
        ended_lines(lines.drop_last()) + lines.last().push(0x0a)
    }
}

/// Cutting into lines loses nothing: the complete lines with their newlines, and what follows the last
/// newline, are the bytes; and no line holds a newline.
pub proof fn law_lines_make_up_the_bytes(b: Seq<u8>)
    ensures
        ended_lines(complete_lines(b)) + last_line(b) == b,
        !last_line(b).contains(0x0a),
        forall|i: int|
            0 <= i < complete_lines(b).len() ==> !(#[trigger] complete_lines(b)[i]).contains(0x0a),
    decreases b.len(),
{
    if b.len() > 0 {
        let rest = b.drop_last();
        let lines = complete_lines(rest);
        let open = last_line(rest);
        law_lines_make_up_the_bytes(rest);
        if b.last() == 0x0a {
            let all = lines.push(open);
            assert(all.drop_last() =~= lines);
            assert(ended_lines(all) == ended_lines(lines) + open.push(0x0a));
            assert(ended_lines(all) + Seq::<u8>::empty() =~= (ended_lines(lines) + open).push(
                b.last(),
            ));
            assert((ended_lines(lines) + open).push(b.last()) =~= b);
            assert forall|i: int| 0 <= i < all.len() implies !(#[trigger] all[i]).contains(
                0x0a,
            ) by {
                if i < lines.len() {
                    assert(all[i] == lines[i]);
                }
            }
        } else {
            assert(ended_lines(lines) + open.push(b.last()) =~= (ended_lines(lines) + open).push(
                b.last(),
            ));
            assert((ended_lines(lines) + open).push(b.last()) =~= b);
            if open.push(b.last()).contains(0x0a) {
                let i = choose|i: int|
                    0 <= i < open.push(b.last()).len() && open.push(b.last())[i] == 0x0a;
                assert(open[i] == 0x0a);
            }
        }
    } else {
        assert(ended_lines(complete_lines(b)) + last_line(b) =~= b);
    }
}

/// Trimming a line removes blanks, tabs, line and page ends and returns at both ends, and nothing else.
pub proof fn law_trimmed_lines_lose_only_space(b: Seq<u8>)
    ensures
        exists|from: int, to: int|
            {
                &&& 0 <= from <= to <= b.len()
                &&& trimmed_bytes(b) == #[trigger] b.subrange(from, to)
                &&& forall|i: int| 0 <= i < from ==> is_space(#[trigger] b[i])
                &&& forall|i: int| to <= i < b.len() ==> is_space(#[trigger] b[i])
                &&& from < to ==> !is_space(b[from]) && !is_space(b[to - 1])
            },
        forall|x: u8| #[trigger] is_space(x) <==> seq![0x20u8, 0x09u8, 0x0au8, 0x0cu8, 0x0du8]
            .contains(x),
{
    let from = lemma_space_front(b);
    let head = b.skip(from);
    let to = lemma_space_back(head);
    assert(trimmed_bytes(b) =~= b.subrange(from, from + to));
    assert forall|i: int| from + to <= i < b.len() implies is_space(#[trigger] b[i]) by {
        assert(head[i - from] == b[i]);
    }
    if to > 0 {
        assert(head[0] == b[from]);
        assert(head[to - 1] == b[from + to - 1]);
    }
    assert(b.subrange(from, from + to) == trimmed_bytes(b));
    let spaces = seq![0x20u8, 0x09u8, 0x0au8, 0x0cu8, 0x0du8];
    assert forall|x: u8| #[trigger] is_space(x) <==> spaces.contains(x) by {
        assert(spaces[0] == 0x20 && spaces[1] == 0x09 && spaces[2] == 0x0a && spaces[3] == 0x0c
            && spaces[4] == 0x0d);
    }
}

proof fn lemma_space_front(b: Seq<u8>) -> (from: int)
    ensures
        0 <= from <= b.len(),
        trim_front(b) == b.skip(from),
        forall|i: int| 0 <= i < from ==> is_space(#[trigger] b[i]),
        from < b.len() ==> !is_space(b[from]),
    decreases b.len(),
{
    if b.len() > 0 && is_space(b[0]) {
        let from = lemma_space_front(b.skip(1));
        assert(b.skip(1).skip(from) =~= b.skip(from + 1));
        assert forall|i: int| 0 <= i < from + 1 implies is_space(#[trigger] b[i]) by {
            if i > 0 {
                assert(b.skip(1)[i - 1] == b[i]);
            }
        }
        if from + 1 < b.len() {
            assert(b.skip(1)[from] == b[from + 1]);
        }
        from + 1
    } else {
        assert(b.skip(0) =~= b);
        0
    }
}

proof fn lemma_space_back(b: Seq<u8>) -> (to: int)
    ensures
        0 <= to <= b.len(),
        trim_back(b) == b.take(to),
        forall|i: int| to <= i < b.len() ==> is_space(#[trigger] b[i]),
        to > 0 ==> !is_space(b[to - 1]),
    decreases b.len(),
{
    if b.len() > 0 && is_space(b.last()) {
        let rest = b.drop_last();
        let to = lemma_space_back(rest);
        assert(rest.take(to) =~= b.take(to));
        assert forall|i: int| to <= i < b.len() implies is_space(#[trigger] b[i]) by {
            if i < rest.len() {
                assert(rest[i] == b[i]);
            }
        }
        to
    } else {
        assert(b.take(b.len() as int) =~= b);
        b.len() as int
    }
}

/// What becomes of a line: a valid one is a row; another is an empty row in the permissive mode, kept
/// apart only where it is asked for, and is dropped or refused in the others.
pub proof fn law_lines_by_mode(line: Seq<u8>, valid: bool, mode: JsonMode, capture: bool)
    ensures
        ({
            let class = line_class(line, valid, mode, capture);
            &&& class is Refused <==> !valid && mode == JsonMode::FailFast
            &&& class is Dropped <==> !valid && mode == JsonMode::DropMalformed
            &&& class matches LineClass::Row(row) ==> {
                &&& valid ==> row.line == line + seq![0x0au8] && row.corrupt is None
                &&& !valid ==> row.line == seq![0x7bu8, 0x7du8, 0x0au8] && (row.corrupt is Some
                    <==> capture) && (capture ==> row.corrupt == Some(line))
            }
        }),
{
    assert(line.push(0x0a) =~= line + seq![0x0au8]);
}

/// The lines that count are those of which trimming leaves something; of these the valid ones are
/// those that are JSON, in their order.
pub proof fn law_counted_lines_are_not_blank(lines: Seq<Seq<u8>>)
    ensures
        nonempty_lines(lines) == lines.map_values(|l: Seq<u8>| trimmed_bytes(l)).filter(
            |l: Seq<u8>| l.len() > 0,
        ),
        valid_lines(lines) == nonempty_lines(lines).filter(|l: Seq<u8>| is_json_text(l)),
    decreases lines.len(),
{
    reveal(Seq::filter);
    let f = |l: Seq<u8>| trimmed_bytes(l);
    if lines.len() > 0 {
        let rest = lines.drop_last();
        law_counted_lines_are_not_blank(rest);
        assert(lines.map_values(f).drop_last() =~= rest.map_values(f));
        assert(lines.map_values(f).last() == trimmed_bytes(lines.last()));
        let before = nonempty_lines(rest);
        let line = trimmed_bytes(lines.last());
        if line.len() > 0 {
            assert(before.push(line).drop_last() =~= before);
        }
    } else {
        assert(lines.map_values(f) =~= Seq::<Seq<u8>>::empty());
    }
}

/// A sample is the first valid lines of a file, as many as asked for, at least one where there is one.
pub proof fn law_samples_are_the_first_valid_lines(raw: Seq<u8>, max_records: usize)
    ensures
        ({
            let valid = valid_lines(complete_lines(raw).push(last_line(raw)));
            let n = sampled(raw, max_records).len() as int;
            &&& n <= valid.len()
            &&& sampled(raw, max_records) == valid.take(n)
            &&& max_records > 0 ==> n <= max_records
            &&& n < valid.len() ==> n == max_records || (max_records == 0 && n == 1)
        }),
{
    let valid = valid_lines(complete_lines(raw).push(last_line(raw)));
    assert(valid.take(valid.len() as int) =~= valid);
}

} // verus!
