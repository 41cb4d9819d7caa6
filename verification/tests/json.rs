use datafusion::arrow::array::{Array, Int64Array, RecordBatch, StringArray};
use datafusion::arrow::datatypes::{DataType, Field, IntervalUnit, Schema};
use datafusion::arrow::util::display::array_value_to_string;
use std::collections::HashMap;
use std::sync::Arc;
use vajra::json::{
    classify, corrupt_col_name, decoder_for, infer_schema, sample_lines, split_corrupt_col, trim_ascii, JsonError,
    JsonMode, PermissiveJsonDecoder,
};
use vajra::json_numbers::{check_number, count_tokens};
use vajra::record_batch::Decimal;

fn schema_with_corrupt() -> Arc<Schema> {
    Arc::new(Schema::new(vec![
        Field::new("id", DataType::Int64, true),
        Field::new("name", DataType::Utf8, true),
        Field::new("_corrupt_record", DataType::Utf8, true),
    ]))
}

fn schema_without_corrupt() -> Arc<Schema> {
    Arc::new(Schema::new(vec![
        Field::new("id", DataType::Int64, true),
        Field::new("name", DataType::Utf8, true),
    ]))
}

fn decoder_of(
    schema: &Arc<Schema>,
    batch_size: usize,
    mode: JsonMode,
    col: &str,
) -> PermissiveJsonDecoder {
    decoder_for(schema, col, batch_size, mode).ok().unwrap()
}

fn make_decoder(schema: &Arc<Schema>, mode: JsonMode, col: &str) -> PermissiveJsonDecoder {
    let (inner_schema, corrupt_info) = split_corrupt_col(schema, col);
    let (idx, out) = match corrupt_info {
        Some((i, s)) => (Some(i), Some(s)),
        None => (None, None),
    };
    PermissiveJsonDecoder::new(inner_schema, 1024, mode, idx, out).ok().unwrap()
}

fn texts(batch: &RecordBatch, name: &str) -> Vec<Option<String>> {
    let idx = batch.schema().index_of(name).unwrap();
    let column = batch.column(idx).as_any().downcast_ref::<StringArray>().unwrap();
    column.iter().map(|t| t.map(|s| s.to_string())).collect()
}

fn ids(batch: &RecordBatch) -> Vec<Option<i64>> {
    let idx = batch.schema().index_of("id").unwrap();
    let column = batch.column(idx).as_any().downcast_ref::<Int64Array>().unwrap();
    column.iter().collect()
}

#[test]
fn test_permissive_all_valid() {
    let schema = schema_without_corrupt();
    let mut dec = make_decoder(&schema, JsonMode::Permissive, "");
    let input = b"{\"id\":1,\"name\":\"alice\"}\n{\"id\":2,\"name\":\"bob\"}\n";
    dec.decode(input).unwrap();
    let batch = dec.flush().unwrap().expect("should have a batch").columns;
    assert_eq!(batch.num_rows(), 2);
    assert_eq!(ids(&batch), vec![Some(1), Some(2)]);
}

#[test]
fn test_permissive_with_corrupt_col() {
    let schema = schema_with_corrupt();
    let mut dec = make_decoder(&schema, JsonMode::Permissive, "_corrupt_record");
    let input = b"{\"id\":1,\"name\":\"alice\"}\nnot_json\n{\"id\":3,\"name\":\"carol\"}\n";
    dec.decode(input).unwrap();
    let batch = dec.flush().unwrap().expect("batch").columns;
    assert_eq!(batch.num_rows(), 3);
    let idx = batch.schema().index_of("_corrupt_record").unwrap();
    let corrupt_col = batch.column(idx).as_any().downcast_ref::<StringArray>().unwrap();
    assert!(corrupt_col.is_null(0), "row 0 is valid, should be null");
    assert_eq!(corrupt_col.value(1), "not_json", "row 1 is malformed");
    assert!(corrupt_col.is_null(2), "row 2 is valid, should be null");
    assert_eq!(ids(&batch), vec![Some(1), None, Some(3)]);
    assert_eq!(batch.schema().as_ref(), schema.as_ref());
}

#[test]
fn test_dropmalformed() {
    let schema = schema_without_corrupt();
    let mut dec = make_decoder(&schema, JsonMode::DropMalformed, "");
    let input = b"{\"id\":1,\"name\":\"alice\"}\nbad\n{\"id\":3,\"name\":\"carol\"}\n";
    dec.decode(input).unwrap();
    let batch = dec.flush().unwrap().expect("batch").columns;
    assert_eq!(batch.num_rows(), 2, "malformed row dropped");
}

#[test]
fn test_failfast() {
    let schema = schema_without_corrupt();
    let mut dec = make_decoder(&schema, JsonMode::FailFast, "");
    let input = b"{\"id\":1,\"name\":\"alice\"}\nbad_json\n";
    let result = dec.decode(input);
    assert!(result.is_err(), "FAILFAST should error on malformed line");
    match result {
        Err(JsonError::Malformed(e)) => {
            assert_eq!(e.line, b"bad_json");
            assert_eq!(e.message(), "Malformed JSON record (FAILFAST mode): bad_json");
        }
        _ => panic!("the record is malformed"),
    }
}

#[test]
fn test_split_corrupt_col_present() {
    let schema = schema_with_corrupt();
    let (inner, info) = split_corrupt_col(&schema, "_corrupt_record");
    assert_eq!(inner.fields().len(), 2);
    let (idx, full) = info.unwrap();
    assert_eq!(idx, 2);
    assert_eq!(full.fields().len(), 3);
}

#[test]
fn test_split_corrupt_col_absent() {
    let schema = schema_without_corrupt();
    let (inner, info) = split_corrupt_col(&schema, "_corrupt_record");
    assert_eq!(inner.fields().len(), 2);
    assert!(info.is_none());
}

#[test]
fn schema_keeps_its_metadata_without_the_corrupt_column() {
    let fields = schema_with_corrupt().fields().to_vec();
    let metadata = HashMap::from([("k".to_string(), "v".to_string())]);
    let schema = Arc::new(Schema::new_with_metadata(fields, metadata.clone()));
    let (inner, _) = split_corrupt_col(&schema, "id");
    assert_eq!(inner.field(0).name(), "name");
    assert_eq!(inner.metadata(), &metadata);
}

#[test]
fn test_streaming_pipeline_permissive() {
    let schema = schema_with_corrupt();
    let mut dec = make_decoder(&schema, JsonMode::Permissive, "_corrupt_record");
    let data = b"{\"id\":1,\"name\":\"alice\"}\nbad_json\n{\"id\":3,\"name\":\"carol\"}\n";
    assert_eq!(dec.decode(data).unwrap(), data.len());
    assert_eq!(dec.decode(b"").unwrap(), 0);
    let mut batches = vec![];
    while let Some(batch) = dec.flush().unwrap() {
        batches.push(batch.columns);
    }
    let total_rows: usize = batches.iter().map(|b| b.num_rows()).sum();
    assert_eq!(total_rows, 3);
    let corrupt = texts(&batches[0], "_corrupt_record");
    assert!(corrupt[0].is_none(), "valid row → null corrupt_record");
    assert_eq!(corrupt[1].as_deref(), Some("bad_json"), "malformed row captured");
    assert!(corrupt[2].is_none(), "valid row → null corrupt_record");
}

#[test]
fn chunks_give_what_the_whole_gives() {
    let schema = schema_with_corrupt();
    let data = b"{\"id\":1}\n oops \n\n{\"id\":2}";
    let mut whole = make_decoder(&schema, JsonMode::Permissive, "");
    whole.decode(data).unwrap();
    whole.decode(b"").unwrap();
    let mut parts = make_decoder(&schema, JsonMode::Permissive, "");
    for byte in data.iter() {
        parts.decode(&[*byte]).unwrap();
    }
    parts.decode(b"").unwrap();
    let a = whole.flush().unwrap().unwrap().columns;
    let b = parts.flush().unwrap().unwrap().columns;
    assert_eq!(a.num_rows(), 3);
    assert_eq!(a, b);
    assert_eq!(texts(&a, "_corrupt_record")[1].as_deref(), Some("oops"));
}

#[test]
fn full_batches_wait_for_another_row() {
    let schema = schema_with_corrupt();
    let mut dec = decoder_of(&schema, 2, JsonMode::Permissive, "");
    dec.decode(b"{\"id\":1}\nx\n").unwrap();
    assert!(!dec.can_flush_early());
    dec.decode(b"{\"id\":3}\n").unwrap();
    assert!(dec.can_flush_early());
    let first = dec.flush().unwrap().unwrap().columns;
    assert_eq!(ids(&first), vec![Some(1), None]);
    assert_eq!(texts(&first, "_corrupt_record"), vec![None, Some("x".to_string())]);
    assert!(!dec.can_flush_early());
    let second = dec.flush().unwrap().unwrap().columns;
    assert_eq!(ids(&second), vec![Some(3)]);
    assert_eq!(texts(&second, "_corrupt_record"), vec![None]);
    assert!(dec.flush().unwrap().is_none());
}

#[test]
fn corrupt_bytes_that_are_no_text_are_null() {
    let schema = schema_with_corrupt();
    let mut dec = make_decoder(&schema, JsonMode::Permissive, "");
    dec.decode(b"\xff\xfe\n").unwrap();
    let batch = dec.flush().unwrap().unwrap().columns;
    assert_eq!(texts(&batch, "_corrupt_record"), vec![None]);
    assert_eq!(ids(&batch), vec![None]);
}

#[test]
fn corrupt_column_stands_where_the_schema_has_it() {
    let schema = Arc::new(Schema::new(vec![
        Field::new("bad", DataType::Utf8, true),
        Field::new("id", DataType::Int64, true),
    ]));
    let mut dec = make_decoder(&schema, JsonMode::Permissive, "bad");
    dec.decode(b"{\"id\":7}\n}\n").unwrap();
    let batch = dec.flush().unwrap().unwrap().columns;
    assert_eq!(texts(&batch, "bad"), vec![None, Some("}".to_string())]);
    assert_eq!(ids(&batch), vec![Some(7), None]);
}

#[test]
fn records_that_do_not_fit_the_columns_are_errors() {
    let schema = schema_without_corrupt();
    let mut dec = make_decoder(&schema, JsonMode::Permissive, "");
    dec.decode(b"7\n").unwrap();
    assert!(matches!(dec.flush(), Err(JsonError::Arrow(_))));
    let mut dec = decoder_of(&schema, 1, JsonMode::Permissive, "");
    assert!(matches!(
        dec.decode(b"{\"id\":\"x\"}\n{\"id\":1}\n"),
        Err(JsonError::Arrow(_))
    ));
}

#[test]
fn columns_that_do_not_fit_the_schema_are_errors() {
    let schema = Arc::new(Schema::new(vec![
        Field::new("id", DataType::Int64, true),
        Field::new("_corrupt_record", DataType::Int64, true),
    ]));
    let mut dec = make_decoder(&schema, JsonMode::Permissive, "");
    dec.decode(b"{\"id\":1}\n").unwrap();
    assert!(matches!(dec.flush(), Err(JsonError::Arrow(_))));
}

#[test]
fn batches_too_large_for_memory_are_refused() {
    let schema = schema_without_corrupt();
    let result = PermissiveJsonDecoder::new(
        schema.clone(),
        usize::MAX,
        JsonMode::Permissive,
        None,
        None,
    );
    assert!(matches!(result, Err(JsonError::TooLarge)));
}

#[test]
fn schemas_without_a_json_form_are_refused() {
    let schema = Arc::new(Schema::new(vec![Field::new(
        "d",
        DataType::Interval(IntervalUnit::MonthDayNano),
        true,
    )]));
    let result = PermissiveJsonDecoder::new(schema.clone(), 8, JsonMode::Permissive, None, None);
    assert!(matches!(result, Err(JsonError::Arrow(_))));
    assert!(matches!(
        decoder_for(&schema, "", 8, JsonMode::Permissive),
        Err(JsonError::Arrow(_))
    ));
    assert!(decoder_for(&schema, "d", 8, JsonMode::Permissive).is_ok());
}

#[test]
fn modes_are_read_in_any_case() {
    assert_eq!(JsonMode::parse(" dropMalformed "), JsonMode::DropMalformed);
    assert_eq!(JsonMode::parse("failfast"), JsonMode::FailFast);
    assert_eq!(JsonMode::parse("PERMISSIVE"), JsonMode::Permissive);
    assert_eq!(JsonMode::parse("other"), JsonMode::Permissive);
}

#[test]
fn lines_are_classified_by_validity_and_mode() {
    let row = classify(b"x", true, JsonMode::FailFast, true).unwrap().unwrap();
    assert_eq!(row.line, b"x\n");
    assert!(row.corrupt.is_none());
    let row = classify(b"x", false, JsonMode::Permissive, false).unwrap().unwrap();
    assert_eq!(row.line, b"{}\n");
    assert!(row.corrupt.is_none());
    assert!(classify(b"x", false, JsonMode::DropMalformed, true).unwrap().is_none());
    assert!(classify(b"x", false, JsonMode::FailFast, true).is_err());
}

#[test]
fn white_space_is_trimmed() {
    assert_eq!(trim_ascii(b" \t\r\n\x0c a b \n"), b"a b");
    assert_eq!(trim_ascii(b"  "), b"");
    assert_eq!(trim_ascii(b"\x0ba"), b"\x0ba");
}

#[test]
fn corrupt_column_has_a_default_name() {
    assert_eq!(corrupt_col_name(""), "_corrupt_record");
    assert_eq!(corrupt_col_name("bad"), "bad");
}

#[test]
fn inferred_schemas_are_merged_by_name() {
    let raws = vec![
        b"{\"id\":1,\"name\":\"a\"}\nbad\n".to_vec(),
        b"nothing here\n".to_vec(),
        b"{\"name\":7,\"age\":2.5}".to_vec(),
    ];
    let schema = infer_schema(&raws, None, "").unwrap();
    let fields: Vec<(&str, DataType)> =
        schema.fields().iter().map(|f| (f.name().as_str(), f.data_type().clone())).collect();
    assert_eq!(
        fields,
        vec![
            ("id", DataType::Int64),
            ("name", DataType::Utf8),
            ("age", DataType::Float64),
            ("_corrupt_record", DataType::Utf8),
        ]
    );
    let named = infer_schema(&raws, Some(1), "name").unwrap();
    assert_eq!(named.fields().len(), 3);
    assert!(infer_schema(&[], None, "bad").unwrap().field(0).name() == "bad");
    assert!(infer_schema(&[b"7\n".to_vec()], None, "").is_err());
}

#[test]
fn schema_is_inferred_from_the_first_valid_lines() {
    let raw = b"{\"a\":1}\nbad\n\n {\"b\":2} \n{\"c\":3}";
    assert_eq!(
        sample_lines(raw, 2),
        vec![b"{\"a\":1}".to_vec(), b"{\"b\":2}".to_vec()]
    );
    assert_eq!(sample_lines(raw, 9).len(), 3);
    assert_eq!(sample_lines(raw, 0).len(), 1);
    assert!(sample_lines(b"nope", 5).is_empty());
}

#[test]
fn batches_have_the_output_schema() {
    let schema = schema_with_corrupt();
    let mut dec = make_decoder(&schema, JsonMode::Permissive, "");
    let input = b"{\"id\":1,\"name\":\"alice\"}\nnot_json\n{\"id\":3,\"name\":\"carol\"}\n";
    assert_eq!(dec.decode(input).unwrap(), input.len());
    assert_eq!(dec.decode(b"").unwrap(), 0);
    let batch = dec.flush().unwrap().unwrap().columns;
    assert_eq!(batch.num_rows(), 3);
    assert_eq!(batch.schema(), schema);
    assert_eq!(ids(&batch), vec![Some(1), None, Some(3)]);
    assert_eq!(
        texts(&batch, "name"),
        vec![Some("alice".to_string()), None, Some("carol".to_string())]
    );
    assert!(dec.flush().unwrap().is_none());
}

#[test]
fn decoders_go_on_after_an_error() {
    let schema = schema_without_corrupt();
    let mut dec = decoder_of(&schema, 1, JsonMode::Permissive, "");
    dec.decode(b"{\"id\":1}\n").unwrap();
    assert!(matches!(
        dec.decode(b"{\"id\":\"x\"}\n{\"id\":3}\n"),
        Err(JsonError::Arrow(_))
    ));
    assert_eq!(ids(&dec.flush().unwrap().unwrap().columns), vec![Some(1)]);
    assert!(matches!(dec.flush(), Err(JsonError::Arrow(_))));
    let mut dec = make_decoder(&schema, JsonMode::FailFast, "");
    assert!(dec.decode(b"{\"id\":1}\n}\n").is_err());
    assert!(dec.flush().unwrap().is_none());
    assert!(matches!(dec.decode(b""), Err(JsonError::Malformed(_))));
    assert!(dec.flush().unwrap().is_none());
    assert_eq!(dec.decode(b"").unwrap(), 0);
    assert_eq!(ids(&dec.flush().unwrap().unwrap().columns), vec![Some(1)]);
    assert!(dec.flush().unwrap().is_none());
}

#[test]
fn rows_wait_for_the_batch_before_them() {
    let schema = schema_without_corrupt();
    let mut dec = decoder_of(&schema, 1, JsonMode::Permissive, "");
    for _ in 0..2 {
        let taken = dec.decode(b"{\"id\":\"x\"}\n{\"id\":2}\n");
        assert!(matches!(taken, Err(JsonError::Arrow(_))));
    }
    assert!(matches!(dec.decode(b""), Err(JsonError::Arrow(_))));
    assert!(!dec.can_flush_early());
    assert!(matches!(dec.flush(), Err(JsonError::Arrow(_))));
}

#[test]
fn cuts_of_a_stream_err_alike() {
    let schema = schema_without_corrupt();
    let input = b"{\"id\":1}\n{\"id\":\"x\"}\n{\"id\":3}\n{\"id\":4}\n";
    for at in 1..input.len() {
        let mut dec = decoder_of(&schema, 2, JsonMode::Permissive, "");
        let first = dec.decode(&input[..at]);
        let failed = first.is_err() || dec.decode(&input[at..]).is_err();
        assert!(failed, "cut at {at}");
    }
}

#[test]
fn all_that_is_json_is_taken() {
    let schema = schema_without_corrupt();
    for text in [
        "{\"a\": [1, -2.5e+3, true, null], \"name\": \"\\u00e9\\ud83d\\ude00\\n\"}",
        "{ \"id\" : 12 , \"x\" : { } , \"y\" : [ ] }",
        "{}",
        "\"text\"",
        "-0",
        "[]",
        "null",
        "{\"id\":1,\"id\":2}",
    ] {
        let mut dec = make_decoder(&schema, JsonMode::FailFast, "");
        assert_eq!(dec.decode(text.as_bytes()).unwrap(), text.len());
        assert_eq!(dec.decode(b"").unwrap(), 0);
    }
}

#[test]
fn types_that_no_column_can_have_are_refused() {
    let refused = |data_type: DataType| {
        let schema = Arc::new(Schema::new(vec![Field::new("c", data_type, true)]));
        let result = PermissiveJsonDecoder::new(schema, 8, JsonMode::Permissive, None, None);
        matches!(result, Err(JsonError::Unsound))
    };
    let item = Arc::new(Field::new("item", DataType::Int64, true));
    let runs = |ends: DataType| {
        DataType::RunEndEncoded(
            Arc::new(Field::new("run_ends", ends, false)),
            Arc::new(Field::new("values", DataType::Int64, true)),
        )
    };
    assert!(refused(DataType::FixedSizeBinary(-1)));
    assert!(refused(DataType::FixedSizeList(item.clone(), -1)));
    assert!(refused(runs(DataType::Utf8)));
    assert!(refused(DataType::List(Arc::new(Field::new("item", DataType::FixedSizeBinary(-1), true)))));
    assert!(!refused(DataType::FixedSizeBinary(2)));
    assert!(!refused(DataType::FixedSizeList(item, 2)));
    assert!(!refused(runs(DataType::Int32)));
}

#[test]
fn lists_of_one_size_limit_the_records_of_a_batch() {
    let inner = Arc::new(Field::new("item", DataType::Int64, true));
    let middle = Arc::new(Field::new("item", DataType::FixedSizeList(inner, i32::MAX), true));
    let schema = Arc::new(Schema::new(vec![Field::new(
        "c",
        DataType::FixedSizeList(middle, i32::MAX),
        true,
    )]));
    let mut dec = decoder_of(&schema, 8, JsonMode::Permissive, "");
    assert!(matches!(dec.decode(b"{\"c\":null}\n"), Err(JsonError::TooLarge)));
    let item = Arc::new(Field::new("item", DataType::Int64, true));
    let schema = Arc::new(Schema::new(vec![Field::new(
        "c",
        DataType::FixedSizeList(item, 2),
        true,
    )]));
    let mut dec = decoder_of(&schema, 8, JsonMode::Permissive, "");
    dec.decode(b"{\"c\":null}\n{\"c\":[1,2]}\n{}\n").unwrap();
    let batch = dec.flush().unwrap().unwrap().columns;
    assert_eq!(batch.column(0).null_count(), 2);
}

#[test]
fn metadata_of_a_schema_is_kept() {
    let metadata = HashMap::from([("k".to_string(), "v".to_string())]);
    let schema = Schema::new(schema_with_corrupt().fields().clone()).with_metadata(metadata.clone());
    let (inner, _) = split_corrupt_col(&Arc::new(schema), "");
    assert_eq!(inner.metadata(), &metadata);
}

fn decimal_schema(data_type: DataType) -> Arc<Schema> {
    Arc::new(Schema::new(vec![
        Field::new("id", DataType::Utf8, true),
        Field::new("d", data_type, true),
    ]))
}

fn decode_one(schema: &Arc<Schema>, line: &str) -> Result<Option<RecordBatch>, JsonError> {
    let mut dec = decoder_of(schema, 8, JsonMode::FailFast, "");
    dec.decode(format!("{line}\n").as_bytes())?;
    Ok(dec.flush()?.map(|batch| batch.columns))
}

fn is_too_long(schema: &Arc<Schema>, line: &str) -> bool {
    matches!(decode_one(schema, line), Err(JsonError::NumberTooLong))
}

fn shown(schema: &Arc<Schema>, line: &str) -> String {
    let batch = decode_one(schema, line).ok().unwrap().unwrap();
    array_value_to_string(batch.column(1), 0).unwrap()
}

#[test]
fn numbers_too_long_for_decimals_are_refused() {
    let schema = decimal_schema(DataType::Decimal128(10, 2));
    let digits = "3".repeat(130);
    assert!(is_too_long(&schema, &format!("{{\"d\":0.{digits}e0}}")));
    assert!(is_too_long(&schema, &format!("{{\"d\":\"0.{digits}e0\"}}")));
    assert!(is_too_long(&schema, &format!("{{\"d\":{}}}", "1".repeat(256))));
    assert!(is_too_long(&schema, "{\"d\":1e-40000}"));
    assert!(is_too_long(&schema, "{\"d\":\"1e40000\"}"));
    assert!(is_too_long(&schema, "{\"d\":\"1\\u0031\"}"));
    assert!(is_too_long(&schema, "{\"\\u0064\":1e-40000}"));
}

#[test]
fn numbers_that_decimals_hold_are_read() {
    let schema = decimal_schema(DataType::Decimal128(10, 2));
    assert_eq!(shown(&schema, "{\"d\":12.5}"), "12.50");
    assert_eq!(shown(&schema, "{\"d\":\"-3.25\"}"), "-3.25");
    assert_eq!(shown(&schema, "{\"d\":1e-200}"), "0.00");
    assert_eq!(shown(&schema, "{\"d\":1.5e3}"), "1500.00");
    assert_eq!(shown(&schema, &format!("{{\"d\":0.{}}}", "3".repeat(300))), "0.33");
    let id = "1e234567-89ab-4cde-8f01-234567890123";
    let line = format!("{{\"id\":\"{id}\",\"d\":{{\"x\":1}},\"d\":4}}");
    assert_eq!(shown(&schema, &line), "4.00");
    assert_eq!(shown(&schema, &format!("{{\"x\":{},\"d\":1}}", "1".repeat(300))), "1.00");
    assert!(matches!(decode_one(&schema, "{\"d\":\"abc\"}"), Err(JsonError::Arrow(_))));
}

#[test]
fn decimals_inside_other_types_are_found() {
    let decimal = DataType::Decimal128(10, 2);
    let item = Arc::new(Field::new("item", decimal.clone(), true));
    let list = decimal_schema(DataType::List(item));
    assert!(is_too_long(&list, "{\"d\":[1,1e-40000]}"));
    assert_eq!(shown(&list, "{\"id\":\"1e99999\",\"d\":[1,2.5]}"), "[1.00, 2.50]");
    let group = decimal_schema(DataType::Struct(
        vec![Field::new("id", DataType::Utf8, true), Field::new("p", decimal.clone(), true)].into(),
    ));
    assert!(is_too_long(&group, "{\"d\":{\"p\":1e-40000}}"));
    assert_eq!(
        shown(&group, "{\"d\":{\"p\":7,\"id\":\"1e99999\"}}"),
        "{id: 1e99999, p: 7.00}"
    );
    let entries = Field::new(
        "entries",
        DataType::Struct(
            vec![Field::new("keys", DataType::Utf8, false), Field::new("values", decimal, true)]
                .into(),
        ),
        false,
    );
    let map = decimal_schema(DataType::Map(Arc::new(entries), false));
    assert!(is_too_long(&map, "{\"d\":{\"any\":1e-40000}}"));
    assert_eq!(shown(&map, "{\"d\":{\"any\":1.5}}"), "{any: 1.50}");
}

#[test]
fn numbers_are_checked_by_the_bits_of_decimals() {
    let small = Decimal { bits: 32, scale: 2 };
    let large = Decimal { bits: 128, scale: 2 };
    let text = format!("0.{}e0", "1".repeat(34));
    assert!(!check_number(text.as_bytes(), small));
    assert!(check_number(text.as_bytes(), large));
    assert!(check_number(format!("0.{}e0", "1".repeat(33)).as_bytes(), small));
    assert!(check_number(b"", small));
    assert!(check_number(b"-", small));
    assert!(check_number("1".repeat(255).as_bytes(), Decimal { bits: 32, scale: 0 }));
    assert!(!check_number("1".repeat(255).as_bytes(), small));
    assert!(check_number(format!("{}x", "1".repeat(300)).as_bytes(), small));
}

#[test]
fn tokens_are_counted() {
    assert_eq!(count_tokens(b"{\"a\":[1,true,\"x, \\\"y\"]}\n"), 8);
    assert_eq!(count_tokens(b"{}\n"), 2);
    assert_eq!(count_tokens(b" 12 "), 1);
}
