use datafusion::arrow::array::{
    Array, ArrayRef, AsArray, BinaryArray, BooleanArray, Int64Array, ListArray, RecordBatch,
    StringArray, StructArray, TimestampMillisecondArray, TimestampSecondArray,
};
use datafusion::arrow::buffer::OffsetBuffer;
use datafusion::arrow::datatypes::{
    DataType, Field as ArrowField, Int32Type, Int64Type, Schema, TimeUnit, TimestampMillisecondType,
};
use std::sync::Arc;
use vajra::kafka::batch::BatchError;
use vajra::assoc::AssocMap;
use vajra::checkpoint::CheckpointError;
use vajra::kafka::batch_reader::{reader_timestamp, PartitionReader, ReaderAction};
use vajra::kafka::bounded::{Assignment, BoundedAction, BoundedRead};
use vajra::kafka::columns::{
    timestamp_columns, ColumnError, KafkaColumn, KafkaColumns, RecordTimestamp,
};
use vajra::kafka::exec::{
    kafka_data_schema, FromJsonOptions, FuseError, KafkaSourceError, KafkaSourceExec, KafkaType,
    ParsedField, SourceStart, ValueParseSpec,
};
use vajra::kafka::format::{KafkaFormatError, KafkaTableFormat, TableLayout, WriteLayout};
use vajra::kafka::offsets::{
    decode_offsets, encode_offsets, expected_partitions, offset_entry_name, offset_key, offsets_from_pairs, pack_tp,
    parse_offset_entry, staged_epoch_key, unpack_tp, TopicPartition,
};
use vajra::kafka::options::{KafkaOptionsError, KafkaReadOptions};
use vajra::kafka::plain::{PlainAction, PlainRead};
use vajra::kafka::realtime::{RealtimeOutput, RealtimeRead};
use vajra::kafka::sink::{
    after_send, batch_records, epoch_offsets, is_staged_for, plan_marker, plan_start, resolve_key_idx, resolve_value_idx,
    sink_records, sink_staged_key, KafkaSinkError, KafkaSinkExec, SendDecision, SendOutcome,
    SinkMarker, SinkStep, SinkTextError,
};
use vajra::kafka::source::{
    batch_queue_enabled, consumer_config, fast_drain, first_epoch, flush_interval_ms, max_batch_bytes, max_empty_polls,
    owned_splits, parse_topics, prefetch_limits, resume_offset, source_parallelism, start_offset,
    starts_earliest, subscription, total_partitions, PrefetchLimits, ReadMode, Split,
    Subscription, MAX_BATCH_BYTES,
};
use vajra::record_batch::Batch;
use vajra::schema::Field;
use vajra::text_cells::{TextError, DAY, FIRST_SECOND, LAST_SECOND};

fn tp(topic: &str, partition: i32) -> TopicPartition {
    TopicPartition { topic: topic.to_string(), partition }
}

fn pairs(items: &[(&str, &str)]) -> Vec<(String, String)> {
    items.iter().map(|(k, v)| (k.to_string(), v.to_string())).collect()
}

fn options(items: &[(&str, &str)]) -> Result<KafkaReadOptions, KafkaOptionsError> {
    KafkaReadOptions::from_options_at(pairs(items), 123)
}

fn basic() -> KafkaReadOptions {
    options(&[("kafka.bootstrap.servers", "h:9092"), ("subscribe", "a, b"), ("group.id", "g")])
        .unwrap()
}

fn parse_spec() -> ValueParseSpec {
    ValueParseSpec {
        output_field: "doc".to_string(),
        fields: vec![ParsedField {
            name: "id".to_string(),
            data_type: "Int64".to_string(),
            nullable: true,
        }],
        options: FromJsonOptions {
            timestamp_format: Some("yyyy-MM-dd".to_string()),
            date_format: None,
        },
    }
}

#[test]
fn pack_tp_roundtrips() {
    for (idx, part) in [(0u32, 0i32), (3, 17), (255, 0), (1, 4095), (7, 65535)] {
        assert_eq!(unpack_tp(pack_tp(idx, part)), (idx, part));
    }
}

#[test]
fn packing_tells_partitions_apart() {
    assert_eq!(pack_tp(1, 2), 0x1_0000_0002);
    assert_eq!(pack_tp(0, -1), 0xffff_ffff);
    assert_eq!(unpack_tp(pack_tp(u32::MAX, i32::MIN)), (u32::MAX, i32::MIN));
    assert_ne!(pack_tp(1, 0), pack_tp(0, 1));
}

#[test]
fn offsets_survive_storage() {
    let mut offsets = AssocMap::new();
    offsets.insert(tp("orders", 0), 5);
    offsets.insert(tp("a:b", 3), -1);
    let bytes = encode_offsets(&offsets).unwrap();
    let back = decode_offsets(Some(&bytes));
    assert_eq!(back.len(), 2);
    assert_eq!(back.lookup(&tp("orders", 0)), Some(&5));
    assert_eq!(back.lookup(&tp("a:b", 3)), Some(&-1));
    assert!(String::from_utf8(bytes).unwrap().contains("\"orders:0\":5"));
}

#[test]
fn missing_or_broken_offsets_are_none() {
    assert!(decode_offsets(None).is_empty());
    assert!(decode_offsets(Some(b"{oops")).is_empty());
    let some = decode_offsets(Some(b"{\"t:1\":7,\"t:x\":8,\"plain\":9}"));
    assert_eq!(some.len(), 1);
    assert_eq!(some.lookup(&tp("t", 1)), Some(&7));
}

#[test]
fn entry_names_denote_partitions() {
    assert_eq!(offset_entry_name("t:x", -2), "t:x:-2");
    let parsed = parse_offset_entry("t:x:-2").unwrap();
    assert_eq!((parsed.topic.as_str(), parsed.partition), ("t:x", -2));
    assert!(parse_offset_entry("t").is_none());
    assert!(parse_offset_entry("t:").is_none());
    let offsets = offsets_from_pairs(&vec![("t:0".to_string(), 1), ("t:0".to_string(), 2)]);
    assert_eq!(offsets.lookup(&tp("t", 0)), Some(&2));
}

#[test]
fn checkpoint_keys() {
    assert_eq!(offset_key("committed", 0, 1), "sources/0/committed");
    assert_eq!(offset_key("staged", 2, 4), "sources/0/inst-2/staged");
    assert_eq!(staged_epoch_key(3, 17), "sources/0/inst-3/staged-epoch-17");
    assert_eq!(sink_staged_key(17), "sources/0/staged-epoch-17");
}

#[test]
fn read_options_are_parsed() {
    let o = options(&[
        ("Kafka.Bootstrap.Servers", "h:1"),
        ("subscribePattern", "x.*"),
        ("startingOffsets", "earliest"),
        ("maxOffsetsPerTrigger", "7"),
        ("fetchTimeoutMs", "20"),
        ("groupIdPrefix", "p"),
        ("kafka.Security.Protocol", "SSL"),
        ("other", "ignored"),
    ])
    .unwrap();
    assert_eq!(o.bootstrap_servers, "h:1");
    assert_eq!(o.subscribe, None);
    assert_eq!(o.subscribe_pattern.as_deref(), Some("x.*"));
    assert_eq!(o.starting_offsets, "earliest");
    assert_eq!(o.max_batch_size, 7);
    assert_eq!(o.fetch_timeout_ms, 20);
    assert_eq!(o.group_id, "p-0000000123");
    assert_eq!(o.extra.len(), 1);
    assert_eq!(o.extra.get("security.protocol").map(|v| v.as_str()), Some("SSL"));
}

#[test]
fn read_options_have_defaults() {
    let o = options(&[("bootstrapServers", "h"), ("subscribe", "t")]).unwrap();
    assert_eq!(o.starting_offsets, "latest");
    assert_eq!(o.group_id, "vajra-0000000123");
    assert_eq!(o.max_batch_size, 1000);
    assert_eq!(o.fetch_timeout_ms, 500);
    assert!(o.extra.is_empty());
}

#[test]
fn later_client_option_wins() {
    let o = options(&[
        ("bootstrap.servers", "h"),
        ("subscribe", "t"),
        ("kafka.a", "1"),
        ("KAFKA.A", "2"),
    ])
    .unwrap();
    assert_eq!(o.extra.get("a").map(|v| v.as_str()), Some("2"));
}

#[test]
fn read_options_are_refused() {
    let e = options(&[("subscribe", "t")]).unwrap_err();
    assert!(matches!(e, KafkaOptionsError::MissingBootstrapServers));
    assert_eq!(e.message(), "kafka.bootstrap.servers is required for the Kafka source");
    let e = options(&[("bootstrap.servers", "h")]).unwrap_err();
    assert!(matches!(e, KafkaOptionsError::MissingSubscription));
    assert_eq!(
        e.message(),
        "either 'subscribe' or 'subscribePattern' is required for the Kafka source"
    );
    let e = options(&[("maxBatchSize", "x")]).unwrap_err();
    assert!(matches!(&e, KafkaOptionsError::InvalidNumber { option, .. } if option == "maxBatchSize"));
    let e = options(&[("fetchTimeoutMs", "-1")]).unwrap_err();
    assert_eq!(
        e.message(),
        format!("invalid fetchtimeoutms: {}", "-1".parse::<u64>().unwrap_err())
    );
    let e = options(&[("maxBatchSize", "")]).unwrap_err();
    assert_eq!(
        e.message(),
        format!("invalid maxBatchSize: {}", "".parse::<usize>().unwrap_err())
    );
}

#[test]
fn group_ids_are_padded() {
    assert_eq!(KafkaReadOptions::group_id_at("x", 0), "x-0000000000");
    assert_eq!(KafkaReadOptions::group_id_at("x", u32::MAX), "x-4294967295");
    let id = KafkaReadOptions::generate_group_id("x");
    assert!(id.starts_with("x-0"));
    assert_eq!(id.len(), 12);
    let given = pairs(&[("bootstrap.servers", "h"), ("subscribe", "t"), ("groupIdPrefix", "p")]);
    let o = KafkaReadOptions::from_options(given).unwrap();
    assert!(o.group_id.starts_with("p-0"));
    assert!(o.group_id[2..].parse::<u32>().unwrap() < 1_000_000_000);
}

#[test]
fn limits_come_from_settings() {
    assert_eq!(max_batch_bytes(None), MAX_BATCH_BYTES);
    assert_eq!(max_batch_bytes(Some("1048575")), MAX_BATCH_BYTES);
    assert_eq!(max_batch_bytes(Some("1048576")), 1048576);
    assert_eq!(max_batch_bytes(Some("no")), MAX_BATCH_BYTES);
    let limits = prefetch_limits(Some("2048"), Some("999"));
    assert_eq!((limits.kbytes, limits.messages), (2048, 400_000));
    let limits = prefetch_limits(None, Some("1000"));
    assert_eq!((limits.kbytes, limits.messages), (65536, 1000));
}

#[test]
fn consumer_is_configured_for_its_mode() {
    let limits = PrefetchLimits { kbytes: 1, messages: 2 };
    let value = |c: &AssocMap<String, String>, k: &str| c.get(k).map(|v| v.to_string());
    let c = consumer_config(&basic(), ReadMode::Bounded, false, limits);
    assert_eq!(value(&c, "bootstrap.servers").as_deref(), Some("h:9092"));
    assert_eq!(value(&c, "group.id").as_deref(), Some("g"));
    assert_eq!(value(&c, "enable.auto.commit").as_deref(), Some("false"));
    assert_eq!(value(&c, "queued.max.messages.kbytes").as_deref(), Some("1"));
    assert_eq!(value(&c, "queued.min.messages").as_deref(), Some("2"));
    assert_eq!(value(&c, "enable.partition.eof"), None);
    assert_eq!(value(&c, "statistics.interval.ms"), None);
    let c = consumer_config(&basic(), ReadMode::Realtime, true, limits);
    assert_eq!(value(&c, "enable.partition.eof").as_deref(), Some("true"));
    assert_eq!(value(&c, "statistics.interval.ms").as_deref(), Some("2000"));
    let mut o = basic();
    o.starting_offsets = "Earliest".to_string();
    o.extra.insert("enable.auto.commit".to_string(), "mine".to_string());
    let c = consumer_config(&o, ReadMode::Plain, false, limits);
    assert_eq!(value(&c, "enable.auto.commit").as_deref(), Some("mine"));
    assert_eq!(value(&c, "auto.offset.reset").as_deref(), Some("earliest"));
    assert_eq!(value(&c, "session.timeout.ms").as_deref(), Some("6000"));
}

#[test]
fn subscriptions() {
    assert_eq!(parse_topics(" a, ,b ,"), vec!["a", "b"]);
    match subscription(&basic()) {
        Some(Subscription::Topics(t)) => assert_eq!(t, vec!["a", "b"]),
        other => panic!("unexpected {other:?}"),
    }
    let o = options(&[("bootstrap.servers", "h"), ("subscribePattern", "x")]).unwrap();
    match subscription(&o) {
        Some(Subscription::Pattern(p)) => assert_eq!(p, "^x"),
        other => panic!("unexpected {other:?}"),
    }
}

#[test]
fn splits_are_dealt_out() {
    let splits = || {
        vec![("b", 0), ("a", 1), ("a", 0), ("b", 1)]
            .into_iter()
            .map(|(t, p)| Split { topic: t.to_string(), partition: p })
            .collect::<Vec<_>>()
    };
    let names = |mine: Vec<Split>| {
        mine.into_iter().map(|s| (s.topic, s.partition)).collect::<Vec<_>>()
    };
    assert_eq!(
        names(owned_splits(splits(), 2, 0)),
        vec![("a".to_string(), 0), ("b".to_string(), 0)]
    );
    assert_eq!(
        names(owned_splits(splits(), 2, 1)),
        vec![("a".to_string(), 1), ("b".to_string(), 1)]
    );
    assert_eq!(owned_splits(splits(), 8, 7).len(), 0);
}

#[test]
fn reads_start_where_they_should() {
    assert!(starts_earliest("EARLIEST"));
    assert!(!starts_earliest("latest"));
    assert_eq!(start_offset(Some(3), true, 0, 9), 3);
    assert_eq!(start_offset(None, true, 1, 9), 1);
    assert_eq!(start_offset(None, false, 1, 9), 9);
    assert_eq!(resume_offset(Some(4), Some(5)), Some(4));
    assert_eq!(resume_offset(None, Some(5)), Some(5));
    assert_eq!(resume_offset(None, None), None);
    assert_eq!(first_epoch(None), 0);
    assert_eq!(first_epoch(Some(6)), 7);
}

#[test]
fn intervals_and_parallelism() {
    assert_eq!(max_empty_polls(500), 20);
    assert_eq!(max_empty_polls(0), 10_000);
    assert_eq!(max_empty_polls(60_000), 5);
    assert_eq!(flush_interval_ms(0), 1);
    assert_eq!(flush_interval_ms(3), 3);
    assert_eq!(flush_interval_ms(1000), 5);
    assert_eq!(total_partitions(&[Some(2), Some(3)]), Some(5));
    assert_eq!(total_partitions(&[Some(2), None]), None);
    assert_eq!(source_parallelism(Some(6), 2), 6);
    assert_eq!(source_parallelism(Some(0), 2), 1);
    assert_eq!(source_parallelism(None, 2), 2);
}

fn assignment(topic: &str, start: i64, end: i64) -> Assignment {
    Assignment { topic: topic.to_string(), partition: 0, start, end }
}

#[test]
fn bounded_read_runs_to_its_end() {
    let mut read = BoundedRead::new(&[assignment("t", 5, 7)], 10, 1 << 20, 3, true);
    assert_eq!(read.next_action(), BoundedAction::Poll { wait: true });
    assert!(read.message("t", 0, 5, 1, 2));
    assert_eq!(read.next_action(), BoundedAction::Poll { wait: false });
    assert!(!read.message("u", 0, 5, 1, 2));
    assert!(!read.message("t", 0, 7, 1, 2));
    assert!(read.message("t", 0, 6, 1, 2));
    assert_eq!(read.next_action(), BoundedAction::Emit);
    read.emitted();
    assert_eq!(read.next_action(), BoundedAction::Finish);
    assert_eq!(read.durable_offsets().lookup(&tp("t", 0)), Some(&7));
}

#[test]
fn bounded_read_gives_up_when_stalled() {
    let mut read = BoundedRead::new(&[assignment("t", 0, 9)], 10, 1 << 20, 2, true);
    assert_eq!(read.next_action(), BoundedAction::Poll { wait: true });
    read.poll_ended(false);
    assert_eq!(read.next_action(), BoundedAction::Poll { wait: true });
    read.poll_ended(false);
    assert_eq!(read.next_action(), BoundedAction::Finish);
    assert_eq!(read.durable_offsets().lookup(&tp("t", 0)), Some(&0));
}

#[test]
fn bounded_read_ends_with_the_stream() {
    let mut read = BoundedRead::new(&[assignment("t", 0, 9)], 1, 1 << 20, 9, true);
    assert_eq!(read.next_action(), BoundedAction::Poll { wait: true });
    read.message("t", 0, 0, 0, 0);
    assert_eq!(read.next_action(), BoundedAction::Emit);
    read.emitted();
    assert_eq!(read.next_action(), BoundedAction::Poll { wait: true });
    read.poll_ended(true);
    assert_eq!(read.next_action(), BoundedAction::Finish);
}

#[test]
fn bounded_read_takes_note_of_readers() {
    let mut read = BoundedRead::new(&[assignment("t", 0, 9)], 1, 1, 9, true);
    read.reader_reached("t", 0, 4);
    read.reader_reached("other", 0, 4);
    assert_eq!(read.durable_offsets().lookup(&tp("t", 0)), Some(&4));
    assert_eq!(read.durable_offsets().len(), 1);
}

#[test]
fn empty_bounded_read_finishes_at_once() {
    let mut read = BoundedRead::new(&[assignment("t", 3, 3)], 1, 1, 9, true);
    assert_eq!(read.next_action(), BoundedAction::Finish);
}

#[test]
fn realtime_epochs() {
    let mut read = RealtimeRead::new(2, 7, AssocMap::new(), 2, 1 << 20);
    assert_eq!(read.idle_source(), "kafka:2");
    assert_eq!(read.message("t", 1, 41, 0, 3), vec![]);
    assert_eq!(
        read.epoch_tick(),
        vec![
            RealtimeOutput::Batch,
            RealtimeOutput::Stage { epoch: 7 },
            RealtimeOutput::Checkpoint { epoch: 7 }
        ]
    );
    let (key, bytes) = read.staged_offsets(7);
    assert_eq!(key, "sources/0/inst-2/staged-epoch-7");
    assert_eq!(decode_offsets(Some(&bytes.unwrap())).lookup(&tp("t", 1)), Some(&42));
    assert_eq!(read.flush_tick(), vec![]);
    assert_eq!(read.message("t", 1, 42, 0, 3), vec![]);
    assert_eq!(read.message("t", 1, 43, 0, 3), vec![RealtimeOutput::Batch]);
    assert_eq!(
        read.epoch_tick(),
        vec![RealtimeOutput::Stage { epoch: 8 }, RealtimeOutput::Checkpoint { epoch: 8 }]
    );
}

#[test]
fn idle_is_reported_once_until_data_comes() {
    let mut read = RealtimeRead::new(0, 0, AssocMap::new(), 100, 1 << 20);
    assert_eq!(read.partition_eof(), vec![RealtimeOutput::Idle]);
    assert_eq!(read.partition_eof(), vec![]);
    read.message("t", 0, 0, 0, 0);
    assert_eq!(read.partition_eof(), vec![RealtimeOutput::Batch, RealtimeOutput::Idle]);
    assert_eq!(read.reader_batch("t", 0, 9), vec![RealtimeOutput::Batch]);
    assert_eq!(read.partition_eof(), vec![RealtimeOutput::Idle]);
}

#[test]
fn partition_reader_collects_and_stops() {
    let mut r = PartitionReader::new(0, 2, None, 10, 1 << 20, 2, false);
    assert_eq!(r.next_action(), ReaderAction::Poll);
    r.data_arrived();
    assert!(r.message("t", 0, 1, 1));
    assert!(r.message("t", 1, 1, 1));
    assert!(!r.message("t", 2, 1, 1));
    assert_eq!(r.next_offset(), 2);
    assert_eq!(r.next_action(), ReaderAction::Emit);
    r.emitted(true);
    assert_eq!(r.next_action(), ReaderAction::Stop);
}

#[test]
fn partition_reader_gives_up() {
    let mut r = PartitionReader::new(0, 5, None, 10, 1 << 20, 2, false);
    assert!(!r.empty_poll(None));
    assert_eq!(r.next_action(), ReaderAction::Poll);
    assert!(!r.empty_poll(None));
    assert_eq!(r.next_action(), ReaderAction::Stop);
}

#[test]
fn continuous_reader_reports_idle_at_the_head() {
    let mut r = PartitionReader::new(3, i64::MAX, Some(3), 10, 1 << 20, 2, true);
    assert!(r.wants_head());
    assert!(!r.empty_poll(Some(4)));
    r.data_arrived();
    assert!(r.message("t", 3, 0, 0));
    assert!(!r.empty_poll(None));
    assert_eq!(r.next_action(), ReaderAction::Emit);
    r.emitted(true);
    assert!(r.wants_head());
    assert!(r.empty_poll(Some(4)));
    assert!(!r.empty_poll(Some(4)));
    r.abandoned();
    assert_eq!(r.next_action(), ReaderAction::Stop);
}

#[test]
fn timestamps() {
    assert_eq!(timestamp_columns(RecordTimestamp::NotAvailable), (-1, -1));
    assert_eq!(timestamp_columns(RecordTimestamp::CreateTime(7)), (7, 0));
    assert_eq!(timestamp_columns(RecordTimestamp::LogAppendTime(8)), (8, 1));
    assert_eq!(reader_timestamp(0, 5), (-1, -1));
    assert_eq!(reader_timestamp(1, 5), (5, 0));
    assert_eq!(reader_timestamp(2, 5), (5, 1));
}

#[test]
fn columns_follow_the_projection() {
    let mut columns = KafkaColumns::new(&[4, 1]);
    columns.append(Some(b"k"), Some(b"v"), "t", 3, 9, 100, 0);
    columns.append(None, None, "t", 3, 10, 101, 0);
    assert_eq!(columns.len(), 2);
    let out = columns.finish_projected(&[4, 1]).unwrap();
    assert!(matches!(&out[0], KafkaColumn::Offset(o) if *o == vec![9, 10]));
    assert!(matches!(&out[1], KafkaColumn::Value(v) if *v == vec![Some(b"v".to_vec()), None]));

    let all = [0, 1, 2, 3, 4, 5, 6];
    let mut columns = KafkaColumns::new(&all);
    columns.append(Some(b"k"), None, "t", 3, 9, 100, 1);
    let out = columns.finish_projected(&all).unwrap();
    assert!(matches!(&out[0], KafkaColumn::Key(k) if *k == vec![Some(b"k".to_vec())]));
    assert!(matches!(&out[2], KafkaColumn::Topic(t) if *t == vec!["t".to_string()]));
    assert!(matches!(&out[3], KafkaColumn::Partition(p) if *p == vec![3]));
    assert!(matches!(&out[5], KafkaColumn::Timestamp(t) if *t == vec![100]));
    assert!(matches!(&out[6], KafkaColumn::TimestampType(t) if *t == vec![1]));
}

#[test]
fn columns_that_were_not_collected() {
    let e = KafkaColumns::new(&[1]).finish_projected(&[7]).unwrap_err();
    assert!(matches!(e, ColumnError::OutOfRange { index: 7 }));
    let e = KafkaColumns::new(&[1]).finish_projected(&[0]).unwrap_err();
    assert!(matches!(e, ColumnError::NotAllocated { index: 0 }));
    let e = KafkaColumns::new(&[1]).finish_projected(&[1, 1]).unwrap_err();
    assert!(matches!(e, ColumnError::NotAllocated { index: 1 }));
}

fn source(projection: Vec<usize>, bounded: bool, interval: Option<u64>) -> KafkaSourceExec {
    let loc = Some("file:///ck".to_string());
    KafkaSourceExec::try_new(basic(), kafka_data_schema(), projection, bounded, loc, interval, 0)
        .unwrap()
}

#[test]
fn collected_records_become_a_batch() {
    let full = Arc::new(Schema::new(vec![
        ArrowField::new("key", DataType::Binary, true),
        ArrowField::new("value", DataType::Binary, true),
        ArrowField::new("topic", DataType::Utf8, false),
        ArrowField::new("partition", DataType::Int32, false),
        ArrowField::new("offset", DataType::Int64, false),
        ArrowField::new("timestamp", DataType::Timestamp(TimeUnit::Millisecond, None), false),
        ArrowField::new("timestampType", DataType::Int32, false),
    ]));
    let all = [0, 1, 2, 3, 4, 5, 6];
    let mut columns = KafkaColumns::new(&all);
    columns.append(None, Some(b"v"), "t", 3, 9, -1, 0);
    columns.append(Some(b"\xff"), None, "u", 4, 10, 12, 1);
    let batch = columns.finish_batch(&full, &all).ok().unwrap().columns;
    assert_eq!(batch.num_rows(), 2);
    assert_eq!(batch.schema(), full);
    let keys = batch.column(0).as_binary::<i32>();
    assert!(keys.is_null(0));
    assert_eq!(keys.value(1), b"\xff");
    let values = batch.column(1).as_binary::<i32>();
    assert_eq!(values.value(0), b"v");
    assert!(values.is_null(1));
    assert_eq!(batch.column(2).as_string::<i32>().value(1), "u");
    assert_eq!(batch.column(3).as_primitive::<Int32Type>().values().to_vec(), vec![3, 4]);
    assert_eq!(batch.column(4).as_primitive::<Int64Type>().values().to_vec(), vec![9, 10]);
    let times = batch.column(5).as_primitive::<TimestampMillisecondType>();
    assert_eq!(times.values().to_vec(), vec![-1, 12]);
    assert_eq!(batch.column(6).as_primitive::<Int32Type>().values().to_vec(), vec![0, 1]);

    let mut columns = KafkaColumns::new(&[4, 2]);
    columns.append(None, None, "t", 3, 9, -1, 0);
    let batch = columns.finish_batch(&full, &[4, 2]).ok().unwrap().columns;
    assert_eq!(batch.schema().field(0).name(), "offset");
    assert_eq!(batch.column(1).as_string::<i32>().value(0), "t");
}

#[test]
fn batches_that_do_not_fit_the_schema_are_refused() {
    let strict = Arc::new(Schema::new(vec![ArrowField::new("key", DataType::Binary, false)]));
    let mut columns = KafkaColumns::new(&[0]);
    columns.append(None, None, "t", 0, 0, 0, 0);
    assert!(matches!(columns.finish_batch(&strict, &[0]), Err(BatchError::Arrow(_))));
    let typed = Arc::new(Schema::new(vec![ArrowField::new("key", DataType::Utf8, true)]));
    let columns = KafkaColumns::new(&[0]);
    assert!(matches!(columns.finish_batch(&typed, &[0]), Err(BatchError::Arrow(_))));
    let columns = KafkaColumns::new(&[]);
    assert!(matches!(columns.finish_batch(&typed, &[]), Err(BatchError::Arrow(_))));
    let columns = KafkaColumns::new(&[0]);
    assert!(matches!(columns.finish_batch(&typed, &[3]), Err(BatchError::Arrow(_))));
    let columns = KafkaColumns::new(&[1]);
    assert!(matches!(
        columns.finish_batch(&typed, &[0]),
        Err(BatchError::Column(ColumnError::NotAllocated { index: 0 }))
    ));
}

#[test]
fn source_operator() {
    let names = |fields: &[Field<KafkaType>]| {
        fields.iter().map(|f| f.name.clone()).collect::<Vec<_>>()
    };
    assert_eq!(
        names(&kafka_data_schema()),
        vec!["key", "value", "topic", "partition", "offset", "timestamp", "timestampType"]
    );
    let exec = source(vec![1, 0], true, Some(5));
    assert_eq!(exec.parallelism(), 1);
    assert_eq!(exec.plan_partition(0).unwrap(), ReadMode::Bounded);
    assert_eq!(
        exec.plan_partition(1).unwrap_err().message().unwrap(),
        "KafkaSourceExec partition 1 out of range (parallelism 1)"
    );
    assert_eq!(source(vec![], false, Some(5)).plan_partition(0).unwrap(), ReadMode::Realtime);
    assert_eq!(source(vec![], false, None).plan_partition(0).unwrap(), ReadMode::Plain);
    assert_eq!(
        exec.describe(),
        "KafkaSourceExec: bootstrap_servers=h:9092, subscribe=Some(\"a, b\")"
    );
    assert_eq!(names(&exec.emit_schema().unwrap()), vec!["value", "key"]);
    assert_eq!(exec.projection(), &[1, 0]);
    assert!(exec.bounded());
    assert_eq!(exec.checkpoint_location(), Some("file:///ck"));
    assert_eq!(exec.realtime_interval_ms(), Some(5));
    assert_eq!(exec.options().group_id, "g");
    assert_eq!(exec.original_schema().len(), 7);
    assert!(exec.parse_value_as().is_none());
    let parsed = exec
        .with_parse_value_as(parse_spec())
        .unwrap();
    assert_eq!(names(&parsed.emit_schema().unwrap()), vec!["doc", "key"]);
    assert_eq!(parsed.parse_value_as().unwrap().output_field, "doc");
    assert_eq!(parsed.parse_value_as().unwrap().fields[0].data_type, "Int64");
    assert_eq!(
        parsed.parse_value_as().unwrap().options.timestamp_format.as_deref(),
        Some("yyyy-MM-dd")
    );
    let e = parsed.with_new_children(1).unwrap_err();
    assert!(matches!(e, KafkaSourceError::UnexpectedChildren));
    assert_eq!(e.message().unwrap(), "KafkaSourceExec cannot have children");
    assert!(source(vec![0], true, None).with_new_children(0).is_ok());
}

#[test]
fn source_operator_is_refused() {
    let e = KafkaSourceExec::try_new(basic(), kafka_data_schema(), vec![9], true, None, None, 1)
        .unwrap_err();
    assert!(matches!(e, KafkaSourceError::ColumnOutOfRange { index: 9 }));
    assert!(e.message().is_none());
    let e = source(vec![0, 4], true, None)
        .with_parse_value_as(parse_spec())
        .unwrap_err();
    assert_eq!(
        e.message().unwrap(),
        "VAJ-T7 fusion requires `value` in the source projection, got [\"key\", \"offset\"]"
    );
}

#[test]
fn source_starts_in_its_mode() {
    match source(vec![], true, None).start(0).unwrap() {
        SourceStart::Bounded { topics, checkpoint } => {
            assert_eq!(topics, vec!["a", "b"]);
            assert_eq!(checkpoint.unwrap().base(), "ck");
        }
        other => panic!("unexpected {other:?}"),
    }
    match source(vec![], false, Some(50)).start(0).unwrap() {
        SourceStart::Realtime { topics, store, interval_ms } => {
            assert_eq!(topics, vec!["a", "b"]);
            assert_eq!(store.base(), "ck");
            assert_eq!(interval_ms, 50);
        }
        other => panic!("unexpected {other:?}"),
    }
    assert!(matches!(
        source(vec![], false, None).start(0).unwrap(),
        SourceStart::Plain { subscription: Subscription::Topics(_) }
    ));
}

#[test]
fn source_start_is_refused() {
    let pattern = || {
        let mut o = basic();
        o.subscribe = None;
        o.subscribe_pattern = Some("x".to_string());
        o
    };
    let message = |o: KafkaReadOptions, bounded, location: Option<&str>, interval| {
        let location = location.map(|l| l.to_string());
        KafkaSourceExec::try_new(o, kafka_data_schema(), vec![], bounded, location, interval, 1)
            .unwrap()
            .start(0)
            .unwrap_err()
    };
    assert_eq!(
        message(pattern(), true, None, None).message().unwrap(),
        "bounded/exactly-once Kafka read requires `subscribe` (explicit topics)"
    );
    assert_eq!(
        message(basic(), false, None, Some(1)).message().unwrap(),
        "realtime (continuous) exactly-once Kafka read requires checkpointLocation"
    );
    assert!(matches!(
        message(pattern(), false, Some("ftp://h/x"), Some(1)),
        KafkaSourceError::CheckpointRefused { error: CheckpointError::UnsupportedScheme { .. } }
    ));
    assert_eq!(
        message(pattern(), false, Some("/ck"), Some(1)).message().unwrap(),
        "realtime/exactly-once Kafka read requires `subscribe` (explicit topics)"
    );
    let mut none = pattern();
    none.subscribe_pattern = None;
    assert_eq!(
        message(none, false, None, None).message().unwrap(),
        "subscribe or subscribePattern is required for Kafka source"
    );
}

#[test]
fn plain_read_collects_batches() {
    let mut read = PlainRead::new(2, 1 << 20);
    assert_eq!(read.next_action(), PlainAction::Poll);
    read.timed_out();
    assert_eq!(read.next_action(), PlainAction::Restart);
    read.restarted();
    read.message("t", 1, 1);
    assert_eq!(read.next_action(), PlainAction::Poll);
    read.message("t", 1, 1);
    assert_eq!(read.next_action(), PlainAction::Emit);
    read.restarted();
    read.message("t", 0, 0);
    read.timed_out();
    assert_eq!(read.next_action(), PlainAction::Emit);
    read.restarted();
    read.stream_ended();
    assert_eq!(read.next_action(), PlainAction::Finish);
}

#[test]
fn staged_offsets_of_all_instances_are_united() {
    assert!(is_staged_for("sources/0/inst-0/staged-epoch-7", 7));
    assert!(is_staged_for("sources/0/inst-12/staged-epoch-7", 7));
    assert!(is_staged_for("sources/0/staged-epoch-7", 7));
    assert!(!is_staged_for("sources/0/inst-0/staged-epoch-8", 7));
    assert!(!is_staged_for("sources/0/inst-x/staged-epoch-7", 7));
    assert!(!is_staged_for("sources/0/inst-00/staged-epoch-7", 7));
    assert!(!is_staged_for("sources/0/inst-0/staged", 7));
    assert!(!is_staged_for("other", 7));
    let staged = |partition: i32, next: i64| {
        let mut start = AssocMap::new();
        start.insert(tp("t", partition), next);
        RealtimeRead::new(partition as usize, 7, start, 1, 1).staged_offsets(7).1.unwrap()
    };
    let all = epoch_offsets(&[staged(0, 10), staged(1, 20)]);
    assert_eq!(all.len(), 2);
    assert_eq!(all.lookup(&tp("t", 0)), Some(&10));
    assert_eq!(all.lookup(&tp("t", 1)), Some(&20));
    assert!(epoch_offsets(&[]).is_empty());
}

#[test]
fn switches_and_expected_partitions() {
    assert!(fast_drain(None));
    assert!(!fast_drain(Some("1")));
    assert!(batch_queue_enabled(Some("1")));
    assert!(!batch_queue_enabled(Some("true")));
    let (key, text) = expected_partitions(16);
    assert_eq!((key.as_str(), text.as_str()), ("sources/0/expected", "16"));
    let mut read = BoundedRead::new(&[assignment("t", 0, 9)], 9, 1 << 20, 3, false);
    read.message("t", 0, 0, 0, 0);
    assert_eq!(read.next_action(), BoundedAction::Poll { wait: true });
}

fn sink(exactly_once: bool, group: Option<&str>) -> Result<KafkaSinkExec, KafkaSinkError> {
    let mut extra = AssocMap::new();
    extra.insert("linger.ms".to_string(), "9".to_string());
    KafkaSinkExec::try_new(
        "h".to_string(),
        "t".to_string(),
        Some("v".to_string()),
        None,
        extra,
        exactly_once,
        group.map(|g| g.to_string()),
        None,
        4,
    )
}

#[test]
fn sink_operator() {
    let s = sink(true, Some("g")).unwrap();
    assert_eq!((s.bootstrap_servers(), s.topic(), s.sink_partition()), ("h", "t", 4));
    assert_eq!((s.value_col(), s.key_col(), s.group_id()), (Some("v"), None, Some("g")));
    assert!(s.exactly_once());
    assert!(s.checkpoint_location().is_none());
    assert_eq!(s.extra().len(), 1);
    let c = s.producer_config();
    assert_eq!(c.get("transactional.id").map(|v| v.as_str()), Some("vajra-sink-t-4"));
    assert_eq!(c.get("linger.ms").map(|v| v.as_str()), Some("9"));
    assert_eq!(c.get("compression.type").map(|v| v.as_str()), Some("lz4"));
    assert!(sink(false, None).unwrap().producer_config().get("transactional.id").is_none());
    assert!(s.check_partition(0).is_ok());
    assert_eq!(
        s.check_partition(2).unwrap_err().message(),
        "KafkaSinkExec: invalid partition 2"
    );
    assert_eq!(
        s.with_new_children(0).unwrap_err().message(),
        "KafkaSinkExec requires exactly one child"
    );
}

#[test]
fn sink_operator_is_refused() {
    let make = |servers: &str, topic: &str| {
        KafkaSinkExec::try_new(
            servers.to_string(),
            topic.to_string(),
            None,
            None,
            AssocMap::new(),
            false,
            None,
            None,
            0,
        )
        .unwrap_err()
        .message()
    };
    assert_eq!(make("", "t"), "kafka sink requires kafka.bootstrap.servers");
    assert_eq!(make("h", ""), "kafka sink requires the `topic` option");
    assert_eq!(
        sink(true, None).unwrap_err().message(),
        "kafka sink exactly-once requires `kafka.group.id` (shared with the source)"
    );
}

#[test]
fn sink_columns() {
    let fields = |names: &[&str]| {
        names.iter().map(|n| Field::new(n, 0u8, true)).collect::<Vec<_>>()
    };
    assert_eq!(resolve_value_idx(&fields(&["a", "value"]), None).unwrap(), 1);
    assert_eq!(resolve_value_idx(&fields(&["a"]), None).unwrap(), 0);
    assert_eq!(resolve_value_idx(&fields(&["a", "b"]), Some("b")).unwrap(), 1);
    assert_eq!(
        resolve_value_idx(&fields(&["a", "b"]), None).unwrap_err().message(),
        "kafka sink: no `value` column and input has 2 columns; set the value column explicitly"
    );
    assert_eq!(
        resolve_value_idx(&fields(&["a"]), Some("z")).unwrap_err().message(),
        "kafka sink: value column `z` not found"
    );
    assert_eq!(resolve_key_idx(&fields(&["a", "key"]), None).unwrap(), Some(1));
    assert_eq!(resolve_key_idx(&fields(&["a"]), None).unwrap(), None);
    assert_eq!(
        resolve_key_idx(&fields(&["a"]), Some("z")).unwrap_err().message(),
        "kafka sink: key column `z` not found"
    );
}

#[test]
fn rows_without_a_value_are_not_sent() {
    let values = vec![Some(b"1".to_vec()), None, Some(b"3".to_vec())];
    let keys = vec![None, Some(b"b".to_vec()), Some(b"c".to_vec())];
    let records = batch_records(&values, Some(&keys));
    assert_eq!(records.len(), 2);
    assert_eq!((records[0].key.as_deref(), &records[0].payload[..]), (None, &b"1"[..]));
    assert_eq!((records[1].key.as_deref(), &records[1].payload[..]), (Some(&b"c"[..]), &b"3"[..]));
    assert!(batch_records(&values, None).iter().all(|r| r.key.is_none()));
}

fn batch_of(columns: Vec<(&str, ArrayRef)>) -> Batch {
    Batch { columns: RecordBatch::try_from_iter(columns).unwrap() }
}

#[test]
fn records_are_the_texts_of_the_columns() {
    let batch = batch_of(vec![
        ("key", Arc::new(StringArray::from(vec![Some("a"), Some("b"), None])) as ArrayRef),
        ("value", Arc::new(Int64Array::from(vec![Some(-7), None, Some(12)])) as ArrayRef),
        ("flag", Arc::new(BooleanArray::from(vec![true, false, true])) as ArrayRef),
    ]);
    let records = sink_records(&batch, 1, Some(0)).unwrap();
    let found: Vec<_> = records.iter().map(|r| (r.key.as_deref(), &r.payload[..])).collect();
    assert_eq!(found, vec![(Some(&b"a"[..]), &b"-7"[..]), (None, &b"12"[..])]);
    let records = sink_records(&batch, 2, None).unwrap();
    let found: Vec<_> = records.iter().map(|r| (r.key.as_deref(), &r.payload[..])).collect();
    assert_eq!(found, vec![(None, &b"true"[..]), (None, &b"false"[..]), (None, &b"true"[..])]);
}

#[test]
fn columns_without_texts_are_refused() {
    let inner = Arc::new(ArrowField::new("x", DataType::Int64, true));
    let values = Arc::new(Int64Array::from(vec![1])) as ArrayRef;
    let group = Arc::new(StructArray::from(vec![(inner, Arc::clone(&values))])) as ArrayRef;
    let batch = batch_of(vec![("value", Arc::clone(&values)), ("group", group)]);
    assert!(matches!(
        sink_records(&batch, 1, None),
        Err(SinkTextError::Value(TextError::Cast(_)))
    ));
    assert!(matches!(
        sink_records(&batch, 0, Some(1)),
        Err(SinkTextError::Key(TextError::Cast(_)))
    ));
    let empty = Batch { columns: batch.columns.slice(0, 0) };
    assert!(sink_records(&empty, 1, None).unwrap().is_empty());
}

#[test]
fn times_at_the_limit_of_dates_are_refused() {
    let in_zone = |time: i64, zone: &str| {
        let times = TimestampSecondArray::from(vec![time]).with_timezone(zone);
        batch_of(vec![("value", Arc::new(times) as ArrayRef)])
    };
    let zoned = |time: i64| in_zone(time, "+05:00");
    let records = sink_records(&zoned(0), 0, None).unwrap();
    assert_eq!(records[0].payload, b"1970-01-01T05:00:00+05:00".to_vec());
    let offset = 5 * 3600;
    for time in [LAST_SECOND, LAST_SECOND - offset + 1] {
        assert!(matches!(
            sink_records(&zoned(time), 0, None),
            Err(SinkTextError::Value(TextError::TimeLimit))
        ));
    }
    for time in [LAST_SECOND - offset, LAST_SECOND - DAY, FIRST_SECOND, FIRST_SECOND + DAY] {
        assert_eq!(sink_records(&zoned(time), 0, None).unwrap().len(), 1);
    }
    assert!(matches!(
        sink_records(&in_zone(FIRST_SECOND, "-05:00"), 0, None),
        Err(SinkTextError::Value(TextError::TimeLimit))
    ));
    assert_eq!(sink_records(&in_zone(LAST_SECOND, "UTC"), 0, None).unwrap().len(), 1);
    assert!(matches!(
        sink_records(&in_zone(LAST_SECOND, "nowhere"), 0, None),
        Err(SinkTextError::Value(TextError::Cast(_)))
    ));
    let millis = TimestampMillisecondArray::from(vec![-1]).with_timezone("+00:00");
    let records = sink_records(&batch_of(vec![("value", Arc::new(millis) as ArrayRef)]), 0, None);
    assert_eq!(records.unwrap()[0].payload, b"1969-12-31T23:59:59.999Z".to_vec());
    let beyond = sink_records(&zoned(i64::MAX), 0, None);
    assert!(!matches!(beyond, Err(SinkTextError::Value(TextError::TimeLimit))));
    let inner = Arc::new(ArrowField::new("item", zoned(0).columns.column(0).data_type().clone(), true));
    let offsets = OffsetBuffer::from_lengths([1]);
    let list = |time: i64| {
        let times = Arc::clone(zoned(time).columns.column(0));
        let list = ListArray::new(Arc::clone(&inner), offsets.clone(), times, None);
        batch_of(vec![("value", Arc::new(list) as ArrayRef)])
    };
    let records = sink_records(&list(0), 0, None).unwrap();
    assert_eq!(records[0].payload, b"[1970-01-01T05:00:00+05:00]".to_vec());
    assert!(matches!(
        sink_records(&list(LAST_SECOND), 0, None),
        Err(SinkTextError::Value(TextError::TimeLimit))
    ));
}

#[test]
fn parsed_values_take_the_place_of_values() {
    let bytes = Arc::new(BinaryArray::from(vec![&b"1"[..], &b"2"[..]])) as ArrayRef;
    let partitions = Arc::new(Int64Array::from(vec![7, 8])) as ArrayRef;
    let batch = batch_of(vec![("value", Arc::clone(&bytes)), ("partition", Arc::clone(&partitions))]);
    let parsed = batch_of(vec![("x", Arc::new(Int64Array::from(vec![Some(1), None])) as ArrayRef)]);
    let fused = parse_spec().fuse(&batch, &parsed).unwrap().columns;
    assert_eq!(fused.schema().field(0), &ArrowField::new("doc", DataType::Int64, true));
    assert_eq!(fused.schema().field(1).name(), "partition");
    assert_eq!(fused.column(0), parsed.columns.column(0));
    assert_eq!(fused.column(1), &partitions);
    let fails = |batch: Vec<(&str, ArrayRef)>| parse_spec().fuse(&batch_of(batch), &parsed);
    assert!(matches!(
        fails(vec![("partition", Arc::clone(&partitions))]),
        Err(FuseError::MissingValue)
    ));
    assert!(matches!(fails(vec![("value", partitions)]), Err(FuseError::ValueNotBinary)));
    assert!(matches!(fails(vec![("value", bytes.slice(0, 1))]), Err(FuseError::RowCount)));
}

#[test]
fn records_commit_with_their_offsets() {
    assert_eq!(
        plan_start(true),
        vec![SinkStep::InitTransactions, SinkStep::BeginTransaction]
    );
    assert_eq!(plan_start(false), vec![]);
    assert_eq!(
        plan_marker(true, SinkMarker::Checkpoint { epoch: 3 }, true),
        vec![
            SinkStep::SendOffsets { epoch: 3 },
            SinkStep::CommitTransaction,
            SinkStep::BeginTransaction,
            SinkStep::Acknowledge
        ]
    );
    assert_eq!(
        plan_marker(false, SinkMarker::Checkpoint { epoch: 3 }, true),
        vec![SinkStep::Flush, SinkStep::Acknowledge]
    );
    assert_eq!(
        plan_marker(true, SinkMarker::EndOfData, false),
        vec![SinkStep::CommitTransaction, SinkStep::Acknowledge]
    );
    assert_eq!(plan_marker(true, SinkMarker::Other, true), vec![]);
}

#[test]
fn full_queues_are_retried() {
    assert_eq!(after_send(SendOutcome::Sent), SendDecision::Next);
    assert_eq!(after_send(SendOutcome::QueueFull), SendDecision::Retry);
    assert_eq!(after_send(SendOutcome::Failed), SendDecision::Fail);
}

#[test]
fn kafka_sources_are_made_from_options() {
    let plain = TableLayout {
        has_constraints: false,
        is_partitioned: false,
        is_bucketed: false,
        is_sorted: false,
    };
    let format = KafkaTableFormat;
    assert_eq!(format.name(), "kafka");
    let given = || pairs(&[("kafka.bootstrap.servers", "h"), ("subscribe", "t")]);
    assert_eq!(format.create_source(plain, given()).unwrap().bootstrap_servers, "h");
    assert!(matches!(
        format.create_source(plain, vec![]),
        Err(KafkaFormatError::Options(KafkaOptionsError::MissingBootstrapServers))
    ));
    let refused = |layout| format.create_source(layout, given()).unwrap_err();
    assert!(matches!(
        refused(TableLayout { has_constraints: true, ..plain }),
        KafkaFormatError::ConstraintsNotSupported
    ));
    assert!(matches!(
        refused(TableLayout { is_partitioned: true, ..plain }),
        KafkaFormatError::PartitioningNotSupported
    ));
    assert!(matches!(
        refused(TableLayout { is_sorted: true, ..plain }),
        KafkaFormatError::BucketingNotSupported
    ));
}

#[test]
fn kafka_sinks_are_made_from_options() {
    let plain = WriteLayout {
        is_streaming: true,
        is_append: true,
        is_partitioned: false,
        is_bucketed: false,
        is_sorted: false,
    };
    let format = KafkaTableFormat;
    let given = || {
        pairs(&[
            ("Kafka.Bootstrap.Servers", "h"),
            ("topic", "t"),
            ("valueColumn", "v"),
            ("key.column", "k"),
            ("path", "/x"),
            ("kafka.ACKS", "all"),
        ])
    };
    let s = format.create_writer(plain, given()).unwrap();
    assert_eq!((s.topic(), s.value_col(), s.key_col()), ("t", Some("v"), Some("k")));
    assert_eq!(s.extra().get("acks").map(|v| v.as_str()), Some("all"));
    assert_eq!(s.extra().len(), 1);
    assert!(matches!(
        format.create_writer(plain, pairs(&[("bootstrap.servers", "h")])),
        Err(KafkaFormatError::Sink(KafkaSinkError::MissingTopic))
    ));
    let refused = |layout| format.create_writer(layout, given()).unwrap_err();
    assert!(matches!(
        refused(WriteLayout { is_streaming: false, ..plain }),
        KafkaFormatError::OnlyStreamingWrites
    ));
    assert!(matches!(
        refused(WriteLayout { is_append: false, ..plain }),
        KafkaFormatError::OnlyAppendMode
    ));
    assert!(matches!(
        refused(WriteLayout { is_partitioned: true, ..plain }),
        KafkaFormatError::SinkPartitioningNotSupported
    ));
    assert!(matches!(
        refused(WriteLayout { is_bucketed: true, ..plain }),
        KafkaFormatError::SinkBucketingNotSupported
    ));
}
