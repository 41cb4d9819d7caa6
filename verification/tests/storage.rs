use std::collections::BTreeMap;
use std::sync::Arc;

use datafusion::arrow::array::{
    ArrayRef, BinaryArray, BooleanArray, Int64Array, RecordBatch, StringArray,
};
use datafusion::arrow::datatypes::{DataType, Field, Schema};
use futures::executor::block_on;
use futures::TryStreamExt;
use object_store::memory::InMemory;
use object_store::path::Path;
use object_store::{ObjectStore, ObjectStoreExt};

use vajra::artifact::{ArtifactStore, ArtifactStores};
use vajra::checkpoint::{
    leaf_name, path_below, promote_step, CheckpointError, CheckpointStore, PromoteAction,
    PromoteEvent, StoreKind, UrlParts,
};
use vajra::file_stream::{
    current_batch_id, latest_offset_batch_id, modified_from_millis, object_url, plan_scan, read_committed_files,
    source_partitions, sources_dir, FileCandidate,
};
use vajra::flow::{
    check_single_child, check_single_partition, data_of, epoch_file, is_marker_batch,
    keep_columns, next_commit_step, CommitStep, EpochBuffer, OperatorError, ParallelSink,
    WriterOutcome,
};
use vajra::listing::{
    committed_urls_if_logged, compressed_extension, compression_option, discovered_partitions,
    file_extension, max_files_per_trigger, next_batch_id, parquet_extension, plan_write,
    schema_choice, LoggedBase, OptionLayer, PartitionField, SchemaChoice, WriteEnd, WriteError,
    WriteRequest,
};
use vajra::record_batch::Batch;
use vajra::sink_log::{
    batch_dir, batch_file, commit_records, committed_with_mtime, decode_log, encode_log, files_to_read, list_log_files, live_positions,
    metadata_dir, parse_log_name, plan_commit, strip_return, SinkFileStatus,
};

fn texts(items: &[&str]) -> Vec<String> {
    items.iter().map(|s| s.to_string()).collect()
}

struct Objects {
    store: InMemory,
    base: CheckpointStore,
}

impl Objects {
    fn put(&self, rel: &str, data: &[u8]) {
        let path = Path::from(self.base.child(rel));
        block_on(self.store.put(&path, data.to_vec().into())).unwrap();
    }

    fn get(&self, rel: &str) -> Option<Vec<u8>> {
        let path = Path::from(self.base.child(rel));
        match block_on(self.store.get(&path)) {
            Ok(r) => Some(block_on(r.bytes()).unwrap().to_vec()),
            Err(_) => None,
        }
    }

    fn delete(&self, rel: &str) {
        let path = Path::from(self.base.child(rel));
        match block_on(self.store.delete(&path)) {
            Ok(()) | Err(object_store::Error::NotFound { .. }) => {}
            Err(e) => panic!("{e}"),
        }
    }

    fn list(&self, rel: &str) -> Vec<String> {
        let prefix = Path::from(self.base.child(rel));
        let metas: Vec<_> = block_on(self.store.list(Some(&prefix)).try_collect()).unwrap();
        metas.iter().filter_map(|m| leaf_name(m.location.as_ref())).collect()
    }

    fn promote(&self, staged: &str, committed: &str) {
        let mut action = promote_step(PromoteEvent::StagedRead { data: self.get(staged) });
        loop {
            action = match action {
                PromoteAction::WriteCommitted { data } => {
                    self.put(committed, &data);
                    promote_step(PromoteEvent::CommittedWritten)
                }
                PromoteAction::RemoveStaged => {
                    self.delete(staged);
                    promote_step(PromoteEvent::StagedRemoved)
                }
                PromoteAction::Done => return,
            };
        }
    }
}

fn flow_batch(markers: &[Option<&str>], ks: &[i64]) -> Batch {
    let schema = Schema::new(vec![
        Field::new("_marker", DataType::Binary, true),
        Field::new("_retracted", DataType::Boolean, false),
        Field::new("k", DataType::Int64, true),
    ]);
    let markers: Vec<Option<&[u8]>> = markers.iter().map(|m| m.map(str::as_bytes)).collect();
    let columns: Vec<ArrayRef> = vec![
        Arc::new(BinaryArray::from(markers)),
        Arc::new(BooleanArray::from(vec![false; ks.len()])),
        Arc::new(Int64Array::from(ks.to_vec())),
    ];
    Batch { columns: RecordBatch::try_new(Arc::new(schema), columns).unwrap() }
}

#[test]
fn put_get_list_promote_roundtrip() {
    let base = CheckpointStore::from_store(StoreKind::Local, "ck".to_string());
    let s = Objects { store: InMemory::new(), base };
    assert!(s.get("sources/0/committed").is_none());
    s.put("sources/0/staged", b"{\"batch_id\":3}");
    s.promote("sources/0/staged", "sources/0/committed");
    assert_eq!(s.get("sources/0/committed").unwrap(), b"{\"batch_id\":3}");
    assert!(s.get("sources/0/staged").is_none());

    s.put("offsets/0", b"");
    s.put("offsets/1", b"");
    let mut names = s.list("offsets");
    names.sort();
    assert_eq!(names, vec!["0".to_string(), "1".to_string()]);

    s.delete("nope");
}

#[test]
fn promotion_without_staged_artifact_changes_nothing() {
    let base = CheckpointStore::from_store(StoreKind::Local, "ck".to_string());
    let s = Objects { store: InMemory::new(), base };
    s.put("committed", b"old");
    s.promote("staged", "committed");
    assert_eq!(s.get("committed").unwrap(), b"old");
}

#[test]
fn locations_select_their_store() {
    let s = CheckpointStore::from_location("/data/ck").unwrap();
    assert!(matches!(s.kind(), StoreKind::Local));
    assert_eq!(s.base(), "data/ck");
    let s = CheckpointStore::from_location("file:///data/ck").unwrap();
    assert!(matches!(s.kind(), StoreKind::Local));
    assert_eq!(s.base(), "data/ck");
    let s = CheckpointStore::from_location("s3a://bucket/a//b/").unwrap();
    assert!(matches!(s.kind(), StoreKind::S3 { client_key } if client_key == "s3a://bucket"));
    assert_eq!(s.base(), "a/b");
    let s = CheckpointStore::from_location("gs://bucket/x").unwrap();
    assert!(matches!(s.kind(), StoreKind::Gcs { client_key } if client_key == "gs://bucket"));
    let e = CheckpointStore::from_location("http://h/x").unwrap_err();
    assert!(matches!(&e, CheckpointError::UnsupportedScheme { scheme } if scheme == "http"));
    assert_eq!(
        e.message(),
        "unsupported checkpoint scheme 'http' (use file://, s3://, or gs://)"
    );
    assert_eq!(
        CheckpointStore::from_location("://x").unwrap_err().message(),
        "checkpoint url ://x: relative URL without a base"
    );
    let e = CheckpointStore::from_location("").unwrap_err();
    assert!(e.message().starts_with("checkpoint path : "));
    assert!(e.message().len() > "checkpoint path : ".len());
    assert!(matches!(
        CheckpointStore::from_location("://x").unwrap_err(),
        CheckpointError::InvalidUrl { location, .. } if location == "://x"
    ));
    assert!(matches!(
        CheckpointStore::from_location("").unwrap_err(),
        CheckpointError::InvalidPath { .. }
    ));
    let parts = UrlParts {
        scheme: "ftp".to_string(),
        authority: "h".to_string(),
        path: "/".to_string(),
    };
    assert!(CheckpointStore::from_url_parts(&parts).is_none());
}

#[test]
fn artifacts_lie_below_the_base() {
    let s = CheckpointStore::from_store(StoreKind::Local, "ck".to_string());
    assert_eq!(s.child("sources/0/staged"), "ck/sources/0/staged");
    assert_eq!(s.child("/a//b"), "ck/a/b");
    assert_eq!(path_below("", "a/b"), "a/b");
    assert_eq!(path_below("x", "50%"), "x/50%25");
    assert_eq!(s.relative_name("ck/a/b"), "a/b");
    assert_eq!(s.relative_name("other/a"), "other/a");
    assert_eq!(leaf_name("a/b/c").as_deref(), Some("c"));
    assert_eq!(leaf_name("c").as_deref(), Some("c"));
    assert!(leaf_name("").is_none());
}

#[test]
fn clones_of_a_handle_share_artifacts() {
    let mut stores = ArtifactStores::new();
    let first = stores.open();
    let clone = first;
    let second = stores.open();
    stores.store(first, "jar".to_string(), vec![1]);
    stores.store(clone, "jar".to_string(), vec![2, 3]);
    assert_eq!(stores.get(first, "jar"), Some(vec![2, 3]));
    assert_eq!(stores.get(clone, "jar"), Some(vec![2, 3]));
    assert!(stores.contains(clone, "jar"));
    assert_eq!(stores.get(second, "jar"), None);
    assert!(!stores.contains(first, "zip"));
}

#[test]
fn stored_artifacts_are_found() {
    let mut store = ArtifactStore::new();
    assert!(!store.contains("jar"));
    store.store("jar".to_string(), vec![1, 2]);
    store.store("jar".to_string(), vec![3]);
    assert!(store.contains("jar"));
    assert_eq!(store.get("jar"), Some(vec![3]));
    store.store("zip".to_string(), vec![4]);
    assert_eq!(store.get("jar"), Some(vec![3]));
    assert_eq!(ArtifactStore::default().get("jar"), None);
}

/// An object store that holds the log of one table.
struct Log {
    objects: BTreeMap<String, String>,
}

impl Log {
    fn logs(&self, base: &str) -> Vec<String> {
        let prefix = metadata_dir(base);
        self.objects.keys().filter(|k| k.starts_with(&prefix)).cloned().collect()
    }

    fn committed(&self, base: &str) -> Option<Vec<String>> {
        let entries = self.read(base, None);
        let files = committed_with_mtime(!self.logs(base).is_empty(), &entries)?;
        Some(files.into_iter().map(|(path, _)| path).collect())
    }

    fn read(&self, base: &str, up_to: Option<u64>) -> Vec<SinkFileStatus> {
        let paths = self.logs(base);
        let mut entries = vec![];
        for file in files_to_read(list_log_files(paths, up_to)) {
            for line in decode_log(&self.objects[&file.path]) {
                let (size, path) = line.split_once(' ').unwrap();
                entries.push(SinkFileStatus::added(path, size.parse().unwrap(), 0));
            }
        }
        let live = live_positions(&entries);
        let mut kept = vec![];
        for (i, e) in entries.into_iter().enumerate() {
            if live.contains(&i) {
                kept.push(e);
            }
        }
        kept
    }

    fn commit(&mut self, base: &str, batch: u64, files: Vec<SinkFileStatus>) {
        let plan = plan_commit(base, batch);
        let live = match plan.roll_forward {
            Some(up_to) => self.read(base, Some(up_to)),
            None => vec![],
        };
        let all = commit_records(live, files, plan.roll_forward.is_some());
        let lines: Vec<String> = all.iter().map(|f| format!("{} {}", f.size, f.path)).collect();
        self.objects.insert(plan.target, encode_log(&lines));
    }
}

#[test]
fn roundtrip_and_compaction_and_orphans() {
    let base = "out";
    let mut log = Log { objects: BTreeMap::new() };
    assert!(log.committed(base).is_none());
    let mut expected = vec![];
    for b in 0u64..12 {
        let path = format!("out/{b}/part-{b}.parquet");
        log.objects.insert(path.clone(), String::new());
        log.commit(base, b, vec![SinkFileStatus::added(&path, 100 + b, 0)]);
        expected.push(path);
    }
    log.objects.insert("out/99/orphan.parquet".to_string(), String::new());
    let mut committed: Vec<String> = log.committed(base).unwrap();
    committed.sort();
    expected.sort();
    assert_eq!(committed, expected, "all committed files visible");
    assert!(!committed.iter().any(|p| p == "out/99/orphan.parquet"), "orphan invisible");
    assert!(!log.logs(base).is_empty(), "a log is found");
    assert!(log.objects.contains_key("out/_spark_metadata/9.compact"), "compaction written");
    assert!(files_to_read(list_log_files(log.logs(base), None)).len() <= 10);
}

#[test]
fn compaction_writes_the_live_set_before_the_added_files() {
    let add = |path: &str| SinkFileStatus::added(path, 1, 5);
    let paths = |records: Vec<SinkFileStatus>| -> Vec<String> {
        records.into_iter().map(|r| r.path).collect()
    };
    assert_eq!(paths(commit_records(vec![add("a")], vec![add("b")], true)), vec!["a", "b"]);
    assert_eq!(paths(commit_records(vec![add("a")], vec![add("b")], false)), vec!["b"]);
    let mut gone = add("a");
    gone.action = "delete".to_string();
    let entries = vec![add("a"), gone, add("c")];
    assert_eq!(committed_with_mtime(true, &entries), Some(vec![("c".to_string(), 5)]));
    assert_eq!(committed_with_mtime(false, &entries), None);
}

#[test]
fn retried_commit_replaces_its_batch() {
    let mut log = Log { objects: BTreeMap::new() };
    log.commit("t", 0, vec![SinkFileStatus::added("t/0/a", 1, 0)]);
    log.commit("t", 0, vec![SinkFileStatus::added("t/0/b", 2, 0)]);
    let paths: Vec<String> = log.read("t", None).into_iter().map(|f| f.path).collect();
    assert_eq!(paths, vec!["t/0/b"]);
}

#[test]
fn log_texts_and_names() {
    let lines = texts(&["{\"a\":1}", "{\"b\":2}"]);
    let body = encode_log(&lines);
    assert_eq!(body, "v1\n{\"a\":1}\n{\"b\":2}\n");
    assert_eq!(decode_log(&body), lines);
    assert_eq!(decode_log("v1\r\n{\"a\":1}\r\n\r\n"), texts(&["{\"a\":1}"]));
    assert_eq!(strip_return("x\r"), "x");
    assert_eq!(metadata_dir("out"), "out/_spark_metadata");
    assert_eq!(batch_file("out", 3, false), "out/_spark_metadata/3");
    assert_eq!(batch_file("out", 9, true), "out/_spark_metadata/9.compact");
    assert_eq!(batch_dir("out", 3), "out/3");
    assert_eq!(parse_log_name("12"), Some((12, false)));
    assert_eq!(parse_log_name("19.compact"), Some((19, true)));
    assert_eq!(parse_log_name("x.compact"), None);
    assert_eq!(parse_log_name(".tmp"), None);
}

#[test]
fn commits_are_compacted_every_tenth_batch() {
    let plan = plan_commit("out", 9);
    assert_eq!(plan.target, "out/_spark_metadata/9.compact");
    assert_eq!(plan.roll_forward, Some(8));
    let plan = plan_commit("out", 10);
    assert_eq!(plan.target, "out/_spark_metadata/10");
    assert_eq!(plan.roll_forward, None);
}

#[test]
fn reading_starts_at_the_last_compaction() {
    let paths = texts(&["m/8", "m/9.compact", "m/10", "m/11", "m/junk"]);
    let ids: Vec<(u64, bool)> = files_to_read(list_log_files(paths.clone(), None))
        .into_iter()
        .map(|f| (f.id, f.compact))
        .collect();
    assert_eq!(ids, vec![(9, true), (10, false), (11, false)]);
    let ids: Vec<u64> =
        files_to_read(list_log_files(paths, Some(10))).into_iter().map(|f| f.id).collect();
    assert_eq!(ids, vec![9, 10]);
}

#[test]
fn deleted_files_are_not_live() {
    let mut deleted = SinkFileStatus::added("a", 1, 2);
    assert_eq!((deleted.is_dir, deleted.block_replication, deleted.action.as_str()), (false, 1, "add"));
    deleted.action = "delete".to_string();
    let entries = vec![
        SinkFileStatus::added("a", 1, 2),
        SinkFileStatus::added("b", 1, 2),
        deleted,
    ];
    assert_eq!(live_positions(&entries), vec![1]);
}

/// The offset record of a file source, as the storage layer parses it.
struct Record {
    batch_id: u64,
    files: Vec<String>,
}

#[test]
fn current_batch_id_reflects_atomic_offset_record() {
    let id = |r: &Option<Record>| r.as_ref().map(|r| r.batch_id);
    let none: Option<Record> = None;
    assert_eq!(current_batch_id(id(&none), id(&none), None), 0);

    let f0 = "a/0/f0.parquet".to_string();
    let committed = Some(Record { batch_id: 0, files: vec![f0.clone()] });
    assert_eq!(current_batch_id(id(&none), id(&committed), None), 1);
    let seen = read_committed_files(committed.as_ref().map(|r| r.files.clone()), "");
    assert_eq!(seen, vec![f0.clone()]);

    let staged = Some(Record { batch_id: 1, files: vec![f0, "a/1/f1.parquet".to_string()] });
    assert_eq!(staged.as_ref().unwrap().files.len(), 2);
    assert_eq!(current_batch_id(id(&staged), id(&committed), None), 1);

    let legacy = read_committed_files(None, "x/old.parquet\n");
    assert!(legacy.contains(&"x/old.parquet".to_string()));
}

#[test]
fn marker_files_number_batches_without_a_record() {
    assert_eq!(current_batch_id(None, None, Some(4)), 5);
    assert_eq!(latest_offset_batch_id(&texts(&["3", "11", "x"])), Some(11));
    assert_eq!(latest_offset_batch_id(&[]), None);
}

fn candidate(id: &str, modified: (i64, u32)) -> FileCandidate {
    FileCandidate { modified, id: id.to_string(), url: format!("s/{id}") }
}

#[test]
fn processed_files_are_not_read_again() {
    let candidates =
        || vec![candidate("b", (2, 0)), candidate("a", (1, 5)), candidate("c", (1, 5))];
    let scan = plan_scan(candidates(), vec![], Some(2));
    let ids: Vec<&str> = scan.files.iter().map(|f| f.id.as_str()).collect();
    assert_eq!(ids, vec!["a", "c"]);
    let rest = plan_scan(candidates(), scan.processed.clone(), None);
    let ids: Vec<&str> = rest.files.iter().map(|f| f.id.as_str()).collect();
    assert_eq!(ids, vec!["b"]);
    assert!(plan_scan(candidates(), rest.processed, None).files.is_empty());
}

#[test]
fn modification_times() {
    assert_eq!(modified_from_millis(1_500), (1, 500_000_000));
    assert_eq!(modified_from_millis(-1), (-1, 999_000_000));
    assert_eq!(modified_from_millis(8_210_266_876_799_999), (8_210_266_876_799, 999_000_000));
    assert_eq!(modified_from_millis(8_210_266_876_800_000), (0, 0));
    assert_eq!(modified_from_millis(-8_334_601_228_800_000), (-8_334_601_228_800, 0));
    assert_eq!(modified_from_millis(-8_334_601_228_800_001), (0, 0));
}

#[test]
fn file_source_paths() {
    assert_eq!(sources_dir("/ck"), "/ck/sources/0");
    assert_eq!(object_url("s3://b/", "a/f"), "s3://b/a/f");
    assert_eq!(object_url("s3://b", "a/f"), "s3://b/a/f");
    assert_eq!(source_partitions(0), 1);
    assert_eq!(source_partitions(3), 3);
}

#[test]
fn flow_columns_are_dropped() {
    assert_eq!(keep_columns(&texts(&["_marker", "a", "_retracted", "b"])), vec![1, 3]);
    let data = flow_batch(&[None, None], &[7, 8]);
    let marker = flow_batch(&[Some("m"), None], &[7, 8]);
    assert!(!is_marker_batch(&data));
    assert!(is_marker_batch(&marker));
    let schema = data.columns.schema();
    let kept = data_of(&schema, &data).unwrap().unwrap().columns;
    assert_eq!(kept.num_columns(), 1);
    assert_eq!(kept.schema().field(0).name(), "k");
    assert_eq!(kept.column(0), data.columns.column(2));
    assert!(data_of(&schema, &marker).unwrap().is_none());
    assert!(data_of(&schema, &flow_batch(&[], &[])).unwrap().is_none());
    assert!(data_of(&schema, &Batch { columns: kept.clone() }).is_err());
    let plain = Batch { columns: kept };
    assert!(!is_marker_batch(&plain));
    let texts = Arc::new(StringArray::from(vec!["m"])) as ArrayRef;
    let other = RecordBatch::try_from_iter([("_marker", texts)]).unwrap();
    assert!(!is_marker_batch(&Batch { columns: other }));
}

#[test]
fn parallel_sinks_finish_together() {
    let mut sink = ParallelSink::new(2);
    assert_eq!(sink.writer_ended(true), WriterOutcome::Waiting);
    assert!(!sink.is_complete());
    assert_eq!(sink.writer_ended(true), WriterOutcome::Complete);
    assert!(sink.is_complete());
    assert!(ParallelSink::new(0).is_complete());
    let mut sink = ParallelSink::new(2);
    assert_eq!(sink.writer_ended(false), WriterOutcome::Failed);
    assert_eq!(sink.writer_ended(true), WriterOutcome::Failed);
}

#[test]
fn commit_follows_the_data() {
    let mut steps = vec![CommitStep::CleanDirectory];
    while let Some(next) = next_commit_step(*steps.last().unwrap(), true) {
        steps.push(next);
    }
    assert_eq!(
        steps,
        vec![
            CommitStep::CleanDirectory,
            CommitStep::Write,
            CommitStep::ListFiles,
            CommitStep::WriteLog,
            CommitStep::Acknowledge
        ]
    );
    assert_eq!(next_commit_step(CommitStep::Write, false), Some(CommitStep::Fail));
    assert_eq!(next_commit_step(CommitStep::Fail, true), None);
}

#[test]
fn epochs_partition_the_data() {
    let mut buffer = EpochBuffer::new(4);
    assert!(buffer.end_epoch().is_none());
    buffer.push('a', 1);
    buffer.push('b', 0);
    buffer.push('c', 2);
    assert_eq!(buffer.end_epoch(), Some((4, vec!['a', 'c'])));
    assert!(buffer.end_epoch().is_none());
    buffer.push('d', 1);
    assert_eq!(buffer.end_epoch(), Some((5, vec!['d'])));
    assert_eq!(epoch_file("out", 5), "out/5/part-0.parquet");
}

#[test]
fn operators_check_their_shape() {
    assert_eq!(check_single_child(1), Ok(()));
    assert_eq!(check_single_child(2), Err(OperatorError::WrongChildren { children: 2 }));
    assert_eq!(check_single_partition(0), Ok(()));
    assert_eq!(
        check_single_partition(3),
        Err(OperatorError::InvalidPartition { partition: 3 })
    );
}

fn items(list: &[(&str, &str)]) -> Vec<(String, String)> {
    list.iter().map(|(k, v)| (k.to_string(), v.to_string())).collect()
}

#[test]
fn last_valid_file_limit_wins() {
    let layers = vec![
        OptionLayer::OptionList { items: items(&[("maxFilesPerTrigger", "3")]) },
        OptionLayer::TablePropertyList { items: items(&[("MAXFILESPERTRIGGER", "x")]) },
        OptionLayer::Other,
    ];
    assert_eq!(max_files_per_trigger(&layers, true), Some(3));
    assert_eq!(max_files_per_trigger(&layers, false), None);
    assert_eq!(max_files_per_trigger(&[], true), None);
}

#[test]
fn schemas_and_partitions() {
    assert_eq!(schema_choice(None, 0), SchemaChoice::Inferred);
    assert_eq!(schema_choice(Some(0), 0), SchemaChoice::Inferred);
    assert_eq!(schema_choice(Some(2), 0), SchemaChoice::Given { discover_partitions: true });
    assert_eq!(schema_choice(Some(2), 1), SchemaChoice::Given { discover_partitions: false });
    let found = vec![texts(&["d", "x"]), texts(&["d", "h"])];
    assert_eq!(discovered_partitions(&found, &texts(&["D", "h"])), texts(&["d", "h"]));
}

#[test]
fn file_extensions() {
    assert_eq!(compressed_extension(Some("csv.gz".to_string()), "csv").as_deref(), Some("csv.gz"));
    assert_eq!(compressed_extension(Some("csv".to_string()), "csv"), None);
    assert_eq!(compressed_extension(None, "csv"), None);
    assert_eq!(compression_option(".GZ"), "gz");
    assert_eq!(parquet_extension(".parquet", "snappy"), "snappy.parquet");
    assert_eq!(parquet_extension(".parquet", "gzip"), "gz.parquet");
    assert_eq!(parquet_extension("parquet", "Bz2"), "bz2.parquet");
    assert_eq!(parquet_extension("parquet", "uncompressed"), ".parquet");
    assert_eq!(file_extension("csv", true, Some("csv.gz".to_string()), None), "csv.gz");
    assert_eq!(
        file_extension("parquet", false, None, Some("zstd".to_string())),
        "zst.parquet"
    );
    assert_eq!(
        file_extension("parquet", false, None, Some("SNAPPY".to_string())),
        "snappy.parquet"
    );
    assert_eq!(
        file_extension(".parquet", false, None, Some(".GZ".to_string())),
        "gz.parquet"
    );
    assert_eq!(file_extension("csv", false, None, Some("zstd".to_string())), "csv");
}

#[test]
fn only_committed_files_are_read() {
    let base = |committed: Option<Vec<String>>| LoggedBase {
        url: "s3://b/t/".to_string(),
        store_url: "s3://b".to_string(),
        committed,
    };
    assert!(committed_urls_if_logged(&[base(None)]).is_none());
    assert_eq!(
        committed_urls_if_logged(&[base(Some(texts(&["t/0/f"]))), base(None)]).unwrap(),
        texts(&["s3://b/t/0/f", "s3://b/t/"])
    );
}

fn request() -> WriteRequest {
    WriteRequest {
        path: Some("out".to_string()),
        bucketed: false,
        partition_by: vec![PartitionField { column: "d".to_string(), transformed: false }],
        streaming: true,
        partitions: 4,
        next_batch: Some(7),
    }
}

#[test]
fn batches_have_directories_of_their_own() {
    let plan = plan_write(&request()).unwrap();
    assert_eq!((plan.base.as_str(), plan.target.as_str()), ("out/", "out/7/"));
    assert_eq!(plan.partition_columns, texts(&["d"]));
    assert!(plan.decode);
    assert_eq!(plan.parallel_sinks, Some(4));
    assert_eq!(plan.end, WriteEnd::Commit { batch_id: 7 });
    let plan = plan_write(&WriteRequest { next_batch: None, partitions: 1, ..request() }).unwrap();
    assert_eq!((plan.target.as_str(), plan.end), ("out/", WriteEnd::Drain));
    assert_eq!(plan.parallel_sinks, None);
    let plan = plan_write(&WriteRequest { streaming: false, ..request() }).unwrap();
    assert_eq!((plan.target.as_str(), plan.end), ("out/", WriteEnd::Count));
    assert_eq!(next_batch_id(&texts(&["0", "9.compact", "10"])), 11);
    assert_eq!(next_batch_id(&[]), 0);
}

#[test]
fn writes_are_refused() {
    let e = plan_write(&WriteRequest { path: None, ..request() }).unwrap_err();
    assert_eq!(e, WriteError::MissingPath);
    assert_eq!(e.message(), "missing path in listing table options");
    let e = plan_write(&WriteRequest { bucketed: true, ..request() }).unwrap_err();
    assert_eq!(e.message(), "bucketing for writing listing table format");
    let by = vec![PartitionField { column: "d".to_string(), transformed: true }];
    let e = plan_write(&WriteRequest { partition_by: by, ..request() }).unwrap_err();
    assert_eq!(e.message(), "partition transforms for writing listing table format");
}
