use vajra::assoc::AssocMap;
use vajra::iceberg::commit::{
    apply_commit, apply_partition_spec_update, apply_schema_update, commit_plan, commit_producer,
    committed_batch_id,
    has_conflict, metadata_name, next_version, partition_filter, prepare, snapshot_properties,
    start_commit, validate_requirements, CommitAction, CommitError, CommitEvent, CommitMeta,
    CommitStart, IcebergCommit, IcebergCommitExec, Prepared, StreamingCommit,
    MAX_COMMIT_RETRIES, STREAM_APP_ID_PROP, STREAM_BATCH_ID_PROP,
};
use vajra::iceberg::metadata::{
    copy_partition, same_partition, ActionCommit, DataFile, FormatVersion, IcebergSchema, Literal,
    ManifestContentType, ManifestFile, Operation, PartitionSpec, Snapshot, SnapshotReference,
    SnapshotRetention, Summary, TableMetadata, TableRequirement, TableUpdate,
};
use vajra::iceberg::snapshot::{
    assign_row_ids, manifest_list_name, manifest_name, new_manifest_name,
    new_retained_manifest_name, retained_manifest_name,
    retained_positions, AppendOperation, LoadedManifest, ManifestMetadata, OverwriteOperation,
    SnapshotProducer, StoreContext, Transaction, WritePathMode,
};

fn lit(b: &[u8]) -> Vec<Option<Literal>> {
    vec![Some(Literal { bytes: b.to_vec() })]
}

fn snapshot(id: i64, sequence_number: i64, props: &[(&str, &str)]) -> Snapshot {
    let mut additional_properties = AssocMap::new();
    for (k, v) in props {
        additional_properties.insert(k.to_string(), v.to_string());
    }
    Snapshot {
        snapshot_id: id,
        parent_snapshot_id: None,
        sequence_number,
        timestamp_ms: 1,
        manifest_list: "metadata/snap-1.avro".to_string(),
        summary: Summary { operation: Operation::Append, additional_properties },
        schema_id: Some(3),
        first_row_id: None,
        added_rows: None,
    }
}

fn schema(id: i32) -> IcebergSchema {
    IcebergSchema { schema_id: id, highest_field_id: 9, format_version: FormatVersion::V2 }
}

fn table(current: Option<Snapshot>) -> TableMetadata {
    let id = current.as_ref().map(|s| s.snapshot_id);
    TableMetadata {
        format_version: FormatVersion::V2,
        last_column_id: 4,
        schemas: vec![schema(0)],
        current_schema_id: 0,
        partition_specs: vec![PartitionSpec { spec_id: 1, highest_field_id: Some(1000) }],
        default_spec_id: 1,
        last_partition_id: 1000,
        last_sequence_number: 5,
        last_updated_ms: 0,
        snapshots: current.into_iter().collect(),
        current_snapshot_id: id,
        snapshot_log: vec![],
        metadata_log: vec![],
        refs: AssocMap::new(),
    }
}

fn manifest(path: &str, content: ManifestContentType, rows: Option<i64>) -> ManifestFile {
    ManifestFile {
        manifest_path: path.to_string(),
        manifest_length: 10,
        partition_spec_id: 0,
        content,
        sequence_number: 1,
        min_sequence_number: 1,
        added_snapshot_id: 1,
        added_files_count: 1,
        existing_files_count: 0,
        deleted_files_count: 0,
        added_rows_count: rows,
        existing_rows_count: None,
        deleted_rows_count: None,
        first_row_id: None,
    }
}

fn info(operation: Operation, requirements: Vec<TableRequirement>) -> CommitMeta {
    CommitMeta { row_count: 7, requirements, operation, schema: None, partition_spec: None }
}

fn streaming(batch_id: u64) -> Option<StreamingCommit> {
    Some(StreamingCommit { batch_id, app_id: "app".to_string() })
}

#[test]
fn partitions_are_compared_by_value() {
    assert!(same_partition(&lit(b"a"), &lit(b"a")));
    assert!(!same_partition(&lit(b"a"), &lit(b"b")));
    assert!(!same_partition(&lit(b"a"), &[None]));
    assert!(same_partition(&copy_partition(&lit(b"x")), &lit(b"x")));
}

#[test]
fn batch_is_committed_once() {
    let recorded = [(STREAM_BATCH_ID_PROP, "4"), (STREAM_APP_ID_PROP, "app")];
    let replay = |batch| {
        let mut meta = table(Some(snapshot(1, 5, &recorded)));
        prepare(&mut meta, &info(Operation::Append, vec![]), &streaming(batch)).unwrap()
    };
    assert!(matches!(replay(4), Prepared::AlreadyCommitted));
    assert!(matches!(replay(3), Prepared::AlreadyCommitted));
    assert!(matches!(replay(5), Prepared::Commit { .. }));
    let summary = snapshot(1, 5, &recorded).summary;
    assert_eq!(committed_batch_id(&summary, "app"), Some(4));
    assert_eq!(committed_batch_id(&summary, "other"), None);
    let props = snapshot_properties(streaming(9).as_ref());
    assert_eq!(props.get(STREAM_BATCH_ID_PROP).map(|v| v.as_str()), Some("9"));
    assert_eq!(props.get(STREAM_APP_ID_PROP).map(|v| v.as_str()), Some("app"));
    assert!(snapshot_properties(None).is_empty());
}

#[test]
fn schema_and_partition_spec_updates() {
    let mut meta = table(None);
    apply_schema_update(
        &mut meta,
        IcebergSchema { schema_id: 2, highest_field_id: 12, format_version: FormatVersion::V3 },
    );
    assert_eq!((meta.current_schema_id, meta.last_column_id, meta.schemas.len()), (2, 12, 2));
    assert_eq!(meta.format_version, FormatVersion::V3);
    apply_schema_update(&mut meta, schema(2));
    assert_eq!((meta.schemas.len(), meta.last_column_id), (2, 12));
    apply_partition_spec_update(
        &mut meta,
        PartitionSpec { spec_id: 4, highest_field_id: Some(1003) },
    );
    assert_eq!((meta.default_spec_id, meta.last_partition_id), (4, 1003));
    assert_eq!(meta.partition_specs.len(), 2);
    apply_partition_spec_update(&mut meta, PartitionSpec { spec_id: 4, highest_field_id: None });
    assert_eq!((meta.partition_specs.len(), meta.last_partition_id), (2, 1003));
}

#[test]
fn requirements_are_checked() {
    let mut meta = table(Some(snapshot(8, 5, &[])));
    meta.refs.insert(
        "tag".to_string(),
        SnapshotReference { snapshot_id: 3, retention: SnapshotRetention::Tag { max_ref_age_ms: None } },
    );
    let reference = |name: &str, snapshot_id| TableRequirement::RefSnapshotIdMatch {
        reference: name.to_string(),
        snapshot_id,
    };
    let fields = |n| TableRequirement::LastAssignedFieldIdMatch { last_assigned_field_id: n };
    let current = |n| TableRequirement::CurrentSchemaIdMatch { current_schema_id: n };
    let good =
        [fields(4), current(0), reference("main", Some(8)), reference("tag", Some(3)), reference("x", None)];
    assert!(validate_requirements(Some(&meta), &good).is_ok());
    assert!(validate_requirements(None, &[TableRequirement::NotExist]).is_ok());
    let error = |m: Option<&TableMetadata>, r| validate_requirements(m, &[r]).unwrap_err().message();
    assert_eq!(
        error(Some(&meta), TableRequirement::NotExist),
        "Iceberg table already exists but commit asserted non-existence."
    );
    assert_eq!(
        error(Some(&meta), fields(5)),
        "Iceberg commit failed: expected last assigned field id 5 but found 4. Reload table metadata and retry."
    );
    assert_eq!(
        error(Some(&meta), current(1)),
        "Iceberg commit failed: expected current schema id 1 but found 0. Reload table metadata and retry."
    );
    assert_eq!(
        error(Some(&meta), reference("main", None)),
        "Iceberg commit failed: reference 'main' expected snapshot None but found Some(8)"
    );
    assert_eq!(
        error(Some(&meta), TableRequirement::Other { description: "UuidMatch".to_string() }),
        "Table requirement 'UuidMatch' is not supported in local commits"
    );
    assert_eq!(
        error(None, fields(5)),
        "Iceberg table metadata missing while validating field id requirement"
    );
    assert_eq!(
        error(None, current(5)),
        "Iceberg table metadata missing while validating schema requirement"
    );
    assert_eq!(
        error(None, reference("main", None)),
        "Iceberg table metadata missing while validating snapshot requirement"
    );
}

#[test]
fn stale_commit_is_refused() {
    let requirement = TableRequirement::RefSnapshotIdMatch {
        reference: "main".to_string(),
        snapshot_id: Some(7),
    };
    let mut meta = table(Some(snapshot(8, 5, &[])));
    let e = prepare(&mut meta, &info(Operation::Append, vec![requirement]), &None).unwrap_err();
    assert!(matches!(e, CommitError::ReferenceMismatch { actual: Some(8), .. }));
}

#[test]
fn preparation_of_a_commit() {
    let mut meta = table(None);
    let p = prepare(&mut meta, &info(Operation::Append, vec![]), &None).unwrap();
    assert!(matches!(p, Prepared::BootstrapSnapshot));
    let e = prepare(&mut meta, &info(Operation::Delete, vec![]), &None).unwrap_err();
    assert!(matches!(e, CommitError::NoCurrentSnapshot));
    assert_eq!(e.message(), "No current snapshot in table metadata");
    meta.current_schema_id = 77;
    let e = prepare(&mut meta, &info(Operation::Append, vec![]), &None).unwrap_err();
    assert_eq!(e.message(), "No current schema in table metadata");

    let mut meta = table(Some(snapshot(8, 5, &[])));
    let mut given = info(Operation::Append, vec![]);
    given.schema = Some(schema(6));
    given.partition_spec = Some(PartitionSpec { spec_id: 0, highest_field_id: None });
    match prepare(&mut meta, &given, &None).unwrap() {
        Prepared::Commit { schema, partition_spec } => {
            assert_eq!(schema.schema_id, 6);
            assert_eq!(partition_spec.spec_id, 1);
        }
        other => panic!("unexpected {other:?}"),
    }
    assert_eq!(meta.current_schema_id, 6);
}

#[test]
fn commits_extend_the_metadata() {
    let mut meta = table(Some(snapshot(8, 5, &[])));
    let commit = ActionCommit {
        updates: vec![
            TableUpdate::AddSnapshot { snapshot: snapshot(9, 6, &[]) },
            TableUpdate::SetSnapshotRef {
                ref_name: "main".to_string(),
                reference: SnapshotReference {
                    snapshot_id: 9,
                    retention: SnapshotRetention::Branch {
                        min_snapshots_to_keep: None,
                        max_snapshot_age_ms: None,
                        max_ref_age_ms: None,
                    },
                },
            },
            TableUpdate::Other,
        ],
        requirements: vec![],
    };
    apply_commit(&mut meta, commit, 55, "metadata/v1.metadata.json".to_string()).unwrap();
    assert_eq!(meta.current_snapshot_id, Some(9));
    assert_eq!(meta.snapshots.len(), 2);
    assert_eq!((meta.last_sequence_number, meta.last_updated_ms), (6, 55));
    assert_eq!((meta.snapshot_log.len(), meta.metadata_log.len()), (1, 1));
    assert_eq!(meta.refs.get("main").map(|r| r.snapshot_id), Some(9));
    assert_eq!(meta.current_snapshot().unwrap().snapshot_id, 9);
    let refused = ActionCommit { updates: vec![], requirements: vec![TableRequirement::NotExist] };
    assert!(apply_commit(&mut meta, refused, 56, String::new()).is_err());
}

#[test]
fn names_and_versions() {
    assert_eq!(next_version(None), 1);
    assert_eq!(next_version(Some(4)), 5);
    assert_eq!(metadata_name(5, ".metadata.json"), "metadata/v5.metadata.json");
    assert_eq!(manifest_name("u"), "metadata/manifest-u.avro");
    let unique = new_manifest_name();
    assert_eq!(unique.len(), "metadata/manifest-".len() + 36 + ".avro".len());
    assert_ne!(unique, new_manifest_name());
    assert!(new_retained_manifest_name().starts_with("metadata/manifest-retained-"));
    assert_eq!(unique.matches('-').count(), 5);
    assert_eq!(retained_manifest_name("u"), "metadata/manifest-retained-u.avro");
    assert_eq!(manifest_list_name(-3), "metadata/snap--3.avro");
    assert!(!has_conflict(&["a".to_string()], "a"));
    assert!(has_conflict(&["a".to_string(), "b".to_string()], "a"));
}

fn begin(operation: Operation) -> IcebergCommit {
    match start_commit(Some(info(operation, vec![])), 1).unwrap() {
        CommitStart::Commit { commit } => commit,
        CommitStart::Nothing => panic!("nothing to commit"),
    }
}

fn ready() -> Prepared {
    Prepared::Commit {
        schema: schema(0),
        partition_spec: PartitionSpec { spec_id: 0, highest_field_id: None },
    }
}

#[test]
fn commit_runs_through_its_phases() {
    let mut c = begin(Operation::Append);
    assert!(matches!(c.step(CommitEvent::LookedUp { found: true }), CommitAction::Load));
    assert!(matches!(
        c.step(CommitEvent::Loaded { prepared: ready() }),
        CommitAction::ListVersion
    ));
    assert!(matches!(c.step(CommitEvent::Listed { existing: false }), CommitAction::Produce));
    assert!(matches!(c.step(CommitEvent::Produced), CommitAction::Write));
    assert!(matches!(c.step(CommitEvent::Wrote { already_exists: false }), CommitAction::Check));
    assert!(matches!(c.step(CommitEvent::Checked { conflict: false }), CommitAction::WriteHint));
    assert!(matches!(c.step(CommitEvent::Hinted), CommitAction::Finish { rows: 7 }));
}

#[test]
fn commits_are_retried_a_limited_number_of_times() {
    let mut c = begin(Operation::Append);
    for attempt in 1..=MAX_COMMIT_RETRIES {
        assert_eq!(c.attempt, attempt);
        c.step(CommitEvent::LookedUp { found: true });
        c.step(CommitEvent::Loaded { prepared: ready() });
        let action = c.step(CommitEvent::Listed { existing: true });
        if attempt < MAX_COMMIT_RETRIES {
            assert!(matches!(action, CommitAction::LookUp));
        } else {
            assert!(matches!(action, CommitAction::Fail { error: CommitError::Conflict }));
        }
    }
    let mut c = begin(Operation::Overwrite);
    c.step(CommitEvent::LookedUp { found: true });
    c.step(CommitEvent::Loaded { prepared: ready() });
    c.step(CommitEvent::Listed { existing: false });
    c.step(CommitEvent::Produced);
    c.step(CommitEvent::Wrote { already_exists: false });
    assert!(matches!(
        c.step(CommitEvent::Checked { conflict: true }),
        CommitAction::DeleteAndLookUp
    ));
    assert_eq!(
        CommitError::Conflict.message(),
        "Iceberg commit failed after 5 retries due to concurrent metadata updates"
    );
}

#[test]
fn commits_bootstrap_new_tables() {
    let mut c = begin(Operation::Append);
    assert!(matches!(
        c.step(CommitEvent::LookedUp { found: false }),
        CommitAction::BootstrapTable
    ));
    assert!(matches!(c.step(CommitEvent::Bootstrapped), CommitAction::Finish { rows: 7 }));
    let mut c = begin(Operation::Delete);
    assert!(matches!(c.step(CommitEvent::LookedUp { found: false }), CommitAction::FailLookup));
    let mut c = begin(Operation::Append);
    c.step(CommitEvent::LookedUp { found: true });
    assert!(matches!(
        c.step(CommitEvent::Loaded { prepared: Prepared::BootstrapSnapshot }),
        CommitAction::BootstrapSnapshot
    ));
    let mut c = begin(Operation::Append);
    c.step(CommitEvent::LookedUp { found: true });
    assert!(matches!(
        c.step(CommitEvent::Loaded { prepared: Prepared::AlreadyCommitted }),
        CommitAction::Finish { .. }
    ));
    let mut c = begin(Operation::Delete);
    c.step(CommitEvent::LookedUp { found: true });
    c.step(CommitEvent::Loaded { prepared: ready() });
    assert!(matches!(
        c.step(CommitEvent::Listed { existing: false }),
        CommitAction::Fail { error: CommitError::UnsupportedOperation }
    ));
    assert!(matches!(start_commit(None, 0).unwrap(), CommitStart::Nothing));
    assert_eq!(
        start_commit(None, 1).unwrap_err().message(),
        "missing commit_meta action from writer output"
    );
    assert_eq!(
        CommitError::UnsupportedOperation.message(),
        "Unsupported Iceberg operation in commit"
    );
}

#[test]
fn commit_operator_keeps_its_parameters() {
    let exec = IcebergCommitExec::new("file:///t".to_string());
    assert_eq!(exec.table_url(), "file:///t");
    assert!(exec.streaming_commit().is_none());
    let exec = IcebergCommitExec::new_with_streaming("u".to_string(), streaming(3));
    assert_eq!(exec.streaming_commit().as_ref().unwrap().batch_id, 3);
}

fn transaction() -> Transaction {
    Transaction { table_uri: "file:///t".to_string(), snapshot: snapshot(8, 5, &[]) }
}

fn files() -> Vec<DataFile> {
    vec![
        DataFile { partition: lit(b"a"), record_count: 3 },
        DataFile { partition: lit(b"b"), record_count: 4 },
        DataFile { partition: lit(b"a"), record_count: 5 },
    ]
}

fn context() -> Option<StoreContext> {
    Some(StoreContext { table_url: "file:///t".to_string() })
}

#[test]
fn commits_produce_the_snapshot_of_their_operation() {
    let tx = transaction();
    let metadata =
        ManifestMetadata { schema_id: 0, partition_spec_id: 1, format_version: FormatVersion::V2 };
    let make = |operation: Operation, batch: &Option<StreamingCommit>| {
        commit_producer(&tx, operation, files(), context().unwrap(), metadata, Some(7), batch)
    };
    let append = make(Operation::Append, &streaming(3)).unwrap();
    assert!(append.partition_filter.is_none());
    assert_eq!(append.added_data_files.len(), 3);
    assert_eq!(append.row_lineage_start_row_id, Some(7));
    assert_eq!(append.manifest_metadata, Some(metadata));
    assert_eq!(append.snapshot_properties.get(STREAM_BATCH_ID_PROP).unwrap(), "3");
    let plan = commit_plan(&append, Operation::Append).unwrap();
    assert_eq!(plan.operation, Operation::Append);
    assert!(plan.parent_manifest_list.is_some());
    let whole = make(Operation::Overwrite, &streaming(3)).unwrap();
    assert!(whole.partition_filter.is_none());
    assert_eq!(whole.snapshot_properties.get(STREAM_BATCH_ID_PROP).unwrap(), "3");
    let plan = commit_plan(&whole, Operation::Overwrite).unwrap();
    assert_eq!(plan.operation, Operation::Overwrite);
    assert!(plan.parent_manifest_list.is_none());
    let part = make(Operation::OverwritePartitions, &None).unwrap();
    assert_eq!(part.partition_filter.as_ref().unwrap().len(), 2);
    assert!(part.snapshot_properties.get(STREAM_APP_ID_PROP).is_none());
    let plan = commit_plan(&part, Operation::OverwritePartitions).unwrap();
    assert_eq!(plan.operation, Operation::Overwrite);
    assert!(plan.parent_manifest_list.is_some());
    assert!(matches!(make(Operation::Delete, &None), Err(CommitError::UnsupportedOperation)));
}

#[test]
fn append_keeps_the_parent_manifests() {
    let tx = transaction();
    let producer = SnapshotProducer::new(&tx, files(), context(), None);
    assert!(producer.validate_added_data_files(&[]).is_ok());
    let plan = producer.plan(&AppendOperation).unwrap();
    assert_eq!(plan.operation, Operation::Append);
    assert_eq!(plan.sequence_number, 6);
    assert_eq!(plan.metadata.schema_id, 3);
    assert_eq!(plan.parent_manifest_list.as_deref(), Some("metadata/snap-1.avro"));
    let list = [manifest("m1", ManifestContentType::Data, Some(2))];
    let parents = producer.parent_manifests(&list, &[]);
    assert!(producer.check_rows(&parents));
    let listing = producer.manifest_list(&plan, parents, 42, "m2".to_string(), 99);
    let paths: Vec<&str> = listing.entries.iter().map(|m| m.manifest_path.as_str()).collect();
    assert_eq!(paths, vec!["m1", "m2"]);
    let added = &listing.entries[1];
    assert_eq!((added.added_files_count, added.added_rows_count), (3, Some(12)));
    assert_eq!((added.sequence_number, added.added_snapshot_id), (6, 42));
    let commit = producer.action_commit(&plan, listing.added_rows, 42, 77, "l".to_string());
    assert_eq!(commit.updates.len(), 2);
    match &commit.updates[0] {
        TableUpdate::AddSnapshot { snapshot } => {
            assert_eq!(snapshot.snapshot_id, 42);
            assert_eq!(snapshot.parent_snapshot_id, Some(8));
            assert_eq!((snapshot.sequence_number, snapshot.timestamp_ms), (6, 77));
        }
        other => panic!("unexpected {other:?}"),
    }
    assert!(matches!(
        &commit.requirements[0],
        TableRequirement::RefSnapshotIdMatch { reference, snapshot_id: Some(8) } if reference == "main"
    ));
}

#[test]
fn overwrite_drops_exactly_its_partitions() {
    let tx = transaction();
    let whole = SnapshotProducer::new(&tx, files(), context(), None);
    assert!(whole.plan(&OverwriteOperation).unwrap().parent_manifest_list.is_none());
    let filter = partition_filter(&files());
    assert_eq!(filter.len(), 2);
    let producer = SnapshotProducer::new(&tx, files(), context(), None).with_partition_filter(filter);
    let plan = producer.plan(&OverwriteOperation).unwrap();
    assert_eq!(plan.operation, Operation::Overwrite);
    assert!(plan.parent_manifest_list.is_some());
    let list = [
        manifest("all-gone", ManifestContentType::Data, None),
        manifest("mixed", ManifestContentType::Data, Some(9)),
        manifest("kept", ManifestContentType::Data, None),
        manifest("deletes", ManifestContentType::Deletes, None),
    ];
    let loaded = |partitions: Vec<Vec<Option<Literal>>>| LoadedManifest {
        partitions,
        retained_path: "rest".to_string(),
        retained_length: 5,
    };
    let contents = [
        loaded(vec![lit(b"a"), lit(b"b")]),
        loaded(vec![lit(b"a"), lit(b"c")]),
        loaded(vec![lit(b"c")]),
        loaded(vec![lit(b"a")]),
    ];
    let kept = producer.parent_manifests(&list, &contents);
    let paths: Vec<&str> = kept.iter().map(|m| m.manifest_path.as_str()).collect();
    assert_eq!(paths, vec!["rest", "kept", "deletes"]);
    assert_eq!((kept[0].existing_files_count, kept[0].added_rows_count), (1, None));
    assert_eq!(
        retained_positions(&[lit(b"a"), lit(b"c")], &[lit(b"a")]),
        vec![1]
    );
}

#[test]
fn row_ids_do_not_overlap() {
    let mut list = vec![
        manifest("m1", ManifestContentType::Data, Some(3)),
        manifest("m2", ManifestContentType::Deletes, Some(5)),
        manifest("m3", ManifestContentType::Data, Some(4)),
    ];
    assert_eq!(assign_row_ids(&mut list, 100), 7);
    let ids: Vec<Option<i64>> = list.iter().map(|m| m.first_row_id).collect();
    assert_eq!(ids, vec![Some(100), None, Some(103)]);
}

#[test]
fn producers_are_configured() {
    let tx = transaction();
    let e = SnapshotProducer::new(&tx, vec![], None, None).plan(&AppendOperation).unwrap_err();
    assert_eq!(e, "store context not available");
    let metadata = ManifestMetadata {
        schema_id: 1,
        partition_spec_id: 2,
        format_version: FormatVersion::V3,
    };
    let mut props = AssocMap::new();
    props.insert("k".to_string(), "v".to_string());
    let p = SnapshotProducer::new(&tx, vec![], context(), Some(metadata))
        .with_bootstrap(true)
        .with_row_lineage_start_row_id(Some(10))
        .with_write_path_mode(WritePathMode::Relative)
        .with_snapshot_properties(props);
    assert!(matches!(p.write_path_mode, WritePathMode::Relative));
    let plan = p.plan(&AppendOperation).unwrap();
    assert_eq!(plan.sequence_number, 1);
    assert!(plan.parent_manifest_list.is_none());
    assert_eq!(plan.metadata.partition_spec_id, 2);
    let listing = p.manifest_list(&plan, vec![], 1, "m".to_string(), 1);
    assert_eq!(listing.entries[0].first_row_id, Some(10));
    let commit = p.action_commit(&plan, listing.added_rows, 1, 2, "l".to_string());
    match &commit.updates[0] {
        TableUpdate::AddSnapshot { snapshot } => {
            assert_eq!(snapshot.parent_snapshot_id, None);
            assert_eq!(
                snapshot.summary.additional_properties.get("k").map(|v| v.as_str()),
                Some("v")
            );
        }
        other => panic!("unexpected {other:?}"),
    }
}
